use vstd::prelude::*;

verus! {

/// `s` with the item at `k` taken out and put at the back.
pub open spec fn to_back(s: Seq<u64>, k: int) -> Seq<u64> {
    s.remove(k).push(s[k])
}

/// `s` with the item at `k` taken out and put at the front.
pub open spec fn to_front(s: Seq<u64>, k: int) -> Seq<u64> {
    seq![s[k]] + s.remove(k)
}

/// `s` without the item `x`, the others kept in order.
pub open spec fn without(s: Seq<u64>, x: u64) -> Seq<u64> {
    s.remove_value(x)
}

/// `s` with `x` at the back if `want`, else without `x`; an item already in
/// place keeps its position.
pub open spec fn linked(s: Seq<u64>, x: u64, want: bool) -> Seq<u64> {
    if want {
        if s.contains(x) {
            s
        } else {
            s.push(x)
        }
    } else {
        without(s, x)
    }
}

/// Removing an item of a list without duplicates: the others keep their order,
/// and nothing else changes in membership.
pub proof fn lemma_remove_at(s: Seq<u64>, k: int)
    requires
        0 <= k < s.len(),
        s.no_duplicates(),
    ensures
        s.remove(k) == without(s, s[k]),
        s.remove(k).no_duplicates(),
        forall|y: u64| #[trigger] s.remove(k).contains(y) <==> (s.contains(y) && y != s[k]),
{
    let x = s[k];
    assert(s.contains(x));
    s.index_of_first_ensures(x);
    let r = s.remove(k);
    assert(r.no_duplicates()) by {
        assert forall|i: int, j: int| 0 <= i < r.len() && 0 <= j < r.len() && i != j implies r[i]
            != r[j] by {
            let si = if i < k { i } else { i + 1 };
            let sj = if j < k { j } else { j + 1 };
            assert(r[i] == s[si] && r[j] == s[sj]);
        }
    }
    assert forall|y: u64| #[trigger] r.contains(y) <==> (s.contains(y) && y != x) by {
        if s.contains(y) && y != x {
            let i = choose|i: int| 0 <= i < s.len() && s[i] == y;
            if i < k {
                assert(r[i] == y);
            } else {
                assert(r[i - 1] == y);
            }
        }
        if r.contains(y) {
            let i = choose|i: int| 0 <= i < r.len() && r[i] == y;
            if i < k {
                assert(s[i] == y);
            } else {
                assert(s[i + 1] == y);
            }
        }
    }
}

/// Taking out an item that is absent changes nothing.
pub proof fn lemma_without_absent(s: Seq<u64>, x: u64)
    requires
        !s.contains(x),
    ensures
        without(s, x) == s,
{
    s.index_of_first_ensures(x);
}

/// `s` is in strictly increasing order.
pub open spec fn increasing(s: Seq<u64>) -> bool {
    forall|i: int, j: int| 0 <= i < j < s.len() ==> s[i] < s[j]
}

/// Puts `x` into the increasing `list` at its place.
pub fn insert_sorted(list: &mut Vec<u64>, x: u64)
    requires
        increasing(old(list)@),
        !old(list)@.contains(x),
    ensures
        increasing(final(list)@),
        forall|y: u64| #[trigger] final(list)@.contains(y) <==> (y == x || old(list)@.contains(y)),
{
    let mut p: usize = 0;
    let mut stop = false;
    while !stop && p < list.len()
        invariant
            p <= list@.len(),
            list@ == old(list)@,
            !list@.contains(x),
            forall|i: int| 0 <= i < p ==> list@[i] < x,
            stop ==> p < list@.len() && list@[p as int] > x,
        decreases list@.len() - p + (if stop {
            0int
        } else {
            1int
        }),
    {
        let v = list[p];
        if v > x {
            stop = true;
        } else {
            proof {
                if v == x {
                    assert(list@[p as int] == x);
                }
            }
            p = p + 1;
        }
    }
    let ghost s = list@;
    list.insert(p, x);
    proof {
        let t = list@;
        assert forall|i: int, j: int| 0 <= i < j < t.len() implies t[i] < t[j] by {
            if j < p {
                assert(t[i] == s[i] && t[j] == s[j]);
            } else if j == p {
                assert(t[i] == s[i]);
            } else if i == p {
                assert(t[j] == s[j - 1]);
                assert(s[p as int] <= s[j - 1]);
            } else if i < p {
                assert(t[i] == s[i] && t[j] == s[j - 1]);
            } else {
                assert(t[i] == s[i - 1] && t[j] == s[j - 1]);
            }
        }
        assert forall|y: u64| #[trigger] t.contains(y) <==> (y == x || s.contains(y)) by {
            if t.contains(y) && y != x {
                let i = choose|i: int| 0 <= i < t.len() && t[i] == y;
                let si = if i < p { i } else { i - 1 };
                assert(s[si] == y);
            }
            if s.contains(y) {
                let i = choose|i: int| 0 <= i < s.len() && s[i] == y;
                if i < p {
                    assert(t[i] == y);
                } else {
                    assert(t[i + 1] == y);
                }
            }
            if y == x {
                assert(t[p as int] == x);
            }
        }
    }
}

/// Takes `x` out of `list`, the others kept in order.
pub fn remove_item(list: &mut Vec<u64>, x: u64)
    requires
        old(list)@.no_duplicates(),
    ensures
        final(list)@ == without(old(list)@, x),
        final(list)@.no_duplicates(),
        forall|y: u64| #[trigger] final(list)@.contains(y) <==> (y != x && old(list)@.contains(y)),
        increasing(old(list)@) ==> increasing(final(list)@),
{
    let ghost s = list@;
    relink(list, x, false);
    proof {
        s.index_of_first_ensures(x);
        if let Some(k) = s.index_of_first(x) {
            let r = s.remove(k);
            assert forall|i: int, j: int| increasing(s) && 0 <= i < j < r.len() implies r[i]
                < r[j] by {
                let si = if i < k { i } else { i + 1 };
                let sj = if j < k { j } else { j + 1 };
                assert(r[i] == s[si] && r[j] == s[sj]);
            }
        }
    }
}

/// Moving an item to the back or the front keeps the items and their
/// distinctness.
pub proof fn lemma_move(s: Seq<u64>, k: int)
    requires
        0 <= k < s.len(),
        s.no_duplicates(),
    ensures
        to_back(s, k).no_duplicates(),
        to_front(s, k).no_duplicates(),
        forall|y: u64| #[trigger] to_back(s, k).contains(y) <==> s.contains(y),
        forall|y: u64| #[trigger] to_front(s, k).contains(y) <==> s.contains(y),
{
    let x = s[k];
    lemma_remove_at(s, k);
    let r = s.remove(k);
    let b = to_back(s, k);
    let f = to_front(s, k);
    assert(b[b.len() - 1] == x);
    assert(f[0] == x);
    assert forall|i: int, j: int| 0 <= i < b.len() && 0 <= j < b.len() && i != j implies b[i]
        != b[j] by {
        if i < r.len() && j < r.len() {
            assert(b[i] == r[i] && b[j] == r[j]);
        } else if i < r.len() {
            assert(r.contains(b[i]));
        } else {
            assert(r.contains(b[j]));
        }
    }
    assert forall|i: int, j: int| 0 <= i < f.len() && 0 <= j < f.len() && i != j implies f[i]
        != f[j] by {
        if i > 0 && j > 0 {
            assert(f[i] == r[i - 1] && f[j] == r[j - 1]);
        } else if i > 0 {
            assert(r.contains(f[i]));
        } else {
            assert(r.contains(f[j]));
        }
    }
    assert forall|y: u64| #[trigger] b.contains(y) <==> s.contains(y) by {
        if y == x {
            assert(s[k] == x);
        } else if s.contains(y) {
            assert(r.contains(y));
            let i = choose|i: int| 0 <= i < r.len() && r[i] == y;
            assert(b[i] == y);
        } else if b.contains(y) {
            let i = choose|i: int| 0 <= i < b.len() && b[i] == y;
            assert(r[i] == y);
            assert(r.contains(y));
        }
    }
    assert forall|y: u64| #[trigger] f.contains(y) <==> s.contains(y) by {
        if y == x {
            assert(s[k] == x);
        } else if s.contains(y) {
            assert(r.contains(y));
            let i = choose|i: int| 0 <= i < r.len() && r[i] == y;
            assert(f[i + 1] == y);
        } else if f.contains(y) {
            let i = choose|i: int| 0 <= i < f.len() && f[i] == y;
            assert(r[i - 1] == y);
            assert(r.contains(y));
        }
    }
}

/// `k` passes that each move the front item to the back.
pub open spec fn rotated(s: Seq<u64>, k: nat) -> Seq<u64>
    decreases k,
{
    if k == 0 {
        s
    } else {
        to_back(rotated(s, (k - 1) as nat), 0)
    }
}

/// Round robin: after `k` passes that each move the front item to the back,
/// the list is as it was from `k` on, then its first `k` items; so the
/// front of pass `k` is the item at `k`, and `s.len()` passes reach every item
/// of the list at the front.
pub proof fn lemma_round_robin(s: Seq<u64>, k: nat)
    requires
        k <= s.len(),
    ensures
        rotated(s, k) == s.subrange(k as int, s.len() as int) + s.subrange(0, k as int),
        k < s.len() ==> rotated(s, k)[0] == s[k as int],
    decreases k,
{
    if k > 0 {
        lemma_round_robin(s, (k - 1) as nat);
        let prev = rotated(s, (k - 1) as nat);
        assert(prev[0] == s[k - 1]);
        assert(rotated(s, k) =~= s.subrange(k as int, s.len() as int) + s.subrange(0, k as int));
    } else {
        assert(s =~= s.subrange(0, s.len() as int) + s.subrange(0, 0));
    }
}

/// The position of `x` in `list`, if it is there.
pub fn position(list: &Vec<u64>, x: u64) -> (r: Option<usize>)
    ensures
        r is None <==> !list@.contains(x),
        r matches Some(k) ==> k < list@.len() && list@[k as int] == x,
{
    let mut k: usize = 0;
    while k < list.len()
        invariant
            k <= list@.len(),
            forall|i: int| 0 <= i < k ==> list@[i] != x,
        decreases list@.len() - k,
    {
        if list[k] == x {
            return Some(k);
        }
        k = k + 1;
    }
    None
}

/// Puts `x` in `list` at the back if `want` and it is not there yet; takes it
/// out if not `want`.
pub fn relink(list: &mut Vec<u64>, x: u64, want: bool)
    requires
        old(list)@.no_duplicates(),
    ensures
        final(list)@ == linked(old(list)@, x, want),
        final(list)@.no_duplicates(),
        forall|y: u64| #[trigger]
            final(list)@.contains(y) <==> (if y == x {
                want
            } else {
                old(list)@.contains(y)
            }),
{
    match position(list, x) {
        Some(k) => {
            if !want {
                proof {
                    lemma_remove_at(list@, k as int);
                }
                list.remove(k);
            }
        },
        None => {
            if want {
                list.push(x);
                proof {
                    assert(list@.no_duplicates()) by {
                        assert forall|i: int, j: int|
                            0 <= i < j < list@.len() implies list@[i] != list@[j] by {
                            if j == list@.len() - 1 {
                                assert(old(list)@.contains(old(list)@[i]));
                            } else {
                                assert(old(list)@[i] == list@[i]);
                            }
                        }
                    }
                    assert forall|y: u64| #[trigger] list@.contains(y) <==> (if y == x {
                        want
                    } else {
                        old(list)@.contains(y)
                    }) by {
                        if list@.contains(y) && y != x {
                            let i = choose|i: int| 0 <= i < list@.len() && list@[i] == y;
                            assert(old(list)@[i] == y);
                        }
                        if old(list)@.contains(y) {
                            let i = choose|i: int| 0 <= i < old(list)@.len() && old(list)@[i] == y;
                            assert(list@[i] == y);
                        }
                        if y == x {
                            assert(list@[list@.len() - 1] == x);
                        }
                    }
                }
            } else {
                proof {
                    lemma_without_absent(list@, x);
                }
            }
        },
    }
}

} // verus!
