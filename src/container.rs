use crate::accept::AcceptChannel;
use crate::handle::{ConnectionUpdate, ConnectionVisitor, Handle, IterationResult};
use crate::interest::{no_interest, InterestSet};
use crate::list::{
    increasing, insert_sorted, lemma_move, lemma_remove_at, linked, position, relink, remove_item,
    rotated, to_back, to_front, without,
};
use std::collections::HashMap;
use vstd::prelude::*;

verus! {

broadcast use vstd::std_specs::hash::group_hash_axioms;

/// What the container needs of a connection.
pub trait Connection: Sized {
    /// What the connection reports that it wants.
    spec fn interests_spec(&self) -> InterestSet;

    /// What the connection wants now.
    fn interests(&self) -> (r: InterestSet)
        ensures
            r == self.interests_spec(),
    ;

    /// Told once, when the connection has been handed to the acceptor; the
    /// connection then no longer reports `accept`, and nothing else changes
    /// in what it reports.
    fn mark_as_accepted(&mut self)
        ensures
            final(self).interests_spec() == (InterestSet { accept: false, ..old(self).interests_spec() }),
    ;
}

/// The interests of a connection that is to be finalized: nothing else.
pub open spec fn finalize_only() -> InterestSet {
    InterestSet { finalization: true, ..no_interest() }
}

/// The interests the container records for what a connection reports: a
/// connection that asks for finalization asks for nothing else, and `accept`
/// is never kept (it is acted on at once). Finalization is terminal and a
/// connection to be finalized gets no further callbacks, so it leaves every
/// other list at once: "linked if and only if the flag is set" holds of these
/// recorded interests.
pub open spec fn settled(raw: InterestSet) -> InterestSet {
    if raw.finalization {
        finalize_only()
    } else {
        InterestSet { accept: false, ..raw }
    }
}

fn settle(raw: InterestSet) -> (r: InterestSet)
    ensures
        r == settled(raw),
{
    if raw.finalization {
        InterestSet {
            finalization: true,
            closing: false,
            accept: false,
            transmission: false,
            new_connection_id: false,
            timeout: None,
        }
    } else {
        InterestSet { accept: false, ..raw }
    }
}

/// The deadline of a timeout interest, 0 where there is none.
pub open spec fn deadline(i: InterestSet) -> u64 {
    match i.timeout {
        Some(d) => d,
        None => 0,
    }
}

struct Node<C> {
    handle: Handle<C>,
    interests: InterestSet,
    accepted: bool,
}

struct MarkAccepted;

impl<C: Connection> ConnectionUpdate<C> for MarkAccepted {
    open spec fn applied(&self, before: C, f_after: Self, after: C) -> bool {
        after.interests_spec() == (InterestSet { accept: false, ..before.interests_spec() })
    }

    fn update(&mut self, conn: &mut C) {
        conn.mark_as_accepted();
    }
}

/// The secondary lists of the container.
#[derive(Clone, Copy, Debug, PartialEq, Eq, Structural)]
pub enum InterestList {
    Transmission,
    NewConnectionId,
    Timeout,
    Closing,
    Done,
}

/// Whether interests `i` hold a deadline not later than `now`.
pub open spec fn due_by(i: InterestSet, now: u64) -> bool {
    match i.timeout {
        Some(d) => d <= now,
        None => false,
    }
}

/// The ids of the connections visited, in the order of the visits.
pub open spec fn visited_ids(visits: Seq<(u64, IterationResult)>) -> Seq<u64> {
    visits.map_values(|e: (u64, IterationResult)| e.0)
}

/// The lists that are walked with a visitor.
pub open spec fn walkable(k: InterestList) -> bool {
    k == InterestList::Transmission || k == InterestList::NewConnectionId || k
        == InterestList::Closing
}

/// Whether interests `i` put a connection in list `k`.
pub open spec fn wants(k: InterestList, i: InterestSet) -> bool {
    match k {
        InterestList::Transmission => i.transmission,
        InterestList::NewConnectionId => i.new_connection_id,
        InterestList::Timeout => i.timeout is Some,
        InterestList::Closing => i.closing,
        InterestList::Done => i.finalization,
    }
}

spec fn indexes<C>(list: Seq<u64>, m: Map<u64, Node<C>>, k: InterestList) -> bool {
    &&& list.no_duplicates()
    &&& forall|x: u64|
        #![trigger list.contains(x)]
        #![trigger m.contains_key(x)]
        list.contains(x) <==> (m.contains_key(x) && wants(k, m[x].interests))
}

spec fn by_deadline<C>(list: Seq<u64>, m: Map<u64, Node<C>>) -> bool {
    forall|i: int, j: int|
        0 <= i < j < list.len() ==> deadline(m[list[i]].interests) <= deadline(
            m[list[j]].interests,
        )
}

proof fn lemma_by_deadline_frame<C>(s: Seq<u64>, m: Map<u64, Node<C>>, m2: Map<u64, Node<C>>)
    requires
        by_deadline(s, m),
        forall|i: int|
            0 <= i < s.len() ==> deadline(#[trigger] m2[s[i]].interests) == deadline(
                m[s[i]].interests,
            ),
    ensures
        by_deadline(s, m2),
{
    assert forall|i: int, j: int| 0 <= i < j < s.len() implies deadline(m2[s[i]].interests)
        <= deadline(m2[s[j]].interests) by {
        assert(deadline(m2[s[i]].interests) == deadline(m[s[i]].interests));
        assert(deadline(m2[s[j]].interests) == deadline(m[s[j]].interests));
    }
}

proof fn lemma_by_deadline_remove<C>(s: Seq<u64>, k: int, m: Map<u64, Node<C>>)
    requires
        by_deadline(s, m),
        0 <= k < s.len(),
    ensures
        by_deadline(s.remove(k), m),
{
    let r = s.remove(k);
    assert forall|i: int, j: int| 0 <= i < j < r.len() implies deadline(m[r[i]].interests)
        <= deadline(m[r[j]].interests) by {
        let si = if i < k { i } else { i + 1 };
        let sj = if j < k { j } else { j + 1 };
        assert(r[i] == s[si] && r[j] == s[sj]);
    }
}

fn copy_ids(v: &Vec<u64>) -> (r: Vec<u64>)
    ensures
        r@ == v@,
{
    let mut r: Vec<u64> = Vec::new();
    let mut i: usize = 0;
    while i < v.len()
        invariant
            i <= v@.len(),
            r@ == v@.subrange(0, i as int),
        decreases v@.len() - i,
    {
        r.push(v[i]);
        i = i + 1;
        proof {
            assert(r@ =~= v@.subrange(0, i as int));
        }
    }
    proof {
        assert(r@ =~= v@);
    }
    r
}

/// What is recorded of a connection not to be finalized is what it reports.
spec fn follows_report<C: Connection>(n: Node<C>) -> bool {
    !n.interests.finalization ==> n.interests == settled(n.handle.connection().interests_spec())
}

/// Owns the live connections, keyed by internal id, and keeps one list per
/// kind of interest of the connections that express it.
pub struct ConnectionContainer<C> {
    nodes: HashMap<u64, Node<C>>,
    order: Vec<u64>,
    transmission: Vec<u64>,
    new_connection_id: Vec<u64>,
    timeout: Vec<u64>,
    closing: Vec<u64>,
    done: Vec<u64>,
    accept: AcceptChannel,
}

impl<C: Connection> ConnectionContainer<C> {
    /// The ids of the live connections, in traversal order.
    pub closed spec fn ids(&self) -> Seq<u64> {
        self.order@
    }

    pub closed spec fn contains(&self, id: u64) -> bool {
        self.nodes@.contains_key(id)
    }

    /// The interests recorded for connection `id`.
    pub closed spec fn interests_of(&self, id: u64) -> InterestSet {
        self.nodes@[id].interests
    }

    /// Whether connection `id` has been handed to the acceptor.
    pub closed spec fn is_accepted(&self, id: u64) -> bool {
        self.nodes@[id].accepted
    }

    pub closed spec fn is_poisoned(&self, id: u64) -> bool {
        self.nodes@[id].handle.is_poisoned_spec()
    }

    /// The ids in list `k`, front first.
    pub closed spec fn queue(&self, k: InterestList) -> Seq<u64> {
        match k {
            InterestList::Transmission => self.transmission@,
            InterestList::NewConnectionId => self.new_connection_id@,
            InterestList::Timeout => self.timeout@,
            InterestList::Closing => self.closing@,
            InterestList::Done => self.done@,
        }
    }

    /// The ids handed off and not yet received by the acceptor.
    pub closed spec fn accept_queue(&self) -> Seq<u64> {
        self.accept.pending()
    }

    pub closed spec fn acceptor_closed(&self) -> bool {
        self.accept.is_closed_spec()
    }

    /// The container is well formed, and what it records of each connection
    /// not to be finalized is what the connection reports.
    pub closed spec fn wf(&self) -> bool {
        &&& self.wf_lists()
        &&& forall|x: u64| #[trigger] self.nodes@.contains_key(x) ==> follows_report(self.nodes@[x])
    }

    /// `wf`, but for what is recorded of connection `id`.
    closed spec fn wf_except(&self, id: u64) -> bool {
        &&& self.wf_lists()
        &&& forall|x: u64| #[trigger] self.nodes@.contains_key(x) && x != id ==> follows_report(self.nodes@[x])
    }

    /// The connection held under `id`.
    pub closed spec fn connection(&self, id: u64) -> C {
        self.nodes@[id].handle.connection()
    }

    closed spec fn wf_lists(&self) -> bool {
        let m = self.nodes@;
        &&& increasing(self.order@)
        &&& forall|x: u64|
            #![trigger self.order@.contains(x)]
            #![trigger m.contains_key(x)]
            self.order@.contains(x) <==> m.contains_key(x)
        &&& self.lists_ok(m)
        &&& forall|x: u64| #[trigger] m.contains_key(x) ==> settled(m[x].interests) == m[x].interests
    }

    /// Each list holds exactly the connections of `m` whose interests ask for
    /// it, and the timeout list is in deadline order.
    closed spec fn lists_ok(&self, m: Map<u64, Node<C>>) -> bool {
        &&& indexes(self.transmission@, m, InterestList::Transmission)
        &&& indexes(self.new_connection_id@, m, InterestList::NewConnectionId)
        &&& indexes(self.timeout@, m, InterestList::Timeout)
        &&& indexes(self.closing@, m, InterestList::Closing)
        &&& indexes(self.done@, m, InterestList::Done)
        &&& by_deadline(self.timeout@, m)
    }

    /// The lists stay right where the node map changes but not in its keys
    /// or recorded interests.
    proof fn lemma_lists_reframe(&self, m0: Map<u64, Node<C>>, m1: Map<u64, Node<C>>)
        requires
            self.lists_ok(m0),
            m1.dom() == m0.dom(),
            forall|x: u64| #[trigger] m0.contains_key(x) ==> m1[x].interests == m0[x].interests,
        ensures
            self.lists_ok(m1),
    {
        assert forall|i: int| 0 <= i < self.timeout@.len() implies deadline(
            #[trigger] m1[self.timeout@[i]].interests,
        ) == deadline(m0[self.timeout@[i]].interests) by {
            assert(self.timeout@.contains(self.timeout@[i]));
        }
        lemma_by_deadline_frame(self.timeout@, m0, m1);
    }

    /// Callbacks `vs[i]` ran, in order, on the connections of `visits` as
    /// `o` held them, returned the recorded results, and left connection
    /// `visits[i].0` as `cs[i]` (`reached`).
    pub open spec fn visit_trace<V: ConnectionVisitor<C>>(
        &self,
        o: &Self,
        visits: Seq<(u64, IterationResult)>,
        vs: Seq<V>,
        cs: Seq<C>,
    ) -> bool {
        &&& vs.len() == visits.len() + 1
        &&& cs.len() == visits.len()
        &&& forall|i: int|
            #![trigger visits[i]]
            0 <= i < visits.len() ==> vs[i].visited(o.connection(visits[i].0), vs[i + 1], cs[i], visits[i].1)
                && self.reached(o, visits[i].0, cs[i])
    }

    /// The acceptor got, after what it held, exactly the ids in `visited`
    /// that were handed off since `o` (none once it is closed), each once.
    pub open spec fn handed_off(&self, o: &Self, visited: Seq<u64>, sent: Seq<u64>) -> bool {
        &&& self.accept_queue() == o.accept_queue() + sent
        &&& sent.no_duplicates()
        &&& forall|y: u64| #[trigger]
            sent.contains(y) <==> (!o.acceptor_closed() && visited.contains(y) && self.is_accepted(y)
                && !o.is_accepted(y))
    }

    /// What a walk did beyond the lists: the visitor went from `v0` to `vn`
    /// through the visits alone; a connection not visited is as it was; and
    /// the acceptor got the connections the visits handed off.
    pub open spec fn walk_effects<V: ConnectionVisitor<C>>(
        &self,
        o: &Self,
        visits: Seq<(u64, IterationResult)>,
        v0: V,
        vn: V,
    ) -> bool {
        &&& exists|vs: Seq<V>, cs: Seq<C>|
            #[trigger] self.visit_trace(o, visits, vs, cs) && vs[0] == v0 && vs.last() == vn
        &&& forall|y: u64|
            #[trigger] o.contains(y) && !visited_ids(visits).contains(y) ==> self.connection(y)
                == o.connection(y) && self.is_accepted(y) == o.is_accepted(y)
        &&& exists|sent: Seq<u64>| #[trigger] self.handed_off(o, visited_ids(visits), sent)
    }

    /// Updates `fs[i]` were applied, in order, to the connections `visited`
    /// as `o` held them, and left connection `visited[i]` as `cs[i]`
    /// (`reached`).
    pub open spec fn update_trace<F: ConnectionUpdate<C>>(
        &self,
        o: &Self,
        visited: Seq<u64>,
        fs: Seq<F>,
        cs: Seq<C>,
    ) -> bool {
        &&& fs.len() == visited.len() + 1
        &&& cs.len() == visited.len()
        &&& forall|i: int|
            #![trigger visited[i]]
            0 <= i < visited.len() ==> fs[i].applied(o.connection(visited[i]), fs[i + 1], cs[i])
                && self.reached(o, visited[i], cs[i])
    }

    /// What a pass applying an update did beyond the lists: the update went
    /// from `f0` to `fn_` through the connections `visited` alone; a
    /// connection not visited is as it was; and the acceptor got the
    /// connections the pass handed off.
    pub open spec fn update_effects<F: ConnectionUpdate<C>>(
        &self,
        o: &Self,
        visited: Seq<u64>,
        f0: F,
        fn_: F,
    ) -> bool {
        &&& exists|fs: Seq<F>, cs: Seq<C>|
            #[trigger] self.update_trace(o, visited, fs, cs) && fs[0] == f0 && fs.last() == fn_
        &&& forall|y: u64|
            #[trigger] o.contains(y) && !visited.contains(y) ==> self.connection(y) == o.connection(y)
                && self.is_accepted(y) == o.is_accepted(y)
        &&& exists|sent: Seq<u64>| #[trigger] self.handed_off(o, visited, sent)
    }

    /// Every connection but `id` is as in `o`, and `id` is poisoned as in `o`.
    pub open spec fn same_but(&self, o: &Self, id: u64) -> bool {
        &&& self.ids() == o.ids()
        &&& forall|y: u64| #[trigger] self.contains(y) == o.contains(y)
        &&& forall|y: u64|
            y != id && #[trigger] o.contains(y) ==> self.interests_of(y) == o.interests_of(y)
                && self.is_accepted(y) == o.is_accepted(y) && self.is_poisoned(y) == o.is_poisoned(y)
                && self.connection(y) == o.connection(y)
        &&& self.is_poisoned(id) == o.is_poisoned(id)
    }

    /// Connection `x` is as a callback left it (`c`), but for `accept`
    /// cleared where it was handed to the acceptor since `o`.
    pub open spec fn reached(&self, o: &Self, x: u64, c: C) -> bool {
        if self.is_accepted(x) == o.is_accepted(x) {
            self.connection(x) == c
        } else {
            self.connection(x).interests_spec() == (InterestSet { accept: false, ..c.interests_spec() })
        }
    }

    /// The lists and the acceptor are as `o`'s, with `id` moved in or out of
    /// each list as its interests in `self` ask, and handed to the acceptor if
    /// it was accepted just now.
    pub open spec fn synced(&self, o: &Self, id: u64) -> bool {
        &&& self.queue(InterestList::Transmission) == linked(
            o.queue(InterestList::Transmission),
            id,
            self.interests_of(id).transmission,
        )
        &&& self.queue(InterestList::NewConnectionId) == linked(
            o.queue(InterestList::NewConnectionId),
            id,
            self.interests_of(id).new_connection_id,
        )
        &&& self.queue(InterestList::Closing) == linked(
            o.queue(InterestList::Closing),
            id,
            self.interests_of(id).closing,
        )
        &&& self.queue(InterestList::Done) == linked(
            o.queue(InterestList::Done),
            id,
            self.interests_of(id).finalization,
        )
        &&& self.acceptor_closed() == o.acceptor_closed()
        &&& self.accept_queue() == if self.is_accepted(id) && !(o.contains(id) && o.is_accepted(
            id,
        )) && !o.acceptor_closed() {
            o.accept_queue().push(id)
        } else {
            o.accept_queue()
        }
    }

    /// Puts `id`, whose deadline is `d`, into the timeout list after every
    /// connection whose deadline is not later.
    fn insert_timeout(&mut self, id: u64, d: u64)
        requires
            old(self).nodes@.contains_key(id),
            old(self).nodes@[id].interests.timeout == Some(d),
            !old(self).timeout@.contains(id),
            old(self).timeout@.no_duplicates(),
            by_deadline(old(self).timeout@, old(self).nodes@),
            forall|y: u64| #[trigger]
                old(self).timeout@.contains(y) ==> old(self).nodes@.contains_key(y),
        ensures
            final(self).nodes == old(self).nodes,
            final(self).order == old(self).order,
            final(self).transmission == old(self).transmission,
            final(self).new_connection_id == old(self).new_connection_id,
            final(self).closing == old(self).closing,
            final(self).done == old(self).done,
            final(self).accept == old(self).accept,
            final(self).timeout@.no_duplicates(),
            by_deadline(final(self).timeout@, final(self).nodes@),
            forall|y: u64| #[trigger]
                final(self).timeout@.contains(y) <==> (y == id || old(self).timeout@.contains(y)),
    {
        let mut p: usize = 0;
        let mut stop = false;
        while !stop && p < self.timeout.len()
            invariant
                p <= self.timeout@.len(),
                self.timeout == old(self).timeout,
                self.nodes == old(self).nodes,
                self.order == old(self).order,
                self.transmission == old(self).transmission,
                self.new_connection_id == old(self).new_connection_id,
                self.closing == old(self).closing,
                self.done == old(self).done,
                self.accept == old(self).accept,
                forall|y: u64| #[trigger]
                    self.timeout@.contains(y) ==> self.nodes@.contains_key(y),
                forall|i: int| 0 <= i < p ==> deadline(self.nodes@[self.timeout@[i]].interests) <= d,
                stop ==> p < self.timeout@.len() && deadline(
                    self.nodes@[self.timeout@[p as int]].interests,
                ) > d,
            decreases self.timeout@.len() - p + (if stop {
                0int
            } else {
                1int
            }),
        {
            let other = self.timeout[p];
            assert(self.timeout@.contains(other));
            let od = match self.nodes.get(&other) {
                Some(n) => match n.interests.timeout {
                    Some(t) => t,
                    None => 0,
                },
                None => 0,
            };
            if od > d {
                stop = true;
            } else {
                p = p + 1;
            }
        }
        let ghost s = self.timeout@;
        self.timeout.insert(p, id);
        proof {
            let t = self.timeout@;
            assert(t == s.insert(p as int, id));
            assert forall|i: int, j: int| 0 <= i < t.len() && 0 <= j < t.len() && i != j implies t[i]
                != t[j] by {
                if i != p && j != p {
                    let si = if i < p { i } else { i - 1 };
                    let sj = if j < p { j } else { j - 1 };
                    assert(t[i] == s[si] && t[j] == s[sj]);
                } else if i == p {
                    let sj = if j < p { j } else { j - 1 };
                    assert(s.contains(s[sj]));
                } else {
                    let si = if i < p { i } else { i - 1 };
                    assert(s.contains(s[si]));
                }
            }
            assert(by_deadline(t, self.nodes@)) by {
                let m = self.nodes@;
                assert forall|i: int, j: int| 0 <= i < j < t.len() implies deadline(
                    m[t[i]].interests,
                ) <= deadline(m[t[j]].interests) by {
                    if i != p && j != p {
                        let si = if i < p { i } else { i - 1 };
                        let sj = if j < p { j } else { j - 1 };
                        assert(t[i] == s[si] && t[j] == s[sj]);
                    } else if i == p {
                        assert(t[j] == s[j - 1]);
                        assert(deadline(m[s[p as int]].interests) <= deadline(m[s[j - 1]].interests)
                            || j - 1 == p);
                    } else {
                        assert(t[i] == s[i]);
                    }
                }
            }
            assert forall|y: u64| #[trigger] t.contains(y) <==> (y == id || s.contains(y)) by {
                if t.contains(y) && y != id {
                    let i = choose|i: int| 0 <= i < t.len() && t[i] == y;
                    let si = if i < p { i } else { i - 1 };
                    assert(s[si] == y);
                }
                if s.contains(y) {
                    let i = choose|i: int| 0 <= i < s.len() && s[i] == y;
                    if i < p {
                        assert(t[i] == y);
                    } else {
                        assert(t[i + 1] == y);
                    }
                }
                if y == id {
                    assert(t[p as int] == id);
                }
            }
        }
    }

    /// Reads the interests of connection `id` again and brings every list,
    /// and the acceptor, in line with them. A poisoned connection, and one
    /// already to be finalized, is recorded as to be finalized.
    fn resync(&mut self, id: u64)
        requires
            old(self).wf_except(id),
            old(self).nodes@.contains_key(id),
            old(self).interests_of(id).finalization ==> follows_report(old(self).nodes@[id]),
        ensures
            final(self).wf(),
            !old(self).interests_of(id).finalization && !old(self).is_poisoned(id) ==> {
                let rep = old(self).connection(id).interests_spec();
                &&& final(self).interests_of(id) == settled(rep)
                &&& final(self).is_accepted(id) == (old(self).is_accepted(id) || (rep.accept
                    && !rep.finalization))
            },
            old(self).is_poisoned(id) ==> final(self).is_accepted(id) == old(self).is_accepted(id),
            final(self).is_accepted(id) == old(self).is_accepted(id) ==> final(self).connection(id)
                == old(self).connection(id),
            final(self).is_accepted(id) != old(self).is_accepted(id) ==> final(self).connection(
                id,
            ).interests_spec() == (InterestSet {
                accept: false,
                ..old(self).connection(id).interests_spec()
            }),
            final(self).same_but(old(self), id),
            old(self).interests_of(id).finalization || old(self).is_poisoned(id) ==> final(self).interests_of(id) == finalize_only(),
            old(self).interests_of(id).finalization ==> final(self).is_accepted(id) == old(self).is_accepted(id),
            old(self).is_accepted(id) ==> final(self).is_accepted(id),
            final(self).synced(old(self), id),
    {
        let ghost m0 = self.nodes@;
        let node = self.nodes.get(&id).unwrap();
        let prev = node.interests;
        let accepted = node.accepted;
        if prev.finalization {
            proof {
                crate::list::lemma_without_absent(self.transmission@, id);
                crate::list::lemma_without_absent(self.new_connection_id@, id);
                crate::list::lemma_without_absent(self.closing@, id);
            }
            return;
        }
        let raw = match node.handle.read() {
            Ok(c) => c.interests(),
            Err(_) => InterestSet {
                finalization: true,
                closing: false,
                accept: false,
                transmission: false,
                new_connection_id: false,
                timeout: None,
            },
        };
        let n = settle(raw);
        let hand_off = raw.accept && !n.finalization && !accepted;
        let mut node = self.nodes.remove(&id).unwrap();
        node.interests = n;
        if hand_off {
            node.accepted = true;
            let mut mark = MarkAccepted;
            let _ = node.handle.write(&mut mark);
        }
        self.nodes.insert(id, node);
        let ghost m1 = self.nodes@;
        assert(forall|y: u64| y != id && m0.contains_key(y) ==> m1[y] == m0[y]);
        assert(m1.dom() =~= m0.dom());
        relink(&mut self.transmission, id, n.transmission);
        relink(&mut self.new_connection_id, id, n.new_connection_id);
        relink(&mut self.closing, id, n.closing);
        relink(&mut self.done, id, n.finalization);
        let same_timeout = match (prev.timeout, n.timeout) {
            (Some(a), Some(b)) => a == b,
            (None, None) => true,
            _ => false,
        };
        if !same_timeout {
            let ghost t0 = self.timeout@;
            match position(&self.timeout, id) {
                Some(k) => {
                    proof {
                        lemma_remove_at(t0, k as int);
                        lemma_by_deadline_remove(t0, k as int, m0);
                    }
                    self.timeout.remove(k);
                },
                None => {},
            }
            proof {
                let t = self.timeout@;
                assert forall|y: u64| #[trigger] t.contains(y) implies y != id && m1.contains_key(y)
                    && wants(InterestList::Timeout, m1[y].interests) by {
                    assert(t0.contains(y));
                }
                lemma_by_deadline_frame(t, m0, m1);
            }
            match n.timeout {
                Some(d) => self.insert_timeout(id, d),
                None => {},
            }
        } else {
            proof {
                lemma_by_deadline_frame(self.timeout@, m0, m1);
            }
        }
        if hand_off {
            self.accept.send(id);
        }
        proof {
            let m = self.nodes@;
            assert(indexes(self.transmission@, m, InterestList::Transmission));
            assert(indexes(self.new_connection_id@, m, InterestList::NewConnectionId));
            assert(indexes(self.closing@, m, InterestList::Closing));
            assert(indexes(self.done@, m, InterestList::Done));
            assert(indexes(self.timeout@, m, InterestList::Timeout));
        }
    }

    fn list_len(&self, k: InterestList) -> (r: usize)
        requires
            walkable(k),
        ensures
            r == self.queue(k).len(),
    {
        match k {
            InterestList::Transmission => self.transmission.len(),
            InterestList::Closing => self.closing.len(),
            _ => self.new_connection_id.len(),
        }
    }

    fn list_get(&self, k: InterestList, p: usize) -> (r: u64)
        requires
            walkable(k),
            p < self.queue(k).len(),
        ensures
            r == self.queue(k)[p as int],
    {
        match k {
            InterestList::Transmission => self.transmission[p],
            InterestList::Closing => self.closing[p],
            _ => self.new_connection_id[p],
        }
    }

    /// Moves the entry at `p` of list `k` to its back, or to its front.
    fn move_entry(&mut self, k: InterestList, p: usize, front: bool)
        requires
            old(self).wf(),
            walkable(k),
            p < old(self).queue(k).len(),
        ensures
            final(self).wf(),
            final(self).nodes == old(self).nodes,
            final(self).order == old(self).order,
            final(self).accept == old(self).accept,
            final(self).queue(k) == if front {
                to_front(old(self).queue(k), p as int)
            } else {
                to_back(old(self).queue(k), p as int)
            },
            forall|j: InterestList| j != k ==> #[trigger] final(self).queue(j) == old(self).queue(j),
    {
        proof {
            lemma_move(self.queue(k), p as int);
        }
        if k == InterestList::Transmission {
            let x = self.transmission.remove(p);
            if front {
                self.transmission.insert(0, x);
            } else {
                self.transmission.push(x);
            }
        } else if k == InterestList::Closing {
            let x = self.closing.remove(p);
            if front {
                self.closing.insert(0, x);
            } else {
                self.closing.push(x);
            }
        } else {
            let x = self.new_connection_id.remove(p);
            if front {
                self.new_connection_id.insert(0, x);
            } else {
                self.new_connection_id.push(x);
            }
        }
        proof {
            assert(self.queue(k) =~= if front {
                to_front(old(self).queue(k), p as int)
            } else {
                to_back(old(self).queue(k), p as int)
            });
        }
    }

    /// Visits connection `id` unless it is poisoned, then reads its interests
    /// again.
    fn visit_one<V: ConnectionVisitor<C>>(&mut self, id: u64, v: &mut V) -> (r: (Option<IterationResult>, Ghost<C>))
        requires
            old(self).wf(),
            old(self).nodes@.contains_key(id),
            !old(self).interests_of(id).finalization,
        ensures
            final(self).wf(),
            r.0 is None <==> old(self).is_poisoned(id),
            r.0 is None ==> *final(v) == *old(v) && final(self).interests_of(id) == finalize_only()
                && final(self).connection(id) == old(self).connection(id)
                && final(self).is_accepted(id) == old(self).is_accepted(id),
            r.0 matches Some(res) ==> old(v).visited(old(self).connection(id), *final(v), r.1@, res)
                && final(self).reached(old(self), id, r.1@),
            final(self).same_but(old(self), id),
            final(self).synced(old(self), id),
            old(self).is_accepted(id) ==> final(self).is_accepted(id),
    {
        let ghost m0 = self.nodes@;
        let mut node = self.nodes.remove(&id).unwrap();
        let r = node.handle.visit(v);
        self.nodes.insert(id, node);
        proof {
            let m1 = self.nodes@;
            assert(m1.dom() =~= m0.dom());
            self.lemma_lists_reframe(m0, m1);
        }
        let ghost mid = *self;
        self.resync(id);
        proof {
            assert forall|y: u64| y != id && #[trigger] old(self).contains(y) implies self.interests_of(y)
                == old(self).interests_of(y) && self.is_accepted(y) == old(self).is_accepted(y)
                && self.is_poisoned(y) == old(self).is_poisoned(y) && self.connection(y) == old(self).connection(y) by {
                assert(mid.contains(y));
            }
            assert forall|y: u64| #[trigger] self.contains(y) == old(self).contains(y) by {
                assert(self.contains(y) == mid.contains(y));
            }
        }
        let ghost c = mid.connection(id);
        match r {
            Ok(res) => (Some(res), Ghost(c)),
            Err(_) => (None, Ghost(c)),
        }
    }

    /// One visit of a walk keeps the record of the callbacks, of the
    /// connections not visited and of the handoffs.
    #[verifier::rlimit(60)]
    /// One update of a pass keeps the record of the updates, of the
    /// connections not visited and of the handoffs.
    #[verifier::rlimit(60)]
    proof fn lemma_update_step<F: ConnectionUpdate<C>>(
        o: &Self,
        before: &Self,
        s: &Self,
        x: u64,
        vprev: Seq<u64>,
        visited: Seq<u64>,
        fsp: Seq<F>,
        csp: Seq<C>,
        sentp: Seq<u64>,
        fs: Seq<F>,
        cs: Seq<C>,
        sent: Seq<u64>,
        called: bool,
        gc: C,
        f_before: F,
        f_now: F,
    )
        requires
            o.contains(x),
            !vprev.contains(x),
            forall|i: int| 0 <= i < vprev.len() ==> o.contains(#[trigger] vprev[i]),
            before.update_trace(o, vprev, fsp, csp),
            fsp.last() == f_before,
            before.handed_off(o, vprev, sentp),
            forall|y: u64|
                #[trigger] o.contains(y) && !vprev.contains(y) ==> before.connection(y) == o.connection(y)
                    && before.is_accepted(y) == o.is_accepted(y),
            forall|y: u64| #[trigger] before.contains(y) == o.contains(y),
            before.acceptor_closed() == o.acceptor_closed(),
            s.same_but(before, x),
            s.synced(before, x),
            !called ==> f_now == f_before && s.connection(x) == before.connection(x) && s.is_accepted(x)
                == before.is_accepted(x),
            called ==> f_before.applied(before.connection(x), f_now, gc) && s.reached(before, x, gc),
            visited == (if called { vprev.push(x) } else { vprev }),
            fs == (if called { fsp.push(f_now) } else { fsp }),
            cs == (if called { csp.push(gc) } else { csp }),
            sent == (if s.is_accepted(x) && !before.is_accepted(x) && !o.acceptor_closed() {
                sentp.push(x)
            } else {
                sentp
            }),
        ensures
            s.update_trace(o, visited, fs, cs),
            s.handed_off(o, visited, sent),
            forall|y: u64|
                #[trigger] o.contains(y) && !visited.contains(y) ==> s.connection(y) == o.connection(y)
                    && s.is_accepted(y) == o.is_accepted(y),
    {
                let vis = visited;
                assert(before.connection(x) == o.connection(x));
                assert(before.is_accepted(x) == o.is_accepted(x));
                assert(s.connection(x) == s.connection(x) && s.is_accepted(x) == s.is_accepted(x));
                let newly = s.is_accepted(x) && !before.is_accepted(x) && !o.acceptor_closed();
                if called {
                    assert(vis =~= vprev.push(x));
                    assert(vis[vis.len() - 1] == x);
                } else {
                    assert(vis == vprev);
                }
                assert(s.accept_queue() =~= o.accept_queue() + sent);
                assert(!sentp.contains(x));
                assert(sent.no_duplicates()) by {
                    if newly {
                        assert forall|s1: int, s2: int| 0 <= s1 < sent.len() && 0 <= s2 < sent.len() && s1 != s2 implies sent[s1] != sent[s2] by {
                            if s1 == sent.len() - 1 {
                                assert(sentp.contains(sent[s2]));
                            } else if s2 == sent.len() - 1 {
                                assert(sentp.contains(sent[s1]));
                            } else {
                                assert(sent[s1] == sentp[s1] && sent[s2] == sentp[s2]);
                            }
                        }
                    }
                }
                assert forall|y: u64| #[trigger] sent.contains(y) <==> (!o.acceptor_closed() && vis.contains(y)
                    && s.is_accepted(y) && !o.is_accepted(y)) by {
                    if y != x {
                        if o.contains(y) {
                            assert(before.contains(y));
                            
                        }
                        assert(vis.contains(y) == vprev.contains(y)) by {
                            if called {
                                if vis.contains(y) {
                                    let w = choose|w: int| 0 <= w < vis.len() && vis[w] == y;
                                    assert(vprev[w] == y);
                                }
                                if vprev.contains(y) {
                                    let w = choose|w: int| 0 <= w < vprev.len() && vprev[w] == y;
                                    assert(vis[w] == y);
                                }
                            }
                        }
                        assert(sent.contains(y) == sentp.contains(y)) by {
                            if newly {
                                if sent.contains(y) {
                                    let w = choose|w: int| 0 <= w < sent.len() && sent[w] == y;
                                    assert(sentp[w] == y);
                                }
                                if sentp.contains(y) {
                                    let w = choose|w: int| 0 <= w < sentp.len() && sentp[w] == y;
                                    assert(sent[w] == y);
                                }
                            }
                        }
                        if !o.contains(y) {
                            assert(!vis.contains(y)) by {
                                if vis.contains(y) {
                                    let w = choose|w: int| 0 <= w < vis.len() && vis[w] == y;
                                    assert(visited[w] == y);
                                }
                            }
                        }
                    } else {
                        if newly {
                            assert(sent[sent.len() - 1] == x);
                            assert(vis[vis.len() - 1] == x);
                        } else if !called {
                            assert(!vis.contains(x));
                        }
                    }
                }
                assert(s.handed_off(o, vis, sent));
                assert forall|y: u64|
                    #[trigger] o.contains(y) && !vis.contains(y) implies s.connection(y)
                    == o.connection(y) && s.is_accepted(y) == o.is_accepted(y) by {
                    if y != x {
                        assert(before.contains(y));
                        
                        assert(!vprev.contains(y)) by {
                            if vprev.contains(y) {
                                let w = choose|w: int| 0 <= w < vprev.len() && vprev[w] == y;
                                if called {
                                    assert(vis[w] == y);
                                }
                            }
                        }
                        assert(before.connection(y) == o.connection(y));
                    } else {
                        assert(!called);
                    }
                }
                assert forall|i: int| #![trigger visited[i]] 0 <= i < visited.len() implies fs[i].applied(
                    o.connection(visited[i]), fs[i + 1], cs[i])
                    && s.reached(o, visited[i], cs[i]) by {
                    if i < vprev.len() {
                        assert(visited[i] == vprev[i]);
                        assert(fsp[i] == fs[i] && fsp[i + 1] == fs[i + 1] && csp[i] == cs[i]);
                        let y = vprev[i];
                        assert(vprev[i] == y);
                        assert(y != x);
                        assert(o.contains(y));
                        assert(before.contains(y));
                        
                        assert(before.reached(o, y, csp[i]));
                    } else {
                        assert(fs[i] == f_before);
                    }
                }
                assert(s.update_trace(o, visited, fs, cs));
    }

    proof fn lemma_walk_step<V: ConnectionVisitor<C>>(
        o: &Self,
        before: &Self,
        a: &Self,
        s: &Self,
        x: u64,
        vprev: Seq<(u64, IterationResult)>,
        visits: Seq<(u64, IterationResult)>,
        vsp: Seq<V>,
        csp: Seq<C>,
        sentp: Seq<u64>,
        vs: Seq<V>,
        cs: Seq<C>,
        sent: Seq<u64>,
        res: Option<IterationResult>,
        gc: C,
        v_before: V,
        v_now: V,
    )
        requires
            o.contains(x),
            !visited_ids(vprev).contains(x),
            forall|i: int| 0 <= i < vprev.len() ==> o.contains(#[trigger] vprev[i].0),
            before.visit_trace(o, vprev, vsp, csp),
            vsp.last() == v_before,
            before.handed_off(o, visited_ids(vprev), sentp),
            forall|y: u64|
                #[trigger] o.contains(y) && !visited_ids(vprev).contains(y) ==> before.connection(y)
                    == o.connection(y) && before.is_accepted(y) == o.is_accepted(y),
            forall|y: u64| #[trigger] before.contains(y) == o.contains(y),
            before.acceptor_closed() == o.acceptor_closed(),
            a.same_but(before, x),
            a.synced(before, x),
            res is None ==> v_now == v_before && a.connection(x) == before.connection(x) && a.is_accepted(x)
                == before.is_accepted(x),
            res matches Some(r) ==> v_before.visited(before.connection(x), v_now, gc, r) && a.reached(
                before,
                x,
                gc,
            ),
            s.same_but(a, x),
            s.connection(x) == a.connection(x),
            s.is_accepted(x) == a.is_accepted(x),
            s.accept_queue() == a.accept_queue(),
            visits == (match res {
                Some(r) => vprev.push((x, r)),
                None => vprev,
            }),
            vs == (if res is Some { vsp.push(v_now) } else { vsp }),
            cs == (if res is Some { csp.push(gc) } else { csp }),
            sent == (if a.is_accepted(x) && !before.is_accepted(x) && !o.acceptor_closed() {
                sentp.push(x)
            } else {
                sentp
            }),
        ensures
            s.visit_trace(o, visits, vs, cs),
            s.handed_off(o, visited_ids(visits), sent),
            forall|y: u64|
                #[trigger] o.contains(y) && !visited_ids(visits).contains(y) ==> s.connection(y)
                    == o.connection(y) && s.is_accepted(y) == o.is_accepted(y),
    {
                let vis = visited_ids(visits);
                assert(before.connection(x) == o.connection(x));
                assert(before.is_accepted(x) == o.is_accepted(x));
                assert(s.connection(x) == a.connection(x) && s.is_accepted(x) == a.is_accepted(x));
                let newly = a.is_accepted(x) && !before.is_accepted(x) && !o.acceptor_closed();
                if res is Some {
                    assert(vis =~= visited_ids(vprev).push(x));
                    assert(vis[vis.len() - 1] == x);
                } else {
                    assert(vis == visited_ids(vprev));
                }
                assert(s.accept_queue() =~= o.accept_queue() + sent);
                assert(!sentp.contains(x));
                assert(sent.no_duplicates()) by {
                    if newly {
                        assert forall|s1: int, s2: int| 0 <= s1 < sent.len() && 0 <= s2 < sent.len() && s1 != s2 implies sent[s1] != sent[s2] by {
                            if s1 == sent.len() - 1 {
                                assert(sentp.contains(sent[s2]));
                            } else if s2 == sent.len() - 1 {
                                assert(sentp.contains(sent[s1]));
                            } else {
                                assert(sent[s1] == sentp[s1] && sent[s2] == sentp[s2]);
                            }
                        }
                    }
                }
                assert forall|y: u64| #[trigger] sent.contains(y) <==> (!o.acceptor_closed() && vis.contains(y)
                    && s.is_accepted(y) && !o.is_accepted(y)) by {
                    if y != x {
                        if o.contains(y) {
                            assert(before.contains(y));
                            assert(a.contains(y));
                        }
                        assert(vis.contains(y) == visited_ids(vprev).contains(y)) by {
                            if res is Some {
                                if vis.contains(y) {
                                    let w = choose|w: int| 0 <= w < vis.len() && vis[w] == y;
                                    assert(visited_ids(vprev)[w] == y);
                                }
                                if visited_ids(vprev).contains(y) {
                                    let w = choose|w: int| 0 <= w < visited_ids(vprev).len() && visited_ids(vprev)[w] == y;
                                    assert(vis[w] == y);
                                }
                            }
                        }
                        assert(sent.contains(y) == sentp.contains(y)) by {
                            if newly {
                                if sent.contains(y) {
                                    let w = choose|w: int| 0 <= w < sent.len() && sent[w] == y;
                                    assert(sentp[w] == y);
                                }
                                if sentp.contains(y) {
                                    let w = choose|w: int| 0 <= w < sentp.len() && sentp[w] == y;
                                    assert(sent[w] == y);
                                }
                            }
                        }
                        if !o.contains(y) {
                            assert(!vis.contains(y)) by {
                                if vis.contains(y) {
                                    let w = choose|w: int| 0 <= w < vis.len() && vis[w] == y;
                                    assert(visits[w].0 == y);
                                }
                            }
                        }
                    } else {
                        if newly {
                            assert(sent[sent.len() - 1] == x);
                            assert(vis[vis.len() - 1] == x);
                        } else if res is None {
                            assert(!vis.contains(x));
                        }
                    }
                }
                assert(s.handed_off(o, vis, sent));
                assert forall|y: u64|
                    #[trigger] o.contains(y) && !vis.contains(y) implies s.connection(y)
                    == o.connection(y) && s.is_accepted(y) == o.is_accepted(y) by {
                    if y != x {
                        assert(before.contains(y));
                        assert(a.contains(y));
                        assert(!visited_ids(vprev).contains(y)) by {
                            if visited_ids(vprev).contains(y) {
                                let w = choose|w: int| 0 <= w < visited_ids(vprev).len() && visited_ids(vprev)[w] == y;
                                if res is Some {
                                    assert(vis[w] == y);
                                }
                            }
                        }
                        assert(before.connection(y) == o.connection(y));
                    } else {
                        assert(res is None);
                    }
                }
                assert forall|i: int| #![trigger visits[i]] 0 <= i < visits.len() implies vs[i].visited(
                    o.connection(visits[i].0), vs[i + 1], cs[i], visits[i].1)
                    && s.reached(o, visits[i].0, cs[i]) by {
                    if i < vprev.len() {
                        assert(visits[i] == vprev[i]);
                        assert(vsp[i] == vs[i] && vsp[i + 1] == vs[i + 1] && csp[i] == cs[i]);
                        let y = vprev[i].0;
                        assert(visited_ids(vprev)[i] == y);
                        assert(y != x);
                        assert(o.contains(y));
                        assert(before.contains(y));
                        assert(a.contains(y));
                        assert(before.reached(o, y, csp[i]));
                    } else {
                        assert(vs[i] == v_before);
                    }
                }
                assert(s.visit_trace(o, visits, vs, cs));
    }

    #[verifier::rlimit(100)]
    #[verifier::spinoff_prover]
    fn walk<V: ConnectionVisitor<C>>(&mut self, k: InterestList, v: &mut V) -> (visits: Vec<(u64, IterationResult)>)
        requires
            old(self).wf(),
            walkable(k),
        ensures
            final(self).wf(),
            final(self).walked(old(self), k, visits@),
            final(self).walk_effects(old(self), visits@, *old(v), *final(v)),
    {
        let mut visits: Vec<(u64, IterationResult)> = Vec::new();
        let ghost vs: Seq<V> = seq![*v];
        let ghost cs: Seq<C> = Seq::empty();
        let ghost sent: Seq<u64> = Seq::empty();
        let ghost q0 = old(self).queue(k);
        let ghost kept: Seq<u64> = Seq::empty();
        let ghost clean = true;
        let n0 = self.list_len(k);
        let mut j: usize = 0;
        proof {
            assert(q0.subrange(0, q0.len() as int) + kept =~= q0);
        }
        while j < n0
            invariant_except_break
                visits@.len() > 0 ==> visits@.last().1 == IterationResult::Continue,
                self.queue(k) == q0.subrange(j as int, q0.len() as int) + kept,
                clean ==> kept == q0.subrange(0, j as int),
                forall|y: u64|
                    #[trigger] q0.subrange(0, j as int).contains(y) && !old(self).is_poisoned(y)
                        ==> visited_ids(visits@).contains(y),
            invariant
                self.wf(),
                old(self).wf(),
                walkable(k),
                q0 == old(self).queue(k),
                q0.no_duplicates(),
                n0 == q0.len(),
                j <= n0,
                self.walk_so_far(old(self), k, visits@),
                self.visit_trace(old(self), visits@, vs, cs),
                forall|y: u64|
                    #[trigger] q0.subrange(0, j as int).contains(y) && old(self).is_poisoned(y)
                        ==> self.interests_of(y) == finalize_only(),
                vs[0] == *old(v),
                vs.last() == *v,
                forall|y: u64|
                    #[trigger] old(self).contains(y) && !visited_ids(visits@).contains(y) ==> self.connection(y)
                        == old(self).connection(y) && self.is_accepted(y) == old(self).is_accepted(y),
                self.handed_off(old(self), visited_ids(visits@), sent),
                kept.no_duplicates(),
                forall|y: u64| #[trigger] kept.contains(y) ==> q0.subrange(0, j as int).contains(y),
                forall|i: int| 0 <= i < visits@.len() ==> q0.subrange(0, j as int).contains(#[trigger] visits@[i].0),
                clean ==> visited_ids(visits@) == q0.subrange(0, j as int),
                !clean ==> (exists|y: u64| #[trigger] q0.contains(y) && old(self).is_poisoned(y)) || (exists|i: int|
                    0 <= i < visits@.len() && !wants(k, self.interests_of(#[trigger] visits@[i].0))),
            ensures
                j == n0 || (visits@.len() > 0 && visits@.last().1 != IterationResult::Continue),
                j == n0 ==> forall|y: u64|
                    #[trigger] q0.subrange(0, j as int).contains(y) && old(self).is_poisoned(y)
                        ==> self.interests_of(y) == finalize_only(),
                (visits@.len() == 0 || visits@.last().1 == IterationResult::Continue) ==> self.queue(k)
                    == q0.subrange(j as int, q0.len() as int) + kept && (clean ==> kept == q0.subrange(0, j as int)),
                j == n0 && (visits@.len() == 0 || visits@.last().1 == IterationResult::Continue) ==> forall|y: u64|
                    #[trigger] q0.subrange(0, j as int).contains(y) && !old(self).is_poisoned(y) ==> visited_ids(visits@).contains(y),
                clean ==> {
                    let n = visits@.len() as int;
                    &&& (n == 0 || visits@.last().1 == IterationResult::Continue || visits@.last().1
                        == IterationResult::BreakAndInsertAtBack) ==> self.queue(k) == q0.subrange(n, q0.len() as int) + q0.subrange(0, n)
                    &&& (n > 0 && (visits@.last().1 == IterationResult::BreakAndInsertAtFront
                        || visits@.last().1 == IterationResult::BreakAndRemove)) ==> self.queue(k) == q0.subrange(n - 1, q0.len() as int)
                        + q0.subrange(0, n - 1)
                },
            decreases n0 - j,
        {
            let x = self.list_get(k, 0);
            let ghost before = *self;
            let ghost q = self.queue(k);
            let ghost vprev = visits@;
            let ghost kprev = kept;
            proof {
                assert(q[0] == q0[j as int]);
                assert(x == q0[j as int]);
                assert(q.contains(x));
                assert(self.nodes@.contains_key(x));
                assert(old(self).contains(x)) by {
                    assert(q0.contains(x));
                }
                assert(!q0.subrange(0, j as int).contains(x)) by {
                    if q0.subrange(0, j as int).contains(x) {
                        let t = choose|t: int| 0 <= t < j && q0.subrange(0, j as int)[t] == x;
                        assert(q0[t] == q0[j as int]);
                    }
                }
                assert(!kept.contains(x));
                assert(q.no_duplicates());
            }
            let ghost v_before = *v;
            let (res, gc) = self.visit_one(x, v);
            let ghost wanted = wants(k, self.interests_of(x));
            proof {
                assert(self.queue(k) == linked(q, x, wanted));
                if !wanted {
                    lemma_remove_at(q, 0);
                    assert(q.remove(0) =~= q0.subrange(j + 1, q0.len() as int) + kept);
                }
            }
            let ghost after_visit = *self;
            let mut stop = false;
            match res {
                None => {},
                Some(r) => {
                    visits.push((x, r));
                    let still = self.list_get_front_is(k, x);
                    proof {
                        if wanted {
                            assert(still);
                        } else {
                            assert(!self.queue(k).contains(x));
                        }
                    }
                    match r {
                        IterationResult::Continue => {
                            if still {
                                self.move_entry(k, 0, false);
                            }
                        },
                        IterationResult::BreakAndInsertAtBack => {
                            if still {
                                self.move_entry(k, 0, false);
                            }
                            stop = true;
                        },
                        _ => {
                            stop = true;
                        },
                    }
                },
            }
            let ghost jprev = j as int;
            j = j + 1;
            proof {
                let a = after_visit;
                let vsp = vs;
                let csp = cs;
                let sentp = sent;
                assert(!visited_ids(vprev).contains(x)) by {
                    if visited_ids(vprev).contains(x) {
                        let w = choose|w: int| 0 <= w < visited_ids(vprev).len() && visited_ids(vprev)[w] == x;
                        assert(vprev[w].0 == x);
                        assert(q0.subrange(0, jprev).contains(vprev[w].0));
                    }
                }
                assert forall|i: int| 0 <= i < vprev.len() implies old(self).contains(#[trigger] vprev[i].0) by {
                    assert(q0.contains(vprev[i].0));
                }
                let newly = a.is_accepted(x) && !before.is_accepted(x) && !old(self).acceptor_closed();
                if res is Some {
                    vs = vs.push(*v);
                    cs = cs.push(gc@);
                }
                if newly {
                    sent = sent.push(x);
                }
                assert forall|y: u64|
                    #[trigger] q0.subrange(0, j as int).contains(y) && old(self).is_poisoned(y)
                    implies self.interests_of(y) == finalize_only() by {
                    let t = choose|t: int| 0 <= t < j && q0.subrange(0, j as int)[t] == y;
                    if y != x {
                        assert(t < jprev);
                        assert(q0.subrange(0, jprev)[t] == y);
                        assert(q0.subrange(0, jprev).contains(y));
                        assert(before.contains(y));
                        assert(a.contains(y));
                    } else {
                        assert(before.is_poisoned(x) == old(self).is_poisoned(x));
                    }
                }
                Self::lemma_walk_step(&*old(self), &before, &a, &*self, x, vprev, visits@, vsp, csp, sentp, vs, cs, sent, res, gc@, v_before, *v);
            }
            proof {
                let a = after_visit;
                let vs = visits@;
                let nq = self.queue(k);
                assert(q0.subrange(0, j as int) =~= q0.subrange(0, jprev).push(x));
                assert forall|y: u64| #[trigger] q0.subrange(0, jprev).contains(y) implies q0.subrange(0, j as int).contains(y) by {
                    let t = choose|t: int| 0 <= t < jprev && q0.subrange(0, jprev)[t] == y;
                    assert(q0.subrange(0, j as int)[t] == y);
                }
                assert(q0.subrange(0, j as int)[jprev] == x);
                if wanted && res is Some && (res == Some(IterationResult::Continue) || res == Some(IterationResult::BreakAndInsertAtBack)) {
                    kept = kept.push(x);
                    assert(nq =~= q0.subrange(j as int, q0.len() as int) + kept);
                    assert(kept.no_duplicates()) by {
                        assert forall|s1: int, s2: int| 0 <= s1 < kept.len() && 0 <= s2 < kept.len() && s1 != s2 implies kept[s1] != kept[s2] by {
                            if s1 == kept.len() - 1 {
                                assert(kprev.contains(kept[s2]));
                            } else if s2 == kept.len() - 1 {
                                assert(kprev.contains(kept[s1]));
                            } else {
                                assert(kept[s1] == kprev[s1] && kept[s2] == kprev[s2]);
                            }
                        }
                    }
                } else if !wanted {
                    assert(nq =~= q0.subrange(j as int, q0.len() as int) + kept);
                }
                assert forall|y: u64| #[trigger] kept.contains(y) implies q0.subrange(0, j as int).contains(y) by {
                    if y != x {
                        assert(kprev.contains(y)) by {
                            let t = choose|t: int| 0 <= t < kept.len() && kept[t] == y;
                            if t < kprev.len() {
                                assert(kprev[t] == y);
                            }
                        }
                    }
                }
                assert forall|i: int| 0 <= i < vs.len() implies q0.subrange(0, j as int).contains(#[trigger] vs[i].0) by {
                    if i < vprev.len() {
                        assert(vs[i] == vprev[i]);
                    }
                }
                // the walk so far
                assert(self.ids() == old(self).ids());
                assert forall|y: u64| #[trigger] self.contains(y) == old(self).contains(y) by {
                    assert(self.contains(y) == a.contains(y));
                    assert(a.contains(y) == before.contains(y));
                }
                assert forall|y: u64|
                    #[trigger] old(self).contains(y) && !old(self).queue(k).contains(y) implies self.interests_of(y)
                    == old(self).interests_of(y) && self.is_accepted(y) == old(self).is_accepted(y)
                    && self.is_poisoned(y) == old(self).is_poisoned(y) by {
                    assert(y != x);
                    assert(before.contains(y));
                    assert(a.contains(y));
                }
                assert forall|y: u64| #[trigger] old(self).contains(y) implies self.is_poisoned(y) == old(self).is_poisoned(y) by {
                    assert(before.contains(y));
                    assert(a.contains(y));
                }
                assert forall|y: u64| #[trigger] old(self).contains(y) && old(self).is_accepted(y) implies self.is_accepted(y) by {
                    assert(before.contains(y));
                    assert(a.contains(y));
                }
                assert(before.is_poisoned(x) == old(self).is_poisoned(x));
                assert forall|i: int| 0 <= i < vs.len() implies old(self).queue(k).contains(#[trigger] vs[i].0) && !old(self).is_poisoned(vs[i].0) by {
                    if i < vprev.len() {
                        assert(vs[i] == vprev[i]);
                    }
                }
                assert forall|i: int| 0 <= i < vs.len() - 1 implies #[trigger] vs[i].1 == IterationResult::Continue by {
                    assert(vs[i] == vprev[i]);
                }
                assert(self.walk_so_far(old(self), k, vs));
                // visited ids
                if res is Some {
                    assert(visited_ids(vs) =~= visited_ids(vprev).push(x));
                } else {
                    assert(vs == vprev);
                }
                // interests of earlier visits are final
                assert forall|i: int| 0 <= i < vprev.len() implies self.interests_of(#[trigger] vprev[i].0) == before.interests_of(vprev[i].0) by {
                    assert(q0.subrange(0, jprev).contains(vprev[i].0));
                    assert(vprev[i].0 != x);
                    assert(before.contains(vprev[i].0));
                    assert(a.contains(vprev[i].0));
                }
                if !clean {
                    if exists|i: int| 0 <= i < vprev.len() && !wants(k, before.interests_of(#[trigger] vprev[i].0)) {
                        let i = choose|i: int| 0 <= i < vprev.len() && !wants(k, before.interests_of(#[trigger] vprev[i].0));
                        assert(vs[i] == vprev[i]);
                        assert(!wants(k, self.interests_of(vs[i].0)));
                    }
                }
                if res is None {
                    assert(q0.contains(x) && old(self).is_poisoned(x));
                    clean = false;
                } else if !wanted {
                    assert(vs[vs.len() - 1].0 == x);
                    assert(!wants(k, self.interests_of(vs[vs.len() - 1].0)));
                    clean = false;
                }
                if clean {
                    assert(visited_ids(vs) =~= q0.subrange(0, j as int));
                    if !stop || res == Some(IterationResult::BreakAndInsertAtBack) {
                        assert(kept =~= q0.subrange(0, j as int));
                    }
                }
                // coverage
                assert forall|y: u64|
                    #[trigger] q0.subrange(0, j as int).contains(y) && !old(self).is_poisoned(y) implies visited_ids(vs).contains(y) by {
                    if y == x {
                        assert(visited_ids(vs)[vs.len() - 1] == x);
                    } else {
                        let t = choose|t: int| 0 <= t < j && q0.subrange(0, j as int)[t] == y;
                        assert(t < jprev);
                        assert(q0.subrange(0, jprev)[t] == y);
                        assert(q0.subrange(0, jprev).contains(y));
                        assert(visited_ids(vprev).contains(y));
                        let w = choose|w: int| 0 <= w < visited_ids(vprev).len() && visited_ids(vprev)[w] == y;
                        assert(visited_ids(vs)[w] == y);
                    }
                }
                if stop {
                    if clean {
                        let n = vs.len() as int;
                        assert(n == j);
                        if res == Some(IterationResult::BreakAndInsertAtBack) {
                            assert(nq =~= q0.subrange(n, q0.len() as int) + q0.subrange(0, n));
                        } else {
                            assert(nq == q);
                            assert(q =~= q0.subrange(n - 1, q0.len() as int) + q0.subrange(0, n - 1));
                        }
                    }
                }
            }
            if stop {
                break ;
            }
        }
        proof {
            assert(q0.subrange(0, n0 as int) =~= q0);
            if clean && j == n0 && (visits@.len() == 0 || visits@.last().1 == IterationResult::Continue) {
                let n = visits@.len() as int;
                assert(visited_ids(visits@).len() == n);
                assert(n == j);
                assert(q0.subrange(j as int, q0.len() as int) + kept =~= q0.subrange(n, q0.len() as int) + q0.subrange(0, n));
            }
        }
        visits
    }

    /// Whether `x` is at the front of the walkable list `k`.
    fn list_get_front_is(&self, k: InterestList, x: u64) -> (r: bool)
        requires
            walkable(k),
        ensures
            r == (self.queue(k).len() > 0 && self.queue(k)[0] == x),
    {
        self.list_len(k) > 0 && self.list_get(k, 0) == x
    }

    /// Walks the transmission list from its front. Each connection visited is
    /// taken from the front and, while it still wants the list, put at the
    /// back on `Continue` or `BreakAndInsertAtBack`. The walk ends once every
    /// connection of the list was met, or at the first result other than
    /// `Continue`; poisoned connections are skipped and recorded as to be
    /// finalized. Returns the visits made, with their results.
    pub fn iterate_transmission_list<V: ConnectionVisitor<C>>(&mut self, v: &mut V) -> (visits: Vec<(u64, IterationResult)>)
        requires
            old(self).wf(),
        ensures
            final(self).wf(),
            final(self).walked(old(self), InterestList::Transmission, visits@),
            final(self).walk_effects(old(self), visits@, *old(v), *final(v)),
    {
        self.walk(InterestList::Transmission, v)
    }

    /// Walks the new-connection-id list as `iterate_transmission_list` walks
    /// the transmission list.
    pub fn iterate_new_connection_id_list<V: ConnectionVisitor<C>>(&mut self, v: &mut V) -> (visits: Vec<(u64, IterationResult)>)
        requires
            old(self).wf(),
        ensures
            final(self).wf(),
            final(self).walked(old(self), InterestList::NewConnectionId, visits@),
            final(self).walk_effects(old(self), visits@, *old(v), *final(v)),
    {
        self.walk(InterestList::NewConnectionId, v)
    }

    /// Drains the closing list: visits each closing connection from the
    /// front, as `iterate_transmission_list` walks the transmission list; a
    /// visited connection leaves the list once it no longer reports
    /// `closing`.
    pub fn iterate_closing_list<V: ConnectionVisitor<C>>(&mut self, v: &mut V) -> (visits: Vec<(u64, IterationResult)>)
        requires
            old(self).wf(),
        ensures
            final(self).wf(),
            final(self).walked(old(self), InterestList::Closing, visits@),
            final(self).walk_effects(old(self), visits@, *old(v), *final(v)),
    {
        self.walk(InterestList::Closing, v)
    }

    /// Applies `f` to every connection whose deadline is not later than `now`,
    /// earliest deadline first, and returns their ids in that order. A
    /// poisoned connection is skipped and recorded as to be finalized.
    pub fn iterate_timeout_list<F: ConnectionUpdate<C>>(&mut self, now: u64, f: &mut F) -> (visited: Vec<u64>)
        requires
            old(self).wf(),
        ensures
            final(self).wf(),
            final(self).ids() == old(self).ids(),
            forall|y: u64| #[trigger] final(self).contains(y) == old(self).contains(y),
            visited@.no_duplicates(),
            forall|i: int|
                0 <= i < visited@.len() ==> old(self).contains(#[trigger] visited@[i]) && due_by(old(self).interests_of(visited@[i]), now),
            forall|i: int, j: int|
                0 <= i < j < visited@.len() ==> deadline(old(self).interests_of(visited@[i]))
                    <= deadline(old(self).interests_of(visited@[j])),
            forall|y: u64|
                #[trigger] old(self).contains(y) && !old(self).is_poisoned(y) && due_by(old(self).interests_of(y), now) ==> visited@.contains(y),
            final(self).update_effects(old(self), visited@, *old(f), *final(f)),
            forall|i: int| 0 <= i < visited@.len() ==> !old(self).is_poisoned(#[trigger] visited@[i]),
            forall|y: u64|
                #[trigger] old(self).contains(y) && old(self).is_poisoned(y) && due_by(old(self).interests_of(y), now)
                    ==> final(self).interests_of(y) == finalize_only(),
            forall|y: u64| #[trigger] old(self).contains(y) && old(self).is_accepted(y) ==> final(self).is_accepted(y),
            final(self).acceptor_closed() == old(self).acceptor_closed(),
            forall|y: u64|
                #[trigger] old(self).contains(y) && !due_by(old(self).interests_of(y), now)
                    ==> final(self).interests_of(y) == old(self).interests_of(y)
                    && final(self).is_accepted(y) == old(self).is_accepted(y)
                    && final(self).is_poisoned(y) == old(self).is_poisoned(y),
    {
        let ghost o = *self;
        let mut due: Vec<u64> = Vec::new();
        let mut p: usize = 0;
        let mut stop = false;
        while !stop && p < self.timeout.len()
            invariant
                *self == o,
                self.wf(),
                p <= self.timeout@.len(),
                due@ == self.timeout@.subrange(0, p as int),
                forall|i: int| 0 <= i < p ==> deadline(self.nodes@[self.timeout@[i]].interests) <= now,
                stop ==> p < self.timeout@.len() && deadline(
                    self.nodes@[self.timeout@[p as int]].interests,
                ) > now,
            decreases self.timeout@.len() - p + (if stop {
                0int
            } else {
                1int
            }),
        {
            let x = self.timeout[p];
            assert(self.timeout@.contains(x));
            let d = match self.nodes.get(&x) {
                Some(n) => match n.interests.timeout {
                    Some(t) => t,
                    None => 0,
                },
                None => 0,
            };
            if d > now {
                stop = true;
            } else {
                due.push(x);
                p = p + 1;
                proof {
                    assert(due@ =~= self.timeout@.subrange(0, p as int));
                }
            }
        }
        proof {
            let t = self.timeout@;
            assert forall|y: u64|
                #[trigger] o.contains(y) && due_by(o.interests_of(y), now) implies due@.contains(y) by {
                assert(t.contains(y));
                let i = choose|i: int| 0 <= i < t.len() && t[i] == y;
                if i >= p {
                    assert(deadline(self.nodes@[t[p as int]].interests) <= deadline(self.nodes@[t[i]].interests));
                }
                assert(due@[i] == y);
            }
            assert(due@.no_duplicates());
            assert forall|j: int| 0 <= j < due@.len() implies due_by(o.interests_of(#[trigger] due@[j]), now) by {
                assert(due@[j] == t[j]);
                assert(t.contains(t[j]));
            }
        }
        let mut visited: Vec<u64> = Vec::new();
        let mut i: usize = 0;
        let ghost fs: Seq<F> = seq![*f];
        let ghost cs: Seq<C> = Seq::empty();
        let ghost sent: Seq<u64> = Seq::empty();
        proof {
            assert(self.accept_queue() =~= o.accept_queue() + sent);
        }
        while i < due.len()
            invariant
                self.wf(),
                o == *old(self),
                self.update_trace(&o, visited@, fs, cs),
                fs[0] == *old(f),
                fs.last() == *f,
                forall|y: u64|
                    #[trigger] o.contains(y) && !visited@.contains(y) ==> self.connection(y) == o.connection(y)
                        && self.is_accepted(y) == o.is_accepted(y),
                self.handed_off(&o, visited@, sent),
                i <= due@.len(),
                o.wf(),
                due@.no_duplicates(),
                self.ids() == o.ids(),
                forall|y: u64| #[trigger] self.contains(y) == o.contains(y),
                forall|j: int| 0 <= j < due@.len() ==> #[trigger] o.timeout@.contains(due@[j]),
                forall|j: int, l: int|
                    0 <= j < l < due@.len() ==> deadline(o.interests_of(due@[j])) <= deadline(
                        o.interests_of(due@[l]),
                    ),
                forall|j: int|
                    0 <= j < due@.len() ==> due_by(o.interests_of(#[trigger] due@[j]), now),
                forall|y: u64|
                    #[trigger] o.contains(y) && !due@.subrange(0, i as int).contains(y)
                        ==> self.interests_of(y) == o.interests_of(y) && self.is_accepted(y)
                        == o.is_accepted(y) && self.is_poisoned(y) == o.is_poisoned(y),
                visited@.no_duplicates(),
                forall|a: int| 0 <= a < visited@.len() ==> !o.is_poisoned(#[trigger] visited@[a]),
                forall|j: int|
                    0 <= j < i && o.is_poisoned(due@[j]) ==> self.interests_of(#[trigger] due@[j]) == finalize_only(),
                forall|y: u64| #[trigger] o.contains(y) && o.is_accepted(y) ==> self.is_accepted(y),
                self.acceptor_closed() == o.acceptor_closed(),
                forall|a: int| 0 <= a < visited@.len() ==> due@.subrange(0, i as int).contains(#[trigger] visited@[a]),
                forall|a: int, b: int|
                    0 <= a < b < visited@.len() ==> deadline(o.interests_of(visited@[a])) <= deadline(
                        o.interests_of(visited@[b]),
                    ),
                forall|a: int, j: int|
                    0 <= a < visited@.len() && i <= j < due@.len() ==> deadline(o.interests_of(visited@[a])) <= deadline(
                        o.interests_of(due@[j]),
                    ),
                forall|j: int|
                    0 <= j < i && o.contains(due@[j]) && !o.is_poisoned(due@[j]) ==> visited@.contains(#[trigger] due@[j]),
            decreases due@.len() - i,
        {
            let x = due[i];
            let ghost before = *self;
            let ghost vprev = visited@;
            proof {
                assert(o.timeout@.contains(x));
                assert(o.contains(x));
                assert(!due@.subrange(0, i as int).contains(x)) by {
                    if due@.subrange(0, i as int).contains(x) {
                        let j = choose|j: int| 0 <= j < i && due@.subrange(0, i as int)[j] == x;
                        assert(due@[j] == due@[i as int]);
                    }
                }
            }
            let ghost pre = due@.subrange(0, i as int);
            let ghost cur = due@.subrange(0, i + 1);
            let ghost f_before = *f;
            let called = self.with_connection(x, f);
            if called {
                visited.push(x);
            }
            i = i + 1;
            proof {
                let fsp = fs;
                let csp = cs;
                let sentp = sent;
                assert(!vprev.contains(x)) by {
                    if vprev.contains(x) {
                        let w = choose|w: int| 0 <= w < vprev.len() && vprev[w] == x;
                        assert(pre.contains(vprev[w]));
                        let t = choose|t: int| 0 <= t < pre.len() && pre[t] == vprev[w];
                        assert(due@[t] == due@[i - 1]);
                    }
                }
                assert forall|a: int| 0 <= a < vprev.len() implies o.contains(#[trigger] vprev[a]) by {
                    assert(pre.contains(vprev[a]));
                    let t = choose|t: int| 0 <= t < pre.len() && pre[t] == vprev[a];
                    assert(o.timeout@.contains(due@[t]));
                }
                let gc: C = if called {
                    choose|c: C| f_before.applied(before.connection(x), *f, c) && #[trigger] self.reached(&before, x, c)
                } else {
                    self.connection(x)
                };
                if called {
                    fs = fs.push(*f);
                    cs = cs.push(gc);
                }
                if self.is_accepted(x) && !before.is_accepted(x) && !o.acceptor_closed() {
                    sent = sent.push(x);
                }
                Self::lemma_update_step(&o, &before, &*self, x, vprev, visited@, fsp, csp, sentp, fs, cs, sent, called, gc, f_before, *f);
            }
            proof {
                assert(before.is_poisoned(x) == o.is_poisoned(x));
                assert forall|j: int|
                    0 <= j < i && o.is_poisoned(due@[j]) implies self.interests_of(#[trigger] due@[j]) == finalize_only() by {
                    if j < i - 1 {
                        assert(due@[j] != x);
                        assert(before.contains(due@[j]));
                    }
                }
                assert forall|y: u64| #[trigger] o.contains(y) && o.is_accepted(y) implies self.is_accepted(y) by {
                    assert(before.contains(y));
                }
                assert forall|a: int| 0 <= a < visited@.len() implies !o.is_poisoned(#[trigger] visited@[a]) by {
                    if a < vprev.len() {
                        assert(vprev[a] == visited@[a]);
                    }
                }
                assert forall|y: u64| #[trigger] o.contains(y) && !cur.contains(y)
                    implies self.interests_of(y) == o.interests_of(y) && self.is_accepted(y)
                    == o.is_accepted(y) && self.is_poisoned(y) == o.is_poisoned(y) by {
                    assert(cur[cur.len() - 1] == x);
                    assert(y != x);
                    if pre.contains(y) {
                        let j = choose|j: int| 0 <= j < i - 1 && pre[j] == y;
                        assert(cur[j] == y);
                    }
                    assert(before.contains(y));
                }
                assert forall|a: int| 0 <= a < visited@.len() implies cur.contains(#[trigger] visited@[a]) by {
                    if a < vprev.len() {
                        let w = visited@[a];
                        assert(vprev[a] == w);
                        assert(pre.contains(w));
                        let j = choose|j: int| 0 <= j < i - 1 && pre[j] == w;
                        assert(cur[j] == w);
                    } else {
                        assert(cur[i - 1] == x);
                    }
                }
                assert(visited@.no_duplicates()) by {
                    if called {
                        assert forall|a: int| 0 <= a < vprev.len() implies vprev[a] != x by {
                            assert(pre.contains(vprev[a]));
                        }
                    }
                }
                assert forall|j: int|
                    0 <= j < i && o.contains(due@[j]) && !o.is_poisoned(due@[j]) implies visited@.contains(#[trigger] due@[j]) by {
                    if j < i - 1 {
                        assert(vprev.contains(due@[j]));
                        let a = choose|a: int| 0 <= a < vprev.len() && vprev[a] == due@[j];
                        assert(visited@[a] == due@[j]);
                    } else {
                        assert(before.interests_of(x) == o.interests_of(x));
                        assert(visited@[visited@.len() - 1] == x);
                    }
                }
            }
        }
        proof {
            assert forall|y: u64|
                #[trigger] o.contains(y) && !due_by(o.interests_of(y), now) implies self.interests_of(y)
                == o.interests_of(y) && self.is_accepted(y) == o.is_accepted(y) && self.is_poisoned(y)
                == o.is_poisoned(y) by {
                if due@.subrange(0, i as int).contains(y) {
                    let j = choose|j: int| 0 <= j < i && due@.subrange(0, i as int)[j] == y;
                    assert(due@[j] == y);
                }
            }
            assert forall|y: u64|
                #[trigger] o.contains(y) && o.is_poisoned(y) && due_by(o.interests_of(y), now) implies self.interests_of(y)
                == finalize_only() by {
                assert(due@.contains(y));
                let j = choose|j: int| 0 <= j < due@.len() && due@[j] == y;
            }
            assert forall|a: int| 0 <= a < visited@.len() implies o.contains(#[trigger] visited@[a]) && due_by(o.interests_of(visited@[a]), now) by {
                assert(due@.subrange(0, i as int).contains(visited@[a]));
                let j = choose|j: int| 0 <= j < i && due@.subrange(0, i as int)[j] == visited@[a];
                assert(due@[j] == visited@[a]);
            }
        }
        visited
    }

    /// Takes ownership of `connection` under `id`, reads its interests and
    /// links it into the lists they ask for.
    pub fn insert_connection(&mut self, connection: C, id: u64)
        requires
            old(self).wf(),
            !old(self).contains(id),
        ensures
            final(self).wf(),
            final(self).contains(id),
            forall|y: u64| #[trigger]
                final(self).ids().contains(y) <==> (y == id || old(self).ids().contains(y)),
            forall|y: u64| #[trigger] final(self).contains(y) <==> (y == id || old(self).contains(y)),
            forall|y: u64|
                y != id && #[trigger] old(self).contains(y) ==> final(self).interests_of(y) == old(self).interests_of(y) && final(self).is_accepted(y) == old(self).is_accepted(y)
                    && final(self).is_poisoned(y) == old(self).is_poisoned(y),
            !final(self).is_poisoned(id),
            final(self).synced(old(self), id),
            final(self).interests_of(id) == settled(connection.interests_spec()),
            final(self).is_accepted(id) == (connection.interests_spec().accept
                && !connection.interests_spec().finalization),
            !final(self).is_accepted(id) ==> final(self).connection(id) == connection,
            final(self).is_accepted(id) ==> final(self).connection(id).interests_spec() == (InterestSet {
                accept: false,
                ..connection.interests_spec()
            }),
    {
        let node = Node { handle: Handle::new(connection), interests: InterestSet::none(), accepted: false };
        let ghost m0 = self.nodes@;
        self.nodes.insert(id, node);
        insert_sorted(&mut self.order, id);
        proof {
            let m1 = self.nodes@;
            assert(!self.transmission@.contains(id));
            assert(!self.new_connection_id@.contains(id));
            assert(!self.closing@.contains(id));
            assert(!self.timeout@.contains(id));
            assert(!self.done@.contains(id));
            assert forall|i: int| 0 <= i < self.timeout@.len() implies deadline(
                #[trigger] m1[self.timeout@[i]].interests,
            ) == deadline(m0[self.timeout@[i]].interests) by {
                assert(self.timeout@.contains(self.timeout@[i]));
            }
            lemma_by_deadline_frame(self.timeout@, m0, m1);
            assert(indexes(self.transmission@, m1, InterestList::Transmission));
            assert(indexes(self.new_connection_id@, m1, InterestList::NewConnectionId));
            assert(indexes(self.closing@, m1, InterestList::Closing));
            assert(indexes(self.done@, m1, InterestList::Done));
            assert(indexes(self.timeout@, m1, InterestList::Timeout));
        }
        let ghost mid = *self;
        self.resync(id);
        proof {
            assert forall|y: u64| y != id && #[trigger] old(self).contains(y) implies self.interests_of(y)
                == old(self).interests_of(y) && self.is_accepted(y) == old(self).is_accepted(y)
                && self.is_poisoned(y) == old(self).is_poisoned(y) && self.connection(y) == old(self).connection(y) by {
                assert(mid.contains(y));
            }
            assert forall|y: u64| #[trigger] self.contains(y) <==> (y == id || old(self).contains(y)) by {
                assert(self.contains(y) == mid.contains(y));
            }
            assert forall|y: u64| #[trigger] self.ids().contains(y) <==> (y == id || old(self).ids().contains(y)) by {
                assert(self.contains(y) == mid.contains(y));
            }
        }
    }

    /// Applies `f` to connection `id` and brings the lists in line with its
    /// interests. `f` is not applied, and stays as it was, where there is no
    /// such connection, where it is to be finalized, or where it is poisoned;
    /// a poisoned connection is then recorded as to be finalized. A connection
    /// that raises `accept` together with `finalization` is not handed to the
    /// acceptor: it is to be finalized, and gets no further callbacks.
    pub fn with_connection<F: ConnectionUpdate<C>>(&mut self, id: u64, f: &mut F) -> (called: bool)
        requires
            old(self).wf(),
        ensures
            final(self).wf(),
            called == (old(self).contains(id) && !old(self).interests_of(id).finalization
                && !old(self).is_poisoned(id)),
            !called ==> *final(f) == *old(f),
            final(self).same_but(old(self), id),
            old(self).contains(id) ==> final(self).synced(old(self), id),
            !old(self).contains(id) ==> *final(self) == *old(self),
            old(self).contains(id) && (old(self).interests_of(id).finalization || old(self).is_poisoned(id)) ==> final(self).interests_of(id) == finalize_only(),
            old(self).contains(id) && old(self).interests_of(id).finalization ==> final(self).is_accepted(id) == old(self).is_accepted(id),
            old(self).contains(id) && old(self).is_accepted(id) ==> final(self).is_accepted(id),
            old(self).contains(id) && old(self).is_poisoned(id) ==> final(self).is_accepted(id) == old(self).is_accepted(id),
            !called && old(self).contains(id) ==> final(self).connection(id) == old(self).connection(id),
            called ==> exists|c: C|
                old(f).applied(old(self).connection(id), *final(f), c) && #[trigger] final(self).reached(
                    old(self),
                    id,
                    c,
                ),
            called && final(self).is_accepted(id) == old(self).is_accepted(id) ==> old(f).applied(
                old(self).connection(id),
                *final(f),
                final(self).connection(id),
            ),
            called && final(self).is_accepted(id) != old(self).is_accepted(id) ==> exists|c: C|
                old(f).applied(old(self).connection(id), *final(f), c)
                && #[trigger] final(self).connection(id).interests_spec() == (InterestSet {
                    accept: false,
                    ..c.interests_spec()
                }),
            called ==> exists|c: C|
                old(f).applied(old(self).connection(id), *final(f), c)
                && #[trigger] final(self).interests_of(id) == settled(c.interests_spec())
                && final(self).is_accepted(id) == (old(self).is_accepted(id) || (c.interests_spec().accept
                    && !c.interests_spec().finalization)),
    {
        match self.nodes.get(&id) {
            None => {
                return false;
            },
            Some(n) => {
                if n.interests.finalization {
                    self.resync(id);
                    return false;
                }
            },
        }
        let ghost m0 = self.nodes@;
        let mut node = self.nodes.remove(&id).unwrap();
        let r = node.handle.write(f);
        self.nodes.insert(id, node);
        proof {
            let m1 = self.nodes@;
            assert(m1.dom() =~= m0.dom());
            self.lemma_lists_reframe(m0, m1);
        }
        let ghost mid = *self;
        self.resync(id);
        proof {
            assert forall|y: u64| y != id && #[trigger] old(self).contains(y) implies self.interests_of(y)
                == old(self).interests_of(y) && self.is_accepted(y) == old(self).is_accepted(y)
                && self.is_poisoned(y) == old(self).is_poisoned(y) && self.connection(y) == old(self).connection(y) by {
                assert(mid.contains(y));
            }
            assert forall|y: u64| #[trigger] self.contains(y) == old(self).contains(y) by {
                assert(self.contains(y) == mid.contains(y));
            }
            if r is Ok {
                let c = mid.connection(id);
                assert(old(f).applied(old(self).connection(id), *f, c));
                assert(mid.is_accepted(id) == old(self).is_accepted(id));
                assert(self.reached(old(self), id, c));
                assert(self.interests_of(id) == settled(c.interests_spec()));
                if self.is_accepted(id) != old(self).is_accepted(id) {
                    assert(self.connection(id).interests_spec() == (InterestSet {
                        accept: false,
                        ..c.interests_spec()
                    }));
                }
            }
        }
        r.is_ok()
    }

    /// Poisons connection `id`: every later access to it fails, and it is
    /// recorded as to be finalized at the next access.
    pub fn poison(&mut self, id: u64)
        requires
            old(self).wf(),
        ensures
            final(self).wf(),
            final(self).ids() == old(self).ids(),
            forall|y: u64| #[trigger] final(self).contains(y) == old(self).contains(y),
            forall|y: u64| #[trigger]
                old(self).contains(y) ==> final(self).interests_of(y) == old(self).interests_of(y)
                    && final(self).is_accepted(y) == old(self).is_accepted(y)
                    && final(self).is_poisoned(y) == (y == id || old(self).is_poisoned(y)),
            forall|k: InterestList| #[trigger] final(self).queue(k) == old(self).queue(k),
            final(self).accept_queue() == old(self).accept_queue(),
            final(self).acceptor_closed() == old(self).acceptor_closed(),
    {
        if self.nodes.contains_key(&id) {
            let ghost m0 = self.nodes@;
            let mut node = self.nodes.remove(&id).unwrap();
            node.handle.poison();
            self.nodes.insert(id, node);
            proof {
                let m1 = self.nodes@;
                assert(m1.dom() =~= m0.dom());
                self.lemma_lists_reframe(m0, m1);
            }
        }
    }

    /// Releases every connection that is to be finalized: it leaves the
    /// container and every list, and is dropped.
    pub fn finalize_done_connections(&mut self)
        requires
            old(self).wf(),
        ensures
            final(self).wf(),
            forall|y: u64| #[trigger]
                final(self).contains(y) <==> (old(self).contains(y) && !old(self).interests_of(y).finalization),
            forall|y: u64| #[trigger]
                final(self).ids().contains(y) <==> (old(self).ids().contains(y)
                    && !old(self).interests_of(y).finalization),
            forall|y: u64| #[trigger]
                final(self).contains(y) ==> final(self).interests_of(y) == old(self).interests_of(y)
                    && final(self).is_accepted(y) == old(self).is_accepted(y)
                    && final(self).is_poisoned(y) == old(self).is_poisoned(y),
            final(self).queue(InterestList::Transmission) == old(self).queue(InterestList::Transmission),
            final(self).queue(InterestList::NewConnectionId) == old(self).queue(InterestList::NewConnectionId),
            final(self).queue(InterestList::Timeout) == old(self).queue(InterestList::Timeout),
            final(self).queue(InterestList::Closing) == old(self).queue(InterestList::Closing),
            final(self).queue(InterestList::Done) == Seq::<u64>::empty(),
            final(self).accept_queue() == old(self).accept_queue(),
            final(self).acceptor_closed() == old(self).acceptor_closed(),
    {
        while self.done.len() > 0
            invariant
                self.wf(),
                forall|y: u64| #[trigger]
                    self.nodes@.contains_key(y) <==> (old(self).nodes@.contains_key(y) && (
                    !old(self).nodes@[y].interests.finalization || self.done@.contains(y))),
                forall|y: u64| #[trigger]
                    self.nodes@.contains_key(y) ==> self.nodes@[y] == old(self).nodes@[y],
                self.transmission == old(self).transmission,
                self.new_connection_id == old(self).new_connection_id,
                self.timeout == old(self).timeout,
                self.closing == old(self).closing,
                self.accept == old(self).accept,
            decreases self.done@.len(),
        {
            let ghost m0 = self.nodes@;
            let ghost d0 = self.done@;
            let id = self.done.pop().unwrap();
            proof {
                assert(d0.contains(id)) by {
                    assert(d0[d0.len() - 1] == id);
                }
                lemma_remove_at(d0, d0.len() - 1);
                assert(self.done@ == d0.remove(d0.len() - 1));
            }
            self.nodes.remove(&id);
            remove_item(&mut self.order, id);
            proof {
                let m1 = self.nodes@;
                assert(m1 == m0.remove(id));
                assert(!self.transmission@.contains(id));
                assert(!self.new_connection_id@.contains(id));
                assert(!self.closing@.contains(id));
                assert(!self.timeout@.contains(id));
                assert forall|i: int| 0 <= i < self.timeout@.len() implies deadline(
                    #[trigger] m1[self.timeout@[i]].interests,
                ) == deadline(m0[self.timeout@[i]].interests) by {
                    assert(self.timeout@.contains(self.timeout@[i]));
                }
                lemma_by_deadline_frame(self.timeout@, m0, m1);
                assert(indexes(self.transmission@, m1, InterestList::Transmission));
                assert(indexes(self.new_connection_id@, m1, InterestList::NewConnectionId));
                assert(indexes(self.closing@, m1, InterestList::Closing));
                assert(indexes(self.done@, m1, InterestList::Done));
                assert(indexes(self.timeout@, m1, InterestList::Timeout));
                assert forall|y: u64| #[trigger] m1.contains_key(y) implies m1[y] == old(self).nodes@[y] by {
                    assert(m0.contains_key(y));
                }
                assert forall|y: u64| #[trigger] m1.contains_key(y) <==> (old(self).nodes@.contains_key(y) && (
                    !old(self).nodes@[y].interests.finalization || self.done@.contains(y))) by {
                    if y != id {
                        assert(m1.contains_key(y) == m0.contains_key(y));
                        assert(d0.contains(y) == self.done@.contains(y));
                    }
                }
            }
        }
        proof {
            assert forall|y: u64| #[trigger] self.ids().contains(y) <==> (old(self).ids().contains(y)
                && !old(self).interests_of(y).finalization) by {
                assert(self.order@.contains(y) == self.nodes@.contains_key(y));
                assert(old(self).order@.contains(y) == old(self).nodes@.contains_key(y));
            }
        }
    }

    /// What a walk over the walkable list `k` that has made `visits` so far
    /// leaves, from `o`:
    /// - the same connections;
    /// - a connection that was not in the list is untouched;
    /// - each visit went to a connection of the list;
    /// - the walk stopped at the first visit whose result was not `Continue`;
    /// - no connection was poisoned or cured, and a poisoned one was not
    ///   visited;
    /// - a connection handed to the acceptor stays so, and the acceptor stays
    ///   open or closed.
    pub open spec fn walk_so_far(&self, o: &Self, k: InterestList, visits: Seq<(u64, IterationResult)>) -> bool {
        &&& self.ids() == o.ids()
        &&& forall|y: u64| #[trigger] self.contains(y) == o.contains(y)
        &&& forall|y: u64| #[trigger] o.contains(y) ==> self.is_poisoned(y) == o.is_poisoned(y)
        &&& forall|y: u64| #[trigger] o.contains(y) && o.is_accepted(y) ==> self.is_accepted(y)
        &&& self.acceptor_closed() == o.acceptor_closed()
        &&& forall|i: int| 0 <= i < visits.len() ==> !o.is_poisoned(#[trigger] visits[i].0)
        &&& forall|y: u64|
            #[trigger] o.contains(y) && !o.queue(k).contains(y) ==> self.interests_of(y)
                == o.interests_of(y) && self.is_accepted(y) == o.is_accepted(y)
                && self.is_poisoned(y) == o.is_poisoned(y)
        &&& forall|i: int| 0 <= i < visits.len() ==> o.queue(k).contains(#[trigger] visits[i].0)
        &&& forall|i: int|
            0 <= i < visits.len() - 1 ==> #[trigger] visits[i].1 == IterationResult::Continue
    }

    /// A finished walk: as `walk_so_far` says; a walk that no visit stopped
    /// visited every connection of the list that was not poisoned; and where
    /// no connection of the list was poisoned and every visited one still
    /// wants the list, the `n` visits went to the first `n` connections in
    /// order, and the list was turned: the visited ones went to the back in
    /// order, but for the last one where it asked to stay at the front.
    pub open spec fn walked(&self, o: &Self, k: InterestList, visits: Seq<(u64, IterationResult)>) -> bool {
        let q = o.queue(k);
        let n = visits.len() as int;
        &&& self.walk_so_far(o, k, visits)
        &&& (n == 0 || visits.last().1 == IterationResult::Continue) ==> forall|y: u64|
            #[trigger] q.contains(y) && !o.is_poisoned(y) ==> visited_ids(visits).contains(y)
        &&& (n == 0 || visits.last().1 == IterationResult::Continue) ==> forall|y: u64|
            #[trigger] q.contains(y) && o.is_poisoned(y) ==> self.interests_of(y) == finalize_only()
        &&& (forall|y: u64| #[trigger] q.contains(y) ==> !o.is_poisoned(y)) && (forall|i: int|
            0 <= i < n ==> wants(k, self.interests_of(#[trigger] visits[i].0))) ==> {
            &&& n <= q.len()
            &&& visited_ids(visits) == q.subrange(0, n)
            &&& (n == 0 || visits.last().1 == IterationResult::Continue || visits.last().1
                == IterationResult::BreakAndInsertAtBack) ==> self.queue(k) == q.subrange(n, q.len() as int)
                + q.subrange(0, n)
            &&& (n > 0 && (visits.last().1 == IterationResult::BreakAndInsertAtFront || visits.last().1
                == IterationResult::BreakAndRemove)) ==> self.queue(k) == q.subrange(n - 1, q.len() as int)
                + q.subrange(0, n - 1)
        }
    }

    /// Round robin: a pass of `n` visits over a list with no poisoned
    /// connection, whose visited connections all still want the list and
    /// whose last visit sent its connection to the back, visited the first
    /// `n` connections and turned the list by `n`; so passes of `b` visits each
    /// bring every connection of the list to a visit within
    /// `ceil(len / b)` passes (`lemma_round_robin`).
    pub proof fn lemma_pass_rotates(
        &self,
        o: &Self,
        k: InterestList,
        visits: Seq<(u64, IterationResult)>,
    )
        requires
            self.walked(o, k, visits),
            forall|y: u64| #[trigger] o.queue(k).contains(y) ==> !o.is_poisoned(y),
            forall|i: int| 0 <= i < visits.len() ==> wants(k, self.interests_of(#[trigger] visits[i].0)),
            visits.len() > 0,
            visits.last().1 == IterationResult::BreakAndInsertAtBack,
        ensures
            visited_ids(visits) == o.queue(k).subrange(0, visits.len() as int),
            self.queue(k) == rotated(o.queue(k), visits.len()),
    {
        assert(visited_ids(visits).len() == visits.len());
        crate::list::lemma_round_robin(o.queue(k), visits.len());
    }

    /// Hands the acceptor every id handed off and not yet received, oldest
    /// first.
    pub fn receive_accepted(&mut self) -> (r: Vec<u64>)
        requires
            old(self).wf(),
        ensures
            final(self).wf(),
            r@ == old(self).accept_queue(),
            final(self).accept_queue() == Seq::<u64>::empty(),
            final(self).acceptor_closed() == old(self).acceptor_closed(),
            final(self).ids() == old(self).ids(),
            forall|y: u64| #[trigger] final(self).contains(y) == old(self).contains(y),
            forall|y: u64| #[trigger]
                old(self).contains(y) ==> final(self).interests_of(y) == old(self).interests_of(y)
                    && final(self).is_accepted(y) == old(self).is_accepted(y)
                    && final(self).is_poisoned(y) == old(self).is_poisoned(y),
            forall|k: InterestList| #[trigger] final(self).queue(k) == old(self).queue(k),
    {
        self.accept.receive_all()
    }

    /// Drops the acceptor: ids not yet received are discarded, and later
    /// handoffs are discarded too.
    pub fn close_acceptor(&mut self)
        requires
            old(self).wf(),
        ensures
            final(self).wf(),
            final(self).accept_queue() == Seq::<u64>::empty(),
            final(self).acceptor_closed(),
            final(self).ids() == old(self).ids(),
            forall|y: u64| #[trigger] final(self).contains(y) == old(self).contains(y),
            forall|y: u64| #[trigger]
                old(self).contains(y) ==> final(self).interests_of(y) == old(self).interests_of(y)
                    && final(self).is_accepted(y) == old(self).is_accepted(y)
                    && final(self).is_poisoned(y) == old(self).is_poisoned(y),
            forall|k: InterestList| #[trigger] final(self).queue(k) == old(self).queue(k),
    {
        self.accept.close();
    }

    pub fn is_acceptor_closed(&self) -> (r: bool)
        ensures
            r == self.acceptor_closed(),
    {
        self.accept.is_closed()
    }

    /// The ids of the live connections, in traversal order.
    pub fn connection_ids(&self) -> (r: Vec<u64>)
        ensures
            r@ == self.ids(),
    {
        copy_ids(&self.order)
    }

    /// The ids in list `k`, front first.
    pub fn list(&self, k: InterestList) -> (r: Vec<u64>)
        ensures
            r@ == self.queue(k),
    {
        match k {
            InterestList::Transmission => copy_ids(&self.transmission),
            InterestList::NewConnectionId => copy_ids(&self.new_connection_id),
            InterestList::Timeout => copy_ids(&self.timeout),
            InterestList::Closing => copy_ids(&self.closing),
            InterestList::Done => copy_ids(&self.done),
        }
    }

    pub fn contains_connection(&self, id: u64) -> (r: bool)
        ensures
            r == self.contains(id),
    {
        self.nodes.contains_key(&id)
    }

    /// The interests recorded for connection `id`, if it is live.
    pub fn interests(&self, id: u64) -> (r: Option<InterestSet>)
        ensures
            r == if self.contains(id) {
                Some(self.interests_of(id))
            } else {
                None::<InterestSet>
            },
    {
        match self.nodes.get(&id) {
            Some(n) => Some(n.interests),
            None => None,
        }
    }

    /// Every list holds exactly the live connections whose recorded
    /// interests ask for it, each once.
    pub proof fn lemma_lists_match_interests(&self)
        requires
            self.wf(),
        ensures
            forall|k: InterestList| #[trigger] self.queue(k).no_duplicates(),
            forall|k: InterestList, x: u64| #[trigger]
                self.queue(k).contains(x) <==> (self.contains(x) && wants(k, self.interests_of(x))),
    {
        assert forall|k: InterestList, x: u64| #[trigger]
            self.queue(k).contains(x) <==> (self.contains(x) && wants(k, self.interests_of(x))) by {
            match k {
                InterestList::Transmission => assert(self.transmission@.contains(x) <==> (self.nodes@.contains_key(x) && wants(k, self.nodes@[x].interests))),
                InterestList::NewConnectionId => assert(self.new_connection_id@.contains(x) <==> (self.nodes@.contains_key(x) && wants(k, self.nodes@[x].interests))),
                InterestList::Timeout => assert(self.timeout@.contains(x) <==> (self.nodes@.contains_key(x) && wants(k, self.nodes@[x].interests))),
                InterestList::Closing => assert(self.closing@.contains(x) <==> (self.nodes@.contains_key(x) && wants(k, self.nodes@[x].interests))),
                InterestList::Done => assert(self.done@.contains(x) <==> (self.nodes@.contains_key(x) && wants(k, self.nodes@[x].interests))),
            }
        }
    }

    /// What is recorded of each live connection not to be finalized is what
    /// it reports, settled; so each list holds exactly the connections whose
    /// reports ask for it.
    pub proof fn lemma_lists_match_reports(&self)
        requires
            self.wf(),
        ensures
            forall|x: u64| #[trigger]
                self.contains(x) && !self.interests_of(x).finalization ==> self.interests_of(x)
                    == settled(self.connection(x).interests_spec()),
            forall|k: InterestList, x: u64| #[trigger]
                self.queue(k).contains(x) && !self.interests_of(x).finalization ==> wants(
                    k,
                    settled(self.connection(x).interests_spec()),
                ),
            forall|k: InterestList, x: u64|
                self.contains(x) && !self.interests_of(x).finalization && wants(
                    k,
                    settled(self.connection(x).interests_spec()),
                ) ==> #[trigger] self.queue(k).contains(x),
    {
        self.lemma_lists_match_interests();
    }

    /// Traversal visits each live connection once, in strictly increasing id
    /// order; so no two live connections share an id.
    pub proof fn lemma_ids_unique_and_ordered(&self)
        requires
            self.wf(),
        ensures
            increasing(self.ids()),
            self.ids().no_duplicates(),
            forall|x: u64| #[trigger] self.ids().contains(x) <==> self.contains(x),
    {
        assert forall|x: u64| #[trigger] self.ids().contains(x) <==> self.contains(x) by {
            assert(self.order@.contains(x) <==> self.nodes@.contains_key(x));
        }
    }

    /// No live connection keeps an `accept` interest: it is acted on when it
    /// is read, and a connection to be finalized wants nothing else.
    pub proof fn lemma_recorded_interests_settled(&self)
        requires
            self.wf(),
        ensures
            forall|x: u64| #[trigger] self.contains(x) ==> !self.interests_of(x).accept,
            forall|x: u64| #[trigger]
                self.contains(x) && self.interests_of(x).finalization ==> self.interests_of(x)
                    == finalize_only(),
    {
    }

    /// A connection already handed to the acceptor is never handed off again:
    /// bringing the lists in line with it leaves the acceptor's queue as it
    /// was.
    pub proof fn lemma_accept_once(&self, o: &Self, id: u64)
        requires
            self.synced(o, id),
            o.contains(id),
            o.is_accepted(id),
        ensures
            self.accept_queue() == o.accept_queue(),
    {
    }

    pub fn new() -> (r: Self)
        ensures
            r.wf(),
            r.ids() == Seq::<u64>::empty(),
            forall|k: InterestList| r.queue(k) == Seq::<u64>::empty(),
            r.accept_queue() == Seq::<u64>::empty(),
            !r.acceptor_closed(),
    {
        ConnectionContainer {
            nodes: HashMap::new(),
            order: Vec::new(),
            transmission: Vec::new(),
            new_connection_id: Vec::new(),
            timeout: Vec::new(),
            closing: Vec::new(),
            done: Vec::new(),
            accept: AcceptChannel::new(),
        }
    }
}

} // verus!
