use connection_container::container::{Connection, ConnectionContainer, InterestList};
use connection_container::handle::{ConnectionUpdate, ConnectionVisitor, IterationResult};
use connection_container::id::InternalConnectionIdGenerator;
use connection_container::interest::InterestSet;

struct TestConnection {
    is_handshaking: bool,
    has_been_accepted: bool,
    interests: InterestSet,
}

impl Default for TestConnection {
    fn default() -> Self {
        Self {
            is_handshaking: true,
            has_been_accepted: false,
            interests: InterestSet::none(),
        }
    }
}

impl Connection for TestConnection {
    fn interests_spec(&self) -> InterestSet {
        self.interests
    }

    fn interests(&self) -> InterestSet {
        self.interests
    }

    fn mark_as_accepted(&mut self) {
        assert!(!self.has_been_accepted);
        self.has_been_accepted = true;
        self.interests.accept = false;
    }
}

/// Records that it was applied.
struct Touch {
    was_called: bool,
}

impl ConnectionUpdate<TestConnection> for Touch {
    fn applied(&self, _before: TestConnection, _f_after: Self, _after: TestConnection) -> bool {
        true
    }

    fn update(&mut self, _conn: &mut TestConnection) {
        self.was_called = true;
    }
}

fn touch(container: &mut ConnectionContainer<TestConnection>, id: u64) -> bool {
    let mut t = Touch { was_called: false };
    let called = container.with_connection(id, &mut t);
    assert_eq!(called, t.was_called);
    t.was_called
}

/// Replaces the interests of a connection, as a connection would after an
/// event.
struct SetInterests {
    finalization: bool,
    closing: bool,
    accept: bool,
    transmission: bool,
    new_connection_id: bool,
    timeout: Option<u64>,
    was_called: bool,
}

impl SetInterests {
    fn new() -> Self {
        SetInterests {
            finalization: false,
            closing: false,
            accept: false,
            transmission: false,
            new_connection_id: false,
            timeout: None,
            was_called: false,
        }
    }
}

impl ConnectionUpdate<TestConnection> for SetInterests {
    fn applied(&self, _before: TestConnection, _f_after: Self, _after: TestConnection) -> bool {
        true
    }

    fn update(&mut self, conn: &mut TestConnection) {
        self.was_called = true;
        let i = &mut conn.interests;
        i.finalization = self.finalization;
        i.closing = self.closing;
        if !conn.has_been_accepted {
            i.accept = self.accept;
        }
        if self.accept {
            conn.is_handshaking = false;
        }
        i.transmission = self.transmission;
        i.new_connection_id = self.new_connection_id;
        i.timeout = self.timeout;
    }
}

fn set(container: &mut ConnectionContainer<TestConnection>, id: u64, s: SetInterests) -> bool {
    let mut s = s;
    container.with_connection(id, &mut s)
}

/// Takes the deadline of each connection it is applied to, checking that it
/// is due.
struct ExpireTimeout {
    now: u64,
    seen: Vec<u64>,
}

impl ConnectionUpdate<TestConnection> for ExpireTimeout {
    fn applied(&self, _before: TestConnection, _f_after: Self, _after: TestConnection) -> bool {
        true
    }

    fn update(&mut self, conn: &mut TestConnection) {
        let d = conn.interests.timeout.take().unwrap();
        assert!(
            d <= self.now,
            "connections should only be present when timeout interest is expressed"
        );
        self.seen.push(d);
    }
}

/// Visits connections until its budget is spent, then sends the last one to
/// the back of the list.
struct Budget {
    left: u32,
    transmission: bool,
}

impl ConnectionVisitor<TestConnection> for Budget {
    fn visited(
        &self,
        _before: TestConnection,
        _v_after: Self,
        _after: TestConnection,
        _r: IterationResult,
    ) -> bool {
        true
    }

    fn visit(&mut self, conn: &mut TestConnection) -> IterationResult {
        if self.transmission {
            assert!(conn.interests.transmission);
        } else {
            assert!(conn.interests.new_connection_id);
        }
        if self.left <= 1 {
            IterationResult::BreakAndInsertAtBack
        } else {
            self.left -= 1;
            IterationResult::Continue
        }
    }
}

/// Visits while its count lasts, as the endpoint's transmit pass does.
struct Countdown {
    count: u16,
    transmission: bool,
}

impl ConnectionVisitor<TestConnection> for Countdown {
    fn visited(
        &self,
        _before: TestConnection,
        _v_after: Self,
        _after: TestConnection,
        _r: IterationResult,
    ) -> bool {
        true
    }

    fn visit(&mut self, conn: &mut TestConnection) -> IterationResult {
        if self.transmission {
            assert!(conn.interests.transmission);
        } else {
            assert!(conn.interests.new_connection_id);
        }
        if self.count == 0 {
            IterationResult::BreakAndInsertAtBack
        } else {
            self.count -= 1;
            IterationResult::Continue
        }
    }
}

struct Fixed(IterationResult);

impl ConnectionVisitor<TestConnection> for Fixed {
    fn visited(
        &self,
        _before: TestConnection,
        _v_after: Self,
        _after: TestConnection,
        _r: IterationResult,
    ) -> bool {
        true
    }

    fn visit(&mut self, _conn: &mut TestConnection) -> IterationResult {
        self.0
    }
}

/// Drops the new-connection-id interest of the connection it visits, and
/// stops.
struct Leave;

impl ConnectionVisitor<TestConnection> for Leave {
    fn visited(
        &self,
        _before: TestConnection,
        _v_after: Self,
        _after: TestConnection,
        _r: IterationResult,
    ) -> bool {
        true
    }

    fn visit(&mut self, conn: &mut TestConnection) -> IterationResult {
        conn.interests.new_connection_id = false;
        IterationResult::BreakAndRemove
    }
}

fn with_three() -> (ConnectionContainer<TestConnection>, Vec<u64>) {
    let mut container = ConnectionContainer::new();
    let mut ids = vec![];
    for id in 1..=3u64 {
        container.insert_connection(TestConnection::default(), id);
        ids.push(id);
    }
    (container, ids)
}

fn transmitting() -> SetInterests {
    let mut s = SetInterests::new();
    s.transmission = true;
    s
}

const MS: u64 = 1000;

#[test]
fn insert_and_lookup() {
    let (mut container, _) = with_three();
    assert!(touch(&mut container, 2));
    assert_eq!(container.connection_ids(), vec![1, 2, 3]);
    assert!(!touch(&mut container, 4));
}

#[test]
fn insert_keeps_id_order() {
    let mut container = ConnectionContainer::new();
    for id in [5u64, 2, 9, 7] {
        container.insert_connection(TestConnection::default(), id);
    }
    assert_eq!(container.connection_ids(), vec![2, 5, 7, 9]);
    assert!(container.contains_connection(7));
    assert!(!container.contains_connection(3));
}

#[test]
fn insert_links_reported_interests() {
    let mut container = ConnectionContainer::new();
    let mut conn = TestConnection::default();
    conn.interests.transmission = true;
    conn.interests.timeout = Some(40);
    container.insert_connection(conn, 1);
    assert_eq!(container.list(InterestList::Transmission), vec![1]);
    assert_eq!(container.list(InterestList::Timeout), vec![1]);
    assert_eq!(container.list(InterestList::NewConnectionId), Vec::<u64>::new());
}

#[test]
fn accept_handoff() {
    let mut container = ConnectionContainer::new();
    container.insert_connection(TestConnection::default(), 1);
    let mut s = SetInterests::new();
    s.accept = true;
    assert!(set(&mut container, 1, s));
    assert_eq!(container.receive_accepted(), vec![1]);
    assert!(!container.interests(1).unwrap().accept);
    let mut s = SetInterests::new();
    s.accept = true;
    assert!(set(&mut container, 1, s));
    assert_eq!(container.receive_accepted(), Vec::<u64>::new());
}

#[test]
fn accept_after_acceptor_closed_is_discarded() {
    let mut container = ConnectionContainer::new();
    container.insert_connection(TestConnection::default(), 1);
    container.close_acceptor();
    assert!(container.is_acceptor_closed());
    let mut s = SetInterests::new();
    s.accept = true;
    assert!(set(&mut container, 1, s));
    assert_eq!(container.receive_accepted(), Vec::<u64>::new());
}

#[test]
fn finalization() {
    let (mut container, _) = with_three();
    let mut s = SetInterests::new();
    s.finalization = true;
    s.transmission = true;
    assert!(set(&mut container, 2, s));
    assert_eq!(container.list(InterestList::Done), vec![2]);
    assert_eq!(container.list(InterestList::Transmission), Vec::<u64>::new());
    assert!(!touch(&mut container, 2));
    container.finalize_done_connections();
    assert_eq!(container.connection_ids(), vec![1, 3]);
    assert_eq!(container.list(InterestList::Done), Vec::<u64>::new());
    assert!(container.interests(2).is_none());
}

#[test]
fn timeout_visits_due_in_deadline_order() {
    let (mut container, _) = with_three();
    let t = 1_000_000u64;
    for (id, ms) in [(1u64, 10u64), (2, 30), (3, 20)] {
        let mut s = SetInterests::new();
        s.timeout = Some(t + ms * MS);
        assert!(set(&mut container, id, s));
    }
    assert_eq!(container.list(InterestList::Timeout), vec![1, 3, 2]);
    let mut v = ExpireTimeout { now: t + 25 * MS, seen: vec![] };
    let visited = container.iterate_timeout_list(t + 25 * MS, &mut v);
    assert_eq!(visited, vec![1, 3]);
    assert_eq!(v.seen, vec![t + 10 * MS, t + 20 * MS]);
    assert_eq!(container.list(InterestList::Timeout), vec![2]);
}

#[test]
fn timeout_at_exact_deadline_is_due() {
    let mut container = ConnectionContainer::new();
    container.insert_connection(TestConnection::default(), 1);
    let mut s = SetInterests::new();
    s.timeout = Some(50);
    set(&mut container, 1, s);
    let mut v = ExpireTimeout { now: 49, seen: vec![] };
    assert_eq!(container.iterate_timeout_list(49, &mut v), Vec::<u64>::new());
    let mut v = ExpireTimeout { now: 50, seen: vec![] };
    assert_eq!(container.iterate_timeout_list(50, &mut v), vec![1]);
}

#[test]
fn round_robin_transmit() {
    let (mut container, ids) = with_three();
    for id in &ids {
        assert!(set(&mut container, *id, transmitting()));
    }
    let mut seen = vec![];
    for pass in 0..3 {
        let mut v = Budget { left: 1, transmission: true };
        let visits = container.iterate_transmission_list(&mut v);
        assert_eq!(visits.len(), 1);
        assert_eq!(visits[0].1, IterationResult::BreakAndInsertAtBack);
        seen.push(visits[0].0);
        if pass == 0 {
            assert_eq!(container.list(InterestList::Transmission), vec![2, 3, 1]);
        }
    }
    assert_eq!(seen, vec![1, 2, 3]);
    assert_eq!(container.list(InterestList::Transmission), vec![1, 2, 3]);
}

#[test]
fn walk_to_front_and_remove() {
    let (mut container, ids) = with_three();
    for id in &ids {
        let mut s = SetInterests::new();
        s.new_connection_id = true;
        assert!(set(&mut container, *id, s));
    }
    let mut v = Fixed(IterationResult::Continue);
    let visits = container.iterate_new_connection_id_list(&mut v);
    assert_eq!(visits.len(), 3);
    assert_eq!(container.list(InterestList::NewConnectionId), vec![1, 2, 3]);
    let mut v = Fixed(IterationResult::BreakAndRemove);
    let visits = container.iterate_new_connection_id_list(&mut v);
    assert_eq!(visits, vec![(1, IterationResult::BreakAndRemove)]);
    assert_eq!(container.list(InterestList::NewConnectionId), vec![1, 2, 3]);
    let mut v = Leave;
    let visits = container.iterate_new_connection_id_list(&mut v);
    assert_eq!(visits, vec![(1, IterationResult::BreakAndRemove)]);
    assert_eq!(container.list(InterestList::NewConnectionId), vec![2, 3]);
    assert!(!container.interests(1).unwrap().new_connection_id);
    let mut v = Fixed(IterationResult::BreakAndInsertAtFront);
    let visits = container.iterate_new_connection_id_list(&mut v);
    assert_eq!(visits, vec![(2, IterationResult::BreakAndInsertAtFront)]);
    assert_eq!(container.list(InterestList::NewConnectionId), vec![2, 3]);
}

#[test]
fn poisoning() {
    let (mut container, _) = with_three();
    assert!(set(&mut container, 1, transmitting()));
    assert!(set(&mut container, 2, transmitting()));
    container.poison(2);
    assert!(!touch(&mut container, 2));
    assert_eq!(container.list(InterestList::Done), vec![2]);
    assert_eq!(container.list(InterestList::Transmission), vec![1]);
    container.finalize_done_connections();
    assert_eq!(container.connection_ids(), vec![1, 3]);
    assert!(touch(&mut container, 1));
    assert!(touch(&mut container, 3));
    assert!(container.interests(1).unwrap().transmission);
}

#[test]
fn poisoned_connection_skipped_in_walk() {
    let (mut container, ids) = with_three();
    for id in &ids {
        assert!(set(&mut container, *id, transmitting()));
    }
    container.poison(1);
    let mut v = Budget { left: 1, transmission: true };
    let visits = container.iterate_transmission_list(&mut v);
    assert_eq!(visits, vec![(2, IterationResult::BreakAndInsertAtBack)]);
    assert_eq!(container.list(InterestList::Transmission), vec![3, 2]);
    assert_eq!(container.list(InterestList::Done), vec![1]);
}

#[test]
fn id_generator_increases() {
    let mut g = InternalConnectionIdGenerator::new();
    let a = g.generate_id();
    let b = g.generate_id();
    let c = g.generate_id();
    assert_eq!((a, b, c), (0, 1, 2));
}

/// A small deterministic generator of operation sequences.
struct Lcg(u64);

impl Lcg {
    fn next(&mut self) -> u64 {
        self.0 = self
            .0
            .wrapping_mul(6364136223846793005)
            .wrapping_add(1442695040888963407);
        self.0 >> 33
    }
}

#[test]
fn container_test() {
    for seed in 0..200u64 {
        let mut rng = Lcg(seed);
        let mut id_gen = InternalConnectionIdGenerator::new();
        let mut connections: Vec<u64> = vec![];
        let mut receiver_open = true;
        let mut handed_off: Vec<u64> = vec![];
        let mut now: u64 = 0;
        let mut container: ConnectionContainer<TestConnection> = ConnectionContainer::new();

        let n_ops = rng.next() % 120;
        for _ in 0..n_ops {
            match rng.next() % 9 {
                0 => {
                    let id = id_gen.generate_id();
                    container.insert_connection(TestConnection::default(), id);
                    connections.push(id);
                    assert!(touch(&mut container, id));
                }
                1 => {
                    if connections.is_empty() {
                        continue;
                    }
                    let index = (rng.next() as usize) % connections.len();
                    let id = connections[index];
                    let bits = rng.next();
                    let mut s = SetInterests::new();
                    s.finalization = bits % 7 == 0;
                    s.closing = bits & 2 != 0;
                    s.accept = bits & 4 != 0;
                    s.transmission = bits & 8 != 0;
                    s.new_connection_id = bits & 16 != 0;
                    s.timeout = if bits & 32 != 0 {
                        Some(now + (rng.next() % 65536) * MS)
                    } else {
                        None
                    };
                    let finalization = s.finalization;
                    assert!(set(&mut container, id, s));
                    if finalization {
                        connections.remove(index);
                    }
                }
                2 => {
                    container.close_acceptor();
                    receiver_open = false;
                }
                3 => {
                    if receiver_open {
                        for accepted in container.receive_accepted() {
                            assert!(!handed_off.contains(&accepted));
                            handed_off.push(accepted);
                        }
                    }
                }
                4 => {
                    now += (rng.next() % 65536) * MS;
                    let mut v = ExpireTimeout { now, seen: vec![] };
                    container.iterate_timeout_list(now, &mut v);
                }
                5 => {
                    let mut v = Countdown { count: (rng.next() % 4) as u16, transmission: true };
                    container.iterate_transmission_list(&mut v);
                }
                6 => {
                    let mut v = Countdown { count: (rng.next() % 4) as u16, transmission: false };
                    container.iterate_new_connection_id_list(&mut v);
                }
                7 => {
                    container.finalize_done_connections();
                }
                _ => {
                    if connections.is_empty() {
                        continue;
                    }
                    let index = (rng.next() as usize) % connections.len();
                    let id = connections[index];
                    container.poison(id);
                    assert!(!touch(&mut container, id));
                    connections.remove(index);
                }
            }
        }

        container.finalize_done_connections();

        assert_eq!(container.connection_ids(), connections);
    }
}

#[test]
fn closing_list_follows_flag() {
    let (mut container, _) = with_three();
    let mut s = SetInterests::new();
    s.closing = true;
    assert!(set(&mut container, 3, s));
    let mut s = SetInterests::new();
    s.closing = true;
    assert!(set(&mut container, 1, s));
    assert_eq!(container.list(InterestList::Closing), vec![3, 1]);
    assert!(set(&mut container, 3, SetInterests::new()));
    assert_eq!(container.list(InterestList::Closing), vec![1]);
    let mut s = SetInterests::new();
    s.closing = true;
    s.finalization = true;
    assert!(set(&mut container, 1, s));
    assert_eq!(container.list(InterestList::Closing), Vec::<u64>::new());
    assert_eq!(container.interests(1).unwrap().closing, false);
}

#[test]
fn budget_of_two_turns_list_by_two() {
    let mut container = ConnectionContainer::new();
    for id in 1..=4u64 {
        container.insert_connection(TestConnection::default(), id);
        assert!(set(&mut container, id, transmitting()));
    }
    let mut seen = vec![];
    for _ in 0..2 {
        let mut v = Budget { left: 2, transmission: true };
        for (id, _) in container.iterate_transmission_list(&mut v) {
            seen.push(id);
        }
    }
    assert_eq!(seen, vec![1, 2, 3, 4]);
    assert_eq!(container.list(InterestList::Transmission), vec![1, 2, 3, 4]);
    let mut v = Budget { left: 2, transmission: true };
    container.iterate_transmission_list(&mut v);
    assert_eq!(container.list(InterestList::Transmission), vec![3, 4, 1, 2]);
}

#[test]
fn insert_hands_off_connection_reporting_accept() {
    let mut container = ConnectionContainer::new();
    let mut conn = TestConnection::default();
    conn.interests.accept = true;
    container.insert_connection(conn, 7);
    assert_eq!(container.receive_accepted(), vec![7]);
    assert!(!container.interests(7).unwrap().accept);
}

/// Ends the closing of the connection it visits.
struct FinishClosing;

impl ConnectionVisitor<TestConnection> for FinishClosing {
    fn visited(
        &self,
        _before: TestConnection,
        _v_after: Self,
        _after: TestConnection,
        _r: IterationResult,
    ) -> bool {
        true
    }

    fn visit(&mut self, conn: &mut TestConnection) -> IterationResult {
        conn.interests.closing = false;
        IterationResult::Continue
    }
}

#[test]
fn closing_list_drains() {
    let (mut container, _) = with_three();
    for id in [3u64, 1] {
        let mut s = SetInterests::new();
        s.closing = true;
        assert!(set(&mut container, id, s));
    }
    let mut v = FinishClosing;
    let visits = container.iterate_closing_list(&mut v);
    assert_eq!(visits, vec![(3, IterationResult::Continue), (1, IterationResult::Continue)]);
    assert_eq!(container.list(InterestList::Closing), Vec::<u64>::new());
    let mut s = SetInterests::new();
    s.closing = true;
    assert!(set(&mut container, 2, s));
    let mut v = Fixed(IterationResult::Continue);
    container.iterate_closing_list(&mut v);
    assert_eq!(container.list(InterestList::Closing), vec![2]);
}
