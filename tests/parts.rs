use connection_container::accept::AcceptChannel;
use connection_container::handle::{ConnectionUpdate, Handle, HandleError};
use connection_container::interest::InterestSet;

struct Bump;

impl ConnectionUpdate<u32> for Bump {
    fn applied(&self, before: u32, _f_after: Self, after: u32) -> bool {
        after == before + 1
    }

    fn update(&mut self, conn: &mut u32) {
        *conn += 1;
    }
}

#[test]
fn handle_write_then_poison() {
    let mut h = Handle::new(5u32);
    assert_eq!(h.write(&mut Bump), Ok(()));
    assert_eq!(h.read(), Ok(&6));
    h.poison();
    assert!(h.is_poisoned());
    assert_eq!(h.write(&mut Bump), Err(HandleError::Unavailable));
    assert_eq!(h.read(), Err(HandleError::Unavailable));
    h.poison();
    assert!(h.is_poisoned());
}

#[test]
fn accept_channel_keeps_order_until_closed() {
    let mut c = AcceptChannel::new();
    c.send(3);
    c.send(1);
    assert_eq!(c.receive_all(), vec![3, 1]);
    assert_eq!(c.receive_all(), Vec::<u64>::new());
    c.send(4);
    c.close();
    assert!(c.is_closed());
    c.send(5);
    assert_eq!(c.receive_all(), Vec::<u64>::new());
}

#[test]
fn interest_set_none_is_empty() {
    let i = InterestSet::none();
    assert!(!i.finalization && !i.closing && !i.accept && !i.transmission && !i.new_connection_id);
    assert_eq!(i.timeout, None);
}
