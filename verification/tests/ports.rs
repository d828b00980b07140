use dope::manifold::connector::app::CloseKind;
use dope::manifold::connector::port::{Noting, Outlet, Port};
use dope::park::WakeRef;
use dope::token::Token;

fn token(slot: u32, epoch: u32) -> Token {
    Token { route: 1, kind: 0, slot, epoch }
}

fn wake(id: u64) -> WakeRef {
    WakeRef { id }
}

#[test]
fn values_leave_in_the_order_they_came() {
    let mut port: Port<&str> = Port::with_capacity(2);
    assert_eq!(port.capacity(), 2);
    assert!(!port.is_active(token(0, 1)));
    assert_eq!(port.try_enqueue(token(0, 1), "early", 5, true), Err("early"));
    assert!(port.activate(token(0, 1), wake(8)));
    assert!(port.is_active(token(0, 1)));
    assert!(!port.activate(token(2, 1), wake(8)));
    assert_eq!(port.try_enqueue(token(0, 1), "a", 1, true), Ok(Some(wake(8))));
    assert_eq!(port.try_enqueue(token(0, 1), "", 0, true), Ok(None));
    assert_eq!(port.try_enqueue(token(0, 1), "b", 1, true), Ok(Some(wake(8))));
    assert_eq!(port.try_enqueue(token(0, 1), "c", 1, false), Err("c"));
    let mut taken: Vec<&str> = Vec::new();
    let requests = port.drain_requests(token(0, 1), &mut taken).unwrap();
    assert_eq!(taken, vec!["a", "b"]);
    assert_eq!(requests.close, None);
    assert!(port.drain_requests(token(1, 1), &mut taken).is_none());
}

/// Takes a few values and gives the rest back.
struct Narrow {
    taken: Vec<&'static str>,
    room: usize,
}

impl Outlet<&'static str> for Narrow {
    fn takes(&self, _: &'static str, _: Option<&'static str>, _: Self) -> bool {
        true
    }

    fn push(&mut self, value: &'static str) -> Result<(), &'static str> {
        if self.taken.len() == self.room {
            return Err(value);
        }
        self.taken.push(value);
        Ok(())
    }
}

#[test]
fn values_that_are_given_back_are_not_noted() {
    let mut port: Port<&str> = Port::with_capacity(1);
    assert!(port.activate(token(0, 1), wake(8)));
    for value in ["a", "b", "c"] {
        assert_eq!(port.try_enqueue(token(0, 1), value, 1, true), Ok(Some(wake(8))));
    }
    let mut shut = Noting::new(Narrow { taken: Vec::new(), room: 0 });
    assert!(port.drain_requests(token(0, 1), &mut shut).is_some());
    assert!(!shut.taken);
    let mut narrow = Noting::new(Narrow { taken: Vec::new(), room: 2 });
    assert!(port.drain_requests(token(0, 1), &mut narrow).is_some());
    assert!(narrow.taken);
    assert_eq!(narrow.outlet.taken, vec!["a", "b"]);
    let mut rest: Vec<&str> = Vec::new();
    assert!(port.drain_requests(token(0, 1), &mut rest).is_some());
    assert_eq!(rest, vec!["c"]);
}

#[test]
fn close_is_requested_once() {
    let mut port: Port<&str> = Port::with_capacity(1);
    assert!(port.activate(token(0, 1), wake(8)));
    assert_eq!(port.close(token(0, 2)), None);
    assert_eq!(port.close(token(0, 1)), Some(wake(8)));
    let mut taken = Vec::new();
    let first = port.drain_requests(token(0, 1), &mut taken).unwrap();
    assert_eq!(first.close, Some(CloseKind::Reconnect));
    let second = port.drain_requests(token(0, 1), &mut taken).unwrap();
    assert_eq!(second.close, None);
}

#[test]
fn old_senders_are_dead() {
    let mut port: Port<&str> = Port::with_capacity(1);
    assert!(port.activate(token(0, 1), wake(8)));
    let sender = port.sender(token(0, 1)).unwrap();
    assert_eq!(sender.try_enqueue(&mut port, "a", 1, true), Ok(Some(wake(8))));
    assert_eq!(sender.close(&mut port), Some(wake(8)));
    port.deactivate(token(0, 1));
    assert!(port.activate(token(0, 2), wake(9)));
    assert_eq!(sender.try_enqueue(&mut port, "b", 1, true), Err("b"));
    assert_eq!(sender.close(&mut port), None);
    // What was handed in before is gone, and so is the request to close.
    let mut taken: Vec<&str> = Vec::new();
    let requests = port.drain_requests(token(0, 2), &mut taken).unwrap();
    assert!(taken.is_empty());
    assert_eq!(requests.close, None);
}

#[test]
fn close_in_the_middle_ends_the_hand_over() {
    let mut port: Port<&str> = Port::with_capacity(1);
    assert!(port.activate(token(0, 1), wake(8)));
    let sender = port.sender(token(0, 1)).unwrap();
    assert!(sender.begin(&mut port));
    // While something is being handed over, nothing else is.
    assert!(!port.is_active(token(0, 1)));
    assert_eq!(port.try_enqueue(token(0, 1), "x", 1, true), Err("x"));
    assert_eq!(port.close(token(0, 1)), Some(wake(8)));
    assert_eq!(sender.finish(&mut port, "a", 1, true), Err("a"));
    assert!(port.is_active(token(0, 1)));
    let mut taken: Vec<&str> = Vec::new();
    let requests = port.drain_requests(token(0, 1), &mut taken).unwrap();
    assert!(taken.is_empty());
    assert_eq!(requests.close, Some(CloseKind::Reconnect));
}

#[test]
fn refused_value_goes_back_to_the_front() {
    let mut port: Port<&str> = Port::with_capacity(1);
    assert!(port.activate(token(0, 1), wake(8)));
    for value in ["a", "b", "c"] {
        assert!(port.try_enqueue(token(0, 1), value, 1, true).is_ok());
    }
    let receiver = port.receiver(token(0, 1)).unwrap();
    assert!(receiver.begin(&mut port));
    assert_eq!(receiver.take(&mut port), Some("a"));
    assert!(receiver.accepted(&port));
    assert_eq!(receiver.take(&mut port), Some("b"));
    receiver.refused(&mut port, "b");
    assert!(!receiver.take_close(&mut port));
    let mut taken: Vec<&str> = Vec::new();
    receiver.drain(&mut port, &mut taken);
    assert_eq!(taken, vec!["b", "c"]);
    // A receiver that is not begun with takes nothing of another hand-over.
    assert!(receiver.begin(&mut port));
    assert_eq!(receiver.take(&mut port), None);
    assert!(port.is_active(token(0, 1)));
}
