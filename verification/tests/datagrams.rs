use dope::manifold::datagram::send::{Outgoing, Payload};
use dope::manifold::datagram::{
    Delivery, GsoLimits, Packet, RecvEvent, RecvOutcome, RecvStep, Socket, IN_FLIGHT_SENDS_CAP,
    OUT_BYTES_CAP, OUT_CAP,
};
use dope::token::{Token, RECV, SEND};

type TestSocket = Socket<&'static str, u32, u64>;

fn payload(out: &Outgoing<&'static str, u32, u64>) -> Vec<u8> {
    match &out.payload {
        Payload::Owned(bytes) => bytes.clone(),
        _ => panic!("expected bytes"),
    }
}

#[test]
fn datagrams_are_sent_in_order() {
    let mut socket: TestSocket = Socket::bind(4, "here");
    assert_eq!(*socket.local_addr(), "here");
    assert!(!socket.needs_flush(false));
    assert!(socket.needs_flush(true));
    assert_eq!(socket.next_send(), None);
    assert_eq!(socket.queue_to(vec![1, 2], "a"), Ok(()));
    assert_eq!(socket.queue_buffer(77, 3, "b"), Ok(()));
    assert_eq!(socket.queue_packet(88, 4, "c"), Ok(()));
    assert!(socket.needs_flush(false));
    let first = socket.next_send().unwrap();
    assert_eq!((first.route, first.kind), (4, SEND));
    assert_eq!(socket.flying(first).unwrap().addr, "a");
    // A send that the driver could not take comes first again.
    socket.unsend(first);
    assert!(socket.flying(first).is_none());
    let again = socket.next_send().unwrap();
    assert_ne!(again, first);
    assert_eq!(payload(socket.flying(again).unwrap()), vec![1, 2]);
    let second = socket.next_send().unwrap();
    let third = socket.next_send().unwrap();
    assert!(!socket.needs_flush(false));
    assert_eq!(socket.next_send(), None);
    assert!(matches!(
        socket.dispatch_send(second).unwrap().payload,
        Payload::Buffer { lease: 77, len: 3 }
    ));
    assert!(socket.dispatch_send(second).is_none());
    assert!(matches!(
        socket.dispatch_send(third).unwrap().payload,
        Payload::Packet { packet: 88, len: 4 }
    ));
    let stray = Token { route: 4, kind: RECV, slot: again.slot, epoch: again.epoch };
    assert!(socket.dispatch_send(stray).is_none());
    assert_eq!(socket.dispatch_send(again).unwrap().segment_size, 0);
}

#[test]
fn flush_ends_with_the_first_refused_send() {
    let mut socket: TestSocket = Socket::bind(4, "here");
    for byte in 0..4 {
        assert_eq!(socket.queue_to(vec![byte], "a"), Ok(()));
    }
    let mut sent = Vec::new();
    let mut tokens = Vec::new();
    while let Some(token) = socket.next_send() {
        let bytes = payload(socket.flying(token).unwrap());
        let accepted = bytes != vec![2];
        if accepted {
            sent.extend(bytes);
            tokens.push(token);
        }
        if !socket.submitted(token, accepted) {
            assert!(socket.flying(token).is_none());
            break;
        }
    }
    assert_eq!(sent, vec![0, 1]);
    assert_ne!(tokens[0], tokens[1]);
    assert_eq!(payload(socket.flying(tokens[1]).unwrap()), vec![1]);
    // The refused one is the first of the next flush.
    let mut rest = Vec::new();
    while let Some(token) = socket.next_send() {
        rest.extend(payload(socket.flying(token).unwrap()));
        assert!(socket.submitted(token, true));
    }
    assert_eq!(rest, vec![2, 3]);
}

#[test]
fn bytes_in_flight_count_until_they_are_sent() {
    let mut socket: TestSocket = Socket::bind(4, "here");
    assert_eq!(socket.queue_buffer(1, OUT_BYTES_CAP, "a"), Ok(()));
    assert_eq!(socket.queue_to(vec![9], "a"), Err(vec![9]));
    assert_eq!(socket.queue_packet(5, 1, "a"), Err(5));
    assert_eq!(socket.queue_to(vec![], "a"), Ok(()));
    let token = socket.next_send().unwrap();
    assert_eq!(socket.queue_buffer(2, 1, "a"), Err(2));
    let _ = socket.dispatch_send(token);
    let _ = socket.dispatch_send(token);
    assert_eq!(socket.queue_buffer(2, OUT_BYTES_CAP, "a"), Ok(()));
    assert_eq!(socket.queue_buffer(3, OUT_BYTES_CAP + 1, "a"), Err(3));
}

#[test]
fn queue_and_flight_are_bounded() {
    let mut socket: TestSocket = Socket::bind(4, "here");
    for _ in 0..OUT_CAP {
        assert_eq!(socket.queue_to(vec![0], "a"), Ok(()));
    }
    assert_eq!(socket.queue_to(vec![0], "a"), Err(vec![0]));
    for _ in 0..IN_FLIGHT_SENDS_CAP {
        assert!(socket.next_send().is_some());
    }
    assert_eq!(socket.queue_to(vec![7], "b"), Ok(()));
    assert_eq!(socket.next_send(), None);
    // What found no room in flight still waits.
    assert!(socket.needs_flush(false));
    assert_eq!(socket.shutdown(None).len(), IN_FLIGHT_SENDS_CAP);
}

#[test]
fn batches_are_of_at_least_two() {
    let limits = GsoLimits { max_bytes: 10, max_segments: 3 };
    let mut socket: TestSocket = Socket::bind(4, "here");
    assert_eq!(socket.queue_gso(vec![0; 4], 4, "a", limits), Err(vec![0; 4]));
    assert_eq!(socket.queue_gso(vec![0; 5], 4, "a", limits), Ok(()));
    assert_eq!(socket.queue_gso(vec![0; 9], 3, "a", limits), Ok(()));
    assert_eq!(socket.queue_gso(vec![0; 10], 3, "a", limits), Err(vec![0; 10]));
    assert_eq!(socket.queue_gso(vec![0; 11], 6, "a", limits), Err(vec![0; 11]));
    let token = socket.next_send().unwrap();
    assert_eq!(socket.flying(token).unwrap().segment_size, 4);
    assert_eq!(socket.flying(token).unwrap().payload.len(), 5);
}

#[test]
fn shutdown_cancels_what_is_in_flight() {
    let mut socket: TestSocket = Socket::bind(4, "here");
    let armed = Token { route: 4, kind: RECV, slot: 0, epoch: 3 };
    assert_eq!(socket.shutdown(Some(armed)), vec![armed]);
    let _ = socket.queue_to(vec![1], "a");
    let _ = socket.queue_to(vec![2], "a");
    let _ = socket.queue_to(vec![3], "a");
    let first = socket.next_send().unwrap();
    let second = socket.next_send().unwrap();
    let mut targets = socket.shutdown(None);
    targets.sort_by_key(|token| token.slot);
    let mut flying = vec![first, second];
    flying.sort_by_key(|token| token.slot);
    assert_eq!(targets, flying);
    assert_eq!(socket.shutdown(Some(armed))[0], armed);
}

#[test]
fn receives_are_sorted_by_what_they_hold() {
    let socket: TestSocket = Socket::bind(4, "here");
    assert_eq!(socket.dispatch_recv(RecvEvent::Data, true), RecvStep::Look);
    assert_eq!(socket.dispatch_recv(RecvEvent::Data, false), RecvStep::Stale);
    assert_eq!(socket.dispatch_recv(RecvEvent::Failed(5), false), RecvStep::Report(5));
    for event in [RecvEvent::Eof, RecvEvent::Cancelled, RecvEvent::Starved, RecvEvent::Discarded] {
        assert_eq!(socket.dispatch_recv(event, true), RecvStep::Nothing);
    }
    let packet = Packet { offset: 1, len: 2 };
    assert_eq!(packet.slice(&[5, 6, 7, 8]), &[6, 7]);
    let (delivery, released) = socket.deliver(RecvOutcome::Packet { src: "a", packet });
    assert!(matches!(delivery, Delivery::Packet { src: "a", packet: p } if p == packet));
    assert!(!released);
    let (delivery, released) = socket.deliver(RecvOutcome::Truncated { src: "a", partial: packet });
    assert!(matches!(delivery, Delivery::Truncated { src: "a", .. }) && released);
    let (delivery, released) = socket.deliver(RecvOutcome::Empty);
    assert!(matches!(delivery, Delivery::Empty) && released);
    let (delivery, released) = socket.deliver(RecvOutcome::Error(9));
    assert!(matches!(delivery, Delivery::Error(9)) && released);
}
