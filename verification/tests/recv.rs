use dope::manifold::listener::recv;
use dope::manifold::listener::recv::state::State;
use dope::manifold::listener::recv::ExtendOutcome;

#[test]
fn body_and_backlog_limits_are_independent_from_the_head_limit() {
    let mut recv = State::<8, 32>::default();
    assert!(matches!(recv.extend(&[0; 8]), ExtendOutcome::Accepted));
    assert!(matches!(recv.extend(&[0]), ExtendOutcome::Overrun));

    recv.permit_body();
    assert!(matches!(recv.extend(&[0; 24]), ExtendOutcome::Accepted));
    assert!(matches!(recv.extend_backlog(&[0]), ExtendOutcome::Overrun));

    recv.clear();
    recv.restrict_to_head();
    assert!(matches!(recv.extend_backlog(&[0; 32]), ExtendOutcome::Accepted));
    assert!(matches!(recv.extend_backlog(&[0]), ExtendOutcome::Overrun));
}

#[test]
fn bytes_come_out_in_order() {
    let mut recv = State::<64, 64>::default();
    assert!(recv.snapshot().is_none());
    recv.extend(b"abc");
    recv.extend(b"de");
    assert_eq!(recv.snapshot().expect("bytes").as_slice(), b"abcde");
    recv.advance(3);
    assert_eq!(recv.snapshot().expect("bytes").as_slice(), b"de");
    assert!(recv.is_accumulating());
    recv.advance(2);
    assert!(!recv.is_accumulating());
    assert!(recv.snapshot().is_none());
}

#[test]
fn reserve_is_bounded_by_the_hard_cap() {
    let mut recv = State::<8, 32>::default();
    assert!(recv.try_reserve_to(32));
    assert!(!recv.try_reserve_to(33));
    assert!(recv.is_accumulating());
}

#[test]
fn existing_bytes_only() {
    let mut recv = State::<8, 32>::default();
    assert_eq!(recv.extend_existing(b"xyz"), ExtendOutcome::Accepted);
    assert!(recv.snapshot().is_none());
    recv.extend(b"a");
    assert_eq!(recv.extend_existing(b"xyz"), ExtendOutcome::Accepted);
    assert_eq!(recv.snapshot().expect("bytes").as_slice(), b"axyz");
    assert_eq!(recv.extend_existing(b"12345"), ExtendOutcome::Overrun);
}

#[test]
fn freezing() {
    let mut recv = State::<8, 32>::default();
    assert!(!recv.is_frozen());
    recv.freeze();
    assert!(recv.is_frozen());
    recv.unfreeze();
    assert!(!recv.is_frozen());
}

#[test]
fn declared_bodies_are_clamped() {
    let mut recv = recv::State::<8, 32>::default();
    recv.set_body_limit(4);
    assert_eq!(recv.extend_accum(&[0; 8]), ExtendOutcome::Accepted);
    assert_eq!(recv.extend_accum(&[0]), ExtendOutcome::Overrun);
    recv.set_body_limit(20);
    assert_eq!(recv.extend_accum(&[0; 12]), ExtendOutcome::Accepted);
    assert_eq!(recv.extend_accum(&[0]), ExtendOutcome::Overrun);
    recv.set_body_limit(1000);
    assert_eq!(recv.extend_accum(&[0; 12]), ExtendOutcome::Accepted);
    assert_eq!(recv.extend_accum(&[0]), ExtendOutcome::Overrun);
    recv.reset_limit();
    assert_eq!(recv.extend_existing(&[0]), ExtendOutcome::Overrun);
    assert!(recv.reserve_accum(32));
    assert!(!recv.reserve_accum(33));
}
