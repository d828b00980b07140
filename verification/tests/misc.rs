use dope::manifold::typed::TypedToken;
use dope::memstats::MemStats;
use dope::time::{deadline_after, earlier};
use dope::token::Token;

#[test]
fn gauges_remember_the_highest_mark() {
    let mut stats = MemStats::new();
    stats.provided_borrow();
    stats.provided_borrow();
    stats.provided_release();
    stats.provided_borrow();
    assert_eq!((stats.provided.live, stats.provided.hwm), (2, 2));
    stats.provided_release();
    stats.provided_release();
    stats.provided_release();
    assert_eq!((stats.provided.live, stats.provided.hwm), (0, 2));
    stats.arena_observe(7);
    stats.arena_observe(3);
    assert_eq!(stats.arena_hwm, 7);
    stats.enobufs_inc();
    stats.starved_rearm_inc();
    stats.starved_rearm_inc();
    assert_eq!((stats.enobufs, stats.starved_rearm), (1, 2));
    stats.send_borrow();
    stats.tls_egress_borrow();
    stats.tls_recv_borrow();
    stats.tls_send_borrow();
    stats.send_release();
    stats.tls_egress_release();
    stats.tls_recv_release();
    stats.tls_send_release();
    assert_eq!((stats.send.live, stats.send.hwm), (0, 1));
    assert_eq!((stats.tls_egress.live, stats.tls_egress.hwm), (0, 1));
    assert_eq!((stats.tls_recv.live, stats.tls_recv.hwm), (0, 1));
    assert_eq!((stats.tls_send.live, stats.tls_send.hwm), (0, 1));
}

#[test]
fn typed_tokens_belong_to_their_route() {
    let token = Token { route: 4, kind: 0, slot: 9, epoch: 1 };
    let typed = TypedToken::<4>::try_new(token).unwrap();
    assert_eq!(typed.slot(), 9);
    assert_eq!(typed.into_inner(), token);
    assert!(TypedToken::<5>::try_new(token).is_none());
    assert_eq!(TypedToken::<4>::new_unchecked(token).retag::<4>().into_inner(), token);
    assert!(token.same_target(token.with_kind(3)));
    assert!(!token.same_target(Token { epoch: 2, ..token }));
}

#[test]
fn deadlines_do_not_overflow() {
    assert_eq!(deadline_after(5, 7), 12);
    assert_eq!(deadline_after(u128::MAX - 1, 7), u128::MAX);
    assert_eq!(earlier(Some(3), Some(2)), Some(2));
    assert_eq!(earlier(None, Some(2)), Some(2));
    assert_eq!(earlier(Some(3), None), Some(3));
    assert_eq!(earlier(None, None), None);
}
