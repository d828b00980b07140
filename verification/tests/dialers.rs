use dope::manifold::connector::source::explicit::Explicit;
use dope::manifold::connector::source::health::Static;
use dope::manifold::connector::source::tagged;
use dope::manifold::connector::source::{Action, DialKey, Dialer};

fn connect(source: &mut Static<&'static str, u8>, now: u128) -> DialKey {
    match source.poll_connect(now) {
        Action::Connect { key } => key,
        other => panic!("expected a connect, got {:?}", other),
    }
}

#[test]
fn static_hands_out_each_upstream_once() {
    let mut source: Static<&str, u8> = Static::new(vec!["a", "b"], 1000, 1);
    assert!(source.has_pending());
    let a = connect(&mut source, 0);
    let b = connect(&mut source, 0);
    assert_eq!((a.index(), b.index()), (0, 1));
    assert_eq!(source.sock_addr(a), Some(&"a"));
    assert_eq!(source.sock_addr(b), Some(&"b"));
    assert_eq!(source.stream_config(a), None);
    assert_eq!(source.poll_connect(0), Action::Idle);
    assert!(!source.has_pending());
}

#[test]
fn static_backs_off_by_the_window() {
    let mut source: Static<&str, u8> = Static::new(vec!["a"], 1000, 1);
    let first = connect(&mut source, 0);
    source.connect_outcome(first, true, 0);
    source.disconnect(first, 50);
    // Half of a doubled window, and 165 by chance.
    assert_eq!(source.poll_connect(50), Action::Backoff { min_retry_at: 50 + 1000 + 165 });
    assert_eq!(source.poll_connect(1214), Action::Backoff { min_retry_at: 1215 });
    let second = connect(&mut source, 1215);
    assert_ne!(second, first);
    source.connect_outcome(second, false, 2000);
    // The window doubles with the next failure.
    assert_eq!(source.poll_connect(2000), Action::Backoff { min_retry_at: 2000 + 2000 + 1517 });
}

#[test]
fn static_ignores_stale_keys() {
    let mut source: Static<&str, u8> = Static::new(vec!["a"], 1000, 1);
    let first = connect(&mut source, 0);
    source.connect_outcome(first, false, 0);
    let retry = match source.poll_connect(0) {
        Action::Backoff { min_retry_at } => min_retry_at,
        other => panic!("expected a backoff, got {:?}", other),
    };
    let second = connect(&mut source, retry);
    source.kill(first);
    source.disconnect(first, retry);
    source.connect_outcome(first, false, retry);
    assert_eq!(source.sock_addr(first), None);
    assert_eq!(source.sock_addr(second), Some(&"a"));
}

#[test]
fn static_killed_upstream_waits_for_revival() {
    let mut source: Static<&str, u8> = Static::new(vec!["a"], 1000, 1);
    let key = connect(&mut source, 0);
    source.kill(key);
    assert_eq!(source.poll_connect(1_000_000), Action::Idle);
    source.revive();
    let again = connect(&mut source, 1_000_000);
    assert_eq!(source.sock_addr(again), Some(&"a"));
}

#[test]
fn static_deferred_dial_comes_up_again() {
    let mut source: Static<&str, u8> = Static::new(vec!["a"], 1000, 1);
    let key = connect(&mut source, 0);
    source.connect_deferred(key, 0);
    let again = connect(&mut source, 0);
    assert_eq!(again.index(), key.index());
}

#[test]
fn static_dials_addresses_by_hand() {
    let mut source: Static<&str, u8> = Static::new(vec![], 1000, 1);
    source.resize(1);
    assert_eq!(source.poll_connect(0), Action::Idle);
    let dialed = source.dial("x", 7).unwrap();
    assert_eq!(source.dial("y", 8), None);
    let key = connect(&mut source, 0);
    assert_eq!(key, dialed);
    assert_eq!(source.sock_addr(key), Some(&"x"));
    assert_eq!(source.stream_config(key), Some(7));
    // What was dialed by hand is not dialed again when it disconnects.
    source.disconnect(key, 0);
    assert_eq!(source.poll_connect(1_000_000), Action::Idle);
    let again = source.dial("y", 8).unwrap();
    assert_ne!(again, dialed);
    assert_eq!(connect(&mut source, 0), again);
}

#[test]
fn static_slots_beyond_the_upstreams_share_them() {
    let mut source: Static<&str, u8> = Static::new(vec!["a", "b"], 1000, 1);
    source.resize(3);
    let _ = connect(&mut source, 0);
    let _ = connect(&mut source, 0);
    let third = connect(&mut source, 0);
    assert_eq!(source.sock_addr(third), Some(&"a"));
    assert_eq!(source.dial("x", 0), None);
}

#[test]
fn explicit_hands_out_in_order_of_dialing() {
    let mut source: Explicit<&str, u8> = Explicit::with_capacity(2);
    assert_eq!(source.capacity(), 2);
    assert!(!source.has_pending());
    let a = source.dial("a", 1).unwrap();
    let b = source.dial("b", 2).unwrap();
    assert_eq!(source.dial("c", 3), None);
    assert!(source.has_pending());
    assert_eq!(source.poll_connect(0), Action::Connect { key: a });
    assert_eq!(source.poll_connect(0), Action::Connect { key: b });
    assert_eq!(source.poll_connect(0), Action::Idle);
    assert_eq!(source.sock_addr(b), Some(&"b"));
    assert_eq!(source.stream_config(b), Some(2));
}

#[test]
fn explicit_deferred_dial_comes_last() {
    let mut source: Explicit<&str, u8> = Explicit::default();
    assert_eq!(source.dial("a", 1), None);
    source.resize(2);
    let a = source.dial("a", 1).unwrap();
    let b = source.dial("b", 2).unwrap();
    assert_eq!(source.poll_connect(0), Action::Connect { key: a });
    source.connect_deferred(a, 0);
    assert_eq!(source.poll_connect(0), Action::Connect { key: b });
    assert_eq!(source.poll_connect(0), Action::Connect { key: a });
}

#[test]
fn explicit_freed_dial_is_gone() {
    let mut source: Explicit<&str, u8> = Explicit::with_capacity(3);
    let a = source.dial("a", 1).unwrap();
    let b = source.dial("b", 2).unwrap();
    let c = source.dial("c", 3).unwrap();
    source.kill(b);
    assert_eq!(source.sock_addr(b), None);
    source.bind(a, 17);
    assert_eq!(source.poll_connect(0), Action::Connect { key: a });
    assert_eq!(source.poll_connect(0), Action::Connect { key: c });
    assert_eq!(source.kill_shared(a), Some(17));
    assert_eq!(source.kill_shared(a), None);
    source.disconnect(c, 0);
    let again = source.dial("d", 4).unwrap();
    assert!(again != a && again != b && again != c);
    source.connect_outcome(again, true, 0);
    assert_eq!(source.sock_addr(again), Some(&"d"));
    source.connect_outcome(again, false, 0);
    assert_eq!(source.sock_addr(again), None);
}

#[test]
fn tagged_explicit_reuses_the_first_free_tag() {
    let mut source: tagged::Explicit<&str> = tagged::Explicit::new();
    assert_eq!(source.dial("a"), 0);
    assert_eq!(source.dial("b"), 1);
    source.kill(0);
    assert_eq!(source.dial("c"), 0);
    // The tag waits twice: once for each time that it was dialed.
    let mut tags = Vec::new();
    loop {
        match source.poll_connect() {
            tagged::Action::Connect { addr, tag } => tags.push((addr, tag)),
            tagged::Action::Idle => break,
            tagged::Action::Backoff { .. } => panic!("nothing is tried again"),
        }
    }
    assert_eq!(tags, vec![("c", 0), ("b", 1), ("c", 0)]);
    assert_eq!(source.sock_addr(1), Some(&"b"));
    source.connect_outcome(1, false);
    assert_eq!(source.sock_addr(1), None);
    source.disconnect(0);
    assert_eq!(source.sock_addr(0), None);
    source.resize(4);
    assert_eq!(source.sock_addr(3), None);
}

fn tag_of(action: tagged::Action<&'static str>) -> (&'static str, u32) {
    match action {
        tagged::Action::Connect { addr, tag } => (addr, tag),
        _ => panic!("expected a connect"),
    }
}

#[test]
fn tagged_upstreams_take_turns() {
    let mut source: tagged::Static<&str> = tagged::Static::new(vec!["a", "b"], 1000, 5);
    source.resize(3);
    assert_eq!(tag_of(source.poll_connect(0)), ("a", 0));
    assert_eq!(tag_of(source.poll_connect(0)), ("b", 1));
    assert_eq!(tag_of(source.poll_connect(0)), ("a", 2));
    assert!(matches!(source.poll_connect(0), tagged::Action::Idle));
    source.connect_deferred(1, 0);
    assert_eq!(tag_of(source.poll_connect(0)), ("b", 1));
}

#[test]
fn tagged_backoff_is_half_a_window_and_jitter() {
    let mut source: tagged::Static<&str> = tagged::Static::new(vec!["a"], 1000, 5);
    assert_eq!(tag_of(source.poll_connect(0)), ("a", 0));
    source.disconnect(0, 10);
    match source.poll_connect(10) {
        tagged::Action::Backoff { min_retry_at } => assert_eq!(min_retry_at, 10 + 1000 + 956),
        _ => panic!("expected a backoff"),
    }
    assert_eq!(tag_of(source.poll_connect(1966)), ("a", 0));
    source.connect_outcome(0, true, 1966);
    source.kill(0);
    source.connect_outcome(0, true, 1966);
    assert!(matches!(source.poll_connect(u128::MAX), tagged::Action::Idle));
    source.revive();
    assert_eq!(tag_of(source.poll_connect(0)), ("a", 0));
}

#[test]
fn tagged_dialed_slot_dies_when_it_disconnects() {
    let mut source: tagged::Static<&str> = tagged::Static::new(vec!["a"], 1000, 5);
    let tag = source.dial("x");
    assert_eq!(tag, 1);
    assert_eq!(source.sock_addr(tag), Some(&"x"));
    source.disconnect(tag, 0);
    // The dead slot is dialed again before a new one is made.
    assert_eq!(source.dial("y"), 1);
    assert_eq!(source.dial("z"), 2);
    assert_eq!(source.sock_addr(1), Some(&"y"));
}

#[test]
fn tagged_revived_slots_are_handed_out_once() {
    let mut source: tagged::Static<&str> = tagged::Static::new(vec!["a", "b", "c", "d"], 1000, 5);
    for tag in 0..4 {
        assert_eq!(tag_of(source.poll_connect(0)).1, tag);
    }
    // One is dead, one waits, one was never taken, and one is in use.
    source.kill(0);
    source.connect_outcome(1, false, 10);
    source.connect_deferred(3, 10);
    assert_eq!(tag_of(source.poll_connect(10)).1, 3);
    assert!(matches!(source.poll_connect(10), tagged::Action::Backoff { .. }));
    source.connect_deferred(3, 10);
    source.revive();
    let mut tags = Vec::new();
    loop {
        match source.poll_connect(10) {
            tagged::Action::Connect { tag, .. } => tags.push(tag),
            tagged::Action::Idle => break,
            tagged::Action::Backoff { .. } => panic!("nothing is waited for"),
        }
    }
    assert_eq!(tags, vec![0, 1, 3]);
}
