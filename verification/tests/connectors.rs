use dope::manifold::connector::app::{ChunkOutcome, CloseKind, Requests};
use dope::manifold::connector::engine::close::DrainStep;
use dope::manifold::connector::engine::connect::ConnectStep;
use dope::manifold::connector::engine::recv::DispatchRecv;
use dope::manifold::connector::engine::send::{Egress, SendOutcome};
use dope::manifold::connector::engine::source::{SourceStep, Submitted};
use dope::manifold::connector::engine::{Core, Task};
use dope::manifold::connector::source::explicit::Explicit;
use dope::manifold::connector::source::DialKey;
use dope::manifold::connector::state::Establish;
use dope::manifold::{Idle, Reclaim, SetupError};
use dope::token::Token;

type TestCore = Core<&'static str, u8, u32, Explicit<&'static str, u8>>;

fn make(max_connections: usize, reclaim: Reclaim) -> TestCore {
    let upstreams = Explicit::with_capacity(max_connections);
    let made: Result<TestCore, SetupError<()>> =
        Core::with_app_configs(7, reclaim, upstreams, max_connections, Ok(0), true);
    match made {
        Ok(conns) => conns,
        Err(_) => panic!("the configuration is fine"),
    }
}

fn token(slot: u32) -> Token {
    Token { route: 7, kind: 0, slot, epoch: 1 }
}

fn drain(conns: &mut TestCore) -> Vec<Task> {
    let mut tasks = Vec::new();
    while let Some(task) = conns.next() {
        tasks.push(task);
    }
    tasks
}

/// Dials an address and brings its connection up in slot 0.
fn establish(conns: &mut TestCore) -> DialKey {
    let key = conns.dial("a", 1).unwrap();
    conns.poll_source(0);
    let left = match conns.next() {
        Some(Task::Source { left }) => left,
        other => panic!("expected a poll, got {:?}", other),
    };
    match conns.source(left, 0) {
        SourceStep::Submit { key: polled, left } => {
            assert_eq!(polled, key);
            conns.submitted(polled, left, Submitted::Opened { token: token(0), conn: 33 }, 0);
        }
        other => panic!("expected a socket, got {:?}", other),
    }
    conns.connecting(0);
    conns.connect(ConnectStep::Connected { idx: 0, key }, 5);
    while let Some(task) = conns.next() {
        match task {
            Task::Established { key } => assert_eq!(conns.established(key, 5, None), None),
            Task::Source { left } => {
                let _ = conns.source(left, 0);
            }
            _ => {}
        }
    }
    key
}

#[test]
fn setup_refuses_bad_configurations() {
    let empty: Result<TestCore, SetupError<u8>> = Core::with_app_configs(
        0,
        Reclaim::OnSubmit,
        Explicit::with_capacity(1),
        0,
        Ok(0),
        true,
    );
    assert!(matches!(empty, Err(SetupError::Capacity)));
    let huge: Result<TestCore, SetupError<u8>> = Core::with_app_configs(
        0,
        Reclaim::OnSubmit,
        Explicit::with_capacity(1),
        1 << 24,
        Err(9),
        false,
    );
    assert!(matches!(huge, Err(SetupError::Capacity)));
    let retention: Result<TestCore, SetupError<u8>> = Core::with_app_configs(
        0,
        Reclaim::OnSubmit,
        Explicit::with_capacity(1),
        1,
        Err(9),
        false,
    );
    assert!(matches!(retention, Err(SetupError::Retention(9))));
    let storage: Result<TestCore, SetupError<u8>> = Core::with_app_configs(
        0,
        Reclaim::OnSubmit,
        Explicit::with_capacity(1),
        1,
        Ok(0),
        false,
    );
    assert!(matches!(storage, Err(SetupError::Storage)));
}

#[test]
fn dialed_connection_comes_up() {
    let mut conns = make(2, Reclaim::OnComplete);
    assert_eq!(conns.backoff_key(), Token { route: 7, kind: 0, slot: 2, epoch: 0 });
    let key = establish(&mut conns);
    let state = conns.state(token(0)).unwrap();
    assert_eq!(state.dial, key);
    assert_eq!(state.establish, Establish::Done);
    assert_eq!(state.last_recv, Some(5));
    assert_eq!(state.conn, 33);
    assert!(conns.state(Token { epoch: 2, ..token(0) }).is_none());
    *conns.state_for(token(0)).unwrap() = 34;
    assert_eq!(conns.state(token(0)).unwrap().conn, 34);
    let (dial, addr, config) = conns.socket_target(0).unwrap();
    assert_eq!(dial, key);
    assert_eq!(addr, Some(&"a"));
    assert_eq!(config, Some(1));
    assert!(conns.socket_target(1).is_none());
    assert_eq!(conns.idle(true, false, Idle::Park(Some(3))), Idle::Park(Some(3)));
    assert_eq!(conns.idle(true, true, Idle::Park(Some(3))), Idle::Busy);
}

#[test]
fn full_pool_defers_the_dial() {
    let mut conns = make(1, Reclaim::OnComplete);
    let key = conns.dial("a", 1).unwrap();
    conns.poll_source(0);
    assert_eq!(conns.next(), Some(Task::Source { left: 1 }));
    assert_eq!(conns.source(1, 0), SourceStep::Submit { key, left: 0 });
    conns.submitted(key, 0, Submitted::Full, 0);
    assert_eq!(conns.next(), None);
    conns.poll_source(0);
    assert_eq!(conns.next(), Some(Task::Source { left: 1 }));
    assert_eq!(conns.source(1, 0), SourceStep::Submit { key, left: 0 });
    conns.submitted(key, 0, Submitted::Failed, 0);
    assert_eq!(conns.sock_addr(key), None);
    assert_eq!(conns.next(), Some(Task::OpenFailed { key }));
    assert_eq!(conns.next(), Some(Task::Source { left: 0 }));
    assert_eq!(conns.source(0, 0), SourceStep::Done);
    conns.poll_source(0);
    assert_eq!(conns.next(), None);
}

#[test]
fn application_hears_of_a_connect_before_the_dialer() {
    let mut conns = make(1, Reclaim::OnComplete);
    let key = conns.dial("a", 1).unwrap();
    conns.connect(ConnectStep::Connected { idx: 0, key }, 5);
    assert_eq!(drain(&mut conns), vec![Task::Egress { idx: 0 }, Task::Established { key }]);
    conns.poll_source(0);
    assert_eq!(conns.next(), Some(Task::Source { left: 1 }));
    let _ = conns.source(1, 0);
    conns.submitted(key, 0, Submitted::Opened { token: token(0), conn: 1 }, 0);
    let _ = drain(&mut conns);
    conns.connecting(0);
    conns.connect(ConnectStep::Connected { idx: 0, key }, 5);
    assert_eq!(
        drain(&mut conns),
        vec![Task::Connected { idx: 0, key }, Task::Egress { idx: 0 }, Task::Established { key }]
    );
}

#[test]
fn failed_connect_is_reported_once() {
    let mut conns = make(1, Reclaim::OnComplete);
    let key = conns.dial("a", 1).unwrap();
    conns.connect(ConnectStep::Dropped(None), 0);
    assert_eq!(conns.next(), None);
    for step in [ConnectStep::Failed { key }, ConnectStep::Dropped(Some(key))] {
        conns.connect(step, 0);
        // The application is told while the dialer still knows the address.
        assert_eq!(conns.next(), Some(Task::ConnectFailed { key }));
        assert_eq!(conns.next(), Some(Task::Unsettle { key }));
        assert_eq!(conns.next(), None);
    }
    assert_eq!(conns.sock_addr(key), Some(&"a"));
    conns.unsettle(key, 0);
    assert_eq!(conns.sock_addr(key), None);
    conns.socket(Some(key), 0);
    conns.poll_source(0);
    assert_eq!(conns.next(), None);
}

#[test]
fn received_bytes_lead_to_writes_and_closes() {
    let mut conns = make(1, Reclaim::OnComplete);
    establish(&mut conns);
    conns.handle_recv(DispatchRecv::NoChunk { idx: 0 }, 9);
    assert_eq!(conns.state(token(0)).unwrap().last_recv, Some(9));
    assert_eq!(
        drain(&mut conns),
        vec![Task::Egress { idx: 0 }, Task::MaybeClose { idx: 0 }]
    );
    conns.handle_recv(DispatchRecv::Chunk { idx: 0 }, 10);
    assert_eq!(conns.state(token(0)).unwrap().last_recv, Some(10));
    assert_eq!(drain(&mut conns), vec![Task::Chunk { idx: 0 }]);
    conns.handle_recv(DispatchRecv::Chunk { idx: 5 }, 10);
    assert_eq!(drain(&mut conns), vec![Task::MaybeClose { idx: 5 }]);
    conns.finish_chunk(0, ChunkOutcome::ClosePermanent);
    assert_eq!(
        drain(&mut conns),
        vec![
            Task::Egress { idx: 0 },
            Task::Kill { idx: 0 },
            Task::CloseAfter { idx: 0 },
            Task::MaybeClose { idx: 0 },
        ]
    );
    conns.finish_chunk(0, ChunkOutcome::Overrun);
    assert_eq!(drain(&mut conns), vec![Task::Abort { idx: 0 }, Task::Close { idx: 0 }]);
    conns.finish_chunk(0, ChunkOutcome::CloseReconnect);
    assert_eq!(drain(&mut conns).len(), 3);
    conns.finish_chunk(0, ChunkOutcome::Accepted);
    assert_eq!(drain(&mut conns).len(), 2);
    conns.handle_recv(DispatchRecv::Close { idx: 0 }, 11);
    assert_eq!(drain(&mut conns), vec![Task::Close { idx: 0 }]);
    conns.handle_recv(DispatchRecv::Stale, 11);
    assert_eq!(drain(&mut conns), vec![]);
    conns.kill_dial(0);
    let (_, addr, _) = conns.socket_target(0).unwrap();
    assert_eq!(addr, None);
}

#[test]
fn closing_tells_the_dialer_once() {
    let mut conns = make(1, Reclaim::OnComplete);
    establish(&mut conns);
    let key = conns.state(token(0)).unwrap().dial;
    conns.close_slot(0);
    assert_eq!(
        drain(&mut conns),
        vec![
            Task::Closed { idx: 0 },
            Task::Dismiss { key, permanent: false },
            Task::DrainClose { idx: 0 },
        ]
    );
    conns.close_slot(0);
    assert_eq!(drain(&mut conns), vec![Task::DrainClose { idx: 0 }]);
    let (_, addr, _) = conns.socket_target(0).unwrap();
    assert_eq!(addr, Some(&"a"));
    // The dialer lets go of the address when it is told.
    conns.dismiss(key, false, 20);
    let (_, addr, _) = conns.socket_target(0).unwrap();
    assert_eq!(addr, None);
    assert_eq!(conns.drain_close(0, true, true), DrainStep::AwaitSend);
    assert_eq!(conns.drain_close(0, false, true), DrainStep::Seal);
    assert!(!conns.unsealed(0, false));
    assert!(conns.unsealed(0, true));
    conns.release(0);
    assert_eq!(conns.drain_close(0, false, true), DrainStep::Done);
    assert!(conns.state(token(0)).is_none());
}

#[test]
fn half_made_connections_are_canceled() {
    let mut conns = make(1, Reclaim::OnComplete);
    let key = conns.dial("a", 1).unwrap();
    conns.poll_source(0);
    let _ = conns.next();
    let _ = conns.source(1, 0);
    conns.submitted(key, 0, Submitted::Opened { token: token(0), conn: 0 }, 0);
    assert_eq!(conns.drain_close(0, false, true), DrainStep::CancelCreate);
    assert_eq!(conns.drain_close(0, false, false), DrainStep::Done);
    conns.connecting(0);
    assert_eq!(conns.drain_close(0, false, false), DrainStep::CancelConnect);
    let _ = drain(&mut conns);
    // The application never heard of it.
    conns.close_slot(0);
    assert_eq!(
        drain(&mut conns),
        vec![Task::Dismiss { key, permanent: false }, Task::DrainClose { idx: 0 }]
    );
    conns.cancel_submitted(0, true);
    assert_eq!(conns.idle(false, false, Idle::Park(None)), Idle::Park(None));
    conns.cancel_submitted(0, false);
    assert_eq!(conns.idle(false, false, Idle::Park(None)), Idle::Busy);
}

#[test]
fn marks_are_seen_to_in_order() {
    let mut conns = make(1, Reclaim::OnComplete);
    establish(&mut conns);
    conns.flush(token(0));
    conns.shutdown_conn(token(0), 2);
    conns.close(token(0));
    conns.close(Token { epoch: 9, ..token(0) });
    conns.flush_dirty();
    assert_eq!(conns.next(), Some(Task::Flush { left: 1 }));
    conns.flush_next(1);
    assert_eq!(conns.shutdown_how(0), 2);
    assert_eq!(conns.shutdown_how(5), 0);
    assert_eq!(
        drain(&mut conns),
        vec![
            Task::Egress { idx: 0 },
            Task::Shutdown { idx: 0 },
            Task::Close { idx: 0 },
            Task::Flush { left: 0 },
        ]
    );
    conns.flush_next(0);
    assert_eq!(conns.next(), None);
}

#[test]
fn requests_of_the_application_are_marked() {
    let mut conns = make(1, Reclaim::OnComplete);
    establish(&mut conns);
    conns.drain_requests(0, true, Requests { shutdown: Some(1), close: Some(CloseKind::Permanent) });
    let state = conns.state(token(0)).unwrap();
    assert!(state.pending.egress && state.pending.shutdown && state.pending.close);
    assert!(state.close_permanent);
    assert_eq!(state.pending.how, 1);
    let key = state.dial;
    conns.drain_requests(3, true, Requests::default());
    conns.close_slot(0);
    assert_eq!(
        drain(&mut conns),
        vec![
            Task::Closed { idx: 0 },
            Task::Dismiss { key, permanent: true },
            Task::DrainClose { idx: 0 },
        ]
    );
    conns.dismiss(key, true, 0);
    assert_eq!(conns.sock_addr(key), None);
}

#[test]
fn writes_are_acknowledged_or_the_connection_closes() {
    let mut conns = make(1, Reclaim::OnComplete);
    establish(&mut conns);
    let told = vec![
        Task::Sent { idx: 0, sent: 7 },
        Task::Requests { idx: 0 },
        Task::Egress { idx: 0 },
        Task::MaybeClose { idx: 0 },
    ];
    conns.handle_send(SendOutcome::Sent { idx: 0, sent: 7 });
    assert_eq!(drain(&mut conns), vec![Task::Ack { idx: 0, sent: 7 }]);
    conns.acked(0, 7, false);
    assert_eq!(drain(&mut conns), vec![Task::Close { idx: 0 }]);
    conns.acked(0, 7, true);
    assert_eq!(drain(&mut conns), told);
    let mut other = make(1, Reclaim::OnSubmit);
    // The slot is empty.
    other.handle_send(SendOutcome::Sent { idx: 0, sent: 7 });
    assert_eq!(drain(&mut other), vec![Task::Egress { idx: 0 }, Task::MaybeClose { idx: 0 }]);
    establish(&mut other);
    other.handle_send(SendOutcome::Sent { idx: 0, sent: 7 });
    assert_eq!(drain(&mut other), told);
    conns.handle_send(SendOutcome::Close { idx: 0 });
    assert_eq!(drain(&mut conns), vec![Task::Close { idx: 0 }]);
    conns.handle_send(SendOutcome::Stale);
    assert_eq!(drain(&mut conns), vec![]);
}

#[test]
fn stalled_wire_is_not_written_to_again() {
    let mut conns = make(1, Reclaim::OnSubmit);
    assert!(!conns.egress_ready(0, true));
    establish(&mut conns);
    assert!(conns.egress_ready(0, true));
    assert!(!conns.egress_ready(0, false));
    let stalled =
        Egress::Written { consumed: 0, acked: true, inflight: false, holds_plain: false };
    assert!(!conns.submit_egress(0, stalled));
    assert!(!conns.state(token(0)).unwrap().pending.egress);
    assert_eq!(drain(&mut conns), vec![Task::Requests { idx: 0 }]);
    let taken = Egress::Written { consumed: 4, acked: true, inflight: false, holds_plain: false };
    assert!(!conns.submit_egress(0, taken));
    assert!(conns.state(token(0)).unwrap().pending.egress);
    let broken = Egress::Written { consumed: 4, acked: false, inflight: true, holds_plain: false };
    assert!(conns.submit_egress(0, broken));
    assert!(!conns.submit_egress(0, Egress::Empty));
}

#[test]
fn silent_connections_are_closed() {
    let mut conns = make(1, Reclaim::OnComplete);
    let key = establish(&mut conns);
    assert_eq!(conns.established(key, 5, Some(100)), Some(105));
    // The deadline that stands covers what comes later.
    assert_eq!(conns.established(key, 6, Some(100)), None);
    assert_eq!(conns.sock_addr(key), Some(&"a"));
    assert_eq!(conns.earliest_liveness(100), Some(105));
    conns.poll_liveness(104, Some(100));
    assert_eq!(conns.next(), None);
    conns.handle_recv(DispatchRecv::Chunk { idx: 0 }, 50);
    assert_eq!(conns.next(), Some(Task::Chunk { idx: 0 }));
    conns.poll_liveness(105, Some(100));
    assert_eq!(drain(&mut conns), vec![Task::Rearm { timeout: 100 }]);
    assert_eq!(conns.rearm(100), Some(150));
    conns.poll_liveness(150, Some(100));
    assert_eq!(drain(&mut conns), vec![Task::Close { idx: 0 }, Task::Rearm { timeout: 100 }]);
    conns.close_slot(0);
    assert_eq!(conns.rearm(100), None);
}

#[test]
fn given_up_dials_are_closed() {
    let mut conns = make(1, Reclaim::OnComplete);
    let key = establish(&mut conns);
    conns.cancel(DialKey::new(9, 9), 0);
    assert!(!conns.state(token(0)).unwrap().pending.close);
    conns.cancel(key, 0);
    assert!(conns.state(token(0)).unwrap().pending.close);
    conns.cancel_dial(key);
    conns.request_close(token(0), 1);
    assert!(conns.state(token(0)).unwrap().pending.close);
    conns.maybe_close(0, false);
    assert_eq!(conns.next(), None);
    conns.maybe_close(0, true);
    assert_eq!(conns.next(), Some(Task::Close { idx: 0 }));
}

#[test]
fn turns_are_made_of_tasks() {
    let mut conns = make(2, Reclaim::OnComplete);
    establish(&mut conns);
    conns.activate(token(0));
    assert_eq!(
        drain(&mut conns),
        vec![
            Task::Requests { idx: 0 },
            Task::Cancellations,
            Task::PollSource,
            Task::Liveness,
            Task::FlushDirty,
        ]
    );
    conns.activate(Token { epoch: 9, ..token(0) });
    assert_eq!(drain(&mut conns).len(), 4);
    conns.settle();
    assert_eq!(drain(&mut conns), vec![Task::FlushDirty]);
    conns.shutdown_all();
    assert_eq!(
        drain(&mut conns),
        vec![
            Task::Close { idx: 0 },
            Task::Close { idx: 1 },
            Task::FlushDirty,
            Task::Quiesce,
        ]
    );
    // Nothing is dialed any more.
    let _ = conns.dial("b", 0);
    conns.revive_upstreams();
    conns.poll_source(0);
    assert_eq!(conns.next(), None);
}
