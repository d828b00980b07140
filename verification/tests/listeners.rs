use dope::manifold::listener::accept;
use dope::manifold::listener::accept::{AcceptEvent, PeerIp};
use dope::manifold::listener::application::DispatchRecv;
use dope::manifold::listener::closing::{CloseStep, Verdict};
use dope::manifold::listener::egress::{egress, Egress, Flow};
use dope::manifold::listener::idle::IdleSet;
use dope::manifold::listener::raw::accept::{Accept, Outcome, Peer};
use dope::manifold::listener::send;
use dope::manifold::listener::send::{DirectFlight, SendBuffer, WRITE_BUF_CAP};
use dope::manifold::listener::sending::{CommitStep, DirectStep, SendOutcome, SendStep};
use dope::manifold::listener::state::{Concluded, State, Submit};
use dope::manifold::listener::{Listener, Task, Watch, Windows};
use dope::manifold::{Idle, Outcome as ChunkOutcome, Reclaim, SetupError};
use dope::token::{Token, ACCEPT};

const QUIET: Flow = Flow { inflight: false, holds_plain: false, deferred: false };
const FLYING: Flow = Flow { inflight: true, holds_plain: false, deferred: false };
const HELD: Flow = Flow { inflight: false, holds_plain: true, deferred: false };
const DEFERRED: Flow = Flow { inflight: false, holds_plain: false, deferred: true };

const WINDOWS: Windows = Windows { silence: 100, write: Some(10), age: Some(1000) };

fn listener(reclaim: Reclaim) -> Listener<&'static str> {
    let made: Result<Listener<&'static str>, SetupError<()>> =
        Listener::assemble(3, reclaim, 2, Ok(0), true, WINDOWS, 1);
    match made {
        Ok(made) => made,
        Err(_) => panic!("the configuration is fine"),
    }
}

fn token(slot: u32) -> Token {
    Token { route: 3, kind: 0, slot, epoch: 1 }
}

fn peer(bits: u32) -> Peer {
    Peer { ip: PeerIp::V4(bits), hash: bits as u64 }
}

fn drain(listener: &mut Listener<&'static str>) -> Vec<Task> {
    let mut tasks = Vec::new();
    while let Some(task) = listener.next() {
        tasks.push(task);
    }
    tasks
}

/// Has a connection in slot 0.
fn connected(reclaim: Reclaim) -> Listener<&'static str> {
    let mut listener = listener(reclaim);
    listener.opened(token(0), "c", Some(peer(1)), 0);
    listener
}

#[test]
fn peers_are_capped() {
    let mut accept = accept::Accept::new(8, 1);
    let four = Some(PeerIp::V4(1));
    let six = Some(PeerIp::V6(1));
    assert_eq!(
        accept.on_completion(true, AcceptEvent::Accepted(0), four),
        accept::Outcome::Accepted { fd: 0, peer: four }
    );
    assert_eq!(
        accept.on_completion(true, AcceptEvent::Accepted(1), four),
        accept::Outcome::Capped(PeerIp::V4(1))
    );
    assert_eq!(
        accept.on_completion(true, AcceptEvent::Accepted(1), six),
        accept::Outcome::Accepted { fd: 1, peer: six }
    );
    assert_eq!(
        accept.on_completion(true, AcceptEvent::Accepted(2), None),
        accept::Outcome::Accepted { fd: 2, peer: None }
    );
    accept.release_peer_ip(PeerIp::V4(1));
    assert_eq!(
        accept.on_completion(true, AcceptEvent::Accepted(3), four),
        accept::Outcome::Accepted { fd: 3, peer: four }
    );
    assert_eq!(
        accept.on_completion(true, AcceptEvent::Accepted(8), None),
        accept::Outcome::Rejected
    );
    assert_eq!(accept.on_completion(false, AcceptEvent::Accepted(4), None), accept::Outcome::Rejected);
    assert_eq!(accept.on_completion(true, AcceptEvent::Failed, None), accept::Outcome::Rejected);
}

#[test]
fn peers_without_a_cap_are_not_counted() {
    let mut accept = accept::Accept::new(8, 0);
    for fd in 0..5 {
        assert_eq!(
            accept.on_completion(true, AcceptEvent::Accepted(fd), Some(PeerIp::V6(1))),
            accept::Outcome::Accepted { fd, peer: Some(PeerIp::V6(1)) }
        );
    }
}

#[test]
fn stopped_accept_takes_nothing() {
    let mut accept = Accept::new(4, 2);
    assert_eq!(accept.quiesce_target(3, false, 9), None);
    for fd in 0..2 {
        assert_eq!(
            accept.complete(true, true, AcceptEvent::Accepted(fd), Some(peer(1))),
            Outcome::Accepted { fd, peer: Some(peer(1)) }
        );
    }
    assert_eq!(
        accept.complete(true, true, AcceptEvent::Accepted(2), Some(peer(1))),
        Outcome::Capped(peer(1))
    );
    accept.release_peer_ip(peer(1));
    assert_eq!(
        accept.complete(true, true, AcceptEvent::Accepted(2), Some(peer(1))),
        Outcome::Accepted { fd: 2, peer: Some(peer(1)) }
    );
    assert_eq!(accept.complete(true, true, AcceptEvent::Accepted(4), None), Outcome::Rejected);
    assert_eq!(accept.complete(false, true, AcceptEvent::Accepted(3), None), Outcome::Rejected);
    assert_eq!(accept.complete(true, true, AcceptEvent::Failed, None), Outcome::Rejected);
    accept.stop_accept(false);
    assert_eq!(accept.quiesce_target(3, false, 9), None);
    accept.stop_accept(true);
    let armed = Token { route: 3, kind: ACCEPT, slot: 4, epoch: 9 };
    assert_eq!(accept.quiesce_target(3, false, 9), Some(armed));
    assert_eq!(accept.complete(true, true, AcceptEvent::Accepted(3), None), Outcome::Rejected);
    assert_eq!(accept.complete(true, false, AcceptEvent::Accepted(3), None), Outcome::Rejected);
    assert_eq!(accept.quiesce_target(3, false, 9), None);
}

#[test]
fn listener_refuses_bad_configurations() {
    let make = |max: usize, retention: Result<usize, u8>, fits: bool| {
        let made: Result<Listener<()>, SetupError<u8>> =
            Listener::assemble(3, Reclaim::OnSubmit, max, retention, fits, WINDOWS, 0);
        made
    };
    assert!(matches!(make(0, Ok(0), true), Err(SetupError::Capacity)));
    assert!(matches!(make(1 << 24, Err(1), false), Err(SetupError::Capacity)));
    assert!(matches!(make(1, Err(8), false), Err(SetupError::Retention(8))));
    assert!(matches!(make(1, Ok(0), false), Err(SetupError::Storage)));
    assert_eq!(make(5, Ok(0), true).unwrap_or_else(|_| panic!()).capacity(), 5);
}

#[test]
fn opened_connections_are_watched() {
    let mut listener = listener(Reclaim::OnComplete);
    assert_eq!(listener.idle(false, false, false), Idle::Park(None));
    assert_eq!(listener.idle(true, false, false), Idle::Busy);
    assert_eq!(listener.idle(false, true, true), Idle::Busy);
    listener.opened(token(0), "c", Some(peer(1)), 50);
    assert_eq!(listener.idle(false, false, true), Idle::Park(Some(150)));
    assert_eq!(listener.state(token(0)).unwrap().conn, "c");
    assert_eq!(listener.state(token(0)).unwrap().peer_ip(), Some(PeerIp::V4(1)));
    assert!(listener.state(Token { epoch: 2, ..token(0) }).is_none());
    listener.pump_recv(DispatchRecv::Chunk { idx: 0, pieces: 1 }, 120);
    assert_eq!(listener.idle(false, false, false), Idle::Park(Some(220)));
    assert_eq!(drain(&mut listener), vec![Task::Piece { idx: 0, piece: 0, pieces: 1 }]);
    listener.arm_send_deadline(0, true, 130);
    assert_eq!(listener.idle(false, false, false), Idle::Park(Some(140)));
    listener.drain_idle(Watch::Write, 139);
    assert_eq!(listener.next(), None);
    listener.drain_idle(Watch::Write, 140);
    assert_eq!(
        drain(&mut listener),
        vec![Task::Close { idx: 0 }, Task::Drain { watch: Watch::Write }]
    );
    listener.drain_idle(Watch::Silence, 220);
    assert_eq!(drain(&mut listener).len(), 2);
    assert_eq!(listener.idle(false, false, false), Idle::Park(Some(1050)));
    assert_eq!(listener.close_slot(0, false, false, false), CloseStep::Seal);
    assert_eq!(listener.idle(false, false, false), Idle::Park(None));
}

#[test]
fn closed_connection_gives_its_place_back() {
    let mut listener = listener(Reclaim::OnComplete);
    let accepted = Outcome::Accepted { fd: 0, peer: Some(peer(1)) };
    assert_eq!(listener.accept(true, true, AcceptEvent::Accepted(0), Some(peer(1))), accepted);
    listener.opened(token(0), "c", Some(peer(1)), 0);
    assert_eq!(
        listener.accept(true, true, AcceptEvent::Accepted(1), Some(peer(1))),
        Outcome::Capped(peer(1))
    );
    assert_eq!(listener.close_slot(0, true, true, false), CloseStep::Begin { cancel: false });
    assert_eq!(listener.close_slot(0, false, true, false), CloseStep::Begin { cancel: true });
    assert_eq!(listener.close_slot(0, false, true, true), CloseStep::Wait);
    assert_eq!(listener.close_slot(1, false, false, false), CloseStep::Gone);
    listener.unsealed(0);
    listener.unsealed(1);
    assert_eq!(
        drain(&mut listener),
        vec![Task::Part { idx: 1 }, Task::Closed { idx: 0 }, Task::Part { idx: 0 }]
    );
    assert_eq!(listener.state(token(0)).unwrap().peer_ip(), Some(PeerIp::V4(1)));
    listener.closed(0);
    listener.closed(0);
    listener.closed(1);
    assert_eq!(listener.state(token(0)).unwrap().peer_ip(), None);
    assert_eq!(listener.accept(true, true, AcceptEvent::Accepted(0), Some(peer(1))), accepted);
    listener.release(0);
    assert!(listener.state(token(0)).is_none());
}

#[test]
fn received_bytes_lead_on() {
    let mut listener = connected(Reclaim::OnComplete);
    listener.pump_recv(DispatchRecv::Stale, 1);
    assert_eq!(listener.next(), None);
    listener.pump_recv(DispatchRecv::Close { idx: 0 }, 1);
    listener.pump_recv(DispatchRecv::NoChunk { idx: 0 }, 1);
    listener.pump_recv(DispatchRecv::Discarded { idx: 0 }, 1);
    assert_eq!(
        drain(&mut listener),
        vec![
            Task::AfterRecv { idx: 0, refresh: true },
            Task::AfterRecv { idx: 0, refresh: false },
            Task::Close { idx: 0 },
        ]
    );
    listener.flush_after_recv(0, true, 30);
    assert_eq!(drain(&mut listener), vec![Task::MaybeClose { idx: 0 }]);
    assert_eq!(listener.idle(false, false, false), Idle::Park(Some(130)));
    listener.finish_chunk(0, ChunkOutcome::Accepted);
    assert_eq!(
        drain(&mut listener),
        vec![Task::AfterRecv { idx: 0, refresh: false }, Task::ArmSend { idx: 0 }]
    );
    listener.finish_chunk(0, ChunkOutcome::Overrun);
    assert_eq!(drain(&mut listener), vec![Task::Abort { idx: 0 }, Task::Close { idx: 0 }]);
    listener.finish_chunk(0, ChunkOutcome::CloseAfter);
    assert_eq!(drain(&mut listener), vec![Task::CloseAfter { idx: 0 }, Task::MaybeClose { idx: 0 }]);
    assert!(!listener.resumes(0, QUIET));
    assert!(!listener.resumes(1, QUIET));
}

/// Gives the pieces of a receive to an application that makes `outcomes` of them, and
/// tells which it was given and what is to be done afterwards.
fn give(outcomes: &[ChunkOutcome]) -> (Vec<usize>, Vec<Task>) {
    let mut listener = connected(Reclaim::OnComplete);
    listener.pump_recv(DispatchRecv::Chunk { idx: 0, pieces: outcomes.len() }, 1);
    let mut given = Vec::new();
    let mut rest = Vec::new();
    while let Some(task) = listener.next() {
        match task {
            Task::Piece { idx, piece, pieces } => {
                given.push(piece);
                listener.took_piece(idx, piece, pieces, outcomes[piece]);
            }
            other => rest.push(other),
        }
    }
    (given, rest)
}

#[test]
fn pieces_are_given_until_one_is_not_accepted() {
    let accepted = vec![Task::AfterRecv { idx: 0, refresh: false }, Task::ArmSend { idx: 0 }];
    let overrun = vec![Task::Abort { idx: 0 }, Task::Close { idx: 0 }];
    let closing = vec![Task::CloseAfter { idx: 0 }, Task::MaybeClose { idx: 0 }];
    assert_eq!(give(&[]), (vec![], accepted.clone()));
    assert_eq!(give(&[ChunkOutcome::Accepted; 3]), (vec![0, 1, 2], accepted.clone()));
    assert_eq!(
        give(&[ChunkOutcome::Accepted, ChunkOutcome::Overrun, ChunkOutcome::Accepted]),
        (vec![0, 1], overrun)
    );
    assert_eq!(
        give(&[ChunkOutcome::CloseAfter, ChunkOutcome::Accepted]),
        (vec![0], closing.clone())
    );
    assert_eq!(
        give(&[ChunkOutcome::Accepted, ChunkOutcome::CloseAfter]),
        (vec![0, 1], closing)
    );
    // Nobody is given what came for a connection that is gone.
    let mut listener = listener(Reclaim::OnComplete);
    listener.pump_recv(DispatchRecv::Chunk { idx: 1, pieces: 2 }, 1);
    assert_eq!(
        drain(&mut listener),
        vec![Task::AfterRecv { idx: 1, refresh: false }, Task::ArmSend { idx: 1 }]
    );
}

#[test]
fn lost_bytes_close_the_connection() {
    let taken = Concluded { taken: true, close_after: false };
    let lost = Concluded { taken: false, close_after: true };
    assert_eq!(Submit::Send.concluded(false), taken);
    assert_eq!(Submit::Send.concluded(true), taken);
    assert_eq!(Submit::Refused.concluded(true), lost);
    assert_eq!(Submit::Stage { bytes: 3 }.concluded(true), taken);
    assert_eq!(Submit::Stage { bytes: 3 }.concluded(false), lost);
}

#[test]
fn nothing_is_cut_off() {
    let mut listener = connected(Reclaim::OnComplete);
    assert_eq!(listener.maybe_close(0, false, true, FLYING), Verdict::Keep);
    assert_eq!(listener.maybe_close(0, false, true, HELD), Verdict::Keep);
    assert_eq!(listener.maybe_close(0, false, true, DEFERRED), Verdict::Retry);
    assert_eq!(listener.idle(false, false, false), Idle::Busy);
    assert_eq!(listener.maybe_close(0, false, false, QUIET), Verdict::Keep);
    assert_eq!(listener.next(), None);
    assert_eq!(listener.maybe_close(0, false, true, QUIET), Verdict::Close);
    assert_eq!(listener.maybe_close(0, true, true, FLYING), Verdict::Close);
    assert_eq!(listener.maybe_close(0, true, false, QUIET), Verdict::Keep);
    assert_eq!(listener.maybe_close(1, true, true, QUIET), Verdict::Keep);
    assert_eq!(drain(&mut listener), vec![Task::Close { idx: 0 }, Task::Close { idx: 0 }]);
    assert!(listener.has_pending_egress(token(0), DEFERRED));
    assert!(listener.has_pending_egress(token(0), HELD));
    assert!(listener.has_pending_egress(token(0), FLYING));
    assert!(!listener.has_pending_egress(token(0), QUIET));
    assert!(!listener.has_pending_egress(token(1), FLYING));
}

#[test]
fn marked_connections_are_seen_to() {
    let mut listener = connected(Reclaim::OnComplete);
    assert!(listener.mark_send(token(0), true));
    assert!(!listener.mark_send(token(0), false));
    assert!(!listener.mark_send(token(1), true));
    listener.flush_dirty();
    assert_eq!(listener.next(), Some(Task::Flush { left: 1 }));
    listener.flush_next(1);
    assert_eq!(drain(&mut listener), vec![Task::Commit { idx: 0 }, Task::Flush { left: 0 }]);
    // A close comes before what is to be written.
    let _ = listener.mark_send(token(0), true);
    listener.close(token(0));
    listener.flush_next(1);
    assert_eq!(drain(&mut listener), vec![Task::Close { idx: 0 }, Task::Flush { left: 0 }]);
    listener.flush_next(1);
    assert_eq!(listener.next(), None);
    // What is gone is passed over.
    listener.close(token(0));
    listener.release(0);
    listener.flush_next(1);
    assert_eq!(drain(&mut listener), vec![Task::Flush { left: 0 }]);
}

#[test]
fn queue_is_written_when_nothing_else_is() {
    let mut listener = connected(Reclaim::OnComplete);
    assert_eq!(listener.commit_chunk(0, false, DEFERRED), CommitStep::Submit);
    assert_eq!(listener.commit_chunk(0, false, FLYING), CommitStep::Nothing);
    assert_eq!(listener.commit_chunk(0, true, DEFERRED), CommitStep::Nothing);
    assert_eq!(listener.commit_chunk(0, false, HELD), CommitStep::Flush);
    assert_eq!(drain(&mut listener), vec![Task::MaybeClose { idx: 0 }; 4]);
    assert_eq!(listener.commit_chunk(1, false, DEFERRED), CommitStep::Nothing);
    assert_eq!(listener.next(), None);
    listener.committed(0, FLYING, 5);
    assert_eq!(listener.idle(false, false, false), Idle::Park(Some(15)));
    listener.committed(0, DEFERRED, 5);
    assert_eq!(listener.idle(false, false, false), Idle::Busy);
    assert_eq!(listener.pump_send(SendOutcome::Sent { idx: 0 }), SendStep::Queue { idx: 0 });
    assert!(listener.queue_completed(0, true));
    assert!(!listener.queue_completed(1, true));
    assert_eq!(drain(&mut listener), vec![Task::Commit { idx: 0 }]);
    assert!(!listener.queue_completed(0, false));
    assert_eq!(drain(&mut listener), vec![Task::Close { idx: 0 }]);
    assert_eq!(listener.pump_send(SendOutcome::Stale), SendStep::Nothing);
    assert_eq!(listener.pump_send(SendOutcome::Close { idx: 0 }), SendStep::Abort { idx: 0 });
    assert_eq!(drain(&mut listener), vec![Task::Close { idx: 0 }]);
    assert_eq!(listener.pump_send(SendOutcome::Sent { idx: 1 }), SendStep::Direct { idx: 1 });
}

#[test]
fn completion_of_more_than_was_written_closes() {
    let mut listener = connected(Reclaim::OnComplete);
    listener.record_handoff(0, 6, true);
    listener.record_handoff(1, 6, true);
    assert_eq!(listener.direct_completed(0, 7), DirectStep::Nothing);
    assert_eq!(drain(&mut listener), vec![Task::Close { idx: 0 }]);
    assert_eq!(listener.direct_completed(1, 0), DirectStep::Nothing);
    assert_eq!(drain(&mut listener), vec![Task::Close { idx: 1 }]);
    assert_eq!(listener.direct_completed(0, 6), DirectStep::Done { total: 0 });
    assert_eq!(drain(&mut listener), vec![Task::MaybeClose { idx: 0 }]);
    let mut other = connected(Reclaim::OnSubmit);
    assert_eq!(other.direct_completed(1, 0), DirectStep::Nothing);
    assert_eq!(other.next(), None);
    assert_eq!(other.direct_completed(0, 1000), DirectStep::Done { total: 0 });
}

#[test]
fn answer_is_sent_to_the_end() {
    let mut listener = connected(Reclaim::OnComplete);
    assert_eq!(listener.submit(1, QUIET, 100, 8, 4), None);
    assert_eq!(listener.submit(0, QUIET, 100, 101, 4), Some(Submit::Refused));
    assert_eq!(listener.submit(0, DEFERRED, 4, 8, 4), Some(Submit::Stage { bytes: 4 }));
    assert_eq!(listener.submit(0, QUIET, 100, 8, 4), Some(Submit::Send));
    assert_eq!(listener.submit(0, QUIET, 100, 8, 4), Some(Submit::Stage { bytes: 8 }));
    assert_eq!(listener.maybe_close(0, false, true, QUIET), Verdict::Retry);
    listener.record_handoff(0, 12, true);
    assert_eq!(listener.pump_send(SendOutcome::Sent { idx: 0 }), SendStep::Direct { idx: 0 });
    // Only part of the write was sent.
    assert_eq!(listener.direct_completed(0, 5), DirectStep::Resume);
    assert_eq!(listener.next(), None);
    assert_eq!(listener.commit_chunk(0, false, QUIET), CommitStep::Resume);
    listener.record_handoff(0, 7, true);
    assert_eq!(listener.pump_send(SendOutcome::Sent { idx: 0 }), SendStep::Direct { idx: 0 });
    assert_eq!(listener.direct_completed(0, 7), DirectStep::Done { total: 12 });
    assert_eq!(listener.state(token(0)).unwrap().send, send::State::new());
    // A wire that keeps the bytes itself may take nothing for a while.
    let mut other = connected(Reclaim::OnSubmit);
    assert_eq!(other.submit(0, QUIET, 100, 3, 0), Some(Submit::Send));
    assert!(other.resumes(0, QUIET));
    assert!(!other.resumes(0, HELD));
    assert_eq!(other.commit_chunk(0, false, QUIET), CommitStep::Flush);
}

#[test]
fn turns_of_a_listener_are_made_of_tasks() {
    let mut listener = connected(Reclaim::OnComplete);
    listener.settle();
    assert_eq!(drain(&mut listener), vec![Task::Rearm, Task::FlushDirty]);
    listener.pre_park();
    assert_eq!(
        drain(&mut listener),
        vec![
            Task::Rearm,
            Task::FlushDirty,
            Task::Drain { watch: Watch::Silence },
            Task::Drain { watch: Watch::Write },
            Task::Drain { watch: Watch::Age },
            Task::FlushDirty,
        ]
    );
    assert_eq!(listener.activate(token(0)), Some(0));
    assert_eq!(drain(&mut listener), vec![Task::MaybeClose { idx: 0 }, Task::FlushDirty]);
    assert_eq!(listener.activate(token(1)), None);
    listener.welcomed(1, ChunkOutcome::Accepted);
    listener.welcomed(1, ChunkOutcome::CloseAfter);
    assert_eq!(listener.next(), None);
    listener.welcomed(1, ChunkOutcome::Overrun);
    assert_eq!(drain(&mut listener), vec![Task::Close { idx: 1 }]);
    listener.shutdown(true);
    assert_eq!(
        drain(&mut listener),
        vec![Task::Close { idx: 0 }, Task::Close { idx: 1 }, Task::Quiesce]
    );
    assert_eq!(
        listener.accept(true, true, AcceptEvent::Accepted(1), None),
        Outcome::Rejected
    );
}

#[test]
fn answers_are_sent_one_after_the_other() {
    let mut state = State::new((), token(0), None);
    assert_eq!(state.peer_ip(), None);
    assert!(!state.owes_egress(Reclaim::OnSubmit, QUIET));
    assert_eq!(state.submit(Reclaim::OnSubmit, QUIET, 10, 11, 0), Submit::Refused);
    assert_eq!(state.submit(Reclaim::OnSubmit, QUIET, 10, 8, 4), Submit::Send);
    assert_eq!((state.send.write_buf_len, state.send.total_plain), (8, 12));
    assert_eq!(state.submit(Reclaim::OnSubmit, QUIET, 10, 3, 0), Submit::Stage { bytes: 3 });
    assert_eq!(state.submit(Reclaim::OnSubmit, QUIET, 10, 30, 0), Submit::Stage { bytes: 10 });
    assert_eq!(egress(state.send, Reclaim::OnSubmit, QUIET), Egress::Stalled);
    assert_eq!(egress(state.send, Reclaim::OnSubmit, HELD), Egress::Plain);
    assert_eq!(egress(state.send, Reclaim::OnComplete, QUIET), Egress::Plain);
    assert_eq!(egress(state.send, Reclaim::OnComplete, FLYING), Egress::Inflight);
    state.send.record_handoff(12, true);
    assert_eq!(egress(state.send, Reclaim::OnComplete, HELD), Egress::Held);
    assert_eq!(egress(state.send, Reclaim::OnComplete, DEFERRED), Egress::Deferred);
    assert_eq!(egress(state.send, Reclaim::OnComplete, QUIET), Egress::Clear);
    // Only what was sent counts once the write is over.
    assert!(!state.send.complete_handoff(13));
    assert!(state.send.complete_handoff(5));
    assert_eq!((state.send.consumed_plain, state.send.inflight_plain), (5, 0));
    assert_eq!(egress(state.send, Reclaim::OnComplete, QUIET), Egress::Plain);
    state.send.reset();
    assert_eq!(state.send, send::State::new());
}

#[test]
fn rest_of_an_answer_is_sent() {
    let mut flight = DirectFlight::new();
    assert_eq!(flight.header().len(), WRITE_BUF_CAP);
    flight.header_mut()[..4].copy_from_slice(b"head");
    assert_eq!(flight.plain(4), b"head");
    assert_eq!(flight.plain(WRITE_BUF_CAP + 1).len(), WRITE_BUF_CAP);
    let empty: &[u8] = b"";
    assert_eq!(flight.vectored(1, 4), (&b"ead"[..], empty));
    flight.begin(Some(SendBuffer::Owned(b"body".to_vec())));
    assert_eq!(flight.vectored(0, 4), (&b"head"[..], &b"body"[..]));
    assert_eq!(flight.vectored(4, 4), (empty, &b"body"[..]));
    assert_eq!(flight.vectored(6, 4), (empty, &b"dy"[..]));
    assert_eq!(flight.vectored(9, 4), (empty, empty));
    flight.begin(Some(SendBuffer::Static(b"static")));
    assert_eq!(flight.vectored(2, 4), (&b"ad"[..], &b"static"[..]));
    flight.begin(Some(SendBuffer::Shared(o3::buffer::Shared::copy_from_slice(b"shared"))));
    assert_eq!(flight.vectored(5, 4), (empty, &b"hared"[..]));
    flight.clear();
    assert_eq!(flight.vectored(4, 4), (empty, empty));
}

#[test]
fn deadlines_fall_due_in_order() {
    let mut set = IdleSet::new(4, 10);
    assert_eq!(set.earliest(), None);
    set.arm(3, 0);
    set.arm(1, 5);
    set.arm(9, 0);
    assert_eq!(set.earliest(), Some(10));
    set.arm(3, 7);
    assert_eq!(set.earliest(), Some(15));
    assert_eq!(set.pop_expired(14), None);
    assert_eq!(set.pop_expired(15), Some(1));
    set.cancel(3);
    set.cancel(8);
    assert_eq!(set.pop_expired(1000), None);
}
