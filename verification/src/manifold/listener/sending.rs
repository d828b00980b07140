//! Sending.
use vstd::prelude::*;

use crate::manifold::Reclaim;
use crate::manifold::pending;
use crate::manifold::pending::{Mark, Pending};
use crate::time::Instant;
use super::egress;
use super::egress::{Egress, Flow};
use super::send;
use super::state::{State, Submit};
use super::{Listener, ListenerView, Task};

verus! {

/// What a completed write amounts to.
#[derive(Clone, Copy, PartialEq, Eq, Structural, Debug)]
pub enum SendOutcome {
    Sent { idx: u32 },
    Close { idx: u32 },
    /// Nobody waits for it any more.
    Stale,
}

/// How a completed write is dealt with.
#[derive(Clone, Copy, PartialEq, Eq, Structural, Debug)]
pub enum SendStep {
    Nothing,
    /// What is queued is given up.
    Abort { idx: u32 },
    /// The write came from the queue.
    Queue { idx: u32 },
    /// The write was part of an answer.
    Direct { idx: u32 },
}

/// How the sending of an answer goes on.
#[derive(Clone, Copy, PartialEq, Eq, Structural, Debug)]
pub enum DirectStep {
    Nothing,
    /// The rest is handed to the wire.
    Resume,
    /// The answer of `total` bytes is sent: the application is told.
    Done { total: usize },
}

/// How what is to be sent on a connection is written.
#[derive(Clone, Copy, PartialEq, Eq, Structural, Debug)]
pub enum CommitStep {
    Nothing,
    /// The rest of an answer is handed to the wire; `committed` follows.
    Resume,
    /// A close that waited for the queue is taken up, and what the wire holds is
    /// written.
    Flush,
    /// A close that waited for the queue is taken up, and what is queued is written;
    /// `committed` follows.
    Submit,
}

impl<C> ListenerView<C> {
    /// What is done with bytes that the application has written for a connection;
    /// nothing if it is gone.
    pub open spec fn submission(
        self,
        idx: u32,
        flow: Flow,
        capacity: usize,
        written: usize,
    ) -> Option<Submit> {
        if self.has(idx) {
            Some(self.at(idx).submission(self.reclaim, flow, capacity, written))
        } else {
            None
        }
    }

    pub open spec fn send_step(self, outcome: SendOutcome) -> SendStep {
        match outcome {
            SendOutcome::Stale => SendStep::Nothing,
            SendOutcome::Close { idx } => SendStep::Abort { idx },
            SendOutcome::Sent { idx } => if self.has(idx) && self.at(idx).send.total_plain == 0 {
                SendStep::Queue { idx }
            } else {
                SendStep::Direct { idx }
            },
        }
    }

    pub open spec fn pump_send(self, outcome: SendOutcome) -> Self {
        match outcome {
            SendOutcome::Stale => self,
            SendOutcome::Close { idx } => self.schedule(Task::Close { idx }),
            SendOutcome::Sent { idx } => ListenerView { write: self.write.cancel(idx), ..self },
        }
    }

    /// The write can have sent so much.
    pub open spec fn plausible(self, idx: u32, sent: usize) -> bool {
        self.reclaim is OnComplete ==> self.has(idx) && sent <= self.at(idx).send.inflight_plain
    }

    /// The progress of an answer after `sent` bytes of the write in flight.
    pub open spec fn progress(self, idx: u32, sent: usize) -> send::State {
        if self.reclaim is OnComplete {
            self.at(idx).send.completed(sent)
        } else {
            self.at(idx).send
        }
    }

    pub open spec fn direct_step(self, idx: u32, sent: usize) -> DirectStep {
        if !self.plausible(idx, sent) || !self.has(idx) {
            DirectStep::Nothing
        } else if self.progress(idx, sent).unfinished() {
            DirectStep::Resume
        } else {
            DirectStep::Done { total: self.at(idx).send.total_plain }
        }
    }

    pub open spec fn direct_completed(self, idx: u32, sent: usize) -> Self {
        if !self.plausible(idx, sent) {
            self.schedule(Task::Close { idx })
        } else if !self.has(idx) {
            self
        } else if self.progress(idx, sent).unfinished() {
            self.with(idx, State { send: self.progress(idx, sent), ..self.at(idx) })
        } else {
            self.with(idx, State { send: send::State::fresh(), ..self.at(idx) }).schedule(
                Task::MaybeClose { idx },
            )
        }
    }

    /// The wire took `consumed` bytes of an answer, in a new write if `armed`.
    pub open spec fn handed(self, idx: u32, consumed: usize, armed: bool) -> Self {
        if self.has(idx) {
            self.with(
                idx,
                State { send: self.at(idx).send.handed(consumed, armed), ..self.at(idx) },
            )
        } else {
            self
        }
    }

    pub open spec fn arm_send(self, idx: u32, inflight: bool, now: Instant) -> Self {
        if self.has(idx) && inflight {
            ListenerView { write: self.write.arm(idx, now), ..self }
        } else {
            self
        }
    }

    pub open spec fn commit_step(self, idx: u32, closing: bool, flow: Flow) -> CommitStep {
        if !self.has(idx) || closing {
            CommitStep::Nothing
        } else {
            match egress::classify(self.at(idx).send, self.reclaim, flow) {
                Egress::Inflight => CommitStep::Nothing,
                Egress::Plain => CommitStep::Resume,
                Egress::Deferred => CommitStep::Submit,
                _ => CommitStep::Flush,
            }
        }
    }

    pub open spec fn commit(self, idx: u32) -> Self {
        if self.has(idx) {
            self.schedule(Task::MaybeClose { idx })
        } else {
            self
        }
    }

    /// Something is left to be handed to the wire after it has taken what it could.
    pub open spec fn restages(self, idx: u32, flow: Flow) -> bool {
        self.has(idx) && match egress::classify(self.at(idx).send, self.reclaim, flow) {
            Egress::Plain | Egress::Deferred => true,
            _ => false,
        }
    }

    pub open spec fn committed(self, idx: u32, flow: Flow, now: Instant) -> Self {
        let after = self.arm_send(idx, flow.inflight, now);
        if self.restages(idx, flow) {
            after.mark(idx, Mark::Egress)
        } else {
            after
        }
    }

    pub open spec fn flush(self, left: usize) -> Self {
        if left == 0 || self.dirty.len() == 0 {
            self
        } else {
            let idx = self.dirty[0];
            let popped = (ListenerView { dirty: self.dirty.skip(1), ..self }).schedule(
                Task::Flush { left: (left - 1) as usize },
            );
            if !self.has(idx) {
                popped
            } else {
                let flags = self.at(idx).pending;
                let taken = popped.with(idx, State { pending: flags.taken(), ..self.at(idx) });
                if flags.close {
                    taken.schedule(Task::Close { idx })
                } else if flags.egress {
                    taken.schedule(Task::Commit { idx })
                } else {
                    taken
                }
            }
        }
    }
}

/// A connection that is to be closed is closed rather than written to.
pub proof fn law_close_comes_before_writing<C>(view: ListenerView<C>, left: usize)
    requires
        view.wf(),
        left > 0,
        view.dirty.len() > 0,
        view.has(view.dirty[0]),
        view.at(view.dirty[0]).pending.close,
    ensures
        ({
            let idx = view.dirty[0];
            let after = view.flush(left);
            &&& after.work.last() == Task::Close { idx }
            &&& !after.work.skip(view.work.len() as int).contains(Task::Commit { idx })
            &&& !after.at(idx).pending.spec_any()
        }),
{
    let idx = view.dirty[0];
    let after = view.flush(left);
    assert(after.work.skip(view.work.len() as int) =~= seq![
        Task::Flush { left: (left - 1) as usize },
        Task::Close { idx },
    ]);
}

/// A whole answer is reported once, with its whole length, and leaves nothing
/// behind.
pub proof fn law_answer_is_done_once<C>(view: ListenerView<C>, idx: u32, sent: usize)
    requires
        view.wf(),
        view.direct_step(idx, sent) is Done,
    ensures
        view.direct_step(idx, sent) == (DirectStep::Done { total: view.at(idx).send.total_plain }),
        view.direct_completed(idx, sent).at(idx).send == send::State::fresh(),
{
}

/// However bytes are reclaimed, an answer is done only when all of its bytes have
/// been handed to the wire. As long as some have not, its sending goes on where it
/// stands, and nothing is forgotten of it. Only what the write in flight covers can
/// have been sent; a write that claims more has the connection closed.
pub proof fn law_answer_goes_on_to_its_last_byte<C>(view: ListenerView<C>, idx: u32, sent: usize)
    requires
        view.wf(),
        view.has(idx),
    ensures
        ({
            let was = view.at(idx).send;
            let after = view.direct_completed(idx, sent);
            let cur = after.at(idx).send;
            let step = view.direct_step(idx, sent);
            let counted = if view.reclaim is OnComplete {
                was.consumed_plain - was.inflight_plain + sent
            } else {
                was.consumed_plain as int
            };
            &&& super::same_elsewhere(view, after, idx)
            &&& after.dirty == view.dirty
            &&& after.has(idx)
            &&& super::same_but_send(view.at(idx), after.at(idx))
            &&& if view.reclaim is OnComplete && sent > was.inflight_plain {
                &&& step is Nothing
                &&& cur == was
                &&& after.work == view.work + seq![Task::Close { idx }]
            } else if counted < was.total_plain {
                &&& step is Resume
                &&& cur.total_plain == was.total_plain
                &&& cur.consumed_plain == counted
                &&& cur.write_buf_len == was.write_buf_len
                &&& cur.inflight_plain == if view.reclaim is OnComplete {
                    0
                } else {
                    was.inflight_plain
                }
                &&& after.work == view.work
            } else {
                &&& step == DirectStep::Done { total: was.total_plain }
                &&& cur.total_plain == 0
                &&& cur.consumed_plain == 0
                &&& cur.inflight_plain == 0
                &&& cur.write_buf_len == 0
                &&& after.work == view.work + seq![Task::MaybeClose { idx }]
            }
        }),
        view.direct_step(idx, sent) is Done ==> view.progress(idx, sent).consumed_plain >= view.at(
            idx,
        ).send.total_plain,
{
    let was = view.at(idx);
    assert(view.slots[idx as int] == Some(was));
    assert(was.send.wf());
    let after = view.direct_completed(idx, sent);
    assert(view.work.push(Task::Close { idx }) =~= view.work + seq![Task::Close { idx }]);
    assert(view.work.push(Task::MaybeClose { idx }) =~= view.work + seq![Task::MaybeClose { idx }]);
}

/// A write of an answer on a connection that is gone tells nobody anything. Where
/// bytes are reclaimed when a write is complete, the slot is closed.
pub proof fn law_answer_of_the_gone_is_dropped<C>(view: ListenerView<C>, idx: u32, sent: usize)
    requires
        !view.has(idx),
    ensures
        view.direct_step(idx, sent) is Nothing,
        view.reclaim is OnComplete ==> super::only_scheduled(
            view,
            view.direct_completed(idx, sent),
            seq![Task::Close { idx }],
        ),
        !(view.reclaim is OnComplete) ==> view.direct_completed(idx, sent) == view,
{
    assert(view.work.push(Task::Close { idx }) =~= view.work + seq![Task::Close { idx }]);
}

/// A completed write is told to the slot it came from: as part of an answer if one
/// is being sent, else as coming from the queue. It does not run against its
/// deadline any more, and all other deadlines stand. A write that failed has what is
/// queued given up and the connection closed.
pub proof fn law_write_is_told_to_its_slot<C>(
    view: ListenerView<C>,
    outcome: SendOutcome,
    other: (usize, Instant),
)
    ensures
        outcome is Stale ==> view.send_step(outcome) is Nothing && view.pump_send(outcome) == view,
        outcome matches SendOutcome::Close { idx } ==> {
            &&& view.send_step(outcome) == SendStep::Abort { idx }
            &&& super::only_scheduled(view, view.pump_send(outcome), seq![Task::Close { idx }])
        },
        outcome matches SendOutcome::Sent { idx } ==> {
            let after = view.pump_send(outcome);
            &&& view.send_step(outcome) == SendStep::Queue { idx } <==> idx < view.slots.len()
                && view.slots[idx as int] is Some && (view.slots[idx as int]->0).send.total_plain
                == 0
            &&& view.send_step(outcome) == SendStep::Direct { idx } <==> !(idx < view.slots.len()
                && view.slots[idx as int] is Some && (view.slots[idx as int]->0).send.total_plain
                == 0)
            &&& after.slots == view.slots
            &&& after.work == view.work
            &&& after.dirty == view.dirty
            &&& after.silence == view.silence
            &&& after.age == view.age
            &&& after.accept == view.accept
            &&& after.write.window == view.write.window
            &&& after.write.queue.contains(other) <==> view.write.queue.contains(other) && other.0
                != idx
        },
{
    if let SendOutcome::Close { idx } = outcome {
        assert(view.work.push(Task::Close { idx }) =~= view.work + seq![Task::Close { idx }]);
    }
    if let SendOutcome::Sent { idx } = outcome {
        crate::collections::slots::lemma_without_keeps(view.write.queue, idx as usize, other);
    }
}

/// What the wire took of an answer is counted on its connection, and nowhere else.
pub proof fn law_handoff_is_counted<C>(
    view: ListenerView<C>,
    idx: u32,
    consumed: usize,
    armed: bool,
)
    requires
        view.has(idx),
        view.at(idx).send.consumed_plain + consumed <= usize::MAX,
    ensures
        ({
            let after = view.handed(idx, consumed, armed);
            let was = view.at(idx).send;
            let cur = after.at(idx).send;
            &&& super::same_elsewhere(view, after, idx)
            &&& super::same_but_send(view.at(idx), after.at(idx))
            &&& after.has(idx)
            &&& after.work == view.work
            &&& after.dirty == view.dirty
            &&& cur.consumed_plain == was.consumed_plain + consumed
            &&& cur.total_plain == was.total_plain
            &&& cur.write_buf_len == was.write_buf_len
            &&& cur.inflight_plain == if armed {
                consumed
            } else {
                was.inflight_plain
            }
        }),
{
}

/// A write in flight on a connection gets a deadline; without one no deadline
/// changes.
pub proof fn law_write_in_flight_has_a_deadline<C>(
    view: ListenerView<C>,
    idx: u32,
    inflight: bool,
    now: Instant,
    other: (usize, Instant),
)
    requires
        view.write.wf(),
        view.clock_fits(now),
    ensures
        ({
            let after = view.arm_send(idx, inflight, now);
            &&& after == (ListenerView { write: after.write, ..view })
            &&& !(view.has(idx) && inflight && idx < view.write.cap) ==> after == view
            &&& view.has(idx) && inflight && idx < view.write.cap ==> (
            after.write.queue.contains(other) <==> (if other.0 == idx {
                other.1 == now + view.write.window
            } else {
                view.write.queue.contains(other)
            }))
        }),
{
    super::idle::law_other_slots_keep_their_deadlines(view.write, idx, now, other);
}

/// What is to be sent on a connection is written unless a write is in flight or the
/// connection is closing: the rest of an answer first, if the wire can take it, and
/// what is queued only when nothing else is held. Afterwards it may be due to be
/// closed.
pub proof fn law_commit_writes_what_is_next<C>(
    view: ListenerView<C>,
    idx: u32,
    closing: bool,
    flow: Flow,
)
    ensures
        ({
            let step = view.commit_step(idx, closing, flow);
            let send = view.at(idx).send;
            let left = send.consumed_plain < send.total_plain;
            let takes = view.reclaim is OnComplete || send.inflight_plain > 0 || flow.holds_plain;
            &&& step is Nothing <==> !view.has(idx) || closing || flow.inflight
            &&& step is Resume <==> view.has(idx) && !closing && !flow.inflight && left && takes
            &&& step is Submit <==> view.has(idx) && !closing && !flow.inflight && !left
                && !flow.holds_plain && flow.deferred
        }),
        !view.has(idx) ==> view.commit(idx) == view,
        view.has(idx) ==> super::only_scheduled(
            view,
            view.commit(idx),
            seq![Task::MaybeClose { idx }],
        ),
{
    assert(view.work.push(Task::MaybeClose { idx }) =~= view.work + seq![Task::MaybeClose { idx }]);
}

/// A connection is seen to again exactly if, without a write in flight, some of its
/// answer is left that the wire can take, or something is queued. Nothing but its
/// mark and the deadline of its write changes.
pub proof fn law_left_over_is_seen_to_again<C>(
    view: ListenerView<C>,
    idx: u32,
    flow: Flow,
    now: Instant,
)
    requires
        view.has(idx),
    ensures
        ({
            let after = view.committed(idx, flow, now);
            let was = view.at(idx);
            let left = was.send.consumed_plain < was.send.total_plain;
            let takes = view.reclaim is OnComplete || was.send.inflight_plain > 0
                || flow.holds_plain;
            let again = !flow.inflight && ((left && takes) || (!left && !flow.holds_plain
                && flow.deferred));
            &&& view.restages(idx, flow) <==> again
            &&& after.has(idx)
            &&& after.at(idx).pending.egress == (was.pending.egress || again)
            &&& after.at(idx).pending.close == was.pending.close
            &&& after.at(idx).pending.shutdown == was.pending.shutdown
            &&& after.at(idx).send == was.send
            &&& after.at(idx).conn == was.conn
            &&& after.at(idx).token == was.token
            &&& after.at(idx).peer == was.peer
            &&& again && !was.pending.egress && !was.pending.shutdown && !was.pending.close
                ==> after.dirty == view.dirty + seq![idx]
            &&& !again ==> after.dirty == view.dirty
            &&& !flow.inflight ==> after.write == view.write
            &&& flow.inflight && idx < view.write.cap ==> after.write.queue.last() == (
                idx as usize,
                (now + view.write.window) as u128,
            )
            &&& after.work == view.work
            &&& after.silence == view.silence
            &&& after.age == view.age
            &&& after.accept == view.accept
            &&& forall|j: int|
                0 <= j < view.slots.len() && j != idx ==> #[trigger] after.slots[j]
                    == view.slots[j]
        }),
{
    super::law_mark_sets_one_mark(view.arm_send(idx, flow.inflight, now), idx, Mark::Egress);
    assert(view.dirty.push(idx) =~= view.dirty + seq![idx]);
}

/// Seeing to the marked connections takes the first of them out of the queue, takes
/// its marks off, and has it closed if it is to be, else written to if it is to be;
/// then comes the next, as long as any of those that were to be seen to are left.
pub proof fn law_marked_are_seen_to_in_order<C>(view: ListenerView<C>, left: usize)
    ensures
        left == 0 || view.dirty.len() == 0 ==> view.flush(left) == view,
        left > 0 && view.dirty.len() > 0 ==> {
            let idx = view.dirty[0];
            let after = view.flush(left);
            let again = Task::Flush { left: (left - 1) as usize };
            &&& super::same_elsewhere(view, after, idx)
            &&& view.dirty == seq![idx] + after.dirty
            &&& after.has(idx) == view.has(idx)
            &&& !view.has(idx) ==> after.work == view.work + seq![again]
            &&& view.has(idx) ==> {
                let was = view.at(idx);
                let cur = after.at(idx);
                &&& !cur.pending.egress && !cur.pending.shutdown && !cur.pending.close
                &&& cur.send == was.send
                &&& cur.conn == was.conn
                &&& cur.token == was.token
                &&& cur.peer == was.peer
                &&& after.work == view.work + if was.pending.close {
                    seq![again, Task::Close { idx }]
                } else if was.pending.egress {
                    seq![again, Task::Commit { idx }]
                } else {
                    seq![again]
                }
            }
        },
{
    if left > 0 && view.dirty.len() > 0 {
        let idx = view.dirty[0];
        let after = view.flush(left);
        let again = Task::Flush { left: (left - 1) as usize };
        assert(view.dirty =~= seq![idx] + view.dirty.skip(1));
        assert(view.work.push(again) =~= view.work + seq![again]);
        assert(view.work.push(again).push(Task::Close { idx }) =~= view.work + seq![
            again,
            Task::Close { idx },
        ]);
        assert(view.work.push(again).push(Task::Commit { idx }) =~= view.work + seq![
            again,
            Task::Commit { idx },
        ]);
    }
}

/// Bytes for a connection that is gone are not taken; those for one that is there
/// are sent, queued or refused by what is still to be sent on it.
pub proof fn law_bytes_are_taken_by_their_connection<C>(
    view: ListenerView<C>,
    idx: u32,
    flow: Flow,
    capacity: usize,
    written: usize,
)
    ensures
        view.submission(idx, flow, capacity, written) is None <==> !(idx < view.slots.len()
            && view.slots[idx as int] is Some),
        view.submission(idx, flow, capacity, written) matches Some(submit) ==> {
            let send = (view.slots[idx as int]->0).send;
            let owes = flow.inflight || flow.holds_plain || flow.deferred || send.consumed_plain
                < send.total_plain;
            &&& submit is Stage <==> owes
            &&& submit is Send <==> !owes && written <= capacity
        },
{
}

impl<C> Listener<C> {
    /// Takes what the application has written for a connection: `written` bytes from
    /// a buffer of `capacity` bytes, and `body` bytes that lie elsewhere.
    pub fn submit(
        &mut self,
        idx: u32,
        flow: Flow,
        capacity: usize,
        written: usize,
        body: usize,
    ) -> (submit: Option<Submit>)
        requires
            old(self).wf(),
            written + body <= usize::MAX,
        ensures
            final(self).wf(),
            submit == old(self)@.submission(idx, flow, capacity, written),
            final(self)@ == if submit == Some(Submit::Send) {
                old(self)@.with(idx, old(self)@.at(idx).answering(written, body))
            } else {
                old(self)@
            },
    {
        let ghost view = self@;
        if !self.has(idx) {
            return None;
        }
        assert(view.slots[idx as int] is Some);
        let reclaim = self.reclaim;
        let submit = match self.slot_mut(idx) {
            Some(state) => Some(state.submit(reclaim, flow, capacity, written, body)),
            None => None,
        };
        proof {
            super::lemma_with_wf(view, idx, view.at(idx).answering(written, body));
            assert(view.with(idx, view.at(idx)).slots =~= view.slots);
        }
        submit
    }

    /// Takes a completed write.
    pub fn pump_send(&mut self, outcome: SendOutcome) -> (step: SendStep)
        requires
            old(self).wf(),
        ensures
            final(self).wf(),
            step == old(self)@.send_step(outcome),
            final(self)@ == old(self)@.pump_send(outcome),
    {
        match outcome {
            SendOutcome::Stale => SendStep::Nothing,
            SendOutcome::Close { idx } => {
                self.schedule(Task::Close { idx });
                SendStep::Abort { idx }
            },
            SendOutcome::Sent { idx } => {
                self.write.cancel(idx);
                if (idx as usize) < self.slots.len() {
                    if let Some(state) = &self.slots[idx as usize] {
                        if state.send.total_plain == 0 {
                            return SendStep::Queue { idx };
                        }
                    }
                }
                SendStep::Direct { idx }
            },
        }
    }

    /// A write from the queue is over: `completed` says whether the queue could give
    /// back what was sent. Says whether the application is to be told.
    pub fn queue_completed(&mut self, idx: u32, completed: bool) -> (told: bool)
        requires
            old(self).wf(),
        ensures
            final(self).wf(),
            told == (completed && old(self)@.has(idx)),
            final(self)@ == if !completed {
                old(self)@.schedule(Task::Close { idx })
            } else if old(self)@.has(idx) {
                old(self)@.schedule(Task::Commit { idx })
            } else {
                old(self)@
            },
    {
        if !completed {
            self.schedule(Task::Close { idx });
            return false;
        }
        if !self.has(idx) {
            return false;
        }
        self.schedule(Task::Commit { idx });
        true
    }

    /// A write of part of an answer is over, `sent` bytes of which were sent.
    pub fn direct_completed(&mut self, idx: u32, sent: usize) -> (step: DirectStep)
        requires
            old(self).wf(),
        ensures
            final(self).wf(),
            step == old(self)@.direct_step(idx, sent),
            final(self)@ == old(self)@.direct_completed(idx, sent),
    {
        let ghost view = self@;
        if self.reclaim == Reclaim::OnComplete {
            if !self.has(idx) {
                self.schedule(Task::Close { idx });
                return DirectStep::Nothing;
            }
            assert(view.slots[idx as int] is Some);
            let valid = match self.slot_mut(idx) {
                Some(state) => state.send.complete_handoff(sent),
                None => false,
            };
            proof {
                super::lemma_with_wf(
                    view,
                    idx,
                    State { send: view.progress(idx, sent), ..view.at(idx) },
                );
            }
            if !valid {
                assert(self@.slots =~= view.slots);
                self.schedule(Task::Close { idx });
                return DirectStep::Nothing;
            }
        } else {
            proof {
                if view.has(idx) {
                    assert(view.slots[idx as int] is Some);
                    assert(view.with(idx, view.at(idx)).slots =~= view.slots);
                }
            }
        }
        let ghost mid = self@;
        if !self.has(idx) {
            return DirectStep::Nothing;
        }
        assert(mid.slots[idx as int] is Some);
        let total = match self.slot_mut(idx) {
            Some(state) => {
                if state.send.consumed_plain < state.send.total_plain {
                    None
                } else {
                    let total = state.send.total_plain;
                    state.send.reset();
                    Some(total)
                }
            },
            None => None,
        };
        match total {
            None => {
                assert(self@.slots =~= mid.slots);
                DirectStep::Resume
            },
            Some(total) => {
                proof {
                    super::lemma_with_wf(
                        mid,
                        idx,
                        State { send: send::State::fresh(), ..mid.at(idx) },
                    );
                    assert(self@.slots =~= view.with(
                        idx,
                        State { send: send::State::fresh(), ..view.at(idx) },
                    ).slots);
                }
                self.schedule(Task::MaybeClose { idx });
                DirectStep::Done { total }
            },
        }
    }

    /// Part of an answer was handed to the wire, which took `consumed` bytes, in a
    /// new write if `armed`.
    pub fn record_handoff(&mut self, idx: u32, consumed: usize, armed: bool)
        requires
            old(self).wf(),
            old(self)@.has(idx) ==> old(self)@.at(idx).send.consumed_plain + consumed
                <= usize::MAX,
        ensures
            final(self).wf(),
            final(self)@ == old(self)@.handed(idx, consumed, armed),
    {
        let ghost view = self@;
        if !self.has(idx) {
            return ;
        }
        assert(view.slots[idx as int] is Some);
        if let Some(state) = self.slot_mut(idx) {
            state.send.record_handoff(consumed, armed);
        }
        proof {
            super::lemma_with_wf(
                view,
                idx,
                State { send: view.at(idx).send.handed(consumed, armed), ..view.at(idx) },
            );
        }
    }

    /// Sets the deadline of a write, if one is in flight.
    pub fn arm_send_deadline(&mut self, idx: u32, inflight: bool, now: Instant)
        requires
            old(self).wf(),
            old(self)@.clock_fits(now),
        ensures
            final(self).wf(),
            final(self)@ == old(self)@.arm_send(idx, inflight, now),
    {
        if self.has(idx) && inflight {
            self.write.arm(idx, now);
        }
    }

    /// Decides how what is to be sent on a connection is written. `closing` says
    /// whether it has begun to close.
    pub fn commit_chunk(&mut self, idx: u32, closing: bool, flow: Flow) -> (step: CommitStep)
        requires
            old(self).wf(),
        ensures
            final(self).wf(),
            step == old(self)@.commit_step(idx, closing, flow),
            final(self)@ == old(self)@.commit(idx),
    {
        if idx as usize >= self.slots.len() {
            return CommitStep::Nothing;
        }
        let step = match &self.slots[idx as usize] {
            None => {
                return CommitStep::Nothing;
            },
            Some(state) => if closing {
                CommitStep::Nothing
            } else {
                match egress::egress(state.send, self.reclaim, flow) {
                    Egress::Inflight => CommitStep::Nothing,
                    Egress::Plain => CommitStep::Resume,
                    Egress::Deferred => CommitStep::Submit,
                    _ => CommitStep::Flush,
                }
            },
        };
        self.schedule(Task::MaybeClose { idx });
        step
    }

    /// Something was handed to the wire: sets the deadline of the write, and has the
    /// connection seen to again if something is left.
    pub fn committed(&mut self, idx: u32, flow: Flow, now: Instant)
        requires
            old(self).wf(),
            old(self)@.clock_fits(now),
        ensures
            final(self).wf(),
            final(self)@ == old(self)@.committed(idx, flow, now),
    {
        let restage = if idx as usize >= self.slots.len() {
            false
        } else {
            match &self.slots[idx as usize] {
                None => false,
                Some(state) => match egress::egress(state.send, self.reclaim, flow) {
                    Egress::Plain => true,
                    Egress::Deferred => true,
                    _ => false,
                },
            }
        };
        self.arm_send_deadline(idx, flow.inflight, now);
        if restage {
            self.mark(idx, Mark::Egress);
        }
    }

    /// Starts seeing to all connections that are marked now.
    pub fn flush_dirty(&mut self)
        requires
            old(self).wf(),
        ensures
            final(self).wf(),
            final(self)@ == old(self)@.schedule(
                Task::Flush { left: old(self)@.dirty.len() as usize },
            ),
    {
        let left = self.dirty.len();
        self.schedule(Task::Flush { left });
    }

    /// Sees to the next marked connection, unless `left` is zero.
    pub fn flush_next(&mut self, left: usize)
        requires
            old(self).wf(),
        ensures
            final(self).wf(),
            final(self)@ == old(self)@.flush(left),
    {
        if left == 0 {
            return ;
        }
        let ghost before = self@;
        let Some(idx) = self.dirty.pop_front() else {
            return ;
        };
        assert(self.dirty@ =~= before.dirty.skip(1));
        let flags: Pending = match self.slot_mut(idx) {
            Some(state) => state.pending.take_flags(),
            None => Pending::new(),
        };
        proof {
            if before.has(idx) {
                assert(before.slots[idx as int] is Some);
            }
            pending::lemma_take(before.slots, before.dirty, self@.slots);
        }
        self.schedule(Task::Flush { left: left - 1 });
        if flags.close {
            self.schedule(Task::Close { idx });
        } else if flags.egress {
            self.schedule(Task::Commit { idx });
        }
    }
}

} // verus!
