//! Closing.
use vstd::prelude::*;

use crate::manifold::pending::Mark;
use crate::time::Instant;
use super::egress;
use super::egress::{Egress, Flow};
use super::state::State;
use super::{Listener, ListenerView, Task, Watch};

verus! {

/// How the closing of a connection goes on.
#[derive(Clone, Copy, PartialEq, Eq, Structural, Debug)]
pub enum CloseStep {
    /// There is nothing to close.
    Gone,
    /// It closes when what is in flight is done.
    Wait,
    /// It begins to close; its receive is canceled if nothing is being sent.
    Begin { cancel: bool },
    /// It is to be sealed, or else closed.
    Seal,
}

/// Whether a connection is closed now.
#[derive(Clone, Copy, PartialEq, Eq, Structural, Debug)]
pub enum Verdict {
    Close,
    /// Something is still to be sent first.
    Retry,
    Keep,
}

impl<C> ListenerView<C> {
    /// Whether the connection in a slot is closed now. `closing` says whether it
    /// has begun to, and `due` whether the driver and the application agree that it
    /// may.
    pub open spec fn verdict(self, idx: u32, closing: bool, due: bool, flow: Flow) -> Verdict {
        if !self.has(idx) {
            Verdict::Keep
        } else if closing {
            if due {
                Verdict::Close
            } else {
                Verdict::Keep
            }
        } else {
            match egress::classify(self.at(idx).send, self.reclaim, flow) {
                Egress::Plain | Egress::Deferred => Verdict::Retry,
                Egress::Clear => if due {
                    Verdict::Close
                } else {
                    Verdict::Keep
                },
                _ => Verdict::Keep,
            }
        }
    }

    pub open spec fn maybe_close(self, idx: u32, closing: bool, due: bool, flow: Flow) -> Self {
        match self.verdict(idx, closing, due, flow) {
            Verdict::Close => self.schedule(Task::Close { idx }),
            Verdict::Retry => self.mark(idx, Mark::Egress),
            Verdict::Keep => self,
        }
    }

    /// No deadline is kept for a slot.
    pub open spec fn unwatched(self, idx: u32) -> Self {
        ListenerView {
            silence: self.silence.cancel(idx),
            write: self.write.cancel(idx),
            age: self.age.cancel(idx),
            ..self
        }
    }

    pub open spec fn close_step(
        self,
        idx: u32,
        send_inflight: bool,
        recv_armed: bool,
        closing: bool,
    ) -> CloseStep {
        if !self.has(idx) {
            CloseStep::Gone
        } else if send_inflight || recv_armed {
            if closing {
                CloseStep::Wait
            } else {
                CloseStep::Begin { cancel: recv_armed && !send_inflight }
            }
        } else {
            CloseStep::Seal
        }
    }

    /// The connection in a slot is over: its peer may have another.
    pub open spec fn closed(self, idx: u32) -> Self {
        if self.has(idx) {
            let state = self.at(idx);
            let after = self.with(idx, State { peer: None, ..state });
            match state.peer {
                Some(peer) => ListenerView { accept: self.accept.released(peer), ..after },
                None => after,
            }
        } else {
            self
        }
    }

    /// A connection could not be sealed: the application is told, and then it is let
    /// go of.
    pub open spec fn unsealed(self, idx: u32) -> Self {
        let parting = self.schedule(Task::Part { idx });
        if self.has(idx) {
            parting.schedule(Task::Closed { idx })
        } else {
            parting
        }
    }

    pub open spec fn watch(self, watch: Watch) -> super::idle::IdleView {
        match watch {
            Watch::Silence => self.silence,
            Watch::Write => self.write,
            Watch::Age => self.age,
        }
    }

    /// The first deadline of a set is taken out.
    pub open spec fn popped(self, watch: Watch, now: Instant) -> Self {
        match watch {
            Watch::Silence => ListenerView { silence: self.silence.pop_expired(now), ..self },
            Watch::Write => ListenerView { write: self.write.pop_expired(now), ..self },
            Watch::Age => ListenerView { age: self.age.pop_expired(now), ..self },
        }
    }

    /// The first connection of a set whose deadline has passed is to be closed, and
    /// then the next.
    pub open spec fn drain(self, watch: Watch, now: Instant) -> Self {
        if self.watch(watch).overdue(now) {
            let idx = self.watch(watch).queue[0].0 as u32;
            self.popped(watch, now).schedule(Task::Drain { watch }).schedule(Task::Close { idx })
        } else {
            self
        }
    }
}

/// A connection on which something is still to be sent is not closed, unless it has
/// begun to close.
pub proof fn law_unsent_is_not_cut_off<C>(view: ListenerView<C>, idx: u32, due: bool, flow: Flow)
    requires
        view.has(idx),
        view.at(idx).owes(view.reclaim, flow),
    ensures
        !(view.verdict(idx, false, due, flow) is Close),
{
}

/// A peer's count goes down once for each of its connections, however often they
/// are closed.
pub proof fn law_peer_is_released_once<C>(view: ListenerView<C>, idx: u32)
    requires
        view.wf(),
    ensures
        view.closed(idx).closed(idx).accept == view.closed(idx).accept,
{
}

/// The application hears of a connection's end while its peer still counts as having
/// it.
pub proof fn law_application_hears_before_release<C>(view: ListenerView<C>, idx: u32)
    requires
        view.has(idx),
    ensures
        view.unsealed(idx).work == view.work + seq![Task::Part { idx }, Task::Closed { idx }],
        view.unsealed(idx).accept == view.accept,
        view.unsealed(idx).at(idx) == view.at(idx),
{
    assert(view.unsealed(idx).work =~= view.work + seq![
        Task::Part { idx },
        Task::Closed { idx },
    ]);
}

/// A connection that is being closed does not fall due any more.
pub proof fn law_closed_is_unwatched<C>(view: ListenerView<C>, idx: u32)
    ensures
        !view.unwatched(idx).silence.armed(idx as usize),
        !view.unwatched(idx).write.armed(idx as usize),
        !view.unwatched(idx).age.armed(idx as usize),
{
    super::idle::lemma_absent(view.silence.queue, idx as usize);
    super::idle::lemma_absent(view.write.queue, idx as usize);
    super::idle::lemma_absent(view.age.queue, idx as usize);
}

/// A connection is closed exactly if it is due and has either begun to close or has
/// nothing left to send. It is seen to again exactly if it has not begun to close and
/// something can be written; and nothing else happens to it.
pub proof fn law_due_is_closed<C>(
    view: ListenerView<C>,
    idx: u32,
    closing: bool,
    due: bool,
    flow: Flow,
)
    ensures
        ({
            let verdict = view.verdict(idx, closing, due, flow);
            let after = view.maybe_close(idx, closing, due, flow);
            let send = view.at(idx).send;
            let left = send.consumed_plain < send.total_plain;
            let takes = !(view.reclaim is OnSubmit) || send.inflight_plain > 0 || flow.holds_plain;
            let clear = !flow.inflight && !flow.holds_plain && !flow.deferred && !left;
            let writable = !flow.inflight && ((left && takes) || (!left && !flow.holds_plain
                && flow.deferred));
            &&& verdict is Close <==> view.has(idx) && due && (closing || clear)
            &&& verdict is Retry <==> view.has(idx) && !closing && writable
            &&& verdict is Close ==> super::only_scheduled(view, after, seq![Task::Close { idx }])
            &&& verdict is Keep ==> after == view
            &&& verdict is Retry ==> super::same_elsewhere(view, after, idx) && after.work
                == view.work && after.has(idx) && after.at(idx).pending.egress && after.at(
                idx,
            ).send == view.at(idx).send && after.at(idx).token == view.at(idx).token
        }),
{
    assert(view.work.push(Task::Close { idx }) =~= view.work + seq![Task::Close { idx }]);
    if view.has(idx) {
        super::law_mark_sets_one_mark(view, idx, Mark::Egress);
    }
}

/// A connection that is being closed waits for what is in flight. It begins to close
/// once, and its receive is canceled then unless something is being sent; it is
/// sealed when nothing is in flight.
pub proof fn law_closing_waits_for_what_is_in_flight<C>(
    view: ListenerView<C>,
    idx: u32,
    send_inflight: bool,
    recv_armed: bool,
    closing: bool,
)
    ensures
        ({
            let step = view.close_step(idx, send_inflight, recv_armed, closing);
            &&& step is Gone <==> !view.has(idx)
            &&& step is Seal <==> view.has(idx) && !send_inflight && !recv_armed
            &&& step is Wait <==> view.has(idx) && closing && (send_inflight || recv_armed)
            &&& step is Begin <==> view.has(idx) && !closing && (send_inflight || recv_armed)
            &&& step matches CloseStep::Begin { cancel } ==> (cancel <==> !send_inflight)
        }),
{
}

/// Closing a slot takes all deadlines of that slot away and no deadline of any other,
/// and changes nothing else.
pub proof fn law_unwatched_is_one_slot<C>(
    view: ListenerView<C>,
    idx: u32,
    entry: (usize, Instant),
)
    ensures
        ({
            let after = view.unwatched(idx);
            &&& after.silence.queue.contains(entry) <==> view.silence.queue.contains(entry)
                && entry.0 != idx
            &&& after.write.queue.contains(entry) <==> view.write.queue.contains(entry) && entry.0
                != idx
            &&& after.age.queue.contains(entry) <==> view.age.queue.contains(entry) && entry.0
                != idx
            &&& after.silence.window == view.silence.window
            &&& after.write.window == view.write.window
            &&& after.age.window == view.age.window
            &&& after.slots == view.slots
            &&& after.dirty == view.dirty
            &&& after.work == view.work
            &&& after.accept == view.accept
        }),
{
    crate::collections::slots::lemma_without_keeps(view.silence.queue, idx as usize, entry);
    crate::collections::slots::lemma_without_keeps(view.write.queue, idx as usize, entry);
    crate::collections::slots::lemma_without_keeps(view.age.queue, idx as usize, entry);
}

/// A connection that is over gives its peer's place back and stays as it is
/// otherwise; one without a peer changes no count.
pub proof fn law_over_gives_the_place_back<C>(view: ListenerView<C>, idx: u32)
    requires
        view.has(idx),
    ensures
        ({
            let after = view.closed(idx);
            let was = view.at(idx);
            let cur = after.at(idx);
            &&& after.has(idx)
            &&& cur.peer is None
            &&& cur.conn == was.conn
            &&& cur.token == was.token
            &&& cur.send == was.send
            &&& cur.pending == was.pending
            &&& after.accept == match was.peer {
                Some(peer) => view.accept.released(peer),
                None => view.accept,
            }
            &&& after.work == view.work
            &&& after.dirty == view.dirty
            &&& after.silence == view.silence
            &&& after.write == view.write
            &&& after.age == view.age
            &&& forall|j: int|
                0 <= j < view.slots.len() && j != idx ==> #[trigger] after.slots[j]
                    == view.slots[j]
        }),
{
}

/// Of one set of deadlines the first that has passed is taken out and its connection
/// closed, before the next is looked at; if none has passed nothing happens. The
/// other sets are not touched.
pub proof fn law_overdue_are_closed_one_by_one<C>(
    view: ListenerView<C>,
    watch: Watch,
    now: Instant,
)
    ensures
        ({
            let after = view.drain(watch, now);
            let was = match watch {
                Watch::Silence => view.silence,
                Watch::Write => view.write,
                Watch::Age => view.age,
            };
            let cur = match watch {
                Watch::Silence => after.silence,
                Watch::Write => after.write,
                Watch::Age => after.age,
            };
            &&& !(was.queue.len() > 0 && was.queue[0].1 <= now) ==> after == view
            &&& was.queue.len() > 0 && was.queue[0].1 <= now ==> {
                &&& was.queue == seq![was.queue[0]] + cur.queue
                &&& cur.window == was.window
                &&& after.work == view.work + seq![
                    Task::Drain { watch },
                    Task::Close { idx: was.queue[0].0 as u32 },
                ]
            }
            &&& !(watch is Silence) ==> after.silence == view.silence
            &&& !(watch is Write) ==> after.write == view.write
            &&& !(watch is Age) ==> after.age == view.age
            &&& after.slots == view.slots
            &&& after.dirty == view.dirty
            &&& after.accept == view.accept
        }),
{
    super::idle::law_only_the_overdue_is_taken_out(view.watch(watch), now);
    let idx = view.watch(watch).queue[0].0 as u32;
    assert(view.work.push(Task::Drain { watch }).push(Task::Close { idx }) =~= view.work + seq![
        Task::Drain { watch },
        Task::Close { idx },
    ]);
}

/// A connection that could not be sealed is let go of, after the application has been
/// told if there is one to tell of; nothing else happens.
pub proof fn law_unsealed_is_told_and_let_go<C>(view: ListenerView<C>, idx: u32)
    ensures
        super::only_scheduled(
            view,
            view.unsealed(idx),
            if view.has(idx) {
                seq![Task::Part { idx }, Task::Closed { idx }]
            } else {
                seq![Task::Part { idx }]
            },
        ),
{
    assert(view.unsealed(idx).work =~= view.work + if view.has(idx) {
        seq![Task::Part { idx }, Task::Closed { idx }]
    } else {
        seq![Task::Part { idx }]
    });
}

impl<C> Listener<C> {
    /// Closes a connection if it is due, or has it seen to again if something is
    /// still to be sent.
    pub fn maybe_close(&mut self, idx: u32, closing: bool, due: bool, flow: Flow) -> (verdict:
        Verdict)
        requires
            old(self).wf(),
        ensures
            final(self).wf(),
            verdict == old(self)@.verdict(idx, closing, due, flow),
            final(self)@ == old(self)@.maybe_close(idx, closing, due, flow),
    {
        let verdict = if idx as usize >= self.slots.len() {
            Verdict::Keep
        } else {
            match &self.slots[idx as usize] {
                None => Verdict::Keep,
                Some(state) => if closing {
                    if due {
                        Verdict::Close
                    } else {
                        Verdict::Keep
                    }
                } else {
                    match egress::egress(state.send, self.reclaim, flow) {
                        Egress::Plain => Verdict::Retry,
                        Egress::Deferred => Verdict::Retry,
                        Egress::Clear => if due {
                            Verdict::Close
                        } else {
                            Verdict::Keep
                        },
                        _ => Verdict::Keep,
                    }
                },
            }
        };
        match verdict {
            Verdict::Close => {
                self.schedule(Task::Close { idx });
            },
            Verdict::Retry => {
                self.mark(idx, Mark::Egress);
            },
            Verdict::Keep => {},
        }
        verdict
    }

    /// Closes a connection, which is not watched any more. The flags say whether
    /// something is being sent, whether a receive is armed, and whether the closing
    /// has begun.
    pub fn close_slot(
        &mut self,
        idx: u32,
        send_inflight: bool,
        recv_armed: bool,
        closing: bool,
    ) -> (step: CloseStep)
        requires
            old(self).wf(),
        ensures
            final(self).wf(),
            step == old(self)@.close_step(idx, send_inflight, recv_armed, closing),
            final(self)@ == old(self)@.unwatched(idx),
    {
        self.silence.cancel(idx);
        self.write.cancel(idx);
        self.age.cancel(idx);
        if !self.has(idx) {
            return CloseStep::Gone;
        }
        if send_inflight || recv_armed {
            if closing {
                CloseStep::Wait
            } else {
                CloseStep::Begin { cancel: recv_armed && !send_inflight }
            }
        } else {
            CloseStep::Seal
        }
    }

    /// A connection could not be sealed.
    pub fn unsealed(&mut self, idx: u32)
        requires
            old(self).wf(),
        ensures
            final(self).wf(),
            final(self)@ == old(self)@.unsealed(idx),
    {
        let live = self.has(idx);
        self.schedule(Task::Part { idx });
        if live {
            self.schedule(Task::Closed { idx });
        }
    }

    /// A connection is over: its peer may have another.
    pub fn closed(&mut self, idx: u32)
        requires
            old(self).wf(),
        ensures
            final(self).wf(),
            final(self)@ == old(self)@.closed(idx),
    {
        let ghost view = self@;
        let peer = match self.slot_mut(idx) {
            Some(state) => {
                let peer = state.peer;
                state.peer = None;
                peer
            },
            None => {
                return ;
            },
        };
        proof {
            assert(view.slots[idx as int] is Some);
            super::lemma_with_wf(view, idx, State { peer: None, ..view.at(idx) });
        }
        if let Some(peer) = peer {
            self.accept.release_peer_ip(peer);
        }
    }

    /// Takes out the first connection of a set whose deadline has passed, which is
    /// then closed.
    pub fn drain_idle(&mut self, watch: Watch, now: Instant)
        requires
            old(self).wf(),
        ensures
            final(self).wf(),
            final(self)@ == old(self)@.drain(watch, now),
    {
        let expired = match watch {
            Watch::Silence => self.silence.pop_expired(now),
            Watch::Write => self.write.pop_expired(now),
            Watch::Age => self.age.pop_expired(now),
        };
        if let Some(idx) = expired {
            self.schedule(Task::Drain { watch });
            self.schedule(Task::Close { idx });
        }
    }
}

} // verus!
