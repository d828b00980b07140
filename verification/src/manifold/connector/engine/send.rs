//! Sending.
use vstd::prelude::*;

use crate::manifold::connector::app::{CloseKind, Requests};
use crate::manifold::connector::source::Dialer;
use crate::manifold::connector::state::{Establish, State};
use crate::manifold::pending;
use crate::manifold::pending::{Mark, Pending};
use crate::manifold::Reclaim;
use super::{Core, CoreView, Task};

verus! {

/// What a completed write amounts to.
#[derive(Clone, Copy, PartialEq, Eq, Structural, Debug)]
pub enum SendOutcome {
    Sent { idx: u32, sent: usize },
    Close { idx: u32 },
    /// Nobody waits for it any more.
    Stale,
}

/// What came of writing what was queued.
#[derive(Clone, Copy, PartialEq, Eq, Structural, Debug)]
pub enum Egress {
    /// Nothing was queued.
    Empty,
    Written {
        /// How much the wire took off the queue.
        consumed: usize,
        /// Whether the queue could give that much back.
        acked: bool,
        /// A write is in flight.
        inflight: bool,
        /// The wire holds bytes of its own.
        holds_plain: bool,
    },
}

impl<D> CoreView<D> {
    pub open spec fn drain_requests(self, idx: u32, enqueued: bool, requests: Requests) -> Self {
        if !self.has(idx) {
            self
        } else {
            let queued = if enqueued {
                self.mark(idx, Mark::Egress)
            } else {
                self
            };
            let shut = match requests.shutdown {
                Some(how) => queued.set_shutdown(idx, how).mark(idx, Mark::Shutdown),
                None => queued,
            };
            match requests.close {
                Some(CloseKind::Reconnect) => shut.mark(idx, Mark::Close),
                Some(CloseKind::Permanent) => shut.close_permanent(idx).mark(idx, Mark::Close),
                None => shut,
            }
        }
    }

    pub open spec fn close_permanent(self, idx: u32) -> Self {
        self.with(idx, State { close_permanent: true, ..self.at(idx) })
    }

    /// What is queued on a connection may be written.
    pub open spec fn egress_ready(self, idx: u32, writable: bool) -> bool {
        writable && self.has(idx) && self.at(idx).establish is Done
    }

    /// The queue cannot give back what the wire has taken.
    pub open spec fn egress_broken(self, egress: Egress) -> bool {
        self.reclaim is OnSubmit && (egress matches Egress::Written { acked, .. } && !acked)
    }

    pub open spec fn submit_egress(self, idx: u32, egress: Egress) -> Self {
        match egress {
            Egress::Empty => self,
            Egress::Written { consumed, inflight, holds_plain, .. } => {
                let on_submit = self.reclaim is OnSubmit;
                let stalled = on_submit && consumed == 0 && !holds_plain;
                if self.egress_broken(egress) {
                    self
                } else {
                    let after = if !inflight && !stalled {
                        self.mark(idx, Mark::Egress)
                    } else {
                        self
                    };
                    if on_submit {
                        after.schedule(Task::Requests { idx })
                    } else {
                        after
                    }
                }
            },
        }
    }

    pub open spec fn flush(self, left: usize) -> Self {
        if left == 0 || self.dirty.len() == 0 {
            self
        } else {
            let idx = self.dirty[0];
            let popped = (CoreView { dirty: self.dirty.skip(1), ..self }).schedule(
                Task::Flush { left: (left - 1) as usize },
            );
            if !self.has(idx) {
                popped
            } else {
                let flags = self.at(idx).pending;
                let taken = popped.with(idx, State { pending: flags.taken(), ..self.at(idx) });
                let closing = if flags.close {
                    taken.schedule(Task::Close { idx })
                } else {
                    taken
                };
                let shutting = if flags.shutdown {
                    closing.schedule(Task::Shutdown { idx })
                } else {
                    closing
                };
                if flags.egress {
                    shutting.schedule(Task::Egress { idx })
                } else {
                    shutting
                }
            }
        }
    }

    /// Bytes were sent: the application is told and asked for more, what is queued is
    /// written, and the connection closed if it is due.
    pub open spec fn sent(self, idx: u32, sent: usize) -> Self {
        self.follow_up(idx).schedule(Task::Requests { idx }).schedule(Task::Sent { idx, sent })
    }

    pub open spec fn acked(self, idx: u32, sent: usize, acked: bool) -> Self {
        if acked {
            self.sent(idx, sent)
        } else {
            self.schedule(Task::Close { idx })
        }
    }

    pub open spec fn handle_send(self, outcome: SendOutcome) -> Self {
        match outcome {
            SendOutcome::Sent { idx, sent } => if !self.has(idx) {
                self.follow_up(idx)
            } else if self.reclaim is OnComplete {
                self.schedule(Task::Ack { idx, sent })
            } else {
                self.sent(idx, sent)
            },
            SendOutcome::Close { idx } => self.schedule(Task::Close { idx }),
            SendOutcome::Stale => self,
        }
    }
}

/// On a wire that borrows bytes until they are sent, the application does not hear of
/// them before the queue has given them back, and not at all if it cannot: the
/// connection is closed then.
pub proof fn law_only_acknowledged_is_told<D>(view: CoreView<D>, idx: u32, sent: usize)
    requires
        view.has(idx),
        view.reclaim is OnComplete,
    ensures
        view.handle_send(SendOutcome::Sent { idx, sent }).work == view.work.push(
            Task::Ack { idx, sent },
        ),
        view.acked(idx, sent, false).work == view.work.push(Task::Close { idx }),
        view.acked(idx, sent, true).work == view.work + seq![
            Task::MaybeClose { idx },
            Task::Egress { idx },
            Task::Requests { idx },
            Task::Sent { idx, sent },
        ],
{
    assert(view.acked(idx, sent, true).work =~= view.work + seq![
        Task::MaybeClose { idx },
        Task::Egress { idx },
        Task::Requests { idx },
        Task::Sent { idx, sent },
    ]);
}

/// Seeing to a marked connection takes its marks off and does all that they call
/// for: first the writing, then the shutting down, then the closing.
pub proof fn law_flush_does_what_is_marked<D>(view: CoreView<D>, left: usize)
    requires
        view.wf(),
        left > 0,
        view.dirty.len() > 0,
        view.has(view.dirty[0]),
    ensures
        ({
            let idx = view.dirty[0];
            let flags = view.at(idx).pending;
            let after = view.flush(left);
            let added = after.work.skip(view.work.len() as int);
            &&& !after.at(idx).pending.spec_any()
            &&& added[0] == Task::Flush { left: (left - 1) as usize }
            &&& added.contains(Task::Egress { idx }) <==> flags.egress
            &&& added.contains(Task::Shutdown { idx }) <==> flags.shutdown
            &&& added.contains(Task::Close { idx }) <==> flags.close
            &&& flags.egress ==> after.work.last() == Task::Egress { idx }
        }),
{
    let idx = view.dirty[0];
    let flags = view.at(idx).pending;
    let after = view.flush(left);
    let added = after.work.skip(view.work.len() as int);
    let close = seq![Task::Flush { left: (left - 1) as usize }] + if flags.close {
        seq![Task::Close { idx }]
    } else {
        Seq::empty()
    };
    let shut = close + if flags.shutdown {
        seq![Task::Shutdown { idx }]
    } else {
        Seq::empty()
    };
    let all = shut + if flags.egress {
        seq![Task::Egress { idx }]
    } else {
        Seq::empty()
    };
    assert(added =~= all);
    if flags.close {
        assert(all[1] == Task::Close { idx });
    }
    if flags.shutdown {
        assert(all[close.len() as int] == Task::Shutdown { idx });
    }
    if flags.egress {
        assert(all[shut.len() as int] == Task::Egress { idx });
    }
}

/// Each request is kept on its connection and nothing else is: bytes that were queued
/// are to be written, halves are to be shut down, and a close is to come. What was
/// dialed is given up for good exactly if that was asked for, now or before.
pub proof fn law_requests_are_kept<D>(
    view: CoreView<D>,
    idx: u32,
    enqueued: bool,
    requests: Requests,
)
    ensures
        ({
            let after = view.drain_requests(idx, enqueued, requests);
            if idx < view.slots.len() && view.slots[idx as int] is Some {
                let was = view.slots[idx as int]->0;
                let cur = after.slots[idx as int]->0;
                let asked = enqueued || requests.shutdown is Some || requests.close is Some;
                &&& after.slots[idx as int] is Some
                &&& cur.pending.egress == (was.pending.egress || enqueued)
                &&& cur.pending.shutdown == (was.pending.shutdown || requests.shutdown is Some)
                &&& cur.pending.close == (was.pending.close || requests.close is Some)
                &&& cur.pending.how == match requests.shutdown {
                    Some(how) => how,
                    None => was.pending.how,
                }
                &&& cur.close_permanent == (was.close_permanent || requests.close == Some(
                    CloseKind::Permanent,
                ))
                &&& super::same_but_marks(
                    State { close_permanent: cur.close_permanent, ..was },
                    cur,
                )
                &&& super::same_elsewhere(view, after, idx)
                &&& after.work == view.work
                &&& after.dirty == if asked && !(was.pending.egress || was.pending.shutdown
                    || was.pending.close) {
                    view.dirty.push(idx)
                } else {
                    view.dirty
                }
            } else {
                after == view
            }
        }),
{
}

/// A connection that the application wants closed and dialed again is dropped by the
/// dialer, not given up: closing it says so. Only a request for good, now or before,
/// has the dialer give it up.
pub proof fn law_close_kind_reaches_the_dialer<D>(
    view: CoreView<D>,
    idx: u32,
    enqueued: bool,
    requests: Requests,
)
    requires
        view.has(idx),
        !view.at(idx).retired,
    ensures
        ({
            let closed = view.drain_requests(idx, enqueued, requests).close_slot(idx);
            let key = view.at(idx).dial;
            let permanent = view.at(idx).close_permanent || requests.close == Some(
                CloseKind::Permanent,
            );
            let added = closed.work.skip(view.work.len() as int);
            &&& added.contains(Task::Dismiss { key, permanent })
            &&& !added.contains(Task::Dismiss { key, permanent: !permanent })
        }),
{
    let closed = view.drain_requests(idx, enqueued, requests).close_slot(idx);
    let key = view.at(idx).dial;
    let permanent = view.at(idx).close_permanent || requests.close == Some(CloseKind::Permanent);
    let added = closed.work.skip(view.work.len() as int);
    law_requests_are_kept(view, idx, enqueued, requests);
    assert(added =~= seq![Task::DrainClose { idx }, Task::Dismiss { key, permanent }] + if view.at(
        idx,
    ).establish is Done {
        seq![Task::Closed { idx }]
    } else {
        Seq::empty()
    });
    assert(added[1] == Task::Dismiss { key, permanent });
}

/// Writing is tried only on a connection that stands. After a write a connection is
/// written to again unless a write is in flight or its wire, which keeps the bytes,
/// took none and holds none; and the application is asked for more exactly if the wire
/// keeps the bytes. A queue that cannot give back what such a wire took changes
/// nothing. Nothing that was written leaves a trace if nothing was queued.
pub proof fn law_written_to_the_end<D>(
    view: CoreView<D>,
    idx: u32,
    writable: bool,
    consumed: usize,
    acked: bool,
    inflight: bool,
    holds_plain: bool,
)
    ensures
        view.egress_ready(idx, writable) <==> writable && idx < view.slots.len()
            && view.slots[idx as int] is Some && view.slots[idx as int]->0.establish
            == Establish::Done,
        view.submit_egress(idx, Egress::Empty) == view,
        !view.egress_broken(Egress::Empty),
        ({
            let egress = Egress::Written { consumed, acked, inflight, holds_plain };
            let keeps = view.reclaim == Reclaim::OnSubmit;
            let after = view.submit_egress(idx, egress);
            let again = !inflight && !(keeps && consumed == 0 && !holds_plain);
            &&& view.egress_broken(egress) == (keeps && !acked)
            &&& keeps && !acked ==> after == view
            &&& !(keeps && !acked) ==> {
                &&& after.work == if keeps {
                    view.work.push(Task::Requests { idx })
                } else {
                    view.work
                }
                &&& after.slots == if again {
                    view.mark(idx, Mark::Egress).slots
                } else {
                    view.slots
                }
                &&& after.dirty == if again {
                    view.mark(idx, Mark::Egress).dirty
                } else {
                    view.dirty
                }
                &&& super::same_elsewhere(view, after, idx)
            }
        }),
{
}

/// Seeing to the queue takes one slot off its front at a time and at most as many as
/// were asked for, does what its connection is marked with in the order of writing,
/// shutting down and closing, and takes the marks off that connection alone. A slot
/// without a connection is passed over.
pub proof fn law_flush_takes_the_first<D>(view: CoreView<D>, left: usize)
    ensures
        ({
            let after = view.flush(left);
            if left == 0 || view.dirty.len() == 0 {
                after == view
            } else {
                let idx = view.dirty[0];
                let rest = view.work.push(Task::Flush { left: (left - 1) as usize });
                &&& after.dirty == view.dirty.skip(1)
                &&& super::same_elsewhere(view, after, idx)
                &&& if idx < view.slots.len() && view.slots[idx as int] is Some {
                    let was = view.slots[idx as int]->0;
                    let cur = after.slots[idx as int]->0;
                    let close = if was.pending.close {
                        seq![Task::Close { idx }]
                    } else {
                        Seq::empty()
                    };
                    let shut = if was.pending.shutdown {
                        seq![Task::Shutdown { idx }]
                    } else {
                        Seq::empty()
                    };
                    let write = if was.pending.egress {
                        seq![Task::Egress { idx }]
                    } else {
                        Seq::empty()
                    };
                    &&& after.work == rest + close + shut + write
                    &&& after.slots[idx as int] is Some
                    &&& !cur.pending.egress && !cur.pending.shutdown && !cur.pending.close
                    &&& cur.pending.how == was.pending.how
                    &&& super::same_but_marks(was, cur)
                } else {
                    after.work == rest && after.slots == view.slots
                }
            }
        }),
{
    if left > 0 && view.dirty.len() > 0 {
        let after = view.flush(left);
        let idx = view.dirty[0];
        let rest = view.work.push(Task::Flush { left: (left - 1) as usize });
        if view.has(idx) {
            let was = view.at(idx);
            let close = if was.pending.close {
                seq![Task::Close { idx }]
            } else {
                Seq::empty()
            };
            let shut = if was.pending.shutdown {
                seq![Task::Shutdown { idx }]
            } else {
                Seq::empty()
            };
            let write = if was.pending.egress {
                seq![Task::Egress { idx }]
            } else {
                Seq::empty()
            };
            assert(after.work =~= rest + close + shut + write);
        }
    }
}

/// A completed write on a wire that keeps the bytes is told to the application, which
/// is then asked for more before anything else is written. One whose connection is gone
/// is told to nobody, a failed one closes the connection, and no connection changes.
pub proof fn law_completed_write_is_told<D>(view: CoreView<D>, outcome: SendOutcome)
    ensures
        (CoreView { work: view.work, ..view.handle_send(outcome) }) == view,
        view.handle_send(outcome).work == match outcome {
            SendOutcome::Stale => view.work,
            SendOutcome::Close { idx } => view.work.push(Task::Close { idx }),
            SendOutcome::Sent { idx, sent } => if idx < view.slots.len()
                && view.slots[idx as int] is Some {
                if view.reclaim == Reclaim::OnSubmit {
                    view.work + seq![
                        Task::MaybeClose { idx },
                        Task::Egress { idx },
                        Task::Requests { idx },
                        Task::Sent { idx, sent },
                    ]
                } else {
                    view.work.push(Task::Ack { idx, sent })
                }
            } else {
                view.work + seq![Task::MaybeClose { idx }, Task::Egress { idx }]
            },
        },
{
    if let SendOutcome::Sent { idx, sent } = outcome {
        let work = view.handle_send(outcome).work;
        if view.has(idx) {
            if view.reclaim is OnSubmit {
                assert(work =~= view.work + seq![
                    Task::MaybeClose { idx },
                    Task::Egress { idx },
                    Task::Requests { idx },
                    Task::Sent { idx, sent },
                ]);
            }
        } else {
            assert(work =~= view.work + seq![Task::MaybeClose { idx }, Task::Egress { idx }]);
        }
    }
}

impl<A, C, D, S: Dialer<A, C>> Core<A, C, D, S> {
    /// Takes what the application wants done with a connection, and whether it has
    /// queued bytes on it.
    pub fn drain_requests(&mut self, idx: u32, enqueued: bool, requests: Requests)
        requires
            old(self).wf(),
        ensures
            final(self).wf(),
            final(self)@ == old(self)@.drain_requests(idx, enqueued, requests),
            final(self).dialer() == old(self).dialer(),
    {
        if idx as usize >= self.slots.len() || self.slots[idx as usize].is_none() {
            return ;
        }
        if enqueued {
            proof {
                super::lemma_mark_wf(self@, idx, Mark::Egress);
            }
            self.mark(idx, Mark::Egress);
        }
        if let Some(how) = requests.shutdown {
            proof {
                let with = self@.set_shutdown(idx, how);
                super::lemma_with_wf(self@, idx, with.at(idx));
                super::lemma_mark_wf(with, idx, Mark::Shutdown);
            }
            self.set_shutdown(idx, how);
            self.mark(idx, Mark::Shutdown);
        }
        match requests.close {
            Some(CloseKind::Reconnect) => {
                proof {
                    super::lemma_mark_wf(self@, idx, Mark::Close);
                }
                self.mark(idx, Mark::Close);
            },
            Some(CloseKind::Permanent) => {
                proof {
                    let with = self@.close_permanent(idx);
                    super::lemma_with_wf(self@, idx, with.at(idx));
                    super::lemma_mark_wf(with, idx, Mark::Close);
                }
                if let Some(state) = self.slot_mut(idx) {
                    state.close_permanent = true;
                }
                self.mark(idx, Mark::Close);
            },
            None => {},
        }
    }

    /// Whether what is queued on a connection may be written, given whether its
    /// socket can take a write now. The application is asked for a trailer first.
    pub fn egress_ready(&self, idx: u32, writable: bool) -> (ready: bool)
        ensures
            ready == self@.egress_ready(idx, writable),
    {
        if !writable || idx as usize >= self.slots.len() {
            return false;
        }
        match &self.slots[idx as usize] {
            Some(state) => state.establish == Establish::Done,
            None => false,
        }
    }

    /// Takes what came of writing what was queued. Says whether the connection is
    /// to begin closing because its queue and its wire disagree.
    pub fn submit_egress(&mut self, idx: u32, egress: Egress) -> (broken: bool)
        requires
            old(self).wf(),
        ensures
            final(self).wf(),
            final(self)@ == old(self)@.submit_egress(idx, egress),
            final(self).dialer() == old(self).dialer(),
            broken == old(self)@.egress_broken(egress),
    {
        match egress {
            Egress::Empty => false,
            Egress::Written { consumed, acked, inflight, holds_plain } => {
                let on_submit = self.reclaim == Reclaim::OnSubmit;
                if on_submit && !acked {
                    return true;
                }
                let stalled = on_submit && consumed == 0 && !holds_plain;
                if !inflight && !stalled {
                    proof {
                        super::lemma_mark_wf(self@, idx, Mark::Egress);
                    }
                    self.mark(idx, Mark::Egress);
                }
                if on_submit {
                    self.schedule(Task::Requests { idx });
                }
                false
            },
        }
    }

    /// Starts seeing to all connections that are marked now.
    pub fn flush_dirty(&mut self)
        requires
            old(self).wf(),
        ensures
            final(self).wf(),
            final(self)@ == old(self)@.schedule(
                Task::Flush { left: old(self)@.dirty.len() as usize },
            ),
            final(self).dialer() == old(self).dialer(),
    {
        let left = self.dirty.len();
        self.schedule(Task::Flush { left });
    }

    /// Sees to the next marked connection, unless `left` is zero.
    pub fn flush_next(&mut self, left: usize)
        requires
            old(self).wf(),
        ensures
            final(self).wf(),
            final(self)@ == old(self)@.flush(left),
            final(self).dialer() == old(self).dialer(),
    {
        if left == 0 {
            return ;
        }
        let ghost before = self@;
        let Some(idx) = self.dirty.pop_front() else {
            return ;
        };
        assert(self.dirty@ =~= before.dirty.skip(1));
        self.schedule(Task::Flush { left: left - 1 });
        let flags: Pending = match self.slot_mut(idx) {
            Some(state) => state.pending.take_flags(),
            None => Pending::new(),
        };
        if flags.close {
            self.schedule(Task::Close { idx });
        }
        if flags.shutdown {
            self.schedule(Task::Shutdown { idx });
        }
        if flags.egress {
            self.schedule(Task::Egress { idx });
        }
        proof {
            pending::lemma_take(before.slots, before.dirty, self@.slots);
        }
    }

    /// Which halves of a connection are to be shut down.
    pub fn shutdown_how(&self, idx: u32) -> (how: i32)
        ensures
            how == if self@.has(idx) {
                self@.at(idx).pending.how
            } else {
                0
            },
    {
        if idx as usize >= self.slots.len() {
            return 0;
        }
        match &self.slots[idx as usize] {
            Some(state) => state.pending.how,
            None => 0,
        }
    }

    fn sent(&mut self, idx: u32, sent: usize)
        requires
            old(self).wf(),
        ensures
            final(self).wf(),
            final(self)@ == old(self)@.sent(idx, sent),
            final(self).dialer() == old(self).dialer(),
    {
        self.schedule(Task::MaybeClose { idx });
        self.schedule(Task::Egress { idx });
        self.schedule(Task::Requests { idx });
        self.schedule(Task::Sent { idx, sent });
    }

    /// Takes whether the queue could give back what was sent.
    pub fn acked(&mut self, idx: u32, sent: usize, acked: bool)
        requires
            old(self).wf(),
        ensures
            final(self).wf(),
            final(self)@ == old(self)@.acked(idx, sent, acked),
            final(self).dialer() == old(self).dialer(),
    {
        if acked {
            self.sent(idx, sent);
        } else {
            self.schedule(Task::Close { idx });
        }
    }

    /// Takes a completed write.
    pub fn handle_send(&mut self, outcome: SendOutcome)
        requires
            old(self).wf(),
        ensures
            final(self).wf(),
            final(self)@ == old(self)@.handle_send(outcome),
            final(self).dialer() == old(self).dialer(),
    {
        match outcome {
            SendOutcome::Sent { idx, sent } => {
                if idx as usize >= self.slots.len() || self.slots[idx as usize].is_none() {
                    self.schedule(Task::MaybeClose { idx });
                    self.schedule(Task::Egress { idx });
                } else if self.reclaim == Reclaim::OnComplete {
                    self.schedule(Task::Ack { idx, sent });
                } else {
                    self.sent(idx, sent);
                }
            },
            SendOutcome::Close { idx } => {
                self.schedule(Task::Close { idx });
            },
            SendOutcome::Stale => {},
        }
    }
}

} // verus!
