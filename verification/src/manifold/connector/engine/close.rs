//! Closing.
use vstd::prelude::*;

use crate::manifold::connector::source::{DialKey, Dialer};
use crate::manifold::connector::state::{Establish, State};
use crate::manifold::pending;
use crate::manifold::pending::Mark;
use crate::time::{Duration, Instant};
use super::{Core, CoreView, Task};

verus! {

/// How the closing of a connection goes on.
#[derive(Clone, Copy, PartialEq, Eq, Structural, Debug)]
pub enum DrainStep {
    /// There is nothing to close.
    Done,
    /// Its connecting is to be canceled.
    CancelConnect,
    /// The making of its socket is to be canceled.
    CancelCreate,
    /// It closes when the write in flight is done.
    AwaitSend,
    /// It is to be sealed, and closed once it is drained.
    Seal,
}

/// What the dialer is told of a connection that is closed.
#[derive(Clone, Copy, PartialEq, Eq, Structural, Debug)]
pub enum Verdict {
    Nothing,
    Dropped(DialKey),
    Killed(DialKey),
}

impl<D> CoreView<D> {
    /// The application has given up what was dialed under `key`.
    pub open spec fn cancel(self, key: DialKey, idx: u32) -> Self {
        if self.has(idx) && self.at(idx).dial == key {
            self.mark(idx, Mark::Close)
        } else {
            self
        }
    }

    pub open spec fn verdict(self, idx: u32) -> Verdict {
        if !self.has(idx) || self.at(idx).retired {
            Verdict::Nothing
        } else if self.at(idx).close_permanent {
            Verdict::Killed(self.at(idx).dial)
        } else {
            Verdict::Dropped(self.at(idx).dial)
        }
    }

    /// The application is told that a connection is closed.
    pub open spec fn close_notice(self, idx: u32) -> bool {
        self.has(idx) && !self.at(idx).retired && self.at(idx).establish is Done
    }

    /// A connection is closed: the application is told, then the dialer, and then
    /// the closing goes on.
    pub open spec fn close_slot(self, idx: u32) -> Self {
        let after = if self.has(idx) {
            self.with(idx, State { retired: true, ..self.at(idx) })
        } else {
            self
        };
        let draining = after.schedule(Task::DrainClose { idx });
        let dismissing = match self.verdict(idx) {
            Verdict::Nothing => draining,
            Verdict::Dropped(key) => draining.schedule(Task::Dismiss { key, permanent: false }),
            Verdict::Killed(key) => draining.schedule(Task::Dismiss { key, permanent: true }),
        };
        if self.close_notice(idx) {
            dismissing.schedule(Task::Closed { idx })
        } else {
            dismissing
        }
    }

    pub open spec fn drain_step(self, idx: u32, send_inflight: bool, has_fd: bool) -> DrainStep {
        if !self.has(idx) {
            DrainStep::Done
        } else {
            match self.at(idx).establish {
                Establish::Connecting => DrainStep::CancelConnect,
                Establish::Idle => if has_fd {
                    DrainStep::CancelCreate
                } else {
                    DrainStep::Done
                },
                Establish::Done => if send_inflight {
                    DrainStep::AwaitSend
                } else {
                    DrainStep::Seal
                },
            }
        }
    }
}

/// The application and the dialer hear of a connection's end once, however often it
/// is closed.
pub proof fn law_dialer_hears_once<D>(view: CoreView<D>, idx: u32)
    requires
        view.wf(),
    ensures
        view.close_slot(idx).verdict(idx) is Nothing,
        !view.close_slot(idx).close_notice(idx),
        view.has(idx) && !view.at(idx).retired ==> !(view.verdict(idx) is Nothing),
        view.close_slot(idx).close_slot(idx).work == view.close_slot(idx).work.push(
            Task::DrainClose { idx },
        ),
{
}

/// The application hears of the end of a standing connection before the dialer, and
/// the closing goes on after that.
pub proof fn law_application_hears_of_close_first<D>(view: CoreView<D>, idx: u32)
    requires
        view.has(idx),
        !view.at(idx).retired,
        view.at(idx).establish is Done,
    ensures
        ({
            let after = view.close_slot(idx).work;
            let state = view.at(idx);
            &&& after.take(view.work.len() as int) == view.work
            &&& after.skip(view.work.len() as int) == seq![
                Task::DrainClose { idx },
                Task::Dismiss { key: state.dial, permanent: state.close_permanent },
                Task::Closed { idx },
            ]
        }),
{
    let after = view.close_slot(idx).work;
    let state = view.at(idx);
    assert(after.take(view.work.len() as int) =~= view.work);
    assert(after.skip(view.work.len() as int) =~= seq![
        Task::DrainClose { idx },
        Task::Dismiss { key: state.dial, permanent: state.close_permanent },
        Task::Closed { idx },
    ]);
}

/// A connection that was closed is not closed again for its silence.
pub proof fn law_closed_is_not_watched<D>(view: CoreView<D>, idx: u32, seen: Instant)
    requires
        view.has(idx),
    ensures
        !super::source::watched(view.close_slot(idx).slots[idx as int], seen),
{
}

/// A connection that is closed for its silence is dialed again, unless the
/// application wanted it closed for good.
pub proof fn law_silence_reconnects<D>(view: CoreView<D>, idx: u32, now: Instant, timeout: Duration)
    requires
        view.has(idx),
        super::source::silent(view.slots[idx as int], now, timeout),
        !view.at(idx).close_permanent,
    ensures
        view.verdict(idx) == Verdict::Dropped(view.at(idx).dial),
        view.close_notice(idx),
{
}

/// A request to close for good is kept until the connection is closed, and then
/// has what was dialed given up.
pub proof fn law_permanent_close_kills<D>(view: CoreView<D>, idx: u32)
    requires
        view.wf(),
        view.has(idx),
        !view.at(idx).retired,
    ensures
        ({
            let asked = view.drain_requests(
                idx,
                false,
                super::super::app::Requests {
                    shutdown: None,
                    close: Some(super::super::app::CloseKind::Permanent),
                },
            );
            &&& asked.at(idx).pending.close
            &&& asked.dirty.contains(idx)
            &&& asked.verdict(idx) == Verdict::Killed(view.at(idx).dial)
        }),
{
    let with = view.close_permanent(idx);
    super::lemma_with_wf(view, idx, with.at(idx));
    super::lemma_mark_wf(with, idx, Mark::Close);
    let asked = with.mark(idx, Mark::Close);
    assert(pending::is_marked(asked.slots, idx));
}

/// Closing a connection marks it as gone and changes nothing else about any
/// connection. The dialer is told of it exactly the first time, with the key that was
/// dialed and whether it is given up for good, and the application before that exactly
/// if the connection stood; the closing goes on in any case.
pub proof fn law_close_is_told<D>(view: CoreView<D>, idx: u32)
    ensures
        ({
            let after = view.close_slot(idx);
            &&& super::same_elsewhere(view, after, idx)
            &&& after.dirty == view.dirty
            &&& if idx < view.slots.len() && view.slots[idx as int] is Some {
                let was = view.slots[idx as int]->0;
                let cur = after.slots[idx as int]->0;
                let dismiss = if was.retired {
                    Seq::empty()
                } else {
                    seq![Task::Dismiss { key: was.dial, permanent: was.close_permanent }]
                };
                let tell = if !was.retired && was.establish == Establish::Done {
                    seq![Task::Closed { idx }]
                } else {
                    Seq::empty()
                };
                &&& after.slots[idx as int] is Some
                &&& cur.retired
                &&& cur.pending == was.pending
                &&& super::same_but_marks(State { retired: true, ..was }, cur)
                &&& after.work == view.work.push(Task::DrainClose { idx }) + dismiss + tell
            } else {
                after.slots == view.slots && after.work == view.work.push(Task::DrainClose { idx })
            }
        }),
{
    let after = view.close_slot(idx);
    if view.has(idx) {
        let was = view.at(idx);
        let dismiss = if was.retired {
            Seq::empty()
        } else {
            seq![Task::Dismiss { key: was.dial, permanent: was.close_permanent }]
        };
        let tell = if !was.retired && was.establish is Done {
            seq![Task::Closed { idx }]
        } else {
            Seq::empty()
        };
        assert(after.work =~= view.work.push(Task::DrainClose { idx }) + dismiss + tell);
    }
}

/// A connection that is being set up is canceled where it stands, one that stands is
/// sealed once its write is done, and nothing is done for an empty slot. Giving up a
/// dial closes the connection in the slot only if it was made for that dial.
pub proof fn law_closing_goes_by_how_far_it_came<D>(
    view: CoreView<D>,
    idx: u32,
    send_inflight: bool,
    has_fd: bool,
    key: DialKey,
)
    ensures
        ({
            let step = view.drain_step(idx, send_inflight, has_fd);
            let live = idx < view.slots.len() && view.slots[idx as int] is Some;
            let far = view.slots[idx as int]->0.establish;
            &&& step is CancelConnect <==> live && far == Establish::Connecting
            &&& step is CancelCreate <==> live && far == Establish::Idle && has_fd
            &&& step is AwaitSend <==> live && far == Establish::Done && send_inflight
            &&& step is Seal <==> live && far == Establish::Done && !send_inflight
            &&& step is Done <==> !live || (far == Establish::Idle && !has_fd)
            &&& view.cancel(key, idx) == if live && view.slots[idx as int]->0.dial == key {
                view.mark(idx, Mark::Close)
            } else {
                view
            }
        }),
{
}

impl<A, C, D, S: Dialer<A, C>> Core<A, C, D, S> {
    /// The application has given up what was dialed under `key` and lives in a slot.
    pub fn cancel(&mut self, key: DialKey, idx: u32)
        requires
            old(self).wf(),
        ensures
            final(self).wf(),
            final(self)@ == old(self)@.cancel(key, idx),
            final(self).dialer() == old(self).dialer(),
    {
        if idx as usize >= self.slots.len() {
            return ;
        }
        let same = match &self.slots[idx as usize] {
            Some(state) => state.dial == key,
            None => false,
        };
        if same {
            self.mark(idx, Mark::Close);
            proof {
                super::lemma_mark_wf(old(self)@, idx, Mark::Close);
            }
        }
    }

    /// Closes a connection, of which the application and the dialer are told once.
    pub fn close_slot(&mut self, idx: u32)
        requires
            old(self).wf(),
        ensures
            final(self).wf(),
            final(self)@ == old(self)@.close_slot(idx),
            final(self).dialer() == old(self).dialer(),
    {
        let mut notice = false;
        let mut told: Option<(DialKey, bool)> = None;
        if let Some(state) = self.slot_mut(idx) {
            if !state.retired {
                notice = state.establish == Establish::Done;
                told = Some((state.dial, state.close_permanent));
            }
            state.retired = true;
        }
        self.schedule(Task::DrainClose { idx });
        if let Some((key, permanent)) = told {
            self.schedule(Task::Dismiss { key, permanent });
        }
        if notice {
            self.schedule(Task::Closed { idx });
        }
        proof {
            if old(self)@.has(idx) {
                super::lemma_with_wf(
                    old(self)@,
                    idx,
                    State { retired: true, ..old(self)@.at(idx) },
                );
            }
        }
    }

    /// Tells the dialer that a connection is gone, and whether it is to be dialed
    /// never again.
    pub fn dismiss(&mut self, key: DialKey, permanent: bool, now: Instant)
        requires
            old(self).wf(),
        ensures
            final(self).wf(),
            final(self)@ == old(self)@,
            if permanent {
                old(self).dialer().kills(key, final(self).dialer())
            } else {
                old(self).dialer().drops(key, now, final(self).dialer())
            },
    {
        if permanent {
            self.upstreams.kill(key);
        } else {
            self.upstreams.disconnect(key, now);
        }
    }

    /// How the closing of a connection goes on, given whether a write is in flight
    /// and whether it has a descriptor.
    pub fn drain_close(&self, idx: u32, send_inflight: bool, has_fd: bool) -> (step: DrainStep)
        ensures
            step == self@.drain_step(idx, send_inflight, has_fd),
    {
        if idx as usize >= self.slots.len() {
            return DrainStep::Done;
        }
        match &self.slots[idx as usize] {
            None => DrainStep::Done,
            Some(state) => match state.establish {
                Establish::Connecting => DrainStep::CancelConnect,
                Establish::Idle => if has_fd {
                    DrainStep::CancelCreate
                } else {
                    DrainStep::Done
                },
                Establish::Done => if send_inflight {
                    DrainStep::AwaitSend
                } else {
                    DrainStep::Seal
                },
            },
        }
    }

    /// The cancellation of a connection's setting up was handed to the driver, or
    /// could not be and is to be tried again.
    pub fn cancel_submitted(&mut self, idx: u32, accepted: bool)
        requires
            old(self).wf(),
        ensures
            final(self).wf(),
            final(self)@ == if accepted {
                old(self)@
            } else {
                old(self)@.mark(idx, Mark::Close)
            },
            final(self).dialer() == old(self).dialer(),
    {
        if !accepted {
            self.mark(idx, Mark::Close);
            proof {
                super::lemma_mark_wf(old(self)@, idx, Mark::Close);
            }
        }
    }

    /// A connection could not be sealed. If it is drained it is to be closed now,
    /// which is what is returned; else it is seen to again.
    pub fn unsealed(&mut self, idx: u32, drained: bool) -> (close: bool)
        requires
            old(self).wf(),
        ensures
            final(self).wf(),
            close == drained,
            final(self)@ == if drained {
                old(self)@
            } else {
                old(self)@.mark(idx, Mark::Close)
            },
            final(self).dialer() == old(self).dialer(),
    {
        if !drained {
            self.mark(idx, Mark::Close);
            proof {
                super::lemma_mark_wf(old(self)@, idx, Mark::Close);
            }
        }
        drained
    }

    /// Closes a connection if it is there and due.
    pub fn maybe_close(&mut self, idx: u32, due: bool)
        requires
            old(self).wf(),
        ensures
            final(self).wf(),
            final(self)@ == if old(self)@.has(idx) && due {
                old(self)@.schedule(Task::Close { idx })
            } else {
                old(self)@
            },
            final(self).dialer() == old(self).dialer(),
    {
        if due && (idx as usize) < self.slots.len() && self.slots[idx as usize].is_some() {
            self.schedule(Task::Close { idx });
        }
    }
}

} // verus!
