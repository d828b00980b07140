//! Receiving.
use vstd::prelude::*;

use crate::manifold::connector::app::ChunkOutcome;
use crate::manifold::connector::source::Dialer;
use crate::manifold::connector::state::State;
use crate::time::Instant;
use super::{Core, CoreView, Task};

verus! {

/// What a completed receive amounts to.
#[derive(Clone, Copy, PartialEq, Eq, Structural, Debug)]
pub enum DispatchRecv {
    /// Nobody waits for it any more.
    Stale,
    /// The peer is gone.
    Close { idx: u32 },
    /// Bytes, but none for the application.
    NoChunk { idx: u32 },
    /// Bytes that are not wanted any more.
    Discarded { idx: u32 },
    /// Bytes for the application.
    Chunk { idx: u32 },
}

impl<D> CoreView<D> {
    /// Something was received in a slot.
    pub open spec fn heard(self, idx: u32, now: Instant) -> Self {
        if self.has(idx) {
            self.with(idx, State { last_recv: Some(now), ..self.at(idx) })
        } else {
            self
        }
    }

    /// What is queued is written, and the connection closed if it is due.
    pub open spec fn follow_up(self, idx: u32) -> Self {
        self.schedule(Task::MaybeClose { idx }).schedule(Task::Egress { idx })
    }

    pub open spec fn handle_recv(self, dispatch: DispatchRecv, now: Instant) -> Self {
        match dispatch {
            DispatchRecv::Stale => self,
            DispatchRecv::Close { idx } => self.schedule(Task::Close { idx }),
            DispatchRecv::NoChunk { idx } | DispatchRecv::Discarded { idx } => self.heard(
                idx,
                now,
            ).follow_up(idx),
            DispatchRecv::Chunk { idx } => if self.has(idx) {
                self.heard(idx, now).schedule(Task::Chunk { idx })
            } else {
                self.schedule(Task::MaybeClose { idx })
            },
        }
    }

    pub open spec fn finish_chunk(self, idx: u32, outcome: ChunkOutcome) -> Self {
        if !self.has(idx) {
            self.schedule(Task::MaybeClose { idx })
        } else {
            match outcome {
                ChunkOutcome::Accepted => self.follow_up(idx),
                ChunkOutcome::Overrun => self.schedule(Task::Close { idx }).schedule(
                    Task::Abort { idx },
                ),
                ChunkOutcome::CloseReconnect => self.schedule(Task::MaybeClose { idx }).schedule(
                    Task::CloseAfter { idx },
                ).schedule(Task::Egress { idx }),
                ChunkOutcome::ClosePermanent => self.schedule(Task::MaybeClose { idx }).schedule(
                    Task::CloseAfter { idx },
                ).schedule(Task::Kill { idx }).schedule(Task::Egress { idx }),
            }
        }
    }
}

/// An overrun connection is closed at once, with nothing more written on it.
pub proof fn law_overrun_writes_nothing<D>(view: CoreView<D>, idx: u32)
    requires
        view.has(idx),
    ensures
        ({
            let after = view.finish_chunk(idx, ChunkOutcome::Overrun);
            &&& after.work.take(view.work.len() as int) == view.work
            &&& after.work.skip(view.work.len() as int) == seq![
                Task::Close { idx },
                Task::Abort { idx },
            ]
        }),
{
    let after = view.finish_chunk(idx, ChunkOutcome::Overrun);
    assert(after.work.take(view.work.len() as int) =~= view.work);
    assert(after.work.skip(view.work.len() as int) =~= seq![
        Task::Close { idx },
        Task::Abort { idx },
    ]);
}

/// What follows a chunk: a connection whose chunk was accepted is written to and stays
/// open unless it was due to be closed before; one that is to be closed is closed only
/// once it has nothing left to send, and is given up for good only if the application
/// said so; only an overrun closes it at once. No connection changes by that.
pub proof fn law_chunk_leads_on<D>(view: CoreView<D>, idx: u32, outcome: ChunkOutcome)
    ensures
        ({
            let after = view.finish_chunk(idx, outcome);
            let live = idx < view.slots.len() && view.slots[idx as int] is Some;
            let added = after.work.skip(view.work.len() as int);
            &&& (CoreView { work: view.work, ..after }) == view
            &&& after.work == view.work + added
            &&& added == if !live {
                seq![Task::MaybeClose { idx }]
            } else {
                match outcome {
                    ChunkOutcome::Accepted => seq![Task::MaybeClose { idx }, Task::Egress { idx }],
                    ChunkOutcome::Overrun => seq![Task::Close { idx }, Task::Abort { idx }],
                    ChunkOutcome::CloseReconnect => seq![
                        Task::MaybeClose { idx },
                        Task::CloseAfter { idx },
                        Task::Egress { idx },
                    ],
                    ChunkOutcome::ClosePermanent => seq![
                        Task::MaybeClose { idx },
                        Task::CloseAfter { idx },
                        Task::Kill { idx },
                        Task::Egress { idx },
                    ],
                }
            }
            &&& added.contains(Task::Close { idx }) <==> live && outcome is Overrun
            &&& added.contains(Task::Kill { idx }) <==> live && outcome is ClosePermanent
            &&& added.contains(Task::CloseAfter { idx }) <==> live && (outcome is CloseReconnect
                || outcome is ClosePermanent)
            &&& added.contains(Task::Egress { idx }) <==> live && !(outcome is Overrun)
        }),
{
    let after = view.finish_chunk(idx, outcome);
    let added = after.work.skip(view.work.len() as int);
    let expected = if !view.has(idx) {
        seq![Task::MaybeClose { idx }]
    } else {
        match outcome {
            ChunkOutcome::Accepted => seq![Task::MaybeClose { idx }, Task::Egress { idx }],
            ChunkOutcome::Overrun => seq![Task::Close { idx }, Task::Abort { idx }],
            ChunkOutcome::CloseReconnect => seq![
                Task::MaybeClose { idx },
                Task::CloseAfter { idx },
                Task::Egress { idx },
            ],
            ChunkOutcome::ClosePermanent => seq![
                Task::MaybeClose { idx },
                Task::CloseAfter { idx },
                Task::Kill { idx },
                Task::Egress { idx },
            ],
        }
    };
    assert(added =~= expected);
    assert(after.work =~= view.work + added);
    if view.has(idx) {
        match outcome {
            ChunkOutcome::Accepted => {
                assert(expected[1] == Task::Egress { idx });
            },
            ChunkOutcome::Overrun => {
                assert(expected[0] == Task::Close { idx });
            },
            ChunkOutcome::CloseReconnect => {
                assert(expected[1] == Task::CloseAfter { idx });
                assert(expected[2] == Task::Egress { idx });
            },
            ChunkOutcome::ClosePermanent => {
                assert(expected[1] == Task::CloseAfter { idx });
                assert(expected[2] == Task::Kill { idx });
                assert(expected[3] == Task::Egress { idx });
            },
        }
    }
}

/// A receive that brought anything counts as having heard from the peer, and nothing
/// else about any connection changes. The application is given bytes exactly if there
/// are some for it, and only a peer that is gone has its connection closed.
pub proof fn law_receive_is_heard<D>(view: CoreView<D>, dispatch: DispatchRecv, now: Instant)
    ensures
        ({
            let after = view.handle_recv(dispatch, now);
            match dispatch {
                DispatchRecv::Stale => after == view,
                DispatchRecv::Close { idx } => {
                    &&& after.work == view.work.push(Task::Close { idx })
                    &&& (CoreView { work: view.work, ..after }) == view
                },
                DispatchRecv::NoChunk { idx } | DispatchRecv::Discarded { idx } => {
                    &&& heard_only(view, after, idx, now)
                    &&& after.work == view.work + seq![
                        Task::MaybeClose { idx },
                        Task::Egress { idx },
                    ]
                },
                DispatchRecv::Chunk { idx } => {
                    &&& heard_only(view, after, idx, now)
                    &&& after.work == view.work.push(
                        if idx < view.slots.len() && view.slots[idx as int] is Some {
                            Task::Chunk { idx }
                        } else {
                            Task::MaybeClose { idx }
                        },
                    )
                },
            }
        }),
{
    let after = view.handle_recv(dispatch, now);
    match dispatch {
        DispatchRecv::NoChunk { idx } | DispatchRecv::Discarded { idx } => {
            assert(after.work =~= view.work + seq![Task::MaybeClose { idx }, Task::Egress { idx }]);
        },
        _ => {},
    }
}

/// Of two states at most when slot `idx` was last heard from, and the work, differ: it
/// was heard from at `now`.
pub open spec fn heard_only<D>(
    before: CoreView<D>,
    after: CoreView<D>,
    idx: u32,
    now: Instant,
) -> bool {
    &&& super::same_elsewhere(before, after, idx)
    &&& after.dirty == before.dirty
    &&& if idx < before.slots.len() && before.slots[idx as int] is Some {
        let was = before.slots[idx as int]->0;
        let cur = after.slots[idx as int]->0;
        &&& after.slots[idx as int] is Some
        &&& cur.last_recv == Some(now)
        &&& cur.pending == was.pending
        &&& super::same_but_marks(State { last_recv: cur.last_recv, ..was }, cur)
    } else {
        after.slots == before.slots
    }
}

impl<A, C, D, S: Dialer<A, C>> Core<A, C, D, S> {
    /// Takes a completed receive. The application is given the bytes if there are
    /// some for it and its connection is not gone.
    pub fn handle_recv(&mut self, dispatch: DispatchRecv, now: Instant)
        requires
            old(self).wf(),
        ensures
            final(self).wf(),
            final(self)@ == old(self)@.handle_recv(dispatch, now),
            final(self).dialer() == old(self).dialer(),
    {
        match dispatch {
            DispatchRecv::Stale => {},
            DispatchRecv::Close { idx } => {
                self.schedule(Task::Close { idx });
            },
            DispatchRecv::NoChunk { idx } | DispatchRecv::Discarded { idx } => {
                self.hear(idx, now);
                self.schedule(Task::MaybeClose { idx });
                self.schedule(Task::Egress { idx });
            },
            DispatchRecv::Chunk { idx } => {
                let live = (idx as usize) < self.slots.len() && self.slots[idx as usize].is_some();
                self.hear(idx, now);
                if live {
                    self.schedule(Task::Chunk { idx });
                } else {
                    self.schedule(Task::MaybeClose { idx });
                }
            },
        }
    }

    fn hear(&mut self, idx: u32, now: Instant)
        requires
            old(self).wf(),
        ensures
            final(self).wf(),
            final(self)@ == old(self)@.heard(idx, now),
            final(self).dialer() == old(self).dialer(),
    {
        if let Some(state) = self.slot_mut(idx) {
            state.last_recv = Some(now);
            proof {
                super::lemma_with_wf(old(self)@, idx, old(self)@.heard(idx, now).at(idx));
            }
        }
    }

    /// Takes what the application made of received bytes. Bytes that could not be
    /// retained for it are an overrun.
    pub fn finish_chunk(&mut self, idx: u32, outcome: ChunkOutcome)
        requires
            old(self).wf(),
        ensures
            final(self).wf(),
            final(self)@ == old(self)@.finish_chunk(idx, outcome),
            final(self).dialer() == old(self).dialer(),
    {
        if idx as usize >= self.slots.len() || self.slots[idx as usize].is_none() {
            self.schedule(Task::MaybeClose { idx });
            return ;
        }
        match outcome {
            ChunkOutcome::Accepted => {
                self.schedule(Task::MaybeClose { idx });
                self.schedule(Task::Egress { idx });
            },
            ChunkOutcome::Overrun => {
                self.schedule(Task::Close { idx });
                self.schedule(Task::Abort { idx });
            },
            ChunkOutcome::CloseReconnect => {
                self.schedule(Task::MaybeClose { idx });
                self.schedule(Task::CloseAfter { idx });
                self.schedule(Task::Egress { idx });
            },
            ChunkOutcome::ClosePermanent => {
                self.schedule(Task::MaybeClose { idx });
                self.schedule(Task::CloseAfter { idx });
                self.schedule(Task::Kill { idx });
                self.schedule(Task::Egress { idx });
            },
        }
    }

    /// Has the dialer give up what the connection in a slot was dialed for.
    pub fn kill_dial(&mut self, idx: u32)
        requires
            old(self).wf(),
        ensures
            final(self).wf(),
            final(self)@ == old(self)@,
            if old(self)@.has(idx) {
                old(self).dialer().kills(old(self)@.at(idx).dial, final(self).dialer())
            } else {
                final(self).dialer() == old(self).dialer()
            },
    {
        if (idx as usize) < self.slots.len() {
            if let Some(state) = &self.slots[idx as usize] {
                self.upstreams.kill(state.dial);
            }
        }
    }
}

} // verus!
