//! Receiving: what the application is given, and what follows from what it makes of
//! it.
use vstd::prelude::*;

use crate::manifold::Outcome;
use crate::time::Instant;
use super::egress;
use super::egress::{Egress, Flow};
use super::{Listener, ListenerView, Task};

verus! {

/// What a completed receive amounts to.
#[derive(Clone, Copy, PartialEq, Eq, Structural, Debug)]
pub enum DispatchRecv {
    /// Nobody waits for it any more.
    Stale,
    /// The peer is gone.
    Close { idx: u32 },
    /// Bytes, but none for the application.
    NoChunk { idx: u32 },
    /// Bytes that are not wanted any more.
    Discarded { idx: u32 },
    /// Bytes for the application, in so many pieces.
    Chunk { idx: u32, pieces: usize },
}

impl<C> ListenerView<C> {
    /// Something was received in a slot.
    pub open spec fn heard(self, idx: u32, now: Instant) -> Self {
        ListenerView { silence: self.silence.arm(idx, now), ..self }
    }

    pub open spec fn pump_recv(self, dispatch: DispatchRecv, now: Instant) -> Self {
        match dispatch {
            DispatchRecv::Stale => self,
            DispatchRecv::Close { idx } => self.schedule(Task::Close { idx }),
            DispatchRecv::NoChunk { idx } => self.schedule(
                Task::AfterRecv { idx, refresh: false },
            ),
            DispatchRecv::Discarded { idx } => self.schedule(
                Task::AfterRecv { idx, refresh: true },
            ),
            DispatchRecv::Chunk { idx, pieces } => if self.has(idx) && pieces > 0 {
                self.heard(idx, now).schedule(Task::Piece { idx, piece: 0, pieces })
            } else {
                self.heard(idx, now).finish_chunk(idx, Outcome::Accepted)
            },
        }
    }

    /// The application was given a piece: it is given the next one if it accepted
    /// this one.
    pub open spec fn took_piece(
        self,
        idx: u32,
        piece: usize,
        pieces: usize,
        outcome: Outcome,
    ) -> Self {
        if outcome is Accepted && piece + 1 < pieces {
            self.schedule(Task::Piece { idx, piece: (piece + 1) as usize, pieces })
        } else {
            self.finish_chunk(idx, outcome)
        }
    }

    /// The application is given pieces for as long as a piece is what comes next,
    /// `steps` of them at most, and makes `outcomes` of them. Tells which pieces it
    /// was given.
    pub open spec fn give(self, outcomes: Seq<Outcome>, steps: nat) -> (Self, Seq<usize>)
        decreases steps,
    {
        if steps == 0 || self.work.len() == 0 {
            (self, Seq::empty())
        } else {
            match self.work.last() {
                Task::Piece { idx, piece, pieces } => {
                    let next = ListenerView { work: self.work.drop_last(), ..self };
                    let (after, rest) = next.took_piece(
                        idx,
                        piece,
                        pieces,
                        outcomes[piece as int],
                    ).give(outcomes, (steps - 1) as nat);
                    (after, seq![piece] + rest)
                },
                _ => (self, Seq::empty()),
            }
        }
    }

    pub open spec fn finish_chunk(self, idx: u32, outcome: Outcome) -> Self {
        match outcome {
            Outcome::Accepted => self.schedule(Task::ArmSend { idx }).schedule(
                Task::AfterRecv { idx, refresh: false },
            ),
            Outcome::Overrun => self.schedule(Task::Close { idx }).schedule(Task::Abort { idx }),
            Outcome::CloseAfter => self.schedule(Task::MaybeClose { idx }).schedule(
                Task::CloseAfter { idx },
            ),
        }
    }

    pub open spec fn after_recv(self, idx: u32, refresh: bool, now: Instant) -> Self {
        let after = if refresh {
            self.heard(idx, now)
        } else {
            self
        };
        after.schedule(Task::MaybeClose { idx })
    }

    /// The wire took nothing before, and may take something now.
    pub open spec fn resumes(self, idx: u32, flow: Flow) -> bool {
        self.has(idx) && egress::classify(self.at(idx).send, self.reclaim, flow) is Stalled
    }
}

/// Whether `last` is the last piece that the application is given: it accepts all
/// that come before, and this one is refused or is the last there is.
pub open spec fn ends_at(outcomes: Seq<Outcome>, last: int) -> bool {
    &&& 0 <= last < outcomes.len()
    &&& forall|i: int| 0 <= i < last ==> #[trigger] outcomes[i] is Accepted
    &&& last + 1 == outcomes.len() || !(outcomes[last] is Accepted)
}

proof fn lemma_give<C>(
    view: ListenerView<C>,
    idx: u32,
    piece: usize,
    outcomes: Seq<Outcome>,
    last: int,
    steps: nat,
)
    requires
        ends_at(outcomes, last),
        piece <= last,
        outcomes.len() <= usize::MAX,
        last - piece < steps,
    ensures
        view.schedule(Task::Piece { idx, piece, pieces: outcomes.len() as usize }).give(
            outcomes,
            steps,
        ) == (
            view.finish_chunk(idx, outcomes[last]),
            Seq::new((last + 1 - piece) as nat, |i: int| (piece + i) as usize),
        ),
    decreases last - piece,
{
    let pieces = outcomes.len() as usize;
    let given = Seq::new((last + 1 - piece) as nat, |i: int| (piece + i) as usize);
    let scheduled = view.schedule(Task::Piece { idx, piece, pieces });
    assert(scheduled.work.drop_last() =~= view.work);
    if piece < last {
        let next = (piece + 1) as usize;
        lemma_give(view, idx, next, outcomes, last, (steps - 1) as nat);
        assert(given =~= seq![piece] + Seq::new(
            (last + 1 - next) as nat,
            |i: int| (next + i) as usize,
        ));
    } else {
        assert(view.finish_chunk(idx, outcomes[last]).give(outcomes, (steps - 1) as nat) == (
            view.finish_chunk(idx, outcomes[last]),
            Seq::<usize>::empty(),
        ));
        assert(given =~= seq![piece] + Seq::<usize>::empty());
    }
}

/// Whatever the application makes of the pieces of a receive, it is given them in
/// order, each once, up to the first that it does not accept and none after that;
/// and what it made of the last one that it was given decides how things go on.
pub proof fn law_pieces_are_given_in_order<C>(
    view: ListenerView<C>,
    idx: u32,
    outcomes: Seq<Outcome>,
    last: int,
    now: Instant,
    steps: nat,
)
    requires
        view.has(idx),
        outcomes.len() <= usize::MAX,
        ends_at(outcomes, last),
        outcomes.len() <= steps,
    ensures
        view.pump_recv(
            DispatchRecv::Chunk { idx, pieces: outcomes.len() as usize },
            now,
        ).give(outcomes, steps) == (
            view.heard(idx, now).finish_chunk(idx, outcomes[last]),
            Seq::new((last + 1) as nat, |i: int| i as usize),
        ),
{
    lemma_give(view.heard(idx, now), idx, 0, outcomes, last, steps);
    assert(Seq::new((last + 1) as nat, |i: int| i as usize) =~= Seq::new(
        (last + 1 - 0usize) as nat,
        |i: int| (0usize + i) as usize,
    ));
}

/// An overrun connection is closed at once, with nothing more sent on it.
pub proof fn law_overrun_sends_nothing<C>(view: ListenerView<C>, idx: u32)
    ensures
        ({
            let after = view.finish_chunk(idx, Outcome::Overrun);
            &&& after.work.take(view.work.len() as int) == view.work
            &&& after.work.skip(view.work.len() as int) == seq![
                Task::Close { idx },
                Task::Abort { idx },
            ]
        }),
{
    let after = view.finish_chunk(idx, Outcome::Overrun);
    assert(after.work.take(view.work.len() as int) =~= view.work);
    assert(after.work.skip(view.work.len() as int) =~= seq![
        Task::Close { idx },
        Task::Abort { idx },
    ]);
}

/// Bytes that the application accepted have what it wrote sent and the receiving go
/// on; bytes after which it wants to close have the connection closed once it has
/// nothing left to send; an overrun gives up what is unsent and closes.
pub proof fn law_outcome_decides_how_things_go_on<C>(
    view: ListenerView<C>,
    idx: u32,
    outcome: Outcome,
)
    ensures
        outcome is Accepted ==> super::only_scheduled(
            view,
            view.finish_chunk(idx, outcome),
            seq![Task::ArmSend { idx }, Task::AfterRecv { idx, refresh: false }],
        ),
        outcome is CloseAfter ==> super::only_scheduled(
            view,
            view.finish_chunk(idx, outcome),
            seq![Task::MaybeClose { idx }, Task::CloseAfter { idx }],
        ),
        outcome is Overrun ==> super::only_scheduled(
            view,
            view.finish_chunk(idx, outcome),
            seq![Task::Close { idx }, Task::Abort { idx }],
        ),
{
    let after = view.finish_chunk(idx, outcome);
    assert(outcome is Accepted ==> after.work =~= view.work + seq![
        Task::ArmSend { idx },
        Task::AfterRecv { idx, refresh: false },
    ]);
    assert(outcome is CloseAfter ==> after.work =~= view.work + seq![
        Task::MaybeClose { idx },
        Task::CloseAfter { idx },
    ]);
    assert(outcome is Overrun ==> after.work =~= view.work + seq![
        Task::Close { idx },
        Task::Abort { idx },
    ]);
}

/// Of two states of a listener only the work, which differs by `tasks`, and the time
/// since slot `idx` was heard of differ.
pub open spec fn heard_and_scheduled<C>(
    before: ListenerView<C>,
    after: ListenerView<C>,
    idx: u32,
    now: Instant,
    tasks: Seq<Task>,
) -> bool {
    &&& after.slots == before.slots
    &&& after.dirty == before.dirty
    &&& after.write == before.write
    &&& after.age == before.age
    &&& after.accept == before.accept
    &&& after.work == before.work + tasks
    &&& idx < before.silence.cap ==> after.silence.queue.last() == (
        idx as usize,
        (now + before.silence.window) as u128,
    )
    &&& before.silence.cap <= idx ==> after.silence == before.silence
}

/// A receive for nobody does nothing; the end of a connection closes it; bytes that
/// are none of the application's, or that it does not want, have the receiving go
/// on, the latter as a sign of life; bytes for it are given to it from the first
/// piece on, and count as accepted if there are none or nobody is there to take
/// them.
pub proof fn law_receive_is_heard<C>(view: ListenerView<C>, dispatch: DispatchRecv, now: Instant)
    ensures
        dispatch is Stale ==> view.pump_recv(dispatch, now) == view,
        dispatch matches DispatchRecv::Close { idx } ==> super::only_scheduled(
            view,
            view.pump_recv(dispatch, now),
            seq![Task::Close { idx }],
        ),
        dispatch matches DispatchRecv::NoChunk { idx } ==> super::only_scheduled(
            view,
            view.pump_recv(dispatch, now),
            seq![Task::AfterRecv { idx, refresh: false }],
        ),
        dispatch matches DispatchRecv::Discarded { idx } ==> super::only_scheduled(
            view,
            view.pump_recv(dispatch, now),
            seq![Task::AfterRecv { idx, refresh: true }],
        ),
        dispatch matches DispatchRecv::Chunk { idx, pieces } ==> heard_and_scheduled(
            view,
            view.pump_recv(dispatch, now),
            idx,
            now,
            if view.has(idx) && pieces > 0 {
                seq![Task::Piece { idx, piece: 0, pieces }]
            } else {
                seq![Task::ArmSend { idx }, Task::AfterRecv { idx, refresh: false }]
            },
        ),
{
    let after = view.pump_recv(dispatch, now);
    match dispatch {
        DispatchRecv::Stale => {},
        DispatchRecv::Close { idx } => {
            assert(after.work =~= view.work + seq![Task::Close { idx }]);
        },
        DispatchRecv::NoChunk { idx } => {
            assert(after.work =~= view.work + seq![Task::AfterRecv { idx, refresh: false }]);
        },
        DispatchRecv::Discarded { idx } => {
            assert(after.work =~= view.work + seq![Task::AfterRecv { idx, refresh: true }]);
        },
        DispatchRecv::Chunk { idx, pieces } => {
            if view.has(idx) && pieces > 0 {
                assert(after.work =~= view.work + seq![Task::Piece { idx, piece: 0, pieces }]);
            } else {
                assert(after.work =~= view.work + seq![
                    Task::ArmSend { idx },
                    Task::AfterRecv { idx, refresh: false },
                ]);
            }
        },
    }
}

/// After a piece that was accepted comes the next one, if there is one; any other
/// outcome ends the giving.
pub proof fn law_next_piece_follows<C>(
    view: ListenerView<C>,
    idx: u32,
    piece: usize,
    pieces: usize,
    outcome: Outcome,
)
    ensures
        outcome is Accepted && piece + 1 < pieces ==> super::only_scheduled(
            view,
            view.took_piece(idx, piece, pieces, outcome),
            seq![Task::Piece { idx, piece: (piece + 1) as usize, pieces }],
        ),
        !(outcome is Accepted && piece + 1 < pieces) ==> view.took_piece(idx, piece, pieces, outcome)
            == view.finish_chunk(idx, outcome),
{
    if outcome is Accepted && piece + 1 < pieces {
        assert(view.took_piece(idx, piece, pieces, outcome).work =~= view.work + seq![
            Task::Piece { idx, piece: (piece + 1) as usize, pieces },
        ]);
    }
}

/// After a receive a connection may be due to be closed. The receive counts as a sign
/// of life exactly if it is to.
pub proof fn law_after_a_receive_it_may_be_due<C>(
    view: ListenerView<C>,
    idx: u32,
    refresh: bool,
    now: Instant,
)
    ensures
        refresh ==> heard_and_scheduled(
            view,
            view.after_recv(idx, refresh, now),
            idx,
            now,
            seq![Task::MaybeClose { idx }],
        ),
        !refresh ==> super::only_scheduled(
            view,
            view.after_recv(idx, refresh, now),
            seq![Task::MaybeClose { idx }],
        ),
{
    assert(view.after_recv(idx, refresh, now).work =~= view.work + seq![Task::MaybeClose { idx }]);
}

/// An answer is handed to the wire again exactly if it was held up: some of it is
/// left, and neither a write nor the wire has any of it.
pub proof fn law_held_up_is_resumed<C>(view: ListenerView<C>, idx: u32, flow: Flow)
    ensures
        view.resumes(idx, flow) <==> idx < view.slots.len() && view.slots[idx as int] is Some && ({
            let send = (view.slots[idx as int]->0).send;
            !flow.inflight && !flow.holds_plain && send.consumed_plain < send.total_plain
                && send.inflight_plain == 0 && view.reclaim is OnSubmit
        }),
{
}

impl<C> Listener<C> {
    /// Takes a completed receive. The application is given the bytes there are for
    /// it, piece by piece until it accepts one no more. Bytes for a connection that is
    /// gone count as accepted.
    pub fn pump_recv(&mut self, dispatch: DispatchRecv, now: Instant)
        requires
            old(self).wf(),
            old(self)@.clock_fits(now),
        ensures
            final(self).wf(),
            final(self)@ == old(self)@.pump_recv(dispatch, now),
    {
        match dispatch {
            DispatchRecv::Stale => {},
            DispatchRecv::Close { idx } => {
                self.schedule(Task::Close { idx });
            },
            DispatchRecv::NoChunk { idx } => {
                self.schedule(Task::AfterRecv { idx, refresh: false });
            },
            DispatchRecv::Discarded { idx } => {
                self.schedule(Task::AfterRecv { idx, refresh: true });
            },
            DispatchRecv::Chunk { idx, pieces } => {
                self.silence.arm(idx, now);
                if self.has(idx) && pieces > 0 {
                    self.schedule(Task::Piece { idx, piece: 0, pieces });
                } else {
                    self.finish_chunk(idx, Outcome::Accepted);
                }
            },
        }
    }

    /// Takes what the application made of a piece.
    pub fn took_piece(&mut self, idx: u32, piece: usize, pieces: usize, outcome: Outcome)
        requires
            old(self).wf(),
        ensures
            final(self).wf(),
            final(self)@ == old(self)@.took_piece(idx, piece, pieces, outcome),
    {
        let accepted = match outcome {
            Outcome::Accepted => true,
            _ => false,
        };
        if accepted && pieces > 0 && piece < pieces - 1 {
            self.schedule(Task::Piece { idx, piece: piece + 1, pieces });
        } else {
            self.finish_chunk(idx, outcome);
        }
    }

    /// Takes what the application made of all that was received.
    pub fn finish_chunk(&mut self, idx: u32, outcome: Outcome)
        requires
            old(self).wf(),
        ensures
            final(self).wf(),
            final(self)@ == old(self)@.finish_chunk(idx, outcome),
    {
        match outcome {
            Outcome::Accepted => {
                self.schedule(Task::ArmSend { idx });
                self.schedule(Task::AfterRecv { idx, refresh: false });
            },
            Outcome::Overrun => {
                self.schedule(Task::Close { idx });
                self.schedule(Task::Abort { idx });
            },
            Outcome::CloseAfter => {
                self.schedule(Task::MaybeClose { idx });
                self.schedule(Task::CloseAfter { idx });
            },
        }
    }

    /// Goes on after a receive: what the wire holds is written, and the connection
    /// closed if it is due.
    pub fn flush_after_recv(&mut self, idx: u32, refresh: bool, now: Instant)
        requires
            old(self).wf(),
            old(self)@.clock_fits(now),
        ensures
            final(self).wf(),
            final(self)@ == old(self)@.after_recv(idx, refresh, now),
    {
        if refresh {
            self.silence.arm(idx, now);
        }
        self.schedule(Task::MaybeClose { idx });
    }

    /// Whether an answer that was held up is to be handed to the wire again.
    pub fn resumes(&self, idx: u32, flow: Flow) -> (resumes: bool)
        ensures
            resumes == self@.resumes(idx, flow),
    {
        if idx as usize >= self.slots.len() {
            return false;
        }
        match &self.slots[idx as usize] {
            Some(state) => match egress::egress(state.send, self.reclaim, flow) {
                Egress::Stalled => true,
                _ => false,
            },
            None => false,
        }
    }
}

} // verus!
