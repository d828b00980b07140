//! Moving bytes from a file into a pipe.
use vstd::prelude::*;

use crate::collections::slab::SlabView;
use crate::manifold::file::raw::table::{Operation, State};
use crate::manifold::file::table;
use crate::manifold::file::table::{
    Cancel, Completed, CompletionAction, Flight, OperationTable, Targets,
};
use crate::manifold::file::FileOutcome;
use crate::park::WakeRef;
use crate::token::{Token, SPLICE};

verus! {

/// How a move ended.
#[derive(Clone, Copy, PartialEq, Eq, Structural, Debug)]
pub enum SpliceDone {
    Moved(u32),
    Eof,
    Failed(i32),
}

/// What the driver reports of a move.
#[derive(Clone, Copy, PartialEq, Eq, Structural, Debug)]
pub enum SpliceEvent {
    Moved(u32),
    Eof,
    Failed(i32),
}

/// What the driver is to submit.
#[derive(Clone, Copy, PartialEq, Eq, Structural, Debug)]
pub struct SpliceSubmission {
    pub token: Token,
    pub off_in: i64,
    pub len: u32,
}

/// The file and the pipe of a move; both stay open until it is over.
pub struct SpliceHold<F> {
    pub source: F,
    pub sink: F,
}

pub open spec fn moved(event: SpliceEvent) -> SpliceDone {
    match event {
        SpliceEvent::Moved(n) => SpliceDone::Moved(n),
        SpliceEvent::Eof => SpliceDone::Eof,
        SpliceEvent::Failed(errno) => SpliceDone::Failed(errno),
    }
}

/// A move takes one submission only: there is nothing to submit again.
impl<F> Flight<SpliceEvent, (), SpliceDone> for SpliceHold<F> {
    open spec fn understood(
        before: Self,
        event: SpliceEvent,
        after: Self,
        action: CompletionAction<(), SpliceDone>,
    ) -> bool {
        after == before && action == CompletionAction::<(), SpliceDone>::Settle(moved(event))
    }

    fn transition(&mut self, event: SpliceEvent) -> (action: CompletionAction<(), SpliceDone>) {
        CompletionAction::Settle(
            match event {
                SpliceEvent::Moved(n) => SpliceDone::Moved(n),
                SpliceEvent::Eof => SpliceDone::Eof,
                SpliceEvent::Failed(errno) => SpliceDone::Failed(errno),
            },
        )
    }
}

/// A move is over with its one completion, and ends as the driver reports it: with
/// the number of bytes moved, at the end of the source, or with an error number.
pub proof fn law_move_ends_as_reported<F>(
    before: SpliceHold<F>,
    event: SpliceEvent,
    after: SpliceHold<F>,
    action: CompletionAction<(), SpliceDone>,
)
    requires
        SpliceHold::understood(before, event, after, action),
    ensures
        after == before,
        action is Settle,
        event matches SpliceEvent::Moved(n) ==> action->Settle_0 == SpliceDone::Moved(n),
        event is Eof ==> action->Settle_0 is Eof,
        event matches SpliceEvent::Failed(errno) ==> action->Settle_0 == SpliceDone::Failed(errno),
{
}

impl<F> Cancel for SpliceHold<F> {
    open spec fn spec_targets(self, token: Token) -> Targets {
        Targets { first: token, second: None, release: None }
    }

    fn targets(&self, token: Token) -> (targets: Targets) {
        Targets::one(token)
    }
}

/// The moves of the manifold with route `ID`.
pub struct SpliceTable<F, const ID: u8> {
    operations: OperationTable<SpliceHold<F>, SpliceDone, ID, SPLICE>,
}

impl<F, const ID: u8> View for SpliceTable<F, ID> {
    type V = SlabView<Operation<SpliceHold<F>, SpliceDone>>;

    closed spec fn view(&self) -> SlabView<Operation<SpliceHold<F>, SpliceDone>> {
        self.operations@
    }
}

impl<F, const ID: u8> SpliceTable<F, ID> {
    pub closed spec fn wf(self) -> bool {
        self.operations.wf()
    }

    pub fn new(capacity: usize) -> (table: Self)
        requires
            capacity <= 0x0100_0000,
        ensures
            table.wf(),
            table@ == (SlabView::<Operation<SpliceHold<F>, SpliceDone>> {
                entries: Map::empty(),
                generations: Seq::new(capacity as nat, |i: int| 1u32),
                retired: Set::empty(),
            }),
    {
        SpliceTable { operations: OperationTable::with_capacity(capacity) }
    }

    pub fn is_empty(&self) -> (empty: bool)
        requires
            self.wf(),
        ensures
            empty == self@.is_idle(),
    {
        self.operations.is_empty()
    }

    pub fn append_targets(&self, targets: &mut Vec<Token>)
        requires
            self.wf(),
        ensures
            final(targets)@ == old(targets)@ + table::flight_targets(
                self@,
                ID,
                SPLICE,
                self@.generations.len() as int,
            ),
    {
        self.operations.append_targets(targets)
    }

    /// Enters a move. The driver is then to submit it, and to say so by
    /// [`SpliceTable::abort`] when it could not.
    pub fn begin(&mut self, source: F, off_in: i64, sink: F, len: u32) -> (submission: Option<
        SpliceSubmission,
    >)
        requires
            old(self).wf(),
        ensures
            final(self).wf(),
            match submission {
                Some(s) => {
                    &&& s.off_in == off_in
                    &&& s.len == len
                    &&& s.token.spec_parts(ID, SPLICE) matches Some(key) && old(self)@.vacant(key)
                        && final(self)@ == old(self)@.insert(
                        key,
                        Operation { hold: SpliceHold { source, sink }, state: State::Submitted },
                    )
                },
                None => old(self)@.full() && final(self)@ == old(self)@,
            },
    {
        match self.operations.begin(SpliceHold { source, sink }) {
            Ok(token) => Some(SpliceSubmission { token, off_in, len }),
            Err(_) => None,
        }
    }

    /// The driver has not taken the move: it is taken back.
    pub fn abort(&mut self, token: Token)
        requires
            old(self).wf(),
        ensures
            final(self).wf(),
            final(self)@ == match token.spec_parts(ID, SPLICE) {
                Some(key) => old(self)@.remove(key),
                None => old(self)@,
            },
    {
        let _ = self.operations.remove(token);
    }

    pub fn poll(&mut self, token: Token, wake: WakeRef) -> (outcome: FileOutcome<SpliceDone>)
        requires
            old(self).wf(),
        ensures
            final(self).wf(),
            match token.spec_parts(ID, SPLICE) {
                Some(key) => {
                    &&& final(self)@ == table::polled(old(self)@, key, wake)
                    &&& outcome == match table::settled(old(self)@, key) {
                        Some((_, done)) => FileOutcome::Done(done),
                        None => FileOutcome::Pending,
                    }
                },
                None => outcome is Pending && final(self)@ == old(self)@,
            },
    {
        match self.operations.poll(token, wake) {
            Some((_, done)) => FileOutcome::Done(done),
            None => FileOutcome::Pending,
        }
    }

    pub fn cancel(&mut self, token: Token)
        requires
            old(self).wf(),
        ensures
            final(self).wf(),
            final(self)@ == match token.spec_parts(ID, SPLICE) {
                Some(key) => table::cancel_requested(old(self)@, key),
                None => old(self)@,
            },
    {
        let _ = self.operations.request_cancel(token);
    }

    pub fn flush_cancellations(&mut self) -> (stopped: Vec<Targets>)
        requires
            old(self).wf(),
        ensures
            final(self).wf(),
            final(self)@ == table::swept(old(self)@, old(self)@.generations.len() as int),
            stopped@ == table::sweep_targets(
                old(self)@,
                ID,
                SPLICE,
                old(self)@.generations.len() as int,
            ),
    {
        self.operations.flush_cancellations()
    }

    pub fn complete(&mut self, token: Token, event: SpliceEvent) -> (woken: Option<WakeRef>)
        requires
            old(self).wf(),
        ensures
            final(self).wf(),
            match token.spec_parts(ID, SPLICE) {
                Some(key) => if table::in_flight(old(self)@, key) {
                    let before = old(self)@.entries[key];
                    &&& final(self)@ == old(self)@.insert(
                        key,
                        Operation {
                            hold: before.hold,
                            state: if before.state is CancelPending {
                                State::CancelPending
                            } else {
                                State::Settled(moved(event))
                            },
                        },
                    )
                    &&& woken == match before.state {
                        State::Waiting(wake) => Some(wake),
                        _ => None,
                    }
                } else {
                    woken is None && final(self)@ == old(self)@
                },
                None => woken is None && final(self)@ == old(self)@,
            },
    {
        let next: Completed<(), SpliceDone> = self.operations.complete(token, event);
        match next {
            Completed::Settled(woken) => woken,
            Completed::Resubmit { .. } => None,
        }
    }
}

} // verus!
