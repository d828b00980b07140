//! Asking about files.
use vstd::prelude::*;

use crate::collections::slab::SlabKey;
use crate::manifold::file::metadata::{Metadata, RawMetadata};
use crate::manifold::file::raw;
use crate::manifold::file::raw::table::{
    CancellationSignal, Hold, OperationTable, State, TableView,
};
use crate::manifold::file::raw::{StatRequest, StatSource};
use crate::manifold::file::{FileError, FileOutcome};
use crate::park::WakeRef;
use crate::token::{Token, STAT};

verus! {

/// How a question ended.
#[derive(Clone, Copy, PartialEq, Eq, Structural, Debug)]
pub enum StatDone {
    Metadata(Metadata),
    Failed(FileError),
}

/// What the driver reports: the report of the operating system, read or found
/// unreadable, or an error number.
pub enum StatEvent {
    Done(Result<RawMetadata, FileError>),
    Failed(i32),
}

pub open spec fn answered(event: StatEvent) -> StatDone {
    match event {
        StatEvent::Done(Ok(meta)) => StatDone::Metadata(Metadata::of(meta)),
        StatEvent::Done(Err(error)) => StatDone::Failed(error),
        StatEvent::Failed(errno) => StatDone::Failed(FileError::Os(errno)),
    }
}

impl<P, F> Hold<StatEvent, StatDone> for StatRequest<P, F> {
    open spec fn awaiting(self) -> bool {
        true
    }

    open spec fn understood(before: Self, event: StatEvent, after: Self, result: StatDone) -> bool {
        after == before && result == answered(event)
    }

    fn transition(&mut self, event: StatEvent) -> (result: StatDone) {
        match event {
            StatEvent::Done(Ok(meta)) => StatDone::Metadata(Metadata::from_raw(meta)),
            StatEvent::Done(Err(error)) => StatDone::Failed(error),
            StatEvent::Failed(errno) => StatDone::Failed(FileError::Os(errno)),
        }
    }
}

/// A question ends as the driver reports it: with what is known of the file, with
/// the error of reading that, or with the driver's error number.
pub proof fn law_question_ends_as_reported<P, F>(
    before: StatRequest<P, F>,
    event: StatEvent,
    after: StatRequest<P, F>,
    result: StatDone,
)
    requires
        StatRequest::understood(before, event, after, result),
    ensures
        after == before,
        result is Metadata <==> (event matches StatEvent::Done(done) && done is Ok),
        event matches StatEvent::Done(Ok(meta)) ==> result->Metadata_0 == Metadata::of(meta),
        event matches StatEvent::Done(Err(error)) ==> result == StatDone::Failed(error),
        event matches StatEvent::Failed(errno) ==> result == StatDone::Failed(FileError::Os(errno)),
{
}

/// The questions of the manifold with route `ID`.
pub struct StatTable<P, F, const ID: u8> {
    operations: OperationTable<StatRequest<P, F>, StatDone, ID, STAT>,
}

impl<P, F, const ID: u8> View for StatTable<P, F, ID> {
    type V = TableView<StatRequest<P, F>, StatDone>;

    closed spec fn view(&self) -> TableView<StatRequest<P, F>, StatDone> {
        self.operations@
    }
}

impl<P, F, const ID: u8> StatTable<P, F, ID> {
    pub closed spec fn wf(self) -> bool {
        self.operations.wf()
    }

    pub proof fn lemma_view_wf(&self)
        requires
            self.wf(),
        ensures
            self@.wf(),
    {
        self.operations.lemma_view_wf();
    }

    pub fn new(capacity: usize) -> (table: Self)
        requires
            capacity <= 0x0100_0000,
        ensures
            table.wf(),
            table@ == TableView::<StatRequest<P, F>, StatDone>::fresh(capacity as nat),
    {
        StatTable { operations: OperationTable::with_capacity(capacity) }
    }

    pub fn is_empty(&self) -> (empty: bool)
        requires
            self.wf(),
        ensures
            empty == self@.is_idle(),
    {
        self.operations.is_empty()
    }

    pub fn targets(&self) -> (targets: Vec<Token>)
        requires
            self.wf(),
        ensures
            targets@ == raw::table::flight_tokens(
                self@,
                ID,
                STAT,
                self@.slab.generations.len() as int,
            ),
    {
        self.operations.targets()
    }

    pub fn cancel(&mut self, token: Token, signal: &mut CancellationSignal)
        requires
            old(self).wf(),
        ensures
            final(self).wf(),
            match token.spec_parts(ID, STAT) {
                Some(key) => {
                    &&& final(self)@ == old(self)@.request_cancel(key)
                    &&& final(signal).pending() == (old(signal).pending() || old(
                        self,
                    )@.cancel_queues(key))
                },
                None => {
                    &&& final(self)@ == old(self)@
                    &&& final(signal).pending() == old(signal).pending()
                },
            },
    {
        let _ = self.operations.request_cancel(token, signal);
    }

    pub fn flush_cancellations(&mut self) -> (targets: Vec<Token>)
        requires
            old(self).wf(),
        ensures
            final(self).wf(),
            final(self)@ == old(self)@.flush(),
            targets@ == old(self)@.cancelled.map_values(|k: SlabKey| Token::spec_of(ID, STAT, k)),
    {
        self.operations.flush_cancellations()
    }

    /// Enters a question about a path; gives the path back when there is no room.
    pub fn begin_path(&mut self, path: P) -> (token: Result<Token, P>)
        requires
            old(self).wf(),
        ensures
            final(self).wf(),
            match token {
                Ok(t) => {
                    &&& t.spec_parts(ID, STAT) matches Some(key) && old(self)@.slab.vacant(key)
                        && final(self)@ == old(self)@.with(
                        key,
                        StatRequest { source: StatSource::Path(path) },
                        State::Submitted,
                    )
                },
                Err(p) => p == path && old(self)@.slab.full() && final(self)@ == old(self)@,
            },
    {
        match self.operations.begin(StatRequest::path(path)) {
            Ok(token) => Ok(token),
            Err(request) => Err(request.into_path()),
        }
    }

    /// Enters a question about an open file; gives the file back when there is no
    /// room.
    pub fn begin_fd(&mut self, source: F) -> (token: Result<Token, F>)
        requires
            old(self).wf(),
        ensures
            final(self).wf(),
            match token {
                Ok(t) => {
                    &&& t.spec_parts(ID, STAT) matches Some(key) && old(self)@.slab.vacant(key)
                        && final(self)@ == old(self)@.with(
                        key,
                        StatRequest { source: StatSource::Fd(source) },
                        State::Submitted,
                    )
                },
                Err(f) => f == source && old(self)@.slab.full() && final(self)@ == old(self)@,
            },
    {
        match self.operations.begin(StatRequest::fd(source)) {
            Ok(token) => Ok(token),
            Err(request) => Err(request.into_source()),
        }
    }

    /// The driver has not taken the question: it is taken back.
    pub fn abort(&mut self, token: Token) -> (request: Option<StatRequest<P, F>>)
        requires
            old(self).wf(),
            token.spec_parts(ID, STAT) matches Some(key) ==> old(self)@.has(key) ==> old(self)@.state(
                key,
            ) is Submitted,
        ensures
            final(self).wf(),
            match token.spec_parts(ID, STAT) {
                Some(key) => {
                    &&& final(self)@ == old(self)@.without(key)
                    &&& request == if old(self)@.has(key) {
                        Some(old(self)@.hold(key))
                    } else {
                        None
                    }
                },
                None => request is None && final(self)@ == old(self)@,
            },
    {
        self.operations.rollback(token)
    }

    /// Polls a question about a path.
    pub fn poll_path(&mut self, token: Token, wake: WakeRef) -> (outcome: FileOutcome<StatDone>)
        requires
            old(self).wf(),
            token.spec_parts(ID, STAT) matches Some(key) ==> old(self)@.has(key) ==> old(self)@.hold(
                key,
            ).source is Path,
        ensures
            final(self).wf(),
            match token.spec_parts(ID, STAT) {
                Some(key) => {
                    &&& final(self)@ == old(self)@.poll(key, wake)
                    &&& outcome == match old(self)@.poll_result(key) {
                        Some((_, done)) => FileOutcome::Done(done),
                        None => FileOutcome::Pending,
                    }
                },
                None => outcome is Pending && final(self)@ == old(self)@,
            },
    {
        match self.operations.poll(token, wake) {
            Some((request, done)) => {
                let _ = request.into_path();
                FileOutcome::Done(done)
            },
            None => FileOutcome::Pending,
        }
    }

    /// Polls a question about an open file.
    pub fn poll_fd(&mut self, token: Token, wake: WakeRef) -> (outcome: FileOutcome<(F, StatDone)>)
        requires
            old(self).wf(),
            token.spec_parts(ID, STAT) matches Some(key) ==> old(self)@.has(key) ==> old(self)@.hold(
                key,
            ).source is Fd,
        ensures
            final(self).wf(),
            match token.spec_parts(ID, STAT) {
                Some(key) => {
                    &&& final(self)@ == old(self)@.poll(key, wake)
                    &&& outcome == match old(self)@.poll_result(key) {
                        Some((request, done)) => FileOutcome::Done((request.source->Fd_0, done)),
                        None => FileOutcome::Pending,
                    }
                },
                None => outcome is Pending && final(self)@ == old(self)@,
            },
    {
        match self.operations.poll(token, wake) {
            Some((request, done)) => FileOutcome::Done((request.into_source(), done)),
            None => FileOutcome::Pending,
        }
    }

    pub fn complete(&mut self, token: Token, event: StatEvent) -> (woken: Option<WakeRef>)
        requires
            old(self).wf(),
        ensures
            final(self).wf(),
            match token.spec_parts(ID, STAT) {
                Some(key) => if old(self)@.in_flight(key) {
                    &&& final(self)@ == old(self)@.complete(
                        key,
                        old(self)@.hold(key),
                        answered(event),
                    )
                    &&& woken == match old(self)@.state(key) {
                        State::Waiting(wake) => Some(wake),
                        _ => None,
                    }
                } else {
                    woken is None && final(self)@ == old(self)@
                },
                None => woken is None && final(self)@ == old(self)@,
            },
    {
        self.operations.complete(token, event)
    }
}

} // verus!
