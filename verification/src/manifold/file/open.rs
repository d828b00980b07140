//! Opening files.
use vstd::prelude::*;

use crate::collections::slab::SlabKey;
use crate::manifold::file::raw;
use crate::manifold::file::raw::table::{
    CancellationSignal, Hold, OperationTable, State, TableView,
};
use crate::manifold::file::raw::OpenRequest;
use crate::manifold::file::FileOutcome;
use crate::park::WakeRef;
use crate::token::{Token, OPEN};

verus! {

/// How an opening ended; `D` is an open file.
pub enum OpenDone<D> {
    Opened(D),
    Failed(i32),
}

/// What the driver reports of an opening.
pub enum OpenEvent<D> {
    Opened(D),
    Failed(i32),
}

/// What the driver is to submit.
#[derive(Clone, Copy, PartialEq, Eq, Structural, Debug)]
pub struct OpenSubmission {
    pub token: Token,
    pub flags: i32,
}

pub open spec fn opened<D>(event: OpenEvent<D>) -> OpenDone<D> {
    match event {
        OpenEvent::Opened(fd) => OpenDone::Opened(fd),
        OpenEvent::Failed(errno) => OpenDone::Failed(errno),
    }
}

impl<P, D> Hold<OpenEvent<D>, OpenDone<D>> for OpenRequest<P> {
    open spec fn awaiting(self) -> bool {
        true
    }

    open spec fn understood(
        before: Self,
        event: OpenEvent<D>,
        after: Self,
        result: OpenDone<D>,
    ) -> bool {
        after == before && result == opened(event)
    }

    fn transition(&mut self, event: OpenEvent<D>) -> (result: OpenDone<D>) {
        match event {
            OpenEvent::Opened(fd) => OpenDone::Opened(fd),
            OpenEvent::Failed(errno) => OpenDone::Failed(errno),
        }
    }
}

/// An opening ends as the driver reports it: with the descriptor that it opened, or
/// with its error number.
pub proof fn law_opening_ends_as_reported<P, D>(
    before: OpenRequest<P>,
    event: OpenEvent<D>,
    after: OpenRequest<P>,
    result: OpenDone<D>,
)
    requires
        <OpenRequest<P> as Hold<OpenEvent<D>, OpenDone<D>>>::understood(
            before,
            event,
            after,
            result,
        ),
    ensures
        after == before,
        result is Opened <==> event is Opened,
        event matches OpenEvent::Opened(fd) ==> result->Opened_0 == fd,
        event matches OpenEvent::Failed(errno) ==> result->Failed_0 == errno,
{
}

/// The openings of the manifold with route `ID`.
pub struct OpenTable<P, D, const ID: u8> {
    operations: OperationTable<OpenRequest<P>, OpenDone<D>, ID, OPEN>,
}

impl<P, D, const ID: u8> View for OpenTable<P, D, ID> {
    type V = TableView<OpenRequest<P>, OpenDone<D>>;

    closed spec fn view(&self) -> TableView<OpenRequest<P>, OpenDone<D>> {
        self.operations@
    }
}

impl<P, D, const ID: u8> OpenTable<P, D, ID> {
    pub closed spec fn wf(self) -> bool {
        self.operations.wf()
    }

    pub proof fn lemma_view_wf(&self)
        requires
            self.wf(),
        ensures
            self@.wf(),
    {
        self.operations.lemma_view_wf();
    }

    pub fn new(capacity: usize) -> (table: Self)
        requires
            capacity <= 0x0100_0000,
        ensures
            table.wf(),
            table@ == TableView::<OpenRequest<P>, OpenDone<D>>::fresh(capacity as nat),
    {
        OpenTable { operations: OperationTable::with_capacity(capacity) }
    }

    pub fn is_empty(&self) -> (empty: bool)
        requires
            self.wf(),
        ensures
            empty == self@.is_idle(),
    {
        self.operations.is_empty()
    }

    pub fn targets(&self) -> (targets: Vec<Token>)
        requires
            self.wf(),
        ensures
            targets@ == raw::table::flight_tokens(
                self@,
                ID,
                OPEN,
                self@.slab.generations.len() as int,
            ),
    {
        self.operations.targets()
    }

    pub fn cancel(&mut self, token: Token, signal: &mut CancellationSignal)
        requires
            old(self).wf(),
        ensures
            final(self).wf(),
            match token.spec_parts(ID, OPEN) {
                Some(key) => {
                    &&& final(self)@ == old(self)@.request_cancel(key)
                    &&& final(signal).pending() == (old(signal).pending() || old(
                        self,
                    )@.cancel_queues(key))
                },
                None => {
                    &&& final(self)@ == old(self)@
                    &&& final(signal).pending() == old(signal).pending()
                },
            },
    {
        let _ = self.operations.request_cancel(token, signal);
    }

    pub fn flush_cancellations(&mut self) -> (targets: Vec<Token>)
        requires
            old(self).wf(),
        ensures
            final(self).wf(),
            final(self)@ == old(self)@.flush(),
            targets@ == old(self)@.cancelled.map_values(|k: SlabKey| Token::spec_of(ID, OPEN, k)),
    {
        self.operations.flush_cancellations()
    }

    /// Enters an opening. The driver is then to submit it, and to say so by
    /// [`OpenTable::abort`] when it could not.
    pub fn begin(&mut self, path: P, flags: i32) -> (submission: Option<OpenSubmission>)
        requires
            old(self).wf(),
        ensures
            final(self).wf(),
            match submission {
                Some(s) => {
                    &&& s.flags == flags
                    &&& s.token.spec_parts(ID, OPEN) matches Some(key) && old(self)@.slab.vacant(
                        key,
                    ) && final(self)@ == old(self)@.with(
                        key,
                        OpenRequest { path },
                        State::Submitted,
                    )
                },
                None => old(self)@.slab.full() && final(self)@ == old(self)@,
            },
    {
        match self.operations.begin(OpenRequest::new(path)) {
            Ok(token) => Some(OpenSubmission { token, flags }),
            Err(_) => None,
        }
    }

    /// The driver has not taken the opening: it is taken back.
    pub fn abort(&mut self, token: Token)
        requires
            old(self).wf(),
            token.spec_parts(ID, OPEN) matches Some(key) ==> old(self)@.has(key) ==> old(self)@.state(
                key,
            ) is Submitted,
        ensures
            final(self).wf(),
            final(self)@ == match token.spec_parts(ID, OPEN) {
                Some(key) => old(self)@.without(key),
                None => old(self)@,
            },
    {
        let _ = self.operations.rollback(token);
    }

    pub fn poll(&mut self, token: Token, wake: WakeRef) -> (outcome: FileOutcome<OpenDone<D>>)
        requires
            old(self).wf(),
        ensures
            final(self).wf(),
            match token.spec_parts(ID, OPEN) {
                Some(key) => {
                    &&& final(self)@ == old(self)@.poll(key, wake)
                    &&& outcome == match old(self)@.poll_result(key) {
                        Some((_, done)) => FileOutcome::Done(done),
                        None => FileOutcome::Pending,
                    }
                },
                None => outcome is Pending && final(self)@ == old(self)@,
            },
    {
        match self.operations.poll(token, wake) {
            Some((_, done)) => FileOutcome::Done(done),
            None => FileOutcome::Pending,
        }
    }

    pub fn complete(&mut self, token: Token, event: OpenEvent<D>) -> (woken: Option<WakeRef>)
        requires
            old(self).wf(),
        ensures
            final(self).wf(),
            match token.spec_parts(ID, OPEN) {
                Some(key) => if old(self)@.in_flight(key) {
                    &&& final(self)@ == old(self)@.complete(
                        key,
                        old(self)@.hold(key),
                        opened(event),
                    )
                    &&& woken == match old(self)@.state(key) {
                        State::Waiting(wake) => Some(wake),
                        _ => None,
                    }
                } else {
                    woken is None && final(self)@ == old(self)@
                },
                None => woken is None && final(self)@ == old(self)@,
            },
    {
        self.operations.complete(token, event)
    }
}

} // verus!
