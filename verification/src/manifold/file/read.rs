//! Reading from files.
use vstd::prelude::*;

use crate::collections::slab::SlabKey;
use crate::manifold::file::raw;
use crate::manifold::file::raw::table::{
    CancellationSignal, Hold, OperationTable, State, TableView,
};
use crate::manifold::file::raw::{spare_room, ReadRegion};
use crate::manifold::file::{FileError, FileOutcome};
use crate::park::WakeRef;
use crate::token::{Token, READ};

verus! {

/// How a read ended.
#[derive(Clone, Copy, PartialEq, Eq, Structural, Debug)]
pub enum ReadDone {
    Progress(u32),
    Eof,
    Failed(FileError),
}

/// What the driver reports of a read: the bytes that it put into the region, or
/// that there were none, or an error number.
pub enum ReadEvent {
    Read(Vec<u8>),
    Eof,
    Failed(i32),
}

/// What the driver is to submit.
#[derive(Clone, Copy, PartialEq, Eq, Structural, Debug)]
pub struct ReadSubmission {
    pub token: Token,
    pub len: u32,
    pub offset: u64,
}

/// Where the buffer of a read is: with its owner, prepared for the driver, or in
/// the driver's hands.
pub enum ReadFlight {
    Idle(Vec<u8>),
    Prepared(ReadRegion),
    Pending(ReadRegion),
}

/// A read of `len` bytes at `offset` of `source`.
pub struct ReadHold<F> {
    pub source: F,
    pub len: u32,
    pub offset: u64,
    pub flight: ReadFlight,
}

impl<F> ReadHold<F> {
    /// Prepares the buffer, which has `room` bytes left, for the driver.
    pub fn prepare_submission(&mut self, token: Token, room: usize) -> (submission: Result<
        ReadSubmission,
        FileError,
    >)
        requires
            old(self).flight is Idle,
        ensures
            final(self).source == old(self).source,
            final(self).len == old(self).len,
            final(self).offset == old(self).offset,
            if old(self).len == 0 || room < old(self).len {
                &&& submission == Err::<ReadSubmission, FileError>(FileError::NoWritableRegion)
                &&& final(self).flight == old(self).flight
            } else {
                &&& submission == Ok::<ReadSubmission, FileError>(
                    ReadSubmission { token, len: old(self).len, offset: old(self).offset },
                )
                &&& final(self).flight == ReadFlight::Prepared(
                    ReadRegion { buffer: old(self).flight->Idle_0, len: old(self).len },
                )
            },
    {
        let mut flight = ReadFlight::Idle(Vec::new());
        std::mem::swap(&mut self.flight, &mut flight);
        let buffer = match flight {
            ReadFlight::Idle(buffer) => buffer,
            ReadFlight::Prepared(region) => region.buffer,
            ReadFlight::Pending(region) => region.buffer,
        };
        match ReadRegion::with_room(buffer, room, self.len) {
            Ok(region) => {
                self.flight = ReadFlight::Prepared(region);
                Ok(ReadSubmission { token, len: self.len, offset: self.offset })
            },
            Err(buffer) => {
                self.flight = ReadFlight::Idle(buffer);
                Err(FileError::NoWritableRegion)
            },
        }
    }

    /// The driver has taken the read.
    pub fn accept_submission(&mut self)
        requires
            old(self).flight is Prepared,
        ensures
            *final(self) == (ReadHold {
                flight: ReadFlight::Pending(old(self).flight->Prepared_0),
                ..*old(self)
            }),
    {
        let mut flight = ReadFlight::Idle(Vec::new());
        std::mem::swap(&mut self.flight, &mut flight);
        if let ReadFlight::Prepared(region) = flight {
            self.flight = ReadFlight::Pending(region);
        }
    }

    /// The driver has not taken the read.
    pub fn abort_submission(&mut self)
        requires
            old(self).flight is Prepared,
        ensures
            *final(self) == (ReadHold {
                flight: ReadFlight::Idle(old(self).flight->Prepared_0.buffer),
                ..*old(self)
            }),
    {
        let mut flight = ReadFlight::Idle(Vec::new());
        std::mem::swap(&mut self.flight, &mut flight);
        if let ReadFlight::Prepared(region) = flight {
            self.flight = ReadFlight::Idle(region.into_buffer());
        }
    }

    /// Takes in the bytes that were read.
    pub fn finish(&mut self, filled: Vec<u8>) -> (outcome: Result<(), FileError>)
        requires
            old(self).flight is Pending,
        ensures
            final(self).source == old(self).source,
            final(self).len == old(self).len,
            final(self).offset == old(self).offset,
            final(self).flight matches ReadFlight::Idle(buffer) && buffer@ == if filled@.len()
                <= old(self).flight->Pending_0.len {
                old(self).flight->Pending_0.buffer@ + filled@
            } else {
                old(self).flight->Pending_0.buffer@
            },
            outcome == if filled@.len() <= old(self).flight->Pending_0.len {
                Ok::<(), FileError>(())
            } else {
                Err(FileError::RegionExceeded)
            },
    {
        let mut flight = ReadFlight::Idle(Vec::new());
        std::mem::swap(&mut self.flight, &mut flight);
        if let ReadFlight::Pending(region) = flight {
            match region.commit(filled) {
                Ok(buffer) => {
                    self.flight = ReadFlight::Idle(buffer);
                    Ok(())
                },
                Err((buffer, error)) => {
                    self.flight = ReadFlight::Idle(buffer);
                    Err(error)
                },
            }
        } else {
            Ok(())
        }
    }

    /// The source and the buffer of a read that is over.
    pub fn into_parts(self) -> (parts: (F, Vec<u8>))
        requires
            self.flight is Idle,
        ensures
            parts.0 == self.source,
            parts.1 == self.flight->Idle_0,
    {
        let buffer = match self.flight {
            ReadFlight::Idle(buffer) => buffer,
            ReadFlight::Prepared(region) => region.buffer,
            ReadFlight::Pending(region) => region.buffer,
        };
        (self.source, buffer)
    }
}

/// The bytes that an event brings.
pub open spec fn event_bytes(event: ReadEvent) -> Seq<u8> {
    match event {
        ReadEvent::Read(bytes) => bytes@,
        _ => Seq::empty(),
    }
}

impl<F> Hold<ReadEvent, ReadDone> for ReadHold<F> {
    open spec fn awaiting(self) -> bool {
        self.flight is Pending
    }

    /// The bytes are added to the buffer, which goes back to its owner. More bytes
    /// than the region was prepared for fail the read and are dropped.
    open spec fn understood(before: Self, event: ReadEvent, after: Self, result: ReadDone) -> bool {
        let region = before.flight->Pending_0;
        let bytes = event_bytes(event);
        &&& after.source == before.source
        &&& after.len == before.len
        &&& after.offset == before.offset
        &&& after.flight is Idle
        &&& if bytes.len() > region.len {
            &&& after.flight->Idle_0@ == region.buffer@
            &&& result == ReadDone::Failed(FileError::RegionExceeded)
        } else {
            &&& after.flight->Idle_0@ == region.buffer@ + bytes
            &&& result == match event {
                ReadEvent::Read(_) => ReadDone::Progress(bytes.len() as u32),
                ReadEvent::Eof => ReadDone::Eof,
                ReadEvent::Failed(errno) => ReadDone::Failed(FileError::Os(errno)),
            }
        }
    }

    fn transition(&mut self, event: ReadEvent) -> (result: ReadDone) {
        match event {
            ReadEvent::Read(bytes) => {
                let amount = bytes.len();
                match self.finish(bytes) {
                    Ok(()) => ReadDone::Progress(amount as u32),
                    Err(error) => ReadDone::Failed(error),
                }
            },
            ReadEvent::Eof => match self.finish(Vec::new()) {
                Ok(()) => ReadDone::Eof,
                Err(error) => ReadDone::Failed(error),
            },
            ReadEvent::Failed(errno) => match self.finish(Vec::new()) {
                Ok(()) => ReadDone::Failed(FileError::Os(errno)),
                Err(error) => ReadDone::Failed(error),
            },
        }
    }
}

/// A read ends as the driver reports it. The end of the file and an error number
/// come out as what they are and leave the buffer as it was; bytes that fit are
/// added behind what the buffer holds; only an error number and too many bytes
/// fail a read. The read itself stays as it was asked for.
pub proof fn law_read_ends_as_reported<F>(
    before: ReadHold<F>,
    event: ReadEvent,
    after: ReadHold<F>,
    result: ReadDone,
)
    requires
        before.flight is Pending,
        ReadHold::understood(before, event, after, result),
    ensures
        after.source == before.source,
        after.len == before.len,
        after.offset == before.offset,
        after.flight is Idle,
        event is Eof ==> result is Eof && after.flight->Idle_0@
            == before.flight->Pending_0.buffer@,
        event matches ReadEvent::Failed(errno) ==> result == ReadDone::Failed(FileError::Os(errno))
            && after.flight->Idle_0@ == before.flight->Pending_0.buffer@,
        event matches ReadEvent::Read(bytes) ==> if bytes@.len() <= before.flight->Pending_0.len {
            &&& result is Progress
            &&& result->Progress_0 == bytes@.len()
            &&& after.flight->Idle_0@ == before.flight->Pending_0.buffer@ + bytes@
        } else {
            &&& result == ReadDone::Failed(FileError::RegionExceeded)
            &&& after.flight->Idle_0@ == before.flight->Pending_0.buffer@
        },
        result is Eof <==> event is Eof,
        result is Failed <==> event is Failed || (event matches ReadEvent::Read(bytes)
            && bytes@.len() > before.flight->Pending_0.len),
{
    assert(before.flight->Pending_0.buffer@ + Seq::<u8>::empty()
        =~= before.flight->Pending_0.buffer@);
}

/// A read is taken exactly if there is room in the table and the buffer has room
/// for all that is asked for, which is more than nothing. What is submitted and
/// kept is what was asked for, and a read that is not taken gives back its source
/// and its buffer and changes no operation.
pub proof fn law_read_is_taken_if_it_fits<F>(
    before: TableView<ReadHold<F>, ReadDone>,
    route: u8,
    hold: ReadHold<F>,
    room: usize,
    submission: Result<ReadSubmission, (F, Vec<u8>, FileError)>,
    after: TableView<ReadHold<F>, ReadDone>,
    other: SlabKey,
)
    requires
        before.wf(),
        hold.flight is Idle,
        entered(before, route, hold, room, submission, after),
    ensures
        submission is Ok <==> !before.slab.full() && 0 < hold.len <= room,
        submission matches Ok(s) ==> {
            &&& s.len == hold.len
            &&& s.offset == hold.offset
            &&& s.token.spec_parts(route, READ) matches Some(key)
            &&& !before.has(key)
            &&& after.has(key)
            &&& after.state(key) is Submitted
            &&& after.hold(key).source == hold.source
            &&& after.hold(key).len == hold.len
            &&& after.hold(key).offset == hold.offset
            &&& after.hold(key).flight is Prepared
            &&& after.hold(key).flight->Prepared_0.len == hold.len
            &&& after.hold(key).flight->Prepared_0.buffer == hold.flight->Idle_0
            &&& other != key ==> (after.has(other) <==> before.has(other))
        },
        submission matches Err(refused) ==> {
            &&& refused.0 == hold.source
            &&& refused.1 == hold.flight->Idle_0
            &&& refused.2 == if before.slab.full() {
                FileError::WouldBlock
            } else {
                FileError::NoWritableRegion
            }
            &&& after.has(other) <==> before.has(other)
        },
        before.has(other) ==> after.slab.entries[other] == before.slab.entries[other],
        after.cancelled == before.cancelled,
{
    if let Ok(s) = submission {
        let key = s.token.spec_parts(route, READ)->Some_0;
        assert(before.slab.vacant(key));
        assert(!before.slab.occupied(key.index as int));
    }
}

/// The reads of the manifold with route `ID`.
pub struct ReadTable<F, const ID: u8> {
    operations: OperationTable<ReadHold<F>, ReadDone, ID, READ>,
}

impl<F, const ID: u8> View for ReadTable<F, ID> {
    type V = TableView<ReadHold<F>, ReadDone>;

    closed spec fn view(&self) -> TableView<ReadHold<F>, ReadDone> {
        self.operations@
    }
}

/// A settled read has given its buffer back.
pub open spec fn settled_idle<F>(table: TableView<ReadHold<F>, ReadDone>) -> bool {
    forall|k: SlabKey|
        #![trigger table.slab.entries.dom().contains(k)]
        table.has(k) && table.state(k) is Settled ==> table.hold(k).flight is Idle
}

/// What entering a read of `len` bytes at `offset` into a buffer with `room` bytes
/// left may come to.
pub open spec fn entered<F>(
    before: TableView<ReadHold<F>, ReadDone>,
    route: u8,
    hold: ReadHold<F>,
    room: usize,
    submission: Result<ReadSubmission, (F, Vec<u8>, FileError)>,
    after: TableView<ReadHold<F>, ReadDone>,
) -> bool {
    let buffer = hold.flight->Idle_0;
    match submission {
        Ok(s) => {
            &&& 0 < hold.len <= room
            &&& s.len == hold.len
            &&& s.offset == hold.offset
            &&& s.token.spec_parts(route, READ) matches Some(key)
            &&& s.token == Token::spec_of(route, READ, key)
            &&& before.slab.vacant(key)
            &&& after == before.with(
                key,
                ReadHold {
                    flight: ReadFlight::Prepared(ReadRegion { buffer, len: hold.len }),
                    ..hold
                },
                State::Submitted,
            )
        },
        Err((source, back, error)) => {
            &&& source == hold.source
            &&& back == buffer
            &&& if before.slab.full() {
                error == FileError::WouldBlock && after == before
            } else {
                &&& hold.len == 0 || room < hold.len
                &&& error == FileError::NoWritableRegion
                &&& after.slab.entries == before.slab.entries
                &&& after.cancelled == before.cancelled
            }
        },
    }
}

impl<F, const ID: u8> ReadTable<F, ID> {
    pub closed spec fn wf(self) -> bool {
        self.operations.wf() && settled_idle(self@)
    }

    pub proof fn lemma_view_wf(&self)
        requires
            self.wf(),
        ensures
            self@.wf(),
            settled_idle(self@),
    {
        self.operations.lemma_view_wf();
    }

    pub fn new(capacity: usize) -> (table: Self)
        requires
            capacity <= 0x0100_0000,
        ensures
            table.wf(),
            table@ == TableView::<ReadHold<F>, ReadDone>::fresh(capacity as nat),
    {
        ReadTable { operations: OperationTable::with_capacity(capacity) }
    }

    pub fn is_empty(&self) -> (empty: bool)
        requires
            self.wf(),
        ensures
            empty == self@.is_idle(),
    {
        self.operations.is_empty()
    }

    pub fn targets(&self) -> (targets: Vec<Token>)
        requires
            self.wf(),
        ensures
            targets@ == raw::table::flight_tokens(
                self@,
                ID,
                READ,
                self@.slab.generations.len() as int,
            ),
    {
        self.operations.targets()
    }

    /// Enters a read and prepares its buffer. The driver is then to submit it and
    /// say so by [`ReadTable::accept`] or [`ReadTable::abort`]. Whether there is room
    /// for the bytes depends on what the allocator gave the buffer.
    pub fn begin(&mut self, source: F, buffer: Vec<u8>, len: u32, offset: u64) -> (submission:
        Result<ReadSubmission, (F, Vec<u8>, FileError)>)
        requires
            old(self).wf(),
        ensures
            final(self).wf(),
            exists|room: usize| #[trigger]
                entered(
                    old(self)@,
                    ID,
                    ReadHold { source, len, offset, flight: ReadFlight::Idle(buffer) },
                    room,
                    submission,
                    final(self)@,
                ),
    {
        let room = spare_room(&buffer);
        self.begin_with_room(source, buffer, room, len, offset)
    }

    /// Like [`ReadTable::begin`], for a buffer with `room` bytes left.
    pub fn begin_with_room(
        &mut self,
        source: F,
        buffer: Vec<u8>,
        room: usize,
        len: u32,
        offset: u64,
    ) -> (submission: Result<ReadSubmission, (F, Vec<u8>, FileError)>)
        requires
            old(self).wf(),
        ensures
            final(self).wf(),
            entered(
                old(self)@,
                ID,
                ReadHold { source, len, offset, flight: ReadFlight::Idle(buffer) },
                room,
                submission,
                final(self)@,
            ),
    {
        let hold = ReadHold { source, len, offset, flight: ReadFlight::Idle(buffer) };
        let token = match self.operations.begin(hold) {
            Ok(token) => token,
            Err(hold) => {
                let (source, buffer) = hold.into_parts();
                return Err((source, buffer, FileError::WouldBlock));
            },
        };
        let ghost key = token.spec_parts(ID, READ)->0;
        let ghost entered = self@;
        assert(!old(self)@.slab.full()) by {
            assert(!old(self)@.slab.occupied(key.index as int));
        }
        let prepared = match self.operations.hold_mut(token) {
            Some(hold) => hold.prepare_submission(token, room),
            None => Err(FileError::WouldBlock),
        };
        match prepared {
            Ok(submission) => {
                proof {
                    let goal = old(self)@.with(
                        key,
                        ReadHold {
                            source,
                            len,
                            offset,
                            flight: ReadFlight::Prepared(ReadRegion { buffer, len }),
                        },
                        State::Submitted,
                    );
                    assert(self@.slab =~= goal.slab);
                }
                Ok(submission)
            },
            Err(error) => {
                assert(self@.slab =~= entered.slab);
                match self.operations.rollback(token) {
                    Some(hold) => {
                        let (source, buffer) = hold.into_parts();
                        proof {
                            assert(self@.slab.entries =~= old(self)@.slab.entries);
                        }
                        Err((source, buffer, error))
                    },
                    None => {
                        proof {
                            assert(false);
                        }
                        vstd::pervasive::unreached()
                    },
                }
            },
        }
    }

    /// The driver has taken the read.
    pub fn accept(&mut self, token: Token)
        requires
            old(self).wf(),
            token.spec_parts(ID, READ) matches Some(key) && old(self)@.in_flight(key) && old(
                self,
            )@.hold(key).flight is Prepared,
        ensures
            final(self).wf(),
            ({
                let key = token.spec_parts(ID, READ)->0;
                let hold = old(self)@.hold(key);
                final(self)@ == old(self)@.with(
                    key,
                    ReadHold { flight: ReadFlight::Pending(hold.flight->Prepared_0), ..hold },
                    old(self)@.state(key),
                )
            }),
    {
        if let Some(hold) = self.operations.hold_mut(token) {
            hold.accept_submission();
        }
    }

    /// The driver has not taken the read, for the given reason: it is taken back.
    pub fn abort(&mut self, token: Token, error: FileError) -> (parts: (F, Vec<u8>, FileError))
        requires
            old(self).wf(),
            token.spec_parts(ID, READ) matches Some(key) && old(self)@.has(key) && old(self)@.state(
                key,
            ) is Submitted && old(self)@.hold(key).flight is Prepared,
        ensures
            final(self).wf(),
            ({
                let key = token.spec_parts(ID, READ)->0;
                let hold = old(self)@.hold(key);
                &&& final(self)@ == old(self)@.without(key)
                &&& parts == (hold.source, hold.flight->Prepared_0.buffer, error)
            }),
    {
        match self.operations.rollback(token) {
            Some(hold) => {
                let mut hold = hold;
                hold.abort_submission();
                let (source, buffer) = hold.into_parts();
                (source, buffer, error)
            },
            None => {
                proof {
                    assert(false);
                }
                vstd::pervasive::unreached()
            },
        }
    }

    pub fn poll(&mut self, token: Token, wake: WakeRef) -> (outcome: FileOutcome<
        (F, Vec<u8>, ReadDone),
    >)
        requires
            old(self).wf(),
        ensures
            final(self).wf(),
            match token.spec_parts(ID, READ) {
                Some(key) => {
                    &&& final(self)@ == old(self)@.poll(key, wake)
                    &&& outcome == match old(self)@.poll_result(key) {
                        Some((hold, done)) => FileOutcome::Done(
                            (hold.source, hold.flight->Idle_0, done),
                        ),
                        None => FileOutcome::Pending,
                    }
                },
                None => outcome is Pending && final(self)@ == old(self)@,
            },
    {
        let polled = self.operations.poll(token, wake);
        match polled {
            Some((hold, done)) => {
                let (source, buffer) = hold.into_parts();
                FileOutcome::Done((source, buffer, done))
            },
            None => FileOutcome::Pending,
        }
    }

    pub fn cancel(&mut self, token: Token, signal: &mut CancellationSignal)
        requires
            old(self).wf(),
        ensures
            final(self).wf(),
            match token.spec_parts(ID, READ) {
                Some(key) => {
                    &&& final(self)@ == old(self)@.request_cancel(key)
                    &&& final(signal).pending() == (old(signal).pending() || old(
                        self,
                    )@.cancel_queues(key))
                },
                None => {
                    &&& final(self)@ == old(self)@
                    &&& final(signal).pending() == old(signal).pending()
                },
            },
    {
        let _ = self.operations.request_cancel(token, signal);
    }

    pub fn flush_cancellations(&mut self) -> (targets: Vec<Token>)
        requires
            old(self).wf(),
        ensures
            final(self).wf(),
            final(self)@ == old(self)@.flush(),
            targets@ == old(self)@.cancelled.map_values(|k: SlabKey| Token::spec_of(ID, READ, k)),
    {
        let ghost view = self@;
        proof {
            self.operations.lemma_view_wf();
            raw::table::lemma_flush_entries(view);
        }
        self.operations.flush_cancellations()
    }

    pub fn complete(&mut self, token: Token, event: ReadEvent) -> (woken: Option<WakeRef>)
        requires
            old(self).wf(),
            token.spec_parts(ID, READ) matches Some(key) ==> old(self)@.in_flight(key) ==> old(
                self,
            )@.hold(key).flight is Pending,
        ensures
            final(self).wf(),
            match token.spec_parts(ID, READ) {
                Some(key) => if old(self)@.in_flight(key) {
                    &&& exists|hold: ReadHold<F>, result: ReadDone| #[trigger]
                        ReadHold::understood(old(self)@.hold(key), event, hold, result) && final(self)@ == old(self)@.complete(key, hold, result)
                    &&& woken == match old(self)@.state(key) {
                        State::Waiting(wake) => Some(wake),
                        _ => None,
                    }
                } else {
                    woken is None && final(self)@ == old(self)@
                },
                None => woken is None && final(self)@ == old(self)@,
            },
    {
        let woken = self.operations.complete(token, event);
        woken
    }
}

} // verus!
