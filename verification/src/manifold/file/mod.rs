//! File operations.
//!
//! Each kind of operation has a table. An operation is begun, submitted by the
//! driver, completed by an event and polled by the task that waits for it; it can
//! be canceled at any time before that.
use vstd::prelude::*;

pub mod metadata;
pub mod open;
pub mod raw;
pub mod read;
pub mod splice;
pub mod stat;
pub mod table;

use crate::collections::slab::SlabKey;
use crate::manifold::file::open::{OpenDone, OpenEvent, OpenSubmission, OpenTable};
use crate::manifold::file::raw::table::{CancellationSignal, Hold, State, TableView};
use crate::manifold::file::raw::{OpenRequest, StatRequest, StatSource};
use crate::manifold::file::read::{
    ReadDone, ReadEvent, ReadFlight, ReadHold, ReadSubmission, ReadTable,
};
use crate::manifold::file::stat::{StatDone, StatEvent, StatTable};
use crate::manifold::Idle;
use crate::park::WakeRef;
use crate::token::{Token, OPEN, READ, STAT};

verus! {

/// What polling an operation yields.
pub enum FileOutcome<R> {
    Done(R),
    Pending,
}

/// Why a file operation failed.
#[derive(Clone, Copy, PartialEq, Eq, Structural, Debug)]
pub enum FileError {
    /// The operating system's error number.
    Os(i32),
    /// The buffer has no room for what is to be read.
    NoWritableRegion,
    /// The completion claims more than was asked for.
    RegionExceeded,
    /// All slots for operations are taken.
    WouldBlock,
    /// The driver did not take the operation.
    NotSubmitted,
    /// More operations than tokens can name.
    CapacityExceeded,
}

/// The most operations of one kind that tokens can name.
pub const MAX_OPERATIONS: usize = 0x0100_0000;

/// The file operations of the manifold with route `ID`, up to `N` of each kind.
/// `P` is a path, `F` a file to work on and `D` a file as it is opened.
pub struct Files<P, F, D, const ID: u8, const N: usize> {
    opens: OpenTable<P, D, ID>,
    reads: ReadTable<F, ID>,
    stats: StatTable<P, F, ID>,
    cancellations: CancellationSignal,
    poison_route: bool,
}

pub struct FilesFactory<const ID: u8, const N: usize>;

/// The abstract value of a [`Files`].
pub struct FilesView<P, F, D> {
    pub opens: TableView<OpenRequest<P>, OpenDone<D>>,
    pub reads: TableView<ReadHold<F>, ReadDone>,
    pub stats: TableView<StatRequest<P, F>, StatDone>,
    /// A cancellation was asked for since the last flush.
    pub cancellations: bool,
    /// The route is not to be used again after this manifold.
    pub poison: bool,
}

impl<P, F, D> FilesView<P, F, D> {
    /// No operation, and room for `capacity` of each kind.
    pub open spec fn fresh(capacity: nat) -> Self {
        FilesView {
            opens: TableView::fresh(capacity),
            reads: TableView::fresh(capacity),
            stats: TableView::fresh(capacity),
            cancellations: false,
            poison: false,
        }
    }

    /// The files after all cancellations have been flushed.
    pub open spec fn flushed(self) -> Self {
        if self.cancellations {
            FilesView {
                opens: self.opens.flush(),
                reads: self.reads.flush(),
                stats: self.stats.flush(),
                cancellations: false,
                ..self
            }
        } else {
            self
        }
    }

    /// The operations of the driver that a flush stops.
    pub open spec fn flush_targets(self, route: u8) -> Seq<Token> {
        if self.cancellations {
            self.opens.cancelled.map_values(|k: SlabKey| Token::spec_of(route, OPEN, k))
                + self.reads.cancelled.map_values(|k: SlabKey| Token::spec_of(route, READ, k))
                + self.stats.cancelled.map_values(|k: SlabKey| Token::spec_of(route, STAT, k))
        } else {
            Seq::empty()
        }
    }

    /// All operations in flight.
    pub open spec fn targets(self, route: u8) -> Seq<Token> {
        raw::table::flight_tokens(
            self.opens,
            route,
            OPEN,
            self.opens.slab.generations.len() as int,
        ) + raw::table::flight_tokens(
            self.reads,
            route,
            READ,
            self.reads.slab.generations.len() as int,
        ) + raw::table::flight_tokens(
            self.stats,
            route,
            STAT,
            self.stats.slab.generations.len() as int,
        )
    }
}

/// A flush stops one operation of the driver for each that was to be canceled, of
/// any kind, and no other, and leaves none to be canceled. Whether the route is
/// poisoned is not decided by it.
pub proof fn law_flush_stops_the_canceled<P, F, D>(files: FilesView<P, F, D>, route: u8, i: int)
    requires
        files.cancellations,
    ensures
        !files.flushed().cancellations,
        files.flushed().poison == files.poison,
        files.flushed().opens.cancelled.len() == 0,
        files.flushed().reads.cancelled.len() == 0,
        files.flushed().stats.cancelled.len() == 0,
        files.flush_targets(route).len() == files.opens.cancelled.len()
            + files.reads.cancelled.len() + files.stats.cancelled.len(),
        0 <= i < files.opens.cancelled.len() ==> files.flush_targets(route)[i] == (Token {
            route,
            kind: OPEN,
            slot: files.opens.cancelled[i].index,
            epoch: files.opens.cancelled[i].generation,
        }),
        0 <= i < files.reads.cancelled.len() ==> files.flush_targets(
            route,
        )[files.opens.cancelled.len() + i] == (Token {
            route,
            kind: READ,
            slot: files.reads.cancelled[i].index,
            epoch: files.reads.cancelled[i].generation,
        }),
        0 <= i < files.stats.cancelled.len() ==> files.flush_targets(
            route,
        )[files.opens.cancelled.len() + files.reads.cancelled.len() + i] == (Token {
            route,
            kind: STAT,
            slot: files.stats.cancelled[i].index,
            epoch: files.stats.cancelled[i].generation,
        }),
{
}

/// A shutdown stops every operation in flight, of whichever kind.
pub proof fn law_shutdown_stops_all<P, F, D>(files: FilesView<P, F, D>, route: u8, key: SlabKey)
    requires
        files.opens.wf(),
        files.reads.wf(),
        files.stats.wf(),
    ensures
        files.opens.slab.entries.contains_key(key) && !(files.opens.slab.entries[key].state
            is Settled) ==> files.targets(route).contains(Token::spec_of(route, OPEN, key)),
        files.reads.slab.entries.contains_key(key) && !(files.reads.slab.entries[key].state
            is Settled) ==> files.targets(route).contains(Token::spec_of(route, READ, key)),
        files.stats.slab.entries.contains_key(key) && !(files.stats.slab.entries[key].state
            is Settled) ==> files.targets(route).contains(Token::spec_of(route, STAT, key)),
{
    let o = files.opens.slab.generations.len() as int;
    let r = files.reads.slab.generations.len() as int;
    let s = files.stats.slab.generations.len() as int;
    let opens = raw::table::flight_tokens(files.opens, route, OPEN, o);
    let reads = raw::table::flight_tokens(files.reads, route, READ, r);
    let stats = raw::table::flight_tokens(files.stats, route, STAT, s);
    let all = files.targets(route);
    if files.opens.slab.entries.contains_key(key) && !(files.opens.slab.entries[key].state
        is Settled) {
        let token = Token::spec_of(route, OPEN, key);
        raw::table::law_exactly_those_in_flight_are_stopped(files.opens, route, OPEN, o, token);
        assert(files.opens.slab.entries.dom().contains(key));
        let i = choose|i: int| 0 <= i < opens.len() && opens[i] == token;
        assert(all[i] == token);
    }
    if files.reads.slab.entries.contains_key(key) && !(files.reads.slab.entries[key].state
        is Settled) {
        let token = Token::spec_of(route, READ, key);
        raw::table::law_exactly_those_in_flight_are_stopped(files.reads, route, READ, r, token);
        assert(files.reads.slab.entries.dom().contains(key));
        let i = choose|i: int| 0 <= i < reads.len() && reads[i] == token;
        assert(all[opens.len() + i] == token);
    }
    if files.stats.slab.entries.contains_key(key) && !(files.stats.slab.entries[key].state
        is Settled) {
        let token = Token::spec_of(route, STAT, key);
        raw::table::law_exactly_those_in_flight_are_stopped(files.stats, route, STAT, s, token);
        assert(files.stats.slab.entries.dom().contains(key));
        let i = choose|i: int| 0 <= i < stats.len() && stats[i] == token;
        assert(all[opens.len() + reads.len() + i] == token);
    }
}

/// New files have no operation of any kind, nothing to flush and nothing to stop, and
/// their route is not poisoned.
pub proof fn law_new_files_are_idle<P, F, D>(capacity: nat, key: SlabKey)
    ensures
        ({
            let files = FilesView::<P, F, D>::fresh(capacity);
            &&& !files.opens.slab.entries.contains_key(key)
            &&& !files.reads.slab.entries.contains_key(key)
            &&& !files.stats.slab.entries.contains_key(key)
            &&& files.opens.slab.generations.len() == capacity
            &&& files.reads.slab.generations.len() == capacity
            &&& files.stats.slab.generations.len() == capacity
            &&& !files.cancellations
            &&& !files.poison
            &&& files.flushed() == files
        }),
{
}

/// A completion, with the token of its operation.
pub enum FileEvent<D> {
    Open(Token, OpenEvent<D>),
    Read(Token, ReadEvent),
    Stat(Token, StatEvent),
}

impl<P, F, D, const ID: u8, const N: usize> View for Files<P, F, D, ID, N> {
    type V = FilesView<P, F, D>;

    closed spec fn view(&self) -> FilesView<P, F, D> {
        FilesView {
            opens: self.opens@,
            reads: self.reads@,
            stats: self.stats@,
            cancellations: self.cancellations.pending(),
            poison: self.poison_route,
        }
    }
}

impl<const ID: u8, const N: usize> FilesFactory<ID, N> {
    /// Builds the files that the factory is for, which tokens must be able to name.
    pub fn build<P, F, D>(self) -> (files: Files<P, F, D, ID, N>)
        requires
            N <= MAX_OPERATIONS,
        ensures
            files.wf(),
            files@ == FilesView::<P, F, D>::fresh(N as nat),
    {
        Files {
            opens: OpenTable::new(N),
            reads: ReadTable::new(N),
            stats: StatTable::new(N),
            cancellations: CancellationSignal::new(),
            poison_route: false,
        }
    }
}

impl<P, F, D, const ID: u8, const N: usize> Files<P, F, D, ID, N> {
    pub closed spec fn wf(self) -> bool {
        self.opens.wf() && self.reads.wf() && self.stats.wf()
    }

    /// Files with no operation; fails when tokens cannot name as many as `N`.
    pub fn new() -> (files: Result<Self, FileError>)
        ensures
            match files {
                Ok(f) => {
                    &&& N <= MAX_OPERATIONS
                    &&& f.wf()
                    &&& f@ == FilesView::<P, F, D>::fresh(N as nat)
                },
                Err(error) => N > MAX_OPERATIONS && error == FileError::CapacityExceeded,
            },
    {
        if N > MAX_OPERATIONS {
            return Err(FileError::CapacityExceeded);
        }
        Ok(Self::factory().build())
    }

    pub fn factory() -> (factory: FilesFactory<ID, N>) {
        FilesFactory
    }

    /// Notes whether stopping operations left the route in doubt.
    pub fn record_quiesce(&mut self, quiesced: bool)
        requires
            old(self).wf(),
        ensures
            final(self).wf(),
            final(self)@ == (FilesView { poison: old(self)@.poison || quiesced, ..old(self)@ }),
    {
        if quiesced {
            self.poison_route = true;
        }
    }

    pub fn begin_open(&mut self, path: P, flags: i32) -> (submission: Option<OpenSubmission>)
        requires
            old(self).wf(),
        ensures
            final(self).wf(),
            final(self)@ == (FilesView { opens: final(self)@.opens, ..old(self)@ }),
            match submission {
                Some(s) => {
                    &&& s.flags == flags
                    &&& s.token.spec_parts(ID, OPEN) matches Some(key)
                        && old(self)@.opens.slab.vacant(key) && final(self)@.opens == old(
                        self,
                    )@.opens.with(key, OpenRequest { path }, State::Submitted)
                },
                None => old(self)@.opens.slab.full() && final(self)@.opens == old(self)@.opens,
            },
    {
        self.opens.begin(path, flags)
    }

    /// The driver has not taken an opening.
    pub fn abort_open(&mut self, token: Token)
        requires
            old(self).wf(),
            token.spec_parts(ID, OPEN) matches Some(key) ==> old(self)@.opens.has(key) ==> old(
                self,
            )@.opens.state(key) is Submitted,
        ensures
            final(self).wf(),
            final(self)@ == (FilesView {
                opens: match token.spec_parts(ID, OPEN) {
                    Some(key) => old(self)@.opens.without(key),
                    None => old(self)@.opens,
                },
                ..old(self)@
            }),
    {
        self.opens.abort(token);
    }

    /// Enters a read. Whether there is room for the bytes depends on what the
    /// allocator gave the buffer.
    pub fn begin_read(&mut self, source: F, buffer: Vec<u8>, len: u32, offset: u64) -> (submission:
        Result<ReadSubmission, (F, Vec<u8>, FileError)>)
        requires
            old(self).wf(),
        ensures
            final(self).wf(),
            final(self)@ == (FilesView { reads: final(self)@.reads, ..old(self)@ }),
            exists|room: usize| #[trigger]
                read::entered(
                    old(self)@.reads,
                    ID,
                    ReadHold { source, len, offset, flight: ReadFlight::Idle(buffer) },
                    room,
                    submission,
                    final(self)@.reads,
                ),
    {
        let submission = self.reads.begin(source, buffer, len, offset);
        proof {
            let hold = ReadHold { source, len, offset, flight: ReadFlight::Idle(buffer) };
            let room = choose|room: usize| #[trigger]
                read::entered(old(self).reads@, ID, hold, room, submission, self.reads@);
            assert(read::entered(old(self)@.reads, ID, hold, room, submission, self@.reads));
        }
        submission
    }

    /// Like [`Files::begin_read`], for a buffer with `room` bytes left.
    pub fn begin_read_with_room(
        &mut self,
        source: F,
        buffer: Vec<u8>,
        room: usize,
        len: u32,
        offset: u64,
    ) -> (submission: Result<ReadSubmission, (F, Vec<u8>, FileError)>)
        requires
            old(self).wf(),
        ensures
            final(self).wf(),
            final(self)@ == (FilesView { reads: final(self)@.reads, ..old(self)@ }),
            read::entered(
                old(self)@.reads,
                ID,
                ReadHold { source, len, offset, flight: ReadFlight::Idle(buffer) },
                room,
                submission,
                final(self)@.reads,
            ),
    {
        self.reads.begin_with_room(source, buffer, room, len, offset)
    }

    /// The driver has taken a read.
    pub fn accept_read(&mut self, token: Token)
        requires
            old(self).wf(),
            token.spec_parts(ID, READ) matches Some(key) && old(self)@.reads.in_flight(key) && old(
                self,
            )@.reads.hold(key).flight is Prepared,
        ensures
            final(self).wf(),
            ({
                let key = token.spec_parts(ID, READ)->0;
                let hold = old(self)@.reads.hold(key);
                final(self)@ == (FilesView {
                    reads: old(self)@.reads.with(
                        key,
                        ReadHold { flight: ReadFlight::Pending(hold.flight->Prepared_0), ..hold },
                        old(self)@.reads.state(key),
                    ),
                    ..old(self)@
                })
            }),
    {
        self.reads.accept(token);
    }

    /// The driver has not taken a read, for the given reason.
    pub fn abort_read(&mut self, token: Token, error: FileError) -> (parts: (
        F,
        Vec<u8>,
        FileError,
    ))
        requires
            old(self).wf(),
            token.spec_parts(ID, READ) matches Some(key) && old(self)@.reads.has(key) && old(
                self,
            )@.reads.state(key) is Submitted && old(self)@.reads.hold(key).flight is Prepared,
        ensures
            final(self).wf(),
            ({
                let key = token.spec_parts(ID, READ)->0;
                let hold = old(self)@.reads.hold(key);
                &&& final(self)@ == (FilesView {
                    reads: old(self)@.reads.without(key),
                    ..old(self)@
                })
                &&& parts == (hold.source, hold.flight->Prepared_0.buffer, error)
            }),
    {
        self.reads.abort(token, error)
    }

    pub fn begin_stat_path(&mut self, path: P) -> (token: Result<Token, P>)
        requires
            old(self).wf(),
        ensures
            final(self).wf(),
            final(self)@ == (FilesView { stats: final(self)@.stats, ..old(self)@ }),
            match token {
                Ok(t) => {
                    &&& t.spec_parts(ID, STAT) matches Some(key) && old(self)@.stats.slab.vacant(
                        key,
                    ) && final(self)@.stats == old(self)@.stats.with(
                        key,
                        StatRequest { source: StatSource::Path(path) },
                        State::Submitted,
                    )
                },
                Err(p) => p == path && old(self)@.stats.slab.full() && final(self)@.stats == old(
                    self,
                )@.stats,
            },
    {
        self.stats.begin_path(path)
    }

    pub fn begin_stat_fd(&mut self, source: F) -> (token: Result<Token, F>)
        requires
            old(self).wf(),
        ensures
            final(self).wf(),
            final(self)@ == (FilesView { stats: final(self)@.stats, ..old(self)@ }),
            match token {
                Ok(t) => {
                    &&& t.spec_parts(ID, STAT) matches Some(key) && old(self)@.stats.slab.vacant(
                        key,
                    ) && final(self)@.stats == old(self)@.stats.with(
                        key,
                        StatRequest { source: StatSource::Fd(source) },
                        State::Submitted,
                    )
                },
                Err(f) => f == source && old(self)@.stats.slab.full() && final(self)@.stats == old(
                    self,
                )@.stats,
            },
    {
        self.stats.begin_fd(source)
    }

    /// The driver has not taken a question.
    pub fn abort_stat(&mut self, token: Token) -> (request: Option<StatRequest<P, F>>)
        requires
            old(self).wf(),
            token.spec_parts(ID, STAT) matches Some(key) ==> old(self)@.stats.has(key) ==> old(
                self,
            )@.stats.state(key) is Submitted,
        ensures
            final(self).wf(),
            match token.spec_parts(ID, STAT) {
                Some(key) => {
                    &&& final(self)@ == (FilesView {
                        stats: old(self)@.stats.without(key),
                        ..old(self)@
                    })
                    &&& request == if old(self)@.stats.has(key) {
                        Some(old(self)@.stats.hold(key))
                    } else {
                        None
                    }
                },
                None => request is None && final(self)@ == old(self)@,
            },
    {
        self.stats.abort(token)
    }

    pub fn poll_open(&mut self, token: Token, wake: WakeRef) -> (outcome: FileOutcome<OpenDone<D>>)
        requires
            old(self).wf(),
        ensures
            final(self).wf(),
            match token.spec_parts(ID, OPEN) {
                Some(key) => {
                    &&& final(self)@ == (FilesView {
                        opens: old(self)@.opens.poll(key, wake),
                        ..old(self)@
                    })
                    &&& outcome == match old(self)@.opens.poll_result(key) {
                        Some((_, done)) => FileOutcome::Done(done),
                        None => FileOutcome::Pending,
                    }
                },
                None => outcome is Pending && final(self)@ == old(self)@,
            },
    {
        self.opens.poll(token, wake)
    }

    pub fn poll_read(&mut self, token: Token, wake: WakeRef) -> (outcome: FileOutcome<
        (F, Vec<u8>, ReadDone),
    >)
        requires
            old(self).wf(),
        ensures
            final(self).wf(),
            match token.spec_parts(ID, READ) {
                Some(key) => {
                    &&& final(self)@ == (FilesView {
                        reads: old(self)@.reads.poll(key, wake),
                        ..old(self)@
                    })
                    &&& outcome == match old(self)@.reads.poll_result(key) {
                        Some((hold, done)) => FileOutcome::Done(
                            (hold.source, hold.flight->Idle_0, done),
                        ),
                        None => FileOutcome::Pending,
                    }
                },
                None => outcome is Pending && final(self)@ == old(self)@,
            },
    {
        self.reads.poll(token, wake)
    }

    pub fn poll_stat_path(&mut self, token: Token, wake: WakeRef) -> (outcome: FileOutcome<
        StatDone,
    >)
        requires
            old(self).wf(),
            token.spec_parts(ID, STAT) matches Some(key) ==> old(self)@.stats.has(key) ==> old(
                self,
            )@.stats.hold(key).source is Path,
        ensures
            final(self).wf(),
            match token.spec_parts(ID, STAT) {
                Some(key) => {
                    &&& final(self)@ == (FilesView {
                        stats: old(self)@.stats.poll(key, wake),
                        ..old(self)@
                    })
                    &&& outcome == match old(self)@.stats.poll_result(key) {
                        Some((_, done)) => FileOutcome::Done(done),
                        None => FileOutcome::Pending,
                    }
                },
                None => outcome is Pending && final(self)@ == old(self)@,
            },
    {
        self.stats.poll_path(token, wake)
    }

    pub fn poll_stat_fd(&mut self, token: Token, wake: WakeRef) -> (outcome: FileOutcome<
        (F, StatDone),
    >)
        requires
            old(self).wf(),
            token.spec_parts(ID, STAT) matches Some(key) ==> old(self)@.stats.has(key) ==> old(
                self,
            )@.stats.hold(key).source is Fd,
        ensures
            final(self).wf(),
            match token.spec_parts(ID, STAT) {
                Some(key) => {
                    &&& final(self)@ == (FilesView {
                        stats: old(self)@.stats.poll(key, wake),
                        ..old(self)@
                    })
                    &&& outcome == match old(self)@.stats.poll_result(key) {
                        Some((request, done)) => FileOutcome::Done((request.source->Fd_0, done)),
                        None => FileOutcome::Pending,
                    }
                },
                None => outcome is Pending && final(self)@ == old(self)@,
            },
    {
        self.stats.poll_fd(token, wake)
    }

    pub fn cancel_open(&mut self, token: Token)
        requires
            old(self).wf(),
        ensures
            final(self).wf(),
            final(self)@ == match token.spec_parts(ID, OPEN) {
                Some(key) => FilesView {
                    opens: old(self)@.opens.request_cancel(key),
                    cancellations: old(self)@.cancellations || old(self)@.opens.cancel_queues(key),
                    ..old(self)@
                },
                None => old(self)@,
            },
    {
        self.opens.cancel(token, &mut self.cancellations);
    }

    pub fn cancel_read(&mut self, token: Token)
        requires
            old(self).wf(),
        ensures
            final(self).wf(),
            final(self)@ == match token.spec_parts(ID, READ) {
                Some(key) => FilesView {
                    reads: old(self)@.reads.request_cancel(key),
                    cancellations: old(self)@.cancellations || old(self)@.reads.cancel_queues(key),
                    ..old(self)@
                },
                None => old(self)@,
            },
    {
        self.reads.cancel(token, &mut self.cancellations);
    }

    pub fn cancel_stat(&mut self, token: Token)
        requires
            old(self).wf(),
        ensures
            final(self).wf(),
            final(self)@ == match token.spec_parts(ID, STAT) {
                Some(key) => FilesView {
                    stats: old(self)@.stats.request_cancel(key),
                    cancellations: old(self)@.cancellations || old(self)@.stats.cancel_queues(key),
                    ..old(self)@
                },
                None => old(self)@,
            },
    {
        self.stats.cancel(token, &mut self.cancellations);
    }

    /// Takes out everything to be canceled and returns what the driver is to stop.
    /// Once it has, it says by [`Files::record_quiesce`] whether the route is in
    /// doubt.
    pub fn flush_cancellations(&mut self) -> (targets: Vec<Token>)
        requires
            old(self).wf(),
        ensures
            final(self).wf(),
            final(self)@ == old(self)@.flushed(),
            targets@ == old(self)@.flush_targets(ID),
    {
        if !self.cancellations.is_pending() {
            return Vec::new();
        }
        let mut targets = self.opens.flush_cancellations();
        let mut more = self.reads.flush_cancellations();
        targets.append(&mut more);
        let mut more = self.stats.flush_cancellations();
        targets.append(&mut more);
        self.cancellations.clear();
        targets
    }

    /// Takes in a completion and returns whom to wake.
    pub fn dispatch(&mut self, event: FileEvent<D>) -> (woken: Option<WakeRef>)
        requires
            old(self).wf(),
            event matches FileEvent::Read(token, _) ==> token.spec_parts(ID, READ) matches Some(key)
                ==> old(self)@.reads.in_flight(key) ==> old(self)@.reads.hold(key).flight is Pending,
        ensures
            final(self).wf(),
            match event {
                FileEvent::Open(token, e) => {
                    &&& final(self)@ == (FilesView { opens: final(self)@.opens, ..old(self)@ })
                    &&& match token.spec_parts(ID, OPEN) {
                        Some(key) => if old(self)@.opens.in_flight(key) {
                            &&& final(self)@.opens == old(self)@.opens.complete(
                                key,
                                old(self)@.opens.hold(key),
                                open::opened(e),
                            )
                            &&& woken == match old(self)@.opens.state(key) {
                                State::Waiting(wake) => Some(wake),
                                _ => None,
                            }
                        } else {
                            woken is None && final(self)@ == old(self)@
                        },
                        None => woken is None && final(self)@ == old(self)@,
                    }
                },
                FileEvent::Read(token, e) => {
                    &&& final(self)@ == (FilesView { reads: final(self)@.reads, ..old(self)@ })
                    &&& match token.spec_parts(ID, READ) {
                        Some(key) => if old(self)@.reads.in_flight(key) {
                            &&& exists|hold: ReadHold<F>, result: ReadDone| #[trigger]
                                ReadHold::understood(old(self)@.reads.hold(key), e, hold, result)
                                    && final(self)@.reads == old(self)@.reads.complete(
                                    key,
                                    hold,
                                    result,
                                )
                            &&& woken == match old(self)@.reads.state(key) {
                                State::Waiting(wake) => Some(wake),
                                _ => None,
                            }
                        } else {
                            woken is None && final(self)@ == old(self)@
                        },
                        None => woken is None && final(self)@ == old(self)@,
                    }
                },
                FileEvent::Stat(token, e) => {
                    &&& final(self)@ == (FilesView { stats: final(self)@.stats, ..old(self)@ })
                    &&& match token.spec_parts(ID, STAT) {
                        Some(key) => if old(self)@.stats.in_flight(key) {
                            &&& final(self)@.stats == old(self)@.stats.complete(
                                key,
                                old(self)@.stats.hold(key),
                                stat::answered(e),
                            )
                            &&& woken == match old(self)@.stats.state(key) {
                                State::Waiting(wake) => Some(wake),
                                _ => None,
                            }
                        } else {
                            woken is None && final(self)@ == old(self)@
                        },
                        None => woken is None && final(self)@ == old(self)@,
                    }
                },
            },
    {
        match event {
            FileEvent::Open(token, event) => self.opens.complete(token, event),
            FileEvent::Read(token, event) => self.reads.complete(token, event),
            FileEvent::Stat(token, event) => self.stats.complete(token, event),
        }
    }

    /// Polls the driver again at once as long as there is any operation.
    pub fn idle(&self) -> (idle: Idle)
        requires
            self.wf(),
        ensures
            idle == if self@.opens.is_idle() && self@.reads.is_idle() && self@.stats.is_idle() {
                Idle::Park(None)
            } else {
                Idle::Busy
            },
    {
        if !self.opens.is_empty() || !self.reads.is_empty() || !self.stats.is_empty() {
            Idle::Busy
        } else {
            Idle::Park(None)
        }
    }

    /// The operations in flight, which the driver is to stop when the manifold
    /// shuts down.
    pub fn shutdown(&self) -> (targets: Vec<Token>)
        requires
            self.wf(),
        ensures
            targets@ == self@.targets(ID),
    {
        let mut targets = self.opens.targets();
        let mut more = self.reads.targets();
        targets.append(&mut more);
        let mut more = self.stats.targets();
        targets.append(&mut more);
        targets
    }

    /// Whether the route is to be poisoned at the end, given whether the shutdown
    /// stopped anything.
    pub fn poisons_route(&self, stopped: bool) -> (poison: bool)
        ensures
            poison == (self@.poison || stopped),
    {
        self.poison_route || stopped
    }
}

} // verus!
