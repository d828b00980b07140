//! Incoming connections.
//!
//! A listener works like a connector: sockets, buffers and the application's
//! callbacks belong to the driver, which asks for the next task, carries it out
//! and hands back what came of it.
use std::collections::VecDeque;

use vstd::prelude::*;

pub mod accept;
pub mod application;
pub mod arena;
pub mod closing;
pub mod egress;
pub mod idle;
pub mod raw;
pub mod recv;
pub mod send;
pub mod sending;
pub mod state;

use crate::collections::table::CounterKey;
use crate::manifold::{Idle, Outcome, Reclaim, SetupError};
use crate::manifold::pending;
use crate::manifold::pending::Mark;
use crate::time;
use crate::time::{earlier, Duration, Instant};
use crate::token::{Token, SLOT_MASK};
use self::egress::Flow;
use self::idle::{IdleSet, IdleView};
use self::raw::accept::{Accept, AcceptView, Outcome as Accepted, Peer};
use self::accept::AcceptEvent;
use self::state::State;

verus! {

/// One of the listener's sets of deadlines.
#[derive(Clone, Copy, PartialEq, Eq, Structural, Debug)]
pub enum Watch {
    /// Nothing was received for too long.
    Silence,
    /// A write takes too long.
    Write,
    /// The connection is too old.
    Age,
}

/// What the driver is to do next.
#[derive(Clone, Copy, PartialEq, Eq, Structural, Debug)]
pub enum Task {
    /// Arm the accept and the receives that wait for it.
    Rearm,
    /// Give the application the next of the pieces that were received.
    Piece { idx: u32, piece: usize, pieces: usize },
    /// Go on after a receive.
    AfterRecv { idx: u32, refresh: bool },
    /// Set the deadline of the write in flight.
    ArmSend { idx: u32 },
    /// Write what is to be sent on a connection.
    Commit { idx: u32 },
    /// Give up what is still unsent on a connection.
    Abort { idx: u32 },
    /// Have a connection closed once it has nothing left to send.
    CloseAfter { idx: u32 },
    /// Close a connection if it is due.
    MaybeClose { idx: u32 },
    Close { idx: u32 },
    /// Tell the application that a connection is closed.
    Closed { idx: u32 },
    /// Let go of a connection that is over.
    Part { idx: u32 },
    /// Close the connections whose deadline has passed.
    Drain { watch: Watch },
    /// See to all connections that are marked now.
    FlushDirty,
    /// See to `left` more marked connections.
    Flush { left: usize },
    /// Cancel what is still in flight for good.
    Quiesce,
}

/// How long things may take; those that are not given may take any time.
#[derive(Clone, Copy, PartialEq, Eq, Structural, Debug)]
pub struct Windows {
    pub silence: Duration,
    pub write: Option<Duration>,
    pub age: Option<Duration>,
}

pub struct Listener<C> {
    route: u8,
    reclaim: Reclaim,
    slots: Vec<Option<State<C>>>,
    accept: Accept,
    silence: IdleSet,
    write: IdleSet,
    age: IdleSet,
    dirty: VecDeque<u32>,
    work: Vec<Task>,
}

/// The abstract value of a [`Listener`].
pub struct ListenerView<C> {
    pub route: u8,
    pub reclaim: Reclaim,
    /// The connections, by slot.
    pub slots: Seq<Option<State<C>>>,
    pub accept: AcceptView,
    pub silence: IdleView,
    pub write: IdleView,
    pub age: IdleView,
    /// Slots whose connection is marked, in the order in which they are seen to.
    pub dirty: Seq<u32>,
    /// What is to be done, the next task last.
    pub work: Seq<Task>,
}

impl<C> ListenerView<C> {
    pub open spec fn has(self, idx: u32) -> bool {
        idx < self.slots.len() && self.slots[idx as int] is Some
    }

    pub open spec fn at(self, idx: u32) -> State<C> {
        self.slots[idx as int]->0
    }

    /// Every marked connection waits to be seen to, no count of bytes is out of
    /// bounds, and no peer has more connections than it may.
    pub open spec fn wf(self) -> bool {
        &&& 0 < self.slots.len() <= SLOT_MASK
        &&& self.accept.wf()
        &&& pending::all_queued(self.slots, self.dirty)
        &&& forall|i: int|
            0 <= i < self.slots.len() ==> (#[trigger] self.slots[i] matches Some(state)
                ==> state.send.wf())
    }

    pub open spec fn with(self, idx: u32, state: State<C>) -> Self {
        ListenerView { slots: self.slots.update(idx as int, Some(state)), ..self }
    }

    /// Marks a connection and queues its slot, unless it is queued already.
    pub open spec fn mark(self, idx: u32, mark: Mark) -> Self {
        if self.has(idx) {
            let state = self.at(idx);
            let marked = self.with(
                idx,
                State { pending: state.pending.marked(mark), ..state },
            );
            if state.pending.spec_any() {
                marked
            } else {
                ListenerView { dirty: self.dirty.push(idx), ..marked }
            }
        } else {
            self
        }
    }

    pub open spec fn schedule(self, task: Task) -> Self {
        ListenerView { work: self.work.push(task), ..self }
    }

    /// The slot that a connection's token names, while it is that connection's.
    pub open spec fn target(self, conn_id: Token) -> Option<u32> {
        if self.has(conn_id.slot) && self.at(conn_id.slot).token.spec_same_target(conn_id) {
            Some(conn_id.slot)
        } else {
            None
        }
    }

    /// The deadlines of all sets can be told from `now`.
    pub open spec fn clock_fits(self, now: Instant) -> bool {
        &&& now + self.silence.window <= u128::MAX
        &&& now + self.write.window <= u128::MAX
        &&& now + self.age.window <= u128::MAX
    }

    /// The connection in a slot is gone.
    pub open spec fn released(self, idx: u32) -> Self {
        if idx < self.slots.len() {
            ListenerView { slots: self.slots.update(idx as int, None), ..self }
        } else {
            self
        }
    }

    /// A new connection in the slot of its token.
    pub open spec fn opened(self, token: Token, conn: C, peer: Option<Peer>, now: Instant) -> Self {
        ListenerView {
            silence: self.silence.arm(token.slot, now),
            age: self.age.arm(token.slot, now),
            ..self.with(
                token.slot,
                State {
                    conn,
                    token,
                    send: send::State::fresh(),
                    pending: pending::Pending {
                        egress: false,
                        shutdown: false,
                        close: false,
                        how: 0,
                    },
                    peer,
                },
            )
        }
    }

    /// All slots from `from` on are to be closed, lowest first.
    pub open spec fn closing_from(self, from: int) -> Self
        decreases self.slots.len() - from,
    {
        if 0 <= from < self.slots.len() {
            self.closing_from(from + 1).schedule(Task::Close { idx: from as u32 })
        } else {
            self
        }
    }

    pub open spec fn shut_down(self, armed: bool) -> Self {
        (ListenerView {
            accept: AcceptView { canceling: self.accept.canceling || armed, ..self.accept },
            ..self
        }).schedule(Task::Quiesce).closing_from(0)
    }

    /// What a turn of the listener is made of.
    pub open spec fn parking(self) -> Self {
        self.schedule(Task::FlushDirty).schedule(Task::Drain { watch: Watch::Age }).schedule(
            Task::Drain { watch: Watch::Write },
        ).schedule(Task::Drain { watch: Watch::Silence }).schedule(Task::FlushDirty).schedule(
            Task::Rearm,
        )
    }

    /// The first deadline of any set.
    pub open spec fn first_deadline(self) -> Option<Instant> {
        time::min_deadline(
            time::min_deadline(self.silence.first(), self.write.first()),
            self.age.first(),
        )
    }
}

/// Of two states of a listener at most slot `idx`, the marked slots and the work
/// differ.
pub open spec fn same_elsewhere<C>(
    before: ListenerView<C>,
    after: ListenerView<C>,
    idx: u32,
) -> bool {
    &&& same_around(before, after)
    &&& after.slots.len() == before.slots.len()
    &&& forall|j: int|
        0 <= j < before.slots.len() && j != idx ==> #[trigger] after.slots[j] == before.slots[j]
}

/// Of two states of a listener at most the connections, the marked slots and the
/// work differ.
pub open spec fn same_around<C>(before: ListenerView<C>, after: ListenerView<C>) -> bool {
    &&& after.route == before.route
    &&& after.reclaim == before.reclaim
    &&& after.accept == before.accept
    &&& after.silence == before.silence
    &&& after.write == before.write
    &&& after.age == before.age
}

/// Two states of a connection are the same but for how far its answer has come.
pub open spec fn same_but_send<C>(before: State<C>, after: State<C>) -> bool {
    &&& after.conn == before.conn
    &&& after.token == before.token
    &&& after.pending == before.pending
    &&& after.peer == before.peer
}

/// Nothing but the work differs, and it differs by `tasks`, the last of which comes
/// first.
pub open spec fn only_scheduled<C>(
    before: ListenerView<C>,
    after: ListenerView<C>,
    tasks: Seq<Task>,
) -> bool {
    &&& same_around(before, after)
    &&& after.slots == before.slots
    &&& after.dirty == before.dirty
    &&& after.work == before.work + tasks
}

/// Marking a connection sets one mark of it and queues its slot once; all else of
/// it, and all other connections, stay as they were.
pub proof fn law_mark_sets_one_mark<C>(view: ListenerView<C>, idx: u32, mark: Mark)
    requires
        view.has(idx),
    ensures
        ({
            let after = view.mark(idx, mark);
            let was = view.at(idx).pending;
            let cur = after.at(idx).pending;
            &&& same_elsewhere(view, after, idx)
            &&& after.work == view.work
            &&& after.has(idx)
            &&& cur.egress == (was.egress || mark is Egress)
            &&& cur.shutdown == (was.shutdown || mark is Shutdown)
            &&& cur.close == (was.close || mark is Close)
            &&& cur.how == was.how
            &&& after.at(idx).conn == view.at(idx).conn
            &&& after.at(idx).token == view.at(idx).token
            &&& after.at(idx).send == view.at(idx).send
            &&& after.at(idx).peer == view.at(idx).peer
            &&& after.dirty == if was.egress || was.shutdown || was.close {
                view.dirty
            } else {
                view.dirty + seq![idx]
            }
        }),
{
    assert(view.dirty.push(idx) =~= view.dirty + seq![idx]);
}

/// A token reaches the connection that it was given to, whatever its kind, and no
/// other; one that is gone is not reached.
pub proof fn law_tokens_reach_their_connection<C>(view: ListenerView<C>, conn_id: Token)
    ensures
        view.target(conn_id) is Some <==> conn_id.slot < view.slots.len()
            && view.slots[conn_id.slot as int] is Some && ({
            let token = (view.slots[conn_id.slot as int]->0).token;
            token.route == conn_id.route && token.slot == conn_id.slot && token.epoch
                == conn_id.epoch
        }),
        view.target(conn_id) matches Some(idx) ==> idx == conn_id.slot,
{
}

/// A new connection stands in the slot of its token, with nothing to be done and
/// nothing to be sent, and is watched for silence and for its age from now on. It is
/// not watched for a write, and no other connection is touched.
pub proof fn law_opened_starts_afresh<C>(
    view: ListenerView<C>,
    token: Token,
    conn: C,
    peer: Option<Peer>,
    now: Instant,
)
    requires
        token.slot < view.slots.len(),
        view.clock_fits(now),
    ensures
        ({
            let after = view.opened(token, conn, peer, now);
            let state = after.at(token.slot);
            &&& after.has(token.slot)
            &&& state.conn == conn
            &&& state.token == token
            &&& state.peer == peer
            &&& !state.pending.egress && !state.pending.shutdown && !state.pending.close
            &&& state.send.total_plain == 0
            &&& state.send.consumed_plain == 0
            &&& state.send.inflight_plain == 0
            &&& forall|j: int|
                0 <= j < view.slots.len() && j != token.slot ==> #[trigger] after.slots[j]
                    == view.slots[j]
            &&& after.write == view.write
            &&& after.accept == view.accept
            &&& after.dirty == view.dirty
            &&& after.work == view.work
            &&& token.slot < view.silence.cap ==> after.silence.queue.last() == (
                token.slot as usize,
                (now + view.silence.window) as u128,
            )
            &&& token.slot < view.age.cap ==> after.age.queue.last() == (
                token.slot as usize,
                (now + view.age.window) as u128,
            )
        }),
{
}

/// Releasing a slot empties that slot and changes nothing else.
pub proof fn law_release_empties_one_slot<C>(view: ListenerView<C>, idx: u32)
    ensures
        !view.released(idx).has(idx),
        same_elsewhere(view, view.released(idx), idx),
        view.released(idx).dirty == view.dirty,
        view.released(idx).work == view.work,
{
}

proof fn lemma_closing_work<C>(view: ListenerView<C>, from: int)
    requires
        0 <= from <= view.slots.len() <= SLOT_MASK,
    ensures
        view.closing_from(from).work == view.work + Seq::new(
            (view.slots.len() - from) as nat,
            |i: int| Task::Close { idx: (view.slots.len() - 1 - i) as u32 },
        ),
    decreases view.slots.len() - from,
{
    let len = view.slots.len() as int;
    let closes = Seq::new(
        (len - from) as nat,
        |i: int| Task::Close { idx: (view.slots.len() - 1 - i) as u32 },
    );
    if from < len {
        lemma_closing_work(view, from + 1);
        lemma_closing(view, from + 1);
        assert(view.closing_from(from).work =~= view.work + closes);
    } else {
        assert(view.closing_from(from).work =~= view.work + closes);
    }
}

/// A shutdown closes all slots, lowest first, and then cancels what is left; if an
/// accept is armed it is stopped.
pub proof fn law_shutdown_closes_all<C>(view: ListenerView<C>, armed: bool)
    requires
        view.slots.len() <= SLOT_MASK,
    ensures
        ({
            let after = view.shut_down(armed);
            &&& after.slots == view.slots
            &&& after.dirty == view.dirty
            &&& after.accept.canceling == (view.accept.canceling || armed)
            &&& after.accept.counts == view.accept.counts
            &&& after.accept.accept_slot == view.accept.accept_slot
            &&& after.accept.per_ip_limit == view.accept.per_ip_limit
            &&& after.work.len() == view.work.len() + 1 + view.slots.len()
            &&& after.work.take(view.work.len() as int) == view.work
            &&& after.work[view.work.len() as int] is Quiesce
            &&& forall|i: int|
                0 <= i < view.slots.len() ==> #[trigger] after.work[after.work.len() - 1 - i] == (
                Task::Close { idx: i as u32 })
        }),
{
    let stopped = (ListenerView {
        accept: AcceptView { canceling: view.accept.canceling || armed, ..view.accept },
        ..view
    }).schedule(Task::Quiesce);
    lemma_closing_work(stopped, 0);
    lemma_closing(stopped, 0);
    let after = view.shut_down(armed);
    assert(after.work.take(view.work.len() as int) =~= view.work);
}

/// A turn arms what waits for it, sees to what is marked, closes what is silent, what
/// writes too long and what is too old, and then sees to what has been marked since.
pub proof fn law_turn_in_order<C>(view: ListenerView<C>)
    ensures
        only_scheduled(
            view,
            view.parking(),
            seq![
                Task::FlushDirty,
                Task::Drain { watch: Watch::Age },
                Task::Drain { watch: Watch::Write },
                Task::Drain { watch: Watch::Silence },
                Task::FlushDirty,
                Task::Rearm,
            ],
        ),
{
    assert(view.parking().work =~= view.work + seq![
        Task::FlushDirty,
        Task::Drain { watch: Watch::Age },
        Task::Drain { watch: Watch::Write },
        Task::Drain { watch: Watch::Silence },
        Task::FlushDirty,
        Task::Rearm,
    ]);
}

/// The listener wakes for the first deadline of all: no set has an earlier one, and
/// some set has it.
pub proof fn law_wakes_for_the_first_deadline<C>(view: ListenerView<C>)
    ensures
        view.first_deadline() is None <==> view.silence.queue.len() == 0
            && view.write.queue.len() == 0 && view.age.queue.len() == 0,
        view.first_deadline() matches Some(at) ==> {
            &&& view.silence.queue.len() > 0 ==> at <= view.silence.queue[0].1
            &&& view.write.queue.len() > 0 ==> at <= view.write.queue[0].1
            &&& view.age.queue.len() > 0 ==> at <= view.age.queue[0].1
            &&& (view.silence.queue.len() > 0 && at == view.silence.queue[0].1) || (
            view.write.queue.len() > 0 && at == view.write.queue[0].1) || (view.age.queue.len() > 0
                && at == view.age.queue[0].1)
        },
{
}

proof fn lemma_with_wf<C>(view: ListenerView<C>, idx: u32, state: State<C>)
    requires
        view.wf(),
        idx < view.slots.len(),
        state.pending.spec_any() ==> view.has(idx) && view.at(idx).pending.spec_any(),
        state.send.wf(),
    ensures
        view.with(idx, state).wf(),
{
    pending::lemma_update(view.slots, view.dirty, idx, Some(state));
}

proof fn lemma_mark_wf<C>(view: ListenerView<C>, idx: u32, mark: Mark)
    requires
        view.wf(),
    ensures
        view.mark(idx, mark).wf(),
{
    if view.has(idx) {
        let state = view.at(idx);
        let marked = State { pending: state.pending.marked(mark), ..state };
        assert(view.slots[idx as int] == Some(state));
        if state.pending.spec_any() {
            pending::lemma_update(view.slots, view.dirty, idx, Some(marked));
        } else {
            pending::lemma_queue(view.slots, view.dirty, idx, Some(marked));
        }
    }
}

proof fn lemma_closing<C>(view: ListenerView<C>, from: int)
    ensures
        view.closing_from(from) == (ListenerView { work: view.closing_from(from).work, ..view }),
    decreases view.slots.len() - from,
{
    if 0 <= from < view.slots.len() {
        lemma_closing(view, from + 1);
    }
}

impl<C> View for Listener<C> {
    type V = ListenerView<C>;

    closed spec fn view(&self) -> ListenerView<C> {
        ListenerView {
            route: self.route,
            reclaim: self.reclaim,
            slots: self.slots@,
            accept: self.accept@,
            silence: self.silence@,
            write: self.write@,
            age: self.age@,
            dirty: self.dirty@,
            work: self.work@,
        }
    }
}

impl<C> Listener<C> {
    pub closed spec fn wf(self) -> bool {
        &&& self@.wf()
        &&& self.accept.wf()
        &&& self.silence.wf()
        &&& self.write.wf()
        &&& self.age.wf()
    }

    /// All parts but the connections are as they were.
    spec fn same_parts(self, other: Self) -> bool {
        &&& self.accept == other.accept
        &&& self.silence == other.silence
        &&& self.write == other.write
        &&& self.age == other.age
    }

    fn slot_mut(&mut self, idx: u32) -> (state: Option<&mut State<C>>)
        ensures
            match state {
                Some(state) => {
                    &&& old(self)@.has(idx)
                    &&& *state == old(self)@.at(idx)
                    &&& final(self)@ == old(self)@.with(idx, *final(state))
                    &&& final(self).same_parts(*old(self))
                },
                None => !old(self)@.has(idx) && *final(self) == *old(self),
            },
    {
        if idx as usize >= self.slots.len() || self.slots[idx as usize].is_none() {
            return None;
        }
        match &mut self.slots[idx as usize] {
            Some(state) => Some(state),
            None => None,
        }
    }

    fn has(&self, idx: u32) -> (has: bool)
        ensures
            has == self@.has(idx),
    {
        (idx as usize) < self.slots.len() && self.slots[idx as usize].is_some()
    }

    fn mark(&mut self, idx: u32, mark: Mark)
        requires
            old(self).wf(),
        ensures
            final(self).wf(),
            final(self)@ == old(self)@.mark(idx, mark),
    {
        proof {
            lemma_mark_wf(self@, idx, mark);
        }
        let first = match self.slot_mut(idx) {
            Some(state) => state.pending.mark(mark),
            None => {
                return ;
            },
        };
        if first {
            self.dirty.push_back(idx);
        }
    }

    fn schedule(&mut self, task: Task)
        requires
            old(self).wf(),
        ensures
            final(self).wf(),
            final(self)@ == old(self)@.schedule(task),
    {
        self.work.push(task);
    }

    /// A listener for up to `max_connections` connections. `retention` is what the
    /// application says of how much it retains, `storage_fits` whether the storage
    /// for outgoing bytes was made for the configuration in use, and `per_ip_limit`
    /// how many connections one peer may have, zero for any number.
    pub fn assemble<X>(
        route: u8,
        reclaim: Reclaim,
        max_connections: usize,
        retention: Result<usize, X>,
        storage_fits: bool,
        windows: Windows,
        per_ip_limit: u32,
    ) -> (listener: Result<Self, SetupError<X>>)
        ensures
            match listener {
                Ok(listener) => {
                    &&& 0 < max_connections <= SLOT_MASK
                    &&& retention is Ok
                    &&& storage_fits
                    &&& listener.wf()
                    &&& is_fresh(listener@, route, reclaim, max_connections, windows, per_ip_limit)
                },
                Err(SetupError::Capacity) => !(0 < max_connections <= SLOT_MASK),
                Err(SetupError::Retention(x)) => {
                    &&& 0 < max_connections <= SLOT_MASK
                    &&& retention == Err::<usize, X>(x)
                },
                Err(SetupError::Storage) => {
                    &&& 0 < max_connections <= SLOT_MASK
                    &&& retention is Ok
                    &&& !storage_fits
                },
            },
    {
        if max_connections == 0 || max_connections > SLOT_MASK as usize {
            return Err(SetupError::Capacity);
        }
        match retention {
            Ok(_) => {},
            Err(x) => {
                return Err(SetupError::Retention(x));
            },
        }
        if !storage_fits {
            return Err(SetupError::Storage);
        }
        let mut slots: Vec<Option<State<C>>> = Vec::new();
        let mut i: usize = 0;
        while i < max_connections
            invariant
                i <= max_connections,
                slots@ == Seq::new(i as nat, |i: int| None::<State<C>>),
            decreases max_connections - i,
        {
            slots.push(None);
            i += 1;
            assert(slots@ =~= Seq::new(i as nat, |i: int| None::<State<C>>));
        }
        let write = match windows.write {
            Some(window) => IdleSet::new(max_connections, window),
            None => IdleSet::new(0, 0),
        };
        let age = match windows.age {
            Some(window) => IdleSet::new(max_connections, window),
            None => IdleSet::new(0, 0),
        };
        Ok(
            Listener {
                route,
                reclaim,
                slots,
                accept: Accept::new(max_connections as u32, per_ip_limit),
                silence: IdleSet::new(max_connections, windows.silence),
                write,
                age,
                dirty: VecDeque::new(),
                work: Vec::new(),
            },
        )
    }

    pub fn capacity(&self) -> (capacity: usize)
        ensures
            capacity == self@.slots.len(),
    {
        self.slots.len()
    }

    /// Takes the next task off the stack.
    pub fn next(&mut self) -> (task: Option<Task>)
        requires
            old(self).wf(),
        ensures
            final(self).wf(),
            match task {
                Some(task) => {
                    &&& old(self)@.work.len() > 0
                    &&& task == old(self)@.work.last()
                    &&& final(self)@ == (ListenerView {
                        work: old(self)@.work.drop_last(),
                        ..old(self)@
                    })
                },
                None => old(self)@.work.len() == 0 && final(self)@ == old(self)@,
            },
    {
        self.work.pop()
    }

    fn by_target(&self, conn_id: Token) -> (idx: Option<u32>)
        ensures
            idx == self@.target(conn_id),
    {
        if (conn_id.slot as usize) < self.slots.len() {
            if let Some(state) = &self.slots[conn_id.slot as usize] {
                if state.token.same_target(conn_id) {
                    return Some(conn_id.slot);
                }
            }
        }
        None
    }

    pub fn state(&self, conn_id: Token) -> (state: Option<&State<C>>)
        ensures
            match state {
                Some(state) => {
                    &&& self@.target(conn_id) matches Some(idx)
                    &&& *state == self@.at(idx)
                },
                None => self@.target(conn_id) is None,
            },
    {
        match self.by_target(conn_id) {
            Some(idx) => self.slots[idx as usize].as_ref(),
            None => None,
        }
    }

    /// Whether anything is still to be sent on a connection.
    pub fn has_pending_egress(&self, conn_id: Token, flow: Flow) -> (pending: bool)
        ensures
            pending == (self@.target(conn_id) matches Some(idx) && (flow.inflight || self@.at(
                idx,
            ).send.unfinished() || flow.holds_plain || flow.deferred)),
    {
        match self.state(conn_id) {
            Some(state) => flow.inflight || state.send.consumed_plain < state.send.total_plain
                || flow.holds_plain || flow.deferred,
            None => false,
        }
    }

    /// Bytes were queued on a connection, or could not be if `staged` is false: in
    /// either case what is queued is written. Says whether the bytes will be sent.
    pub fn mark_send(&mut self, conn_id: Token, staged: bool) -> (sent: bool)
        requires
            old(self).wf(),
        ensures
            final(self).wf(),
            match old(self)@.target(conn_id) {
                Some(idx) => sent == staged && final(self)@ == old(self)@.mark(idx, Mark::Egress),
                None => !sent && final(self)@ == old(self)@,
            },
    {
        match self.by_target(conn_id) {
            Some(idx) => {
                self.mark(idx, Mark::Egress);
                staged
            },
            None => false,
        }
    }

    /// Has a connection closed.
    pub fn close(&mut self, conn_id: Token)
        requires
            old(self).wf(),
        ensures
            final(self).wf(),
            final(self)@ == match old(self)@.target(conn_id) {
                Some(idx) => old(self)@.mark(idx, Mark::Close),
                None => old(self)@,
            },
    {
        if let Some(idx) = self.by_target(conn_id) {
            self.mark(idx, Mark::Close);
        }
    }

    /// The application was woken for a connection, whose slot is returned: once it
    /// has run, the connection may be due to be closed.
    pub fn activate(&mut self, target: Token) -> (idx: Option<u32>)
        requires
            old(self).wf(),
        ensures
            final(self).wf(),
            idx == old(self)@.target(target),
            final(self)@ == match idx {
                Some(idx) => old(self)@.schedule(Task::FlushDirty).schedule(
                    Task::MaybeClose { idx },
                ),
                None => old(self)@,
            },
    {
        let found = self.by_target(target);
        if let Some(idx) = found {
            self.schedule(Task::FlushDirty);
            self.schedule(Task::MaybeClose { idx });
        }
        found
    }

    /// Decides what becomes of an accept from `peer`.
    pub fn accept(&mut self, current: bool, more: bool, event: AcceptEvent, peer: Option<Peer>) -> (outcome:
        Accepted)
        requires
            old(self).wf(),
        ensures
            final(self).wf(),
            outcome == old(self)@.accept.outcome(current, event, peer),
            final(self)@ == (ListenerView {
                accept: old(self)@.accept.completed(current, more, event, peer),
                ..old(self)@
            }),
    {
        self.accept.complete(current, more, event, peer)
    }

    /// An accepted connection has its place: it is watched from now on.
    pub fn opened(&mut self, token: Token, conn: C, peer: Option<Peer>, now: Instant)
        requires
            old(self).wf(),
            old(self)@.clock_fits(now),
            token.slot < old(self)@.slots.len(),
        ensures
            final(self).wf(),
            final(self)@ == old(self)@.opened(token, conn, peer, now),
    {
        let state = State::new(conn, token, peer);
        proof {
            lemma_with_wf(self@, token.slot, state);
        }
        self.slots[token.slot as usize] = Some(state);
        self.silence.arm(token.slot, now);
        self.age.arm(token.slot, now);
    }

    /// Takes what the application made of a new connection, which is closed if it was
    /// one too many.
    pub fn welcomed(&mut self, idx: u32, outcome: Outcome)
        requires
            old(self).wf(),
        ensures
            final(self).wf(),
            final(self)@ == if outcome is Overrun {
                old(self)@.schedule(Task::Close { idx })
            } else {
                old(self)@
            },
    {
        match outcome {
            Outcome::Overrun => {
                self.schedule(Task::Close { idx });
            },
            _ => {},
        }
    }

    /// The connection in a slot is gone.
    pub fn release(&mut self, idx: u32)
        requires
            old(self).wf(),
        ensures
            final(self).wf(),
            final(self)@ == old(self)@.released(idx),
    {
        if (idx as usize) < self.slots.len() {
            self.slots[idx as usize] = None;
            proof {
                pending::lemma_update(old(self)@.slots, old(self)@.dirty, idx, None);
            }
        }
    }

    /// Ends the handling of an event: arms what waits for it and sees to what was
    /// marked.
    pub fn settle(&mut self)
        requires
            old(self).wf(),
        ensures
            final(self).wf(),
            final(self)@ == old(self)@.schedule(Task::FlushDirty).schedule(Task::Rearm),
    {
        self.schedule(Task::FlushDirty);
        self.schedule(Task::Rearm);
    }

    /// Starts the last turn before the driver sleeps.
    pub fn pre_park(&mut self)
        requires
            old(self).wf(),
        ensures
            final(self).wf(),
            final(self)@ == old(self)@.parking(),
    {
        self.schedule(Task::FlushDirty);
        self.schedule(Task::Drain { watch: Watch::Age });
        self.schedule(Task::Drain { watch: Watch::Write });
        self.schedule(Task::Drain { watch: Watch::Silence });
        self.schedule(Task::FlushDirty);
        self.schedule(Task::Rearm);
    }

    /// When the listener is to be called again. `accept_rearm` and `recv_rearm` say
    /// whether the accept or a receive waits to be armed.
    pub fn idle(&self, accept_rearm: bool, hybrid_park: bool, recv_rearm: bool) -> (idle: Idle)
        ensures
            idle == if self@.dirty.len() > 0 || accept_rearm || (hybrid_park && recv_rearm) {
                Idle::Busy
            } else {
                Idle::Park(self@.first_deadline())
            },
    {
        if self.dirty.len() > 0 || accept_rearm || (hybrid_park && recv_rearm) {
            return Idle::Busy;
        }
        let deadline = earlier(
            earlier(self.silence.earliest(), self.write.earliest()),
            self.age.earliest(),
        );
        Idle::Park(deadline)
    }

    /// Stops accepting and closes all connections for good. `armed` says whether an
    /// accept is armed.
    pub fn shutdown(&mut self, armed: bool)
        requires
            old(self).wf(),
        ensures
            final(self).wf(),
            final(self)@ == old(self)@.shut_down(armed),
    {
        self.accept.stop_accept(armed);
        self.schedule(Task::Quiesce);
        let ghost base = self@;
        let mut from: usize = self.slots.len();
        assert(self@ == base.closing_from(from as int));
        while from > 0
            invariant
                from <= base.slots.len(),
                base.slots.len() <= SLOT_MASK,
                self.wf(),
                self@ == base.closing_from(from as int),
            decreases from,
        {
            from -= 1;
            self.schedule(Task::Close { idx: from as u32 });
        }
    }
}

/// A listener without connections.
pub open spec fn is_fresh<C>(
    view: ListenerView<C>,
    route: u8,
    reclaim: Reclaim,
    max_connections: usize,
    windows: Windows,
    per_ip_limit: u32,
) -> bool {
    &&& view.route == route
    &&& view.reclaim == reclaim
    &&& view.slots == Seq::new(max_connections as nat, |i: int| None::<State<C>>)
    &&& view.accept.accept_slot == max_connections
    &&& view.accept.per_ip_limit == per_ip_limit
    &&& match view.accept.counts {
        Some(counts) => {
            &&& per_ip_limit != 0
            &&& counts.counts == Map::<CounterKey, u32>::empty()
            &&& counts.room == max_connections
            &&& counts.len == 0
        },
        None => per_ip_limit == 0,
    }
    &&& !view.accept.canceling
    &&& view.silence == (IdleView {
        queue: Seq::empty(),
        window: windows.silence,
        cap: max_connections as nat,
    })
    &&& view.write == watch_set(windows.write, max_connections)
    &&& view.age == watch_set(windows.age, max_connections)
    &&& view.dirty.len() == 0
    &&& view.work.len() == 0
}

/// A set of deadlines for all slots, or for none if no window is given.
pub open spec fn watch_set(window: Option<Duration>, max_connections: usize) -> IdleView {
    match window {
        Some(window) => IdleView { queue: Seq::empty(), window, cap: max_connections as nat },
        None => IdleView { queue: Seq::empty(), window: 0, cap: 0 },
    }
}

/// A new listener has no connection and nothing to do, accepts, and counts nobody's
/// connections yet. It keeps deadlines for the windows that are given, for every slot,
/// and none for a window that is not.
pub proof fn law_new_listener_is_empty<C>(
    view: ListenerView<C>,
    route: u8,
    reclaim: Reclaim,
    max_connections: usize,
    windows: Windows,
    per_ip_limit: u32,
    idx: u32,
    now: Instant,
)
    requires
        is_fresh(view, route, reclaim, max_connections, windows, per_ip_limit),
    ensures
        view.slots.len() == max_connections,
        !view.has(idx),
        view.route == route,
        view.reclaim == reclaim,
        view.dirty.len() == 0,
        view.work.len() == 0,
        view.first_deadline() is None,
        !view.accept.canceling,
        view.accept.accept_slot == max_connections,
        view.accept.per_ip_limit == per_ip_limit,
        view.accept.counts is None <==> per_ip_limit == 0,
        view.silence.window == windows.silence,
        view.silence.cap == max_connections,
        windows.write is None ==> view.write.arm(idx, now) == view.write,
        windows.age is None ==> view.age.arm(idx, now) == view.age,
        windows.write matches Some(window) ==> view.write.window == window && view.write.cap
            == max_connections,
        windows.age matches Some(window) ==> view.age.window == window && view.age.cap
            == max_connections,
{
}

/// A connection is watched from the moment it is opened.
pub proof fn law_opened_is_watched<C>(
    view: ListenerView<C>,
    token: Token,
    conn: C,
    peer: Option<Peer>,
    now: Instant,
)
    requires
        view.wf(),
        token.slot < view.slots.len(),
        view.silence.cap == view.slots.len(),
    ensures
        view.opened(token, conn, peer, now).silence.armed(token.slot as usize),
        view.opened(token, conn, peer, now).target(token) == Some(token.slot),
{
    let after = view.opened(token, conn, peer, now).silence.queue;
    assert(after[after.len() - 1].0 == token.slot as usize);
}

} // verus!
