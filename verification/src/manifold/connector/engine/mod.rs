//! The state machine of a connector.
//!
//! Sockets, buffers and the application's callbacks belong to the driver. It asks
//! for the next task, carries it out and hands back what came of it; every
//! decision is taken here. Tasks form a stack: what a step calls for comes before
//! what was waiting.
use std::collections::VecDeque;
use std::marker::PhantomData;

use vstd::prelude::*;

pub mod close;
pub mod connect;
pub mod recv;
pub mod send;
pub mod source;

use crate::time::{Duration, Instant};
use crate::token::{Token, SLOT_MASK};
use super::source::{DialKey, Dialer};
use super::state::State;
use crate::manifold::{Idle, Reclaim, SetupError};
use crate::manifold::pending;
use crate::manifold::pending::{Mark, Pending};

verus! {

/// What the driver is to do next.
#[derive(Clone, Copy, PartialEq, Eq, Structural, Debug)]
pub enum Task {
    /// Ask the application which dials it has given up.
    Cancellations,
    /// Poll the dialer if there is reason to.
    PollSource,
    /// Poll the dialer, at most `left` times.
    Source { left: usize },
    /// Look for connections that have been silent for too long.
    Liveness,
    /// Set the next deadline for silent connections.
    Rearm { timeout: Duration },
    /// Write what is queued on a connection.
    Egress { idx: u32 },
    /// Ask the application what it wants done with a connection.
    Requests { idx: u32 },
    /// Shut down halves of a connection.
    Shutdown { idx: u32 },
    /// Give up what is still unsent on a connection.
    Abort { idx: u32 },
    /// Have a connection closed once it has nothing left to send.
    CloseAfter { idx: u32 },
    /// Close a connection if it is due.
    MaybeClose { idx: u32 },
    Close { idx: u32 },
    /// Go on closing a connection.
    DrainClose { idx: u32 },
    /// Never dial again what a connection was dialed for.
    Kill { idx: u32 },
    /// Tell the application that a socket could not be opened.
    OpenFailed { key: DialKey },
    /// Tell the application that a connection stands.
    Connected { idx: u32, key: DialKey },
    /// Tell the dialer that a connection stands.
    Established { key: DialKey },
    /// Tell the application that an attempt to connect has failed.
    ConnectFailed { key: DialKey },
    /// Tell the dialer that an attempt to connect has failed.
    Unsettle { key: DialKey },
    /// Give the application what was received.
    Chunk { idx: u32 },
    /// Have the queue of a connection give back what was sent.
    Ack { idx: u32, sent: usize },
    /// Tell the application that bytes were sent.
    Sent { idx: u32, sent: usize },
    /// Tell the application that a connection is closed.
    Closed { idx: u32 },
    /// Tell the dialer that a connection is gone, and whether it is to be dialed
    /// never again.
    Dismiss { key: DialKey, permanent: bool },
    /// See to all connections that are marked now.
    FlushDirty,
    /// See to `left` more marked connections.
    Flush { left: usize },
    /// Cancel what is still in flight for good.
    Quiesce,
}

pub struct Core<A, C, D, S> {
    pub(super) route: u8,
    pub(super) reclaim: Reclaim,
    pub(super) slots: Vec<Option<State<D>>>,
    pub(super) upstreams: S,
    pub(super) dirty: VecDeque<u32>,
    pub(super) work: Vec<Task>,
    pub(super) backoff: Option<Instant>,
    pub(super) liveness: Option<Instant>,
    pub(super) draining: bool,
    pub(super) targets: PhantomData<(A, C)>,
}

/// The abstract value of a [`Core`], but for its dialer.
pub struct CoreView<D> {
    pub route: u8,
    pub reclaim: Reclaim,
    /// The connections, by slot.
    pub slots: Seq<Option<State<D>>>,
    /// Slots whose connection is marked, in the order in which they are seen to.
    pub dirty: Seq<u32>,
    /// What is to be done, the next task last.
    pub work: Seq<Task>,
    /// When failed dials are to be tried again.
    pub backoff: Option<Instant>,
    /// When silent connections are to be looked for.
    pub liveness: Option<Instant>,
    /// No more connections are made.
    pub draining: bool,
}

impl<D> CoreView<D> {
    pub open spec fn has(self, idx: u32) -> bool {
        idx < self.slots.len() && self.slots[idx as int] is Some
    }

    pub open spec fn at(self, idx: u32) -> State<D> {
        self.slots[idx as int]->0
    }

    /// Every marked connection waits to be seen to.
    pub open spec fn wf(self) -> bool {
        &&& 0 < self.slots.len() <= SLOT_MASK
        &&& pending::all_queued(self.slots, self.dirty)
    }

    pub open spec fn with(self, idx: u32, state: State<D>) -> Self {
        CoreView { slots: self.slots.update(idx as int, Some(state)), ..self }
    }

    /// Marks a connection and queues its slot, unless it is queued already.
    pub open spec fn mark(self, idx: u32, mark: Mark) -> Self {
        if self.has(idx) {
            let state = self.at(idx);
            let marked = self.with(
                idx,
                State { pending: state.pending.marked(mark), ..state },
            );
            if state.pending.spec_any() {
                marked
            } else {
                CoreView { dirty: self.dirty.push(idx), ..marked }
            }
        } else {
            self
        }
    }

    pub open spec fn schedule(self, task: Task) -> Self {
        CoreView { work: self.work.push(task), ..self }
    }

    /// The slot that a connection's token names, while it is that connection's.
    pub open spec fn target(self, conn_id: Token) -> Option<u32> {
        if self.has(conn_id.slot) && self.at(conn_id.slot).token.spec_same_target(conn_id) {
            Some(conn_id.slot)
        } else {
            None
        }
    }
}

/// A connector without connections.
pub open spec fn fresh<D>(route: u8, reclaim: Reclaim, max_connections: usize) -> CoreView<D> {
    CoreView {
        route,
        reclaim,
        slots: Seq::new(max_connections as nat, |i: int| None::<State<D>>),
        dirty: Seq::empty(),
        work: Seq::empty(),
        backoff: None,
        liveness: None,
        draining: false,
    }
}

impl<D> CoreView<D> {
    pub open spec fn mark_target(self, conn_id: Token, mark: Mark) -> Self {
        match self.target(conn_id) {
            Some(idx) => self.mark(idx, mark),
            None => self,
        }
    }

    pub open spec fn shutdown_conn(self, conn_id: Token, how: i32) -> Self {
        match self.target(conn_id) {
            Some(idx) => self.set_shutdown(idx, how).mark(idx, Mark::Shutdown),
            None => self,
        }
    }

    pub open spec fn set_shutdown(self, idx: u32, how: i32) -> Self {
        let state = self.at(idx);
        self.with(
            idx,
            State { pending: Pending { how, ..state.pending }, ..state },
        )
    }

    /// `idx` is the first slot with a connection that was dialed under `key`.
    pub open spec fn dialed_at(self, key: DialKey, idx: int) -> bool {
        &&& 0 <= idx < self.slots.len()
        &&& self.dialed_for(key, idx)
        &&& forall|i: int| 0 <= i < idx ==> !#[trigger] self.dialed_for(key, i)
    }

    pub open spec fn dialed_for(self, key: DialKey, idx: int) -> bool {
        self.slots[idx] matches Some(state) && state.dial == key
    }

    /// The connection in a slot is gone.
    pub open spec fn released(self, idx: u32) -> Self {
        if idx < self.slots.len() {
            CoreView { slots: self.slots.update(idx as int, None), ..self }
        } else {
            self
        }
    }

    /// What a turn of the connector is made of.
    pub open spec fn roused(self) -> Self {
        self.schedule(Task::FlushDirty).schedule(Task::Liveness).schedule(Task::PollSource).schedule(
            Task::Cancellations,
        )
    }

    /// All slots from `from` on are to be closed, lowest first.
    pub open spec fn closing_from(self, from: int) -> Self
        decreases self.slots.len() - from,
    {
        if 0 <= from < self.slots.len() {
            self.closing_from(from + 1).schedule(Task::Close { idx: from as u32 })
        } else {
            self
        }
    }

    pub open spec fn shut_down(self) -> Self {
        (CoreView { draining: true, backoff: None, liveness: None, ..self }).schedule(
            Task::Quiesce,
        ).schedule(Task::FlushDirty).closing_from(0)
    }
}

pub(super) proof fn lemma_with_wf<D>(view: CoreView<D>, idx: u32, state: State<D>)
    requires
        view.wf(),
        view.has(idx),
        state.pending.spec_any() ==> view.at(idx).pending.spec_any(),
    ensures
        view.with(idx, state).wf(),
{
    pending::lemma_update(view.slots, view.dirty, idx, Some(state));
}

pub(super) proof fn lemma_mark_wf<D>(view: CoreView<D>, idx: u32, mark: Mark)
    requires
        view.wf(),
    ensures
        view.mark(idx, mark).wf(),
{
    if view.has(idx) {
        let state = view.at(idx);
        let marked = State { pending: state.pending.marked(mark), ..state };
        if state.pending.spec_any() {
            pending::lemma_update(view.slots, view.dirty, idx, Some(marked));
        } else {
            pending::lemma_queue(view.slots, view.dirty, idx, Some(marked));
        }
    }
}

proof fn lemma_closing<D>(view: CoreView<D>, from: int)
    ensures
        view.closing_from(from) == (CoreView { work: view.closing_from(from).work, ..view }),
    decreases view.slots.len() - from,
{
    if 0 <= from < view.slots.len() {
        lemma_closing(view, from + 1);
    }
}

/// A marked connection is in the queue, and marking it again does not queue it
/// again.
pub proof fn law_marked_is_queued_once<D>(view: CoreView<D>, idx: u32, first: Mark, second: Mark)
    requires
        view.wf(),
        view.has(idx),
    ensures
        view.mark(idx, first).dirty.contains(idx),
        view.mark(idx, first).mark(idx, second).dirty == view.mark(idx, first).dirty,
{
    let once = view.mark(idx, first);
    lemma_mark_wf(view, idx, first);
    assert(pending::is_marked(once.slots, idx));
}

/// A token stops naming a slot as soon as the slot holds no connection or that of
/// another token.
pub proof fn law_token_names_one_connection<D>(view: CoreView<D>, conn_id: Token)
    requires
        view.wf(),
    ensures
        view.released(conn_id.slot).target(conn_id) is None,
        view.target(conn_id) matches Some(idx) ==> view.at(idx).token.spec_same_target(conn_id),
{
}

/// Of two states of a connector at most slot `idx`, the marked slots and the work
/// differ.
pub open spec fn same_elsewhere<D>(before: CoreView<D>, after: CoreView<D>, idx: u32) -> bool {
    &&& after.route == before.route
    &&& after.reclaim == before.reclaim
    &&& after.backoff == before.backoff
    &&& after.liveness == before.liveness
    &&& after.draining == before.draining
    &&& after.slots.len() == before.slots.len()
    &&& forall|j: int|
        0 <= j < before.slots.len() && j != idx ==> #[trigger] after.slots[j] == before.slots[j]
}

/// Two states of a connection are the same but for its marks.
pub open spec fn same_but_marks<D>(before: State<D>, after: State<D>) -> bool {
    &&& after.conn == before.conn
    &&& after.token == before.token
    &&& after.lane == before.lane
    &&& after.dial == before.dial
    &&& after.establish == before.establish
    &&& after.retired == before.retired
    &&& after.last_recv == before.last_recv
    &&& after.close_permanent == before.close_permanent
}

/// Marking a connection sets that mark and no other, changes nothing else about any
/// connection, and queues the slot exactly if it had no mark.
pub proof fn law_mark_sets_one_mark<D>(view: CoreView<D>, idx: u32, mark: Mark)
    ensures
        ({
            let after = view.mark(idx, mark);
            if idx < view.slots.len() && view.slots[idx as int] is Some {
                let before = view.slots[idx as int]->0;
                let now = after.slots[idx as int]->0;
                &&& after.slots[idx as int] is Some
                &&& now.pending.egress == (before.pending.egress || mark is Egress)
                &&& now.pending.shutdown == (before.pending.shutdown || mark is Shutdown)
                &&& now.pending.close == (before.pending.close || mark is Close)
                &&& now.pending.how == before.pending.how
                &&& same_but_marks(before, now)
                &&& same_elsewhere(view, after, idx)
                &&& after.work == view.work
                &&& after.dirty == if before.pending.egress || before.pending.shutdown
                    || before.pending.close {
                    view.dirty
                } else {
                    view.dirty.push(idx)
                }
            } else {
                after == view
            }
        }),
{
}

/// What is asked of a connection by its token is marked on the connection that the
/// token names, and on none if the slot is empty or has gone on to another epoch.
pub proof fn law_tokens_reach_their_connection<D>(
    view: CoreView<D>,
    conn_id: Token,
    mark: Mark,
    how: i32,
)
    ensures
        ({
            let slot = view.slots[conn_id.slot as int];
            let named = conn_id.slot < view.slots.len() && slot is Some && slot->0.token.route
                == conn_id.route && slot->0.token.slot == conn_id.slot && slot->0.token.epoch
                == conn_id.epoch;
            let shut = view.shutdown_conn(conn_id, how);
            &&& view.target(conn_id) == if named {
                Some(conn_id.slot)
            } else {
                None
            }
            &&& if named {
                let now = shut.slots[conn_id.slot as int]->0;
                &&& view.mark_target(conn_id, mark) == view.mark(conn_id.slot, mark)
                &&& shut.slots[conn_id.slot as int] is Some
                &&& now.pending.shutdown
                &&& now.pending.how == how
                &&& now.pending.egress == slot->0.pending.egress
                &&& now.pending.close == slot->0.pending.close
                &&& same_but_marks(slot->0, now)
                &&& same_elsewhere(view, shut, conn_id.slot)
                &&& shut.work == view.work
                &&& shut.dirty == if slot->0.pending.egress || slot->0.pending.shutdown
                    || slot->0.pending.close {
                    view.dirty
                } else {
                    view.dirty.push(conn_id.slot)
                }
            } else {
                view.mark_target(conn_id, mark) == view && shut == view
            }
        }),
{
}

/// A turn first takes up what was given up, then dials, then looks for silent
/// connections, and last sees to what is marked. Nothing else changes.
pub proof fn law_turn_in_order<D>(view: CoreView<D>)
    ensures
        view.roused().work == view.work + seq![
            Task::FlushDirty,
            Task::Liveness,
            Task::PollSource,
            Task::Cancellations,
        ],
        (CoreView { work: view.work, ..view.roused() }) == view,
{
    assert(view.roused().work =~= view.work + seq![
        Task::FlushDirty,
        Task::Liveness,
        Task::PollSource,
        Task::Cancellations,
    ]);
}

proof fn lemma_closing_work<D>(view: CoreView<D>, from: int)
    requires
        0 <= from <= view.slots.len() <= u32::MAX,
    ensures
        view.closing_from(from).work == view.work + Seq::new(
            (view.slots.len() - from) as nat,
            |k: int| Task::Close { idx: (view.slots.len() - 1 - k) as u32 },
        ),
    decreases view.slots.len() - from,
{
    let tasks = Seq::new(
        (view.slots.len() - from) as nat,
        |k: int| Task::Close { idx: (view.slots.len() - 1 - k) as u32 },
    );
    if from < view.slots.len() {
        lemma_closing_work(view, from + 1);
    }
    assert(view.closing_from(from).work =~= view.work + tasks);
}

/// A shutdown closes every slot, the lowest first, then sees to what that has marked,
/// and cancels what is left only after that. Nothing is dialed or waited for any more.
pub proof fn law_shutdown_closes_all<D>(view: CoreView<D>)
    requires
        view.slots.len() <= u32::MAX,
    ensures
        ({
            let after = view.shut_down();
            &&& after.draining
            &&& after.backoff is None
            &&& after.liveness is None
            &&& after.slots == view.slots
            &&& after.dirty == view.dirty
            &&& after.work == view.work + seq![Task::Quiesce, Task::FlushDirty] + Seq::new(
                view.slots.len(),
                |k: int| Task::Close { idx: (view.slots.len() - 1 - k) as u32 },
            )
        }),
{
    let base = (CoreView { draining: true, backoff: None, liveness: None, ..view }).schedule(
        Task::Quiesce,
    ).schedule(Task::FlushDirty);
    lemma_closing(base, 0);
    lemma_closing_work(base, 0);
    assert(base.work =~= view.work + seq![Task::Quiesce, Task::FlushDirty]);
    let all = Seq::new(
        view.slots.len(),
        |k: int| Task::Close { idx: (view.slots.len() - 1 - k) as u32 },
    );
    assert(all =~= Seq::new(
        (base.slots.len() - 0) as nat,
        |k: int| Task::Close { idx: (base.slots.len() - 1 - k) as u32 },
    ));
}

/// Letting go of a connection empties its slot and no other, and a dial is found in the
/// lowest slot whose connection was made for it.
pub proof fn law_release_empties_one_slot<D>(view: CoreView<D>, idx: u32, key: DialKey, at: int)
    ensures
        idx < view.slots.len() ==> view.released(idx).slots[idx as int] is None,
        same_elsewhere(view, view.released(idx), idx),
        view.released(idx).work == view.work,
        view.released(idx).dirty == view.dirty,
        view.dialed_at(key, at) <==> {
            &&& 0 <= at < view.slots.len()
            &&& view.slots[at] is Some
            &&& view.slots[at]->0.dial == key
            &&& forall|i: int|
                0 <= i < at && (#[trigger] view.slots[i]) is Some ==> view.slots[i]->0.dial != key
        },
{
    if view.dialed_at(key, at) {
        assert forall|i: int| 0 <= i < at && (#[trigger] view.slots[i]) is Some implies view.slots[i]->0.dial
            != key by {
            assert(!view.dialed_for(key, i));
        }
    }
}

/// A new connector has no connection, nothing to do, no deadline, and is not being
/// shut down.
pub proof fn law_new_connector_is_empty<D>(
    route: u8,
    reclaim: Reclaim,
    max_connections: usize,
    idx: u32,
)
    ensures
        ({
            let view = fresh::<D>(route, reclaim, max_connections);
            &&& view.slots.len() == max_connections
            &&& !view.has(idx)
            &&& view.route == route
            &&& view.reclaim == reclaim
            &&& view.dirty.len() == 0
            &&& view.work.len() == 0
            &&& view.backoff is None
            &&& view.liveness is None
            &&& !view.draining
        }),
{
}

impl<A, C, D, S: Dialer<A, C>> View for Core<A, C, D, S> {
    type V = CoreView<D>;

    closed spec fn view(&self) -> CoreView<D> {
        CoreView {
            route: self.route,
            reclaim: self.reclaim,
            slots: self.slots@,
            dirty: self.dirty@,
            work: self.work@,
            backoff: self.backoff,
            liveness: self.liveness,
            draining: self.draining,
        }
    }
}

impl<A, C, D, S: Dialer<A, C>> Core<A, C, D, S> {
    pub closed spec fn dialer(self) -> S {
        self.upstreams
    }

    pub open spec fn wf(self) -> bool {
        self@.wf() && self.dialer().wf()
    }

    fn slot_mut(&mut self, idx: u32) -> (state: Option<&mut State<D>>)
        ensures
            match state {
                Some(state) => {
                    &&& old(self)@.has(idx)
                    &&& *state == old(self)@.at(idx)
                    &&& final(self)@ == old(self)@.with(idx, *final(state))
                    &&& final(self).dialer() == old(self).dialer()
                },
                None => !old(self)@.has(idx) && *final(self) == *old(self),
            },
    {
        if idx as usize >= self.slots.len() || self.slots[idx as usize].is_none() {
            return None;
        }
        match &mut self.slots[idx as usize] {
            Some(state) => Some(state),
            None => None,
        }
    }

    pub(super) fn mark(&mut self, idx: u32, mark: Mark)
        ensures
            final(self)@ == old(self)@.mark(idx, mark),
            final(self).dialer() == old(self).dialer(),
    {
        let first = match self.slot_mut(idx) {
            Some(state) => state.pending.mark(mark),
            None => {
                return ;
            },
        };
        if first {
            self.dirty.push_back(idx);
        }
    }

    pub(super) fn schedule(&mut self, task: Task)
        ensures
            final(self)@ == old(self)@.schedule(task),
            final(self).dialer() == old(self).dialer(),
    {
        self.work.push(task);
    }

    /// A connector for up to `max_connections` connections. `retention` is what the
    /// application says of how much it retains, and `storage_fits` whether the
    /// storage for outgoing bytes was made for the configuration in use.
    pub fn with_app_configs<X>(
        route: u8,
        reclaim: Reclaim,
        upstreams: S,
        max_connections: usize,
        retention: Result<usize, X>,
        storage_fits: bool,
    ) -> (core: Result<Self, SetupError<X>>)
        requires
            upstreams.wf(),
        ensures
            match core {
                Ok(core) => {
                    &&& 0 < max_connections <= SLOT_MASK
                    &&& retention is Ok
                    &&& storage_fits
                    &&& core.wf()
                    &&& core@ == fresh::<D>(route, reclaim, max_connections)
                    &&& upstreams.resizes(max_connections, core.dialer())
                },
                Err(SetupError::Capacity) => !(0 < max_connections <= SLOT_MASK),
                Err(SetupError::Retention(x)) => {
                    &&& 0 < max_connections <= SLOT_MASK
                    &&& retention == Err::<usize, X>(x)
                },
                Err(SetupError::Storage) => {
                    &&& 0 < max_connections <= SLOT_MASK
                    &&& retention is Ok
                    &&& !storage_fits
                },
            },
    {
        let mut upstreams = upstreams;
        if max_connections == 0 || max_connections > SLOT_MASK as usize {
            return Err(SetupError::Capacity);
        }
        match retention {
            Ok(_) => {},
            Err(x) => {
                return Err(SetupError::Retention(x));
            },
        }
        upstreams.resize(max_connections);
        if !storage_fits {
            return Err(SetupError::Storage);
        }
        let mut slots: Vec<Option<State<D>>> = Vec::new();
        let mut i: usize = 0;
        while i < max_connections
            invariant
                i <= max_connections,
                slots@ == Seq::new(i as nat, |i: int| None::<State<D>>),
            decreases max_connections - i,
        {
            slots.push(None);
            i += 1;
            assert(slots@ =~= Seq::new(i as nat, |i: int| None::<State<D>>));
        }
        Ok(
            Core {
                route,
                reclaim,
                slots,
                upstreams,
                dirty: VecDeque::new(),
                work: Vec::new(),
                backoff: None,
                liveness: None,
                draining: false,
                targets: PhantomData,
            },
        )
    }

    /// The token under which the connector itself is woken: that of the slot after
    /// the last.
    pub fn backoff_key(&self) -> (token: Token)
        requires
            self.wf(),
        ensures
            token == (Token {
                route: self@.route,
                kind: 0,
                slot: self@.slots.len() as u32,
                epoch: 0,
            }),
    {
        Token { route: self.route, kind: 0, slot: self.slots.len() as u32, epoch: 0 }
    }

    /// Takes the next task off the stack.
    pub fn next(&mut self) -> (task: Option<Task>)
        requires
            old(self).wf(),
        ensures
            final(self).wf(),
            final(self).dialer() == old(self).dialer(),
            match task {
                Some(task) => {
                    &&& old(self)@.work.len() > 0
                    &&& task == old(self)@.work.last()
                    &&& final(self)@ == (CoreView { work: old(self)@.work.drop_last(), ..old(self)@ })
                },
                None => old(self)@.work.len() == 0 && final(self)@ == old(self)@,
            },
    {
        self.work.pop()
    }

    /// Asks for a connection to `addr`. The connector is to be woken if there is
    /// room for it.
    pub fn dial(&mut self, addr: A, config: C) -> (key: Option<DialKey>)
        requires
            old(self).wf(),
        ensures
            final(self).wf(),
            final(self)@ == old(self)@,
            old(self).dialer().dials(addr, config, key, final(self).dialer()),
    {
        self.upstreams.dial(addr, config)
    }

    /// Has everything dialed again that has failed. The connector is to be woken.
    pub fn revive_upstreams(&mut self)
        requires
            old(self).wf(),
        ensures
            final(self).wf(),
            final(self)@ == old(self)@,
            old(self).dialer().revives(final(self).dialer()),
    {
        self.upstreams.revive();
    }

    fn by_target(&self, conn_id: Token) -> (idx: Option<u32>)
        ensures
            idx == self@.target(conn_id),
    {
        if (conn_id.slot as usize) < self.slots.len() {
            if let Some(state) = &self.slots[conn_id.slot as usize] {
                if state.token.same_target(conn_id) {
                    return Some(conn_id.slot);
                }
            }
        }
        None
    }

    /// Has what is queued on a connection written.
    pub fn flush(&mut self, conn_id: Token)
        requires
            old(self).wf(),
        ensures
            final(self).wf(),
            final(self)@ == old(self)@.mark_target(conn_id, Mark::Egress),
            final(self).dialer() == old(self).dialer(),
    {
        if let Some(idx) = self.by_target(conn_id) {
            self.mark(idx, Mark::Egress);
            proof {
                lemma_mark_wf(old(self)@, idx, Mark::Egress);
            }
        }
    }

    /// Has a connection closed.
    pub fn close(&mut self, conn_id: Token)
        requires
            old(self).wf(),
        ensures
            final(self).wf(),
            final(self)@ == old(self)@.mark_target(conn_id, Mark::Close),
            final(self).dialer() == old(self).dialer(),
    {
        if let Some(idx) = self.by_target(conn_id) {
            self.mark(idx, Mark::Close);
            proof {
                lemma_mark_wf(old(self)@, idx, Mark::Close);
            }
        }
    }

    /// Has a connection closed and tells the dialer right away.
    pub fn request_close(&mut self, conn_id: Token, now: Instant)
        requires
            old(self).wf(),
        ensures
            final(self).wf(),
            final(self)@ == old(self)@.mark_target(conn_id, Mark::Close),
            match old(self)@.target(conn_id) {
                Some(idx) => old(self).dialer().drops(
                    old(self)@.at(idx).dial,
                    now,
                    final(self).dialer(),
                ),
                None => final(self).dialer() == old(self).dialer(),
            },
    {
        if let Some(idx) = self.by_target(conn_id) {
            self.mark(idx, Mark::Close);
            proof {
                lemma_mark_wf(old(self)@, idx, Mark::Close);
            }
            if let Some(state) = &self.slots[idx as usize] {
                self.upstreams.disconnect(state.dial, now);
            }
        }
    }

    /// Has halves of a connection shut down.
    pub fn shutdown_conn(&mut self, conn_id: Token, how: i32)
        requires
            old(self).wf(),
        ensures
            final(self).wf(),
            final(self)@ == old(self)@.shutdown_conn(conn_id, how),
            final(self).dialer() == old(self).dialer(),
    {
        if let Some(idx) = self.by_target(conn_id) {
            self.set_shutdown(idx, how);
            self.mark(idx, Mark::Shutdown);
            proof {
                let state = old(self)@.set_shutdown(idx, how).at(idx);
                lemma_with_wf(old(self)@, idx, state);
                lemma_mark_wf(old(self)@.set_shutdown(idx, how), idx, Mark::Shutdown);
            }
        }
    }

    pub(super) fn set_shutdown(&mut self, idx: u32, how: i32)
        requires
            old(self)@.has(idx),
        ensures
            final(self)@ == old(self)@.set_shutdown(idx, how),
            final(self).dialer() == old(self).dialer(),
    {
        if let Some(state) = self.slot_mut(idx) {
            state.pending.set_shutdown(how);
        }
    }

    /// Gives up what was dialed under `key` and has its connection closed.
    pub fn cancel_dial(&mut self, key: DialKey)
        requires
            old(self).wf(),
        ensures
            final(self).wf(),
            old(self).dialer().kills(key, final(self).dialer()),
            ({
                ||| final(self)@ == old(self)@ && forall|i: int|
                    0 <= i < old(self)@.slots.len() ==> !#[trigger] old(self)@.dialed_for(key, i)
                ||| exists|i: int| #[trigger]
                    old(self)@.dialed_at(key, i) && final(self)@ == old(self)@.mark(
                        i as u32,
                        Mark::Close,
                    )
            }),
    {
        self.upstreams.kill(key);
        let n = self.slots.len();
        let mut i: usize = 0;
        while i < n
            invariant
                i <= n,
                n == self.slots@.len(),
                n <= SLOT_MASK,
                self@ == old(self)@,
                self@.wf(),
                self.dialer().wf(),
                old(self).dialer().kills(key, self.dialer()),
                forall|j: int| 0 <= j < i ==> !#[trigger] old(self)@.dialed_for(key, j),
            decreases n - i,
        {
            let found = match &self.slots[i] {
                Some(state) => state.dial == key,
                None => false,
            };
            if found {
                assert(old(self)@.dialed_at(key, i as int));
                self.mark(i as u32, Mark::Close);
                proof {
                    lemma_mark_wf(old(self)@, i as u32, Mark::Close);
                }
                return ;
            }
            assert(!old(self)@.dialed_for(key, i as int));
            i += 1;
        }
    }

    pub fn state(&self, conn_id: Token) -> (state: Option<&State<D>>)
        ensures
            match state {
                Some(state) => {
                    &&& self@.target(conn_id) matches Some(idx)
                    &&& *state == self@.at(idx)
                },
                None => self@.target(conn_id) is None,
            },
    {
        match self.by_target(conn_id) {
            Some(idx) => self.slots[idx as usize].as_ref(),
            None => None,
        }
    }

    /// What is kept of a connection, to be changed; its marks and its token are not.
    pub fn state_for(&mut self, conn_id: Token) -> (conn: Option<&mut D>)
        requires
            old(self).wf(),
        ensures
            final(self).wf(),
            final(self).dialer() == old(self).dialer(),
            match conn {
                Some(conn) => {
                    &&& old(self)@.target(conn_id) matches Some(idx)
                    &&& *conn == old(self)@.at(idx).conn
                    &&& final(self)@ == old(self)@.with(
                        idx,
                        State { conn: *final(conn), ..old(self)@.at(idx) },
                    )
                },
                None => old(self)@.target(conn_id) is None && final(self)@ == old(self)@,
            },
    {
        match self.by_target(conn_id) {
            Some(idx) => {
                proof {
                    let view = self@;
                    assert forall|state: State<D>|
                        state.pending == view.at(idx).pending implies (#[trigger] view.with(
                        idx,
                        state,
                    )).wf() by {
                        lemma_with_wf(view, idx, state);
                    }
                }
                match self.slot_mut(idx) {
                    Some(state) => Some(&mut state.conn),
                    None => None,
                }
            },
            None => None,
        }
    }

    /// The connection in a slot is gone.
    pub fn release(&mut self, idx: u32)
        requires
            old(self).wf(),
        ensures
            final(self).wf(),
            final(self)@ == old(self)@.released(idx),
            final(self).dialer() == old(self).dialer(),
    {
        if (idx as usize) < self.slots.len() {
            self.slots[idx as usize] = None;
            proof {
                pending::lemma_update(old(self)@.slots, old(self)@.dirty, idx, None);
            }
        }
    }

    /// Starts a turn of the connector.
    pub fn rouse(&mut self)
        requires
            old(self).wf(),
        ensures
            final(self).wf(),
            final(self)@ == old(self)@.roused(),
            final(self).dialer() == old(self).dialer(),
    {
        self.schedule(Task::FlushDirty);
        self.schedule(Task::Liveness);
        self.schedule(Task::PollSource);
        self.schedule(Task::Cancellations);
    }

    /// The connector was woken for `target`: sees to what the application wants of
    /// that connection, then to everything else.
    pub fn activate(&mut self, target: Token)
        requires
            old(self).wf(),
        ensures
            final(self).wf(),
            final(self)@ == match old(self)@.target(target) {
                Some(idx) => old(self)@.roused().schedule(Task::Requests { idx }),
                None => old(self)@.roused(),
            },
            final(self).dialer() == old(self).dialer(),
    {
        self.rouse();
        if let Some(idx) = self.by_target(target) {
            self.schedule(Task::Requests { idx });
        }
    }

    /// Ends the handling of an event: sees to what it has marked.
    pub fn settle(&mut self)
        requires
            old(self).wf(),
        ensures
            final(self).wf(),
            final(self)@ == old(self)@.schedule(Task::FlushDirty),
            final(self).dialer() == old(self).dialer(),
    {
        self.schedule(Task::FlushDirty);
    }

    /// When the connector is to be called again. `rearm` says whether receives
    /// wait to be armed, and `app` what the application asks for.
    pub fn idle(&self, hybrid_park: bool, rearm: bool, app: Idle) -> (idle: Idle)
        ensures
            idle == if self@.dirty.len() > 0 || (hybrid_park && rearm) {
                Idle::Busy
            } else {
                app
            },
    {
        if self.dirty.len() > 0 || (hybrid_park && rearm) {
            return Idle::Busy;
        }
        app
    }

    /// Closes all connections for good.
    pub fn shutdown_all(&mut self)
        requires
            old(self).wf(),
        ensures
            final(self).wf(),
            final(self)@ == old(self)@.shut_down(),
            final(self).dialer() == old(self).dialer(),
    {
        self.draining = true;
        self.backoff = None;
        self.liveness = None;
        self.schedule(Task::Quiesce);
        self.schedule(Task::FlushDirty);
        let ghost base = self@;
        let mut from: usize = self.slots.len();
        while from > 0
            invariant
                from <= base.slots.len(),
                base.slots.len() <= SLOT_MASK,
                self@ == base.closing_from(from as int),
                self.dialer() == old(self).dialer(),
            decreases from,
        {
            from -= 1;
            self.schedule(Task::Close { idx: from as u32 });
        }
        proof {
            lemma_closing(base, 0);
        }
    }
}

} // verus!
