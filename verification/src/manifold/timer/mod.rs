//! Deadline timers.
//!
//! [`Timer`] has a fixed number of slots. Arming and canceling only note what
//! is to happen; the heap of deadlines is brought up to date when the timer is
//! flushed, once in each turn of the driver. [`growing::Timer`] creates its
//! slots on demand and keeps its heap up to date at every step.
use vstd::prelude::*;

pub mod growing;
pub mod starved;

use crate::collections::heap;
use crate::collections::heap::DeadlineHeap;
use crate::collections::seqs;
use crate::manifold::Idle;
use crate::park::WakeRef;
use crate::time::{earlier, Instant};
use self::starved::{Starved, StarvedQueue, StarvedWaiter};

verus! {

const NIL: u32 = 0xffff_ffff;

/// Names one arming of one slot: it goes stale when the slot is released.
#[derive(Clone, Copy, PartialEq, Eq, Structural, Debug)]
pub struct Ticket {
    pub slot: u32,
    pub epoch: u32,
}

#[derive(Clone, Copy, PartialEq, Eq, Structural)]
enum State {
    Free,
    Armed,
    Fired,
    Canceled,
    Retired,
}

#[derive(Clone, Copy)]
struct Slot {
    epoch: u32,
    state: State,
    wake: Option<WakeRef>,
    deadline: Instant,
    next: u32,
}

/// A timer with a fixed number of slots.
///
/// The free slots, the slots armed since the last flush and the slots to be
/// taken off the heap each form a list that runs through the slots themselves.
pub struct Timer<const ID: u8> {
    slots: Vec<Slot>,
    free: u32,
    pending_arm: u32,
    pending_cancel: u32,
    starved: StarvedQueue,
    heap: DeadlineHeap,
    free_list: Ghost<Seq<u32>>,
    arm_list: Ghost<Seq<u32>>,
    cancel_list: Ghost<Seq<u32>>,
}

/// What a slot is doing.
pub enum SlotState {
    Free,
    Armed { deadline: Instant, wake: WakeRef },
    Fired,
    /// Canceled, to be released by the next flush.
    Canceled { deadline: Instant },
    /// Out of epochs: never to be armed again.
    Retired,
}

/// The abstract value of a [`Timer`].
pub struct TimerView {
    pub epochs: Seq<u32>,
    pub states: Seq<SlotState>,
    /// Free slots, the next one to be armed first.
    pub free: Seq<u32>,
    /// Slots armed since the last flush, the latest first.
    pub arming: Seq<u32>,
    /// Canceled slots that still stand in the heap, the latest first.
    pub canceling: Seq<u32>,
    /// Waiters for a free slot, in the order in which they are served.
    pub starved: Seq<Starved>,
}

impl TimerView {
    pub open spec fn has(self, s: u32) -> bool {
        s < self.states.len()
    }

    /// Each free slot is in the free list once; each canceled slot is in one of
    /// the two lists that the next flush goes through; armed slots may be in the
    /// first of these.
    pub open spec fn wf(self) -> bool {
        self.wf_but(-1)
    }

    /// Well-formed, but slot `hole` may be canceled and in neither list.
    pub open spec fn wf_but(self, hole: int) -> bool {
        &&& self.epochs.len() == self.states.len() <= u32::MAX
        &&& self.free.no_duplicates()
        &&& self.arming.no_duplicates()
        &&& self.canceling.no_duplicates()
        &&& starved::in_service_order(self.starved)
        &&& forall|s: u32|
            #![trigger self.states[s as int]]
            #![trigger self.free.contains(s)]
            self.free.contains(s) <==> self.has(s) && self.states[s as int] is Free
        &&& forall|s: u32|
            #![trigger self.arming.contains(s)]
            self.arming.contains(s) ==> self.has(s) && (self.states[s as int] is Armed
                || self.states[s as int] is Canceled)
        &&& forall|s: u32|
            #![trigger self.canceling.contains(s)]
            self.canceling.contains(s) ==> self.has(s) && self.states[s as int] is Canceled
        &&& forall|s: u32|
            #![trigger self.states[s as int]]
            self.has(s) && s != hole && self.states[s as int] is Canceled ==> (
            self.arming.contains(s) <==> !self.canceling.contains(s))
    }

    pub open spec fn current(self, ticket: Ticket) -> bool {
        self.has(ticket.slot) && self.epochs[ticket.slot as int] == ticket.epoch
    }

    pub open spec fn fired(self, ticket: Ticket) -> bool {
        self.current(ticket) && self.states[ticket.slot as int] is Fired
    }

    pub open spec fn armed(self, s: u32) -> bool {
        self.has(s) && self.states[s as int] is Armed
    }

    pub open spec fn deadline(self, s: u32) -> Instant {
        match self.states[s as int] {
            SlotState::Armed { deadline, .. } => deadline,
            SlotState::Canceled { deadline } => deadline,
            _ => 0,
        }
    }

    /// The slot is armed, or canceled but still in the heap.
    pub open spec fn ticking(self, s: u32) -> bool {
        self.armed(s) || self.canceling.contains(s)
    }

    pub open spec fn due(self, s: u32, now: Instant) -> bool {
        self.armed(s) && self.deadline(s) <= now
    }

    /// The ticket that arming would hand out now.
    pub open spec fn next_ticket(self) -> Option<Ticket> {
        if self.free.len() > 0 {
            Some(Ticket { slot: self.free[0], epoch: self.epochs[self.free[0] as int] })
        } else {
            None
        }
    }

    /// The timer after the next free slot, if there is one, has been armed.
    pub open spec fn arm(self, deadline: Instant, wake: WakeRef) -> TimerView {
        if self.free.len() > 0 {
            TimerView {
                states: self.states.update(
                    self.free[0] as int,
                    SlotState::Armed { deadline, wake },
                ),
                free: self.free.skip(1),
                arming: seq![self.free[0]] + self.arming,
                ..self
            }
        } else {
            self
        }
    }

    /// The timer after a slot has been released: free under its next epoch, with
    /// the waiter that is served first let go, or retired if no epoch is left.
    pub open spec fn release(self, s: u32) -> TimerView {
        if self.epochs[s as int] == u32::MAX {
            TimerView { states: self.states.update(s as int, SlotState::Retired), ..self }
        } else {
            TimerView {
                epochs: self.epochs.update(s as int, (self.epochs[s as int] + 1) as u32),
                states: self.states.update(s as int, SlotState::Free),
                free: seq![s] + self.free,
                starved: if self.starved.len() > 0 {
                    self.starved.skip(1)
                } else {
                    self.starved
                },
                ..self
            }
        }
    }

    /// Whom a release wakes.
    pub open spec fn release_wakes(self, s: u32) -> Seq<WakeRef> {
        if self.epochs[s as int] != u32::MAX && self.starved.len() > 0 {
            seq![self.starved[0].wake]
        } else {
            Seq::empty()
        }
    }

    pub open spec fn cancel(self, ticket: Ticket) -> TimerView {
        if !self.current(ticket) {
            self
        } else {
            match self.states[ticket.slot as int] {
                SlotState::Fired => self.release(ticket.slot),
                SlotState::Armed { deadline, .. } => TimerView {
                    states: self.states.update(
                        ticket.slot as int,
                        SlotState::Canceled { deadline },
                    ),
                    canceling: if self.arming.contains(ticket.slot) {
                        self.canceling
                    } else {
                        seq![ticket.slot] + self.canceling
                    },
                    ..self
                },
                _ => self,
            }
        }
    }

    pub open spec fn cancel_wakes(self, ticket: Ticket) -> Seq<WakeRef> {
        if self.fired(ticket) {
            self.release_wakes(ticket.slot)
        } else {
            Seq::empty()
        }
    }

    pub open spec fn replace_waker(self, ticket: Ticket, wake: WakeRef) -> TimerView {
        if self.current(ticket) && self.armed(ticket.slot) {
            TimerView {
                states: self.states.update(
                    ticket.slot as int,
                    SlotState::Armed { deadline: self.deadline(ticket.slot), wake },
                ),
                ..self
            }
        } else {
            self
        }
    }

    /// The timer after the canceled ones among `slots` have been released, in
    /// turn.
    pub open spec fn settle(self, slots: Seq<u32>) -> TimerView
        decreases slots.len(),
    {
        if slots.len() == 0 {
            self
        } else if self.states[slots[0] as int] is Canceled {
            self.release(slots[0]).settle(slots.skip(1))
        } else {
            self.settle(slots.skip(1))
        }
    }

    /// Whom that wakes.
    pub open spec fn settle_wakes(self, slots: Seq<u32>) -> Seq<WakeRef>
        decreases slots.len(),
    {
        if slots.len() == 0 {
            Seq::empty()
        } else if self.states[slots[0] as int] is Canceled {
            self.release_wakes(slots[0]) + self.release(slots[0]).settle_wakes(slots.skip(1))
        } else {
            self.settle_wakes(slots.skip(1))
        }
    }

    /// The timer with the slots to be taken off the heap settled.
    pub open spec fn half_flushed(self) -> TimerView {
        TimerView { canceling: Seq::empty(), ..self }.settle(self.canceling)
    }

    /// The timer after a flush: no canceled slot is left, and all armed slots
    /// stand in the heap.
    pub open spec fn flushed(self) -> TimerView {
        TimerView { arming: Seq::empty(), ..self.half_flushed() }.settle(self.arming)
    }

    /// Whom a flush wakes.
    pub open spec fn flush_wakes(self) -> Seq<WakeRef> {
        TimerView { canceling: Seq::empty(), ..self }.settle_wakes(self.canceling) + TimerView {
            arming: Seq::empty(),
            ..self.half_flushed()
        }.settle_wakes(self.arming)
    }

    /// The timer after every slot that is due at `now` has fired.
    pub open spec fn fire(self, now: Instant) -> TimerView {
        TimerView {
            states: Seq::new(
                self.states.len(),
                |s: int|
                    if self.due(s as u32, now) {
                        SlotState::Fired
                    } else {
                        self.states[s]
                    },
            ),
            ..self
        }
    }

    /// `order` lists exactly the slots that are due at `now`, by deadline and
    /// then by epoch.
    pub open spec fn firing_order(self, now: Instant, order: Seq<u32>) -> bool {
        &&& order.no_duplicates()
        &&& forall|s: u32| order.contains(s) <==> #[trigger] self.due(s, now)
        &&& forall|i: int, j: int|
            0 <= i <= j < order.len() ==> self.fires_before(order[i], order[j])
    }

    pub open spec fn fires_before(self, a: u32, b: u32) -> bool {
        self.deadline(a) < self.deadline(b) || (self.deadline(a) == self.deadline(b)
            && self.epochs[a as int] <= self.epochs[b as int])
    }

    pub open spec fn wakes_of(self, order: Seq<u32>) -> Seq<WakeRef> {
        Seq::new(order.len(), |i: int| self.states[order[i] as int]->wake)
    }

    /// The timer without the first `n` waiters.
    pub open spec fn let_go(self, n: int) -> TimerView {
        TimerView { starved: self.starved.skip(n), ..self }
    }

    /// `deadline` is the earliest of the slots that tick and of the waiters.
    pub open spec fn is_earliest(self, deadline: Option<Instant>) -> bool {
        match deadline {
            None => {
                &&& forall|s: u32| !#[trigger] self.ticking(s)
                &&& self.starved.len() == 0
            },
            Some(d) => {
                &&& (exists|s: u32| #[trigger] self.ticking(s) && self.deadline(s) == d) || (
                self.starved.len() > 0 && self.starved[0].deadline == d)
                &&& forall|s: u32| #[trigger] self.ticking(s) ==> d <= self.deadline(s)
                &&& forall|i: int|
                    0 <= i < self.starved.len() ==> d <= (#[trigger] self.starved[i]).deadline
            },
        }
    }
}

/// Slot `s` is as it was, or was canceled and has been released.
pub open spec fn settled_at(before: TimerView, after: TimerView, s: int) -> bool {
    0 <= s < before.states.len() && 0 <= s < before.epochs.len() ==> {
        ||| after.states[s] == before.states[s] && after.epochs[s] == before.epochs[s]
        ||| before.states[s] is Canceled && after.states[s] is Free && after.epochs[s]
            == before.epochs[s] + 1
        ||| before.states[s] is Canceled && after.states[s] is Retired && after.epochs[s]
            == before.epochs[s]
    }
}

/// Settling touches nothing but canceled slots, the free list and the waiters.
proof fn lemma_settle(timer: TimerView, slots: Seq<u32>)
    requires
        timer.epochs.len() == timer.states.len(),
        forall|i: int| 0 <= i < slots.len() ==> timer.has(#[trigger] slots[i]),
    ensures
        timer.settle(slots).arming == timer.arming,
        timer.settle(slots).canceling == timer.canceling,
        timer.settle(slots).states.len() == timer.states.len(),
        timer.settle(slots).epochs.len() == timer.epochs.len(),
        forall|s: int| #[trigger] settled_at(timer, timer.settle(slots), s),
    decreases slots.len(),
{
    if slots.len() > 0 {
        if timer.states[slots[0] as int] is Canceled {
            let next = timer.release(slots[0]);
            assert(forall|i: int|
                0 <= i < slots.skip(1).len() ==> #[trigger] slots.skip(1)[i] == slots[i + 1]);
            lemma_settle(next, slots.skip(1));
            assert forall|s: int| #[trigger] settled_at(timer, timer.settle(slots), s) by {
                assert(settled_at(next, next.settle(slots.skip(1)), s));
            }
        } else {
            assert(forall|i: int|
                0 <= i < slots.skip(1).len() ==> #[trigger] slots.skip(1)[i] == slots[i + 1]);
            lemma_settle(timer, slots.skip(1));
        }
    }
}

/// A flush leaves nothing to be flushed.
proof fn lemma_flush_empties(timer: TimerView)
    requires
        timer.wf(),
    ensures
        timer.flushed().arming.len() == 0,
        timer.flushed().canceling.len() == 0,
        timer.flushed().states.len() == timer.states.len(),
        timer.flushed().epochs.len() == timer.epochs.len(),
{
    let first = TimerView { canceling: Seq::empty(), ..timer };
    assert(forall|i: int|
        0 <= i < timer.canceling.len() ==> timer.canceling.contains(
            #[trigger] timer.canceling[i],
        ));
    assert(forall|i: int|
        0 <= i < timer.arming.len() ==> timer.arming.contains(#[trigger] timer.arming[i]));
    lemma_settle(first, timer.canceling);
    let second = TimerView { arming: Seq::empty(), ..timer.half_flushed() };
    lemma_settle(second, timer.arming);
}

/// No slot that settling goes through stays canceled.
proof fn lemma_settle_clears(timer: TimerView, slots: Seq<u32>, i: int)
    requires
        timer.epochs.len() == timer.states.len(),
        forall|j: int| 0 <= j < slots.len() ==> timer.has(#[trigger] slots[j]),
        0 <= i < slots.len(),
    ensures
        !(timer.settle(slots).states[slots[i] as int] is Canceled),
    decreases slots.len(),
{
    let rest = slots.skip(1);
    assert(forall|j: int| 0 <= j < rest.len() ==> #[trigger] rest[j] == slots[j + 1]);
    let next = if timer.states[slots[0] as int] is Canceled {
        timer.release(slots[0])
    } else {
        timer
    };
    lemma_settle(next, rest);
    assert(settled_at(next, next.settle(rest), slots[0] as int));
    if i > 0 {
        lemma_settle_clears(next, rest, i - 1);
        assert(rest[i - 1] == slots[i]);
    }
}

/// A flush releases exactly the canceled slots.
proof fn lemma_flush(timer: TimerView, s: u32)
    requires
        timer.wf(),
        timer.has(s),
    ensures
        settled_at(timer, timer.flushed(), s as int),
        !(timer.flushed().states[s as int] is Canceled),
{
    lemma_flush_empties(timer);
    assert(forall|i: int|
        0 <= i < timer.canceling.len() ==> timer.canceling.contains(
            #[trigger] timer.canceling[i],
        ));
    assert(forall|i: int|
        0 <= i < timer.arming.len() ==> timer.arming.contains(#[trigger] timer.arming[i]));
    let first = TimerView { canceling: Seq::empty(), ..timer };
    lemma_settle(first, timer.canceling);
    assert(settled_at(first, timer.half_flushed(), s as int));
    let second = TimerView { arming: Seq::empty(), ..timer.half_flushed() };
    lemma_settle(second, timer.arming);
    assert(settled_at(second, timer.flushed(), s as int));
    if timer.states[s as int] is Canceled {
        if timer.canceling.contains(s) {
            let i = choose|i: int| 0 <= i < timer.canceling.len() && timer.canceling[i] == s;
            lemma_settle_clears(first, timer.canceling, i);
        } else {
            let i = choose|i: int| 0 <= i < timer.arming.len() && timer.arming[i] == s;
            lemma_settle_clears(second, timer.arming, i);
        }
    }
}

proof fn lemma_arm_wf(timer: TimerView, deadline: Instant, wake: WakeRef)
    requires
        timer.wf(),
    ensures
        timer.arm(deadline, wake).wf(),
{
    if timer.free.len() > 0 {
        let slot = timer.free[0];
        assert(timer.free.contains(slot));
        assert(!timer.arming.contains(slot));
        seqs::lemma_tail(timer.free);
        seqs::lemma_cons(slot, timer.arming);
    }
}

proof fn lemma_cancel_wf(timer: TimerView, ticket: Ticket)
    requires
        timer.wf(),
    ensures
        timer.cancel(ticket).wf(),
{
    if timer.current(ticket) {
        let slot = ticket.slot;
        assert(timer.states[slot as int] is Fired ==> !timer.free.contains(slot));
        assert(timer.states[slot as int] is Armed ==> !timer.free.contains(slot)
            && !timer.canceling.contains(slot));
        seqs::lemma_cons(slot, timer.canceling);
        seqs::lemma_cons(slot, timer.free);
        if timer.states[slot as int] is Fired {
            let after = timer.cancel(ticket);
            assert forall|i: int, j: int| 0 <= i < j < after.starved.len() implies starved::before(
                after.starved[i],
                after.starved[j],
            ) && after.starved[i].waiter != after.starved[j].waiter by {
                if timer.epochs[slot as int] != u32::MAX {
                    assert(after.starved[i] == timer.starved[i + 1]);
                    assert(after.starved[j] == timer.starved[j + 1]);
                }
            }
        }
    }
}

/// A canceled ticket does not fire: not at once, and not when the timer is
/// flushed and expires, at any instant.
pub proof fn law_canceled_never_fires(timer: TimerView, ticket: Ticket, now: Instant)
    requires
        timer.wf(),
    ensures
        timer.current(ticket) ==> !timer.cancel(ticket).fired(ticket),
        timer.current(ticket) ==> !timer.cancel(ticket).flushed().fire(now).fired(ticket),
{
    let after = timer.cancel(ticket);
    if timer.current(ticket) {
        lemma_cancel_wf(timer, ticket);
        lemma_flush_empties(after);
        lemma_flush(after, ticket.slot);
    }
}

/// Once a slot has moved past the epoch of a ticket, or is retired, the ticket
/// is dead: it has not fired.
pub open spec fn dead(timer: TimerView, ticket: Ticket) -> bool {
    timer.has(ticket.slot) && (timer.epochs[ticket.slot as int] > ticket.epoch
        || timer.states[ticket.slot as int] is Retired)
}

/// Releasing the slot of a ticket kills the ticket.
pub proof fn law_release_kills(timer: TimerView, ticket: Ticket)
    requires
        timer.wf(),
        timer.current(ticket),
    ensures
        timer.fired(ticket) ==> dead(timer.cancel(ticket), ticket),
        timer.states[ticket.slot as int] is Canceled ==> dead(timer.flushed(), ticket),
{
    lemma_flush_empties(timer);
    lemma_flush(timer, ticket.slot);
}

/// A dead ticket has not fired, and no operation revives it.
pub proof fn law_dead_stays_dead(
    timer: TimerView,
    ticket: Ticket,
    other: Ticket,
    deadline: Instant,
    wake: WakeRef,
    now: Instant,
)
    requires
        timer.wf(),
        dead(timer, ticket),
    ensures
        !timer.fired(ticket),
        dead(timer.arm(deadline, wake), ticket),
        dead(timer.replace_waker(other, wake), ticket),
        dead(timer.cancel(other), ticket),
        dead(timer.flushed(), ticket),
        dead(timer.fire(now), ticket),
{
    lemma_flush_empties(timer);
    lemma_flush(timer, ticket.slot);
    if timer.free.len() > 0 {
        assert(timer.free.contains(timer.free[0]));
    }
}

/// Arming fails exactly when no slot is free. A freshly armed ticket is neither
/// fired nor dead, and at the next expiry it fires exactly when its deadline has
/// passed.
pub proof fn law_arm_then_expire(
    timer: TimerView,
    deadline: Instant,
    wake: WakeRef,
    now: Instant,
)
    requires
        timer.wf(),
    ensures
        timer.next_ticket() is None <==> forall|s: u32| #[trigger]
            timer.has(s) ==> !(timer.states[s as int] is Free),
        timer.next_ticket() matches Some(ticket) ==> {
            let armed = timer.arm(deadline, wake);
            &&& armed.current(ticket)
            &&& !armed.fired(ticket)
            &&& armed.flushed().fire(now).fired(ticket) <==> deadline <= now
        },
{
    if timer.free.len() > 0 {
        let slot = timer.free[0];
        assert(timer.free.contains(slot));
        assert(timer.has(slot));
        let armed = timer.arm(deadline, wake);
        lemma_arm_wf(timer, deadline, wake);
        lemma_flush_empties(armed);
        lemma_flush(armed, slot);
    } else {
        assert forall|s: u32| #[trigger] timer.has(s) implies !(timer.states[s as int] is Free) by {
            assert(!timer.free.contains(s));
        }
    }
}

/// After an expiry the earliest deadline of the slots lies ahead.
pub proof fn law_expire_settles(timer: TimerView, now: Instant, earliest: Instant)
    requires
        timer.wf(),
        timer.flushed().fire(now).is_earliest(Some(earliest)),
        forall|i: int| 0 <= i < timer.flushed().starved.len() ==> now < (
        #[trigger] timer.flushed().starved[i]).deadline,
    ensures
        now < earliest,
{
    lemma_flush_empties(timer);
    let after = timer.flushed().fire(now);
    assert forall|s: u32| #[trigger] after.ticking(s) implies now < after.deadline(s) by {
        assert(!after.canceling.contains(s));
        assert(after.states[s as int] == timer.flushed().fire(now).states[s as int]);
        assert(!timer.flushed().due(s, now));
    }
}

/// Of two timers at most slot `s` and the lists differ.
pub open spec fn same_slots_but(before: TimerView, after: TimerView, s: int) -> bool {
    &&& after.states.len() == before.states.len()
    &&& after.epochs.len() == before.epochs.len()
    &&& forall|j: int|
        0 <= j < before.states.len() && j != s ==> #[trigger] after.states[j] == before.states[j]
    &&& forall|j: int|
        0 <= j < before.epochs.len() && j != s ==> #[trigger] after.epochs[j] == before.epochs[j]
}

/// Arming takes one free slot, for the deadline and the task that it is armed with,
/// and hands out a ticket with the slot's epoch. Nothing else changes; without a free
/// slot nothing does.
pub proof fn law_arming_takes_one_free_slot(timer: TimerView, deadline: Instant, wake: WakeRef)
    requires
        timer.wf(),
    ensures
        timer.next_ticket() is None ==> timer.arm(deadline, wake) == timer,
        timer.next_ticket() matches Some(ticket) ==> {
            let after = timer.arm(deadline, wake);
            let s = ticket.slot as int;
            &&& s < timer.states.len()
            &&& timer.states[s] is Free
            &&& ticket.epoch == timer.epochs[s]
            &&& after.states[s] == SlotState::Armed { deadline, wake }
            &&& after.epochs == timer.epochs
            &&& same_slots_but(timer, after, s)
            &&& timer.free == seq![ticket.slot] + after.free
            &&& after.starved == timer.starved
            &&& after.canceling == timer.canceling
            &&& after.arming == seq![ticket.slot] + timer.arming
        },
{
    if timer.free.len() > 0 {
        assert(timer.free.contains(timer.free[0]));
        assert(timer.free =~= seq![timer.free[0]] + timer.free.skip(1));
    }
}

/// A slot that is released is free under its next epoch, the next to be armed, and
/// the waiter that is served first is let go and woken; a slot without another epoch
/// is retired and wakes nobody. No other slot changes.
pub proof fn law_released_slot_serves_a_waiter(timer: TimerView, s: u32)
    requires
        timer.wf(),
        timer.has(s),
    ensures
        ({
            let after = timer.release(s);
            &&& same_slots_but(timer, after, s as int)
            &&& after.arming == timer.arming
            &&& after.canceling == timer.canceling
            &&& timer.epochs[s as int] == u32::MAX ==> {
                &&& after.states[s as int] is Retired
                &&& after.epochs == timer.epochs
                &&& after.free == timer.free
                &&& after.starved == timer.starved
                &&& timer.release_wakes(s).len() == 0
            }
            &&& timer.epochs[s as int] < u32::MAX ==> {
                &&& after.states[s as int] is Free
                &&& after.epochs[s as int] == timer.epochs[s as int] + 1
                &&& after.free == seq![s] + timer.free
                &&& timer.starved.len() == 0 ==> after.starved.len() == 0 && timer.release_wakes(
                    s,
                ).len() == 0
                &&& timer.starved.len() > 0 ==> timer.starved == seq![timer.starved[0]]
                    + after.starved && timer.release_wakes(s) == seq![timer.starved[0].wake]
            }
        }),
{
    if timer.starved.len() > 0 {
        assert(timer.starved =~= seq![timer.starved[0]] + timer.starved.skip(1));
    }
}

/// Canceling a ticket that is not current changes nothing. An armed slot is canceled,
/// with its deadline, and wakes nobody; a fired one is released; any other stays as
/// it is. No other slot changes.
pub proof fn law_cancel_goes_by_the_state(timer: TimerView, ticket: Ticket)
    requires
        timer.wf(),
    ensures
        ({
            let after = timer.cancel(ticket);
            let s = ticket.slot as int;
            let current = s < timer.states.len() && timer.epochs[s] == ticket.epoch;
            &&& same_slots_but(timer, after, s)
            &&& timer.current(ticket) <==> current
            &&& !current ==> after == timer && timer.cancel_wakes(ticket).len() == 0
            &&& current && timer.states[s] is Fired ==> after == timer.release(ticket.slot)
                && timer.cancel_wakes(ticket) == timer.release_wakes(ticket.slot)
            &&& current && timer.states[s] is Armed ==> {
                &&& after.states[s] == SlotState::Canceled {
                    deadline: timer.states[s]->Armed_deadline,
                }
                &&& after.epochs == timer.epochs
                &&& after.free == timer.free
                &&& after.starved == timer.starved
                &&& after.arming == timer.arming
                &&& timer.cancel_wakes(ticket).len() == 0
            }
            &&& current && !(timer.states[s] is Fired) && !(timer.states[s] is Armed) ==> after
                == timer && timer.cancel_wakes(ticket).len() == 0
        }),
{
}

/// Another task is woken in place of the one that a ticket was armed with exactly
/// while it is armed; its deadline stays, and nothing else changes.
pub proof fn law_other_task_same_deadline(timer: TimerView, ticket: Ticket, wake: WakeRef)
    ensures
        ({
            let after = timer.replace_waker(ticket, wake);
            let s = ticket.slot as int;
            let armed = s < timer.states.len() && timer.epochs[s] == ticket.epoch
                && timer.states[s] is Armed;
            &&& !armed ==> after == timer
            &&& armed ==> {
                &&& after.states[s] == SlotState::Armed {
                    deadline: timer.states[s]->Armed_deadline,
                    wake,
                }
                &&& same_slots_but(timer, after, s)
                &&& after.epochs == timer.epochs
                &&& after.free == timer.free
                &&& after.arming == timer.arming
                &&& after.canceling == timer.canceling
                &&& after.starved == timer.starved
            }
        }),
{
}

/// Exactly the armed slots whose deadline has passed fire; no other slot changes, nor
/// does any epoch or list.
pub proof fn law_exactly_the_due_fire(timer: TimerView, now: Instant, s: u32)
    requires
        s < timer.states.len(),
        timer.states.len() <= u32::MAX,
    ensures
        ({
            let after = timer.fire(now);
            let due = match timer.states[s as int] {
                SlotState::Armed { deadline, .. } => deadline <= now,
                _ => false,
            };
            &&& due ==> after.states[s as int] is Fired
            &&& !due ==> after.states[s as int] == timer.states[s as int]
            &&& after.epochs == timer.epochs
            &&& after.states.len() == timer.states.len()
            &&& after.free == timer.free
            &&& after.arming == timer.arming
            &&& after.canceling == timer.canceling
            &&& after.starved == timer.starved
        }),
{
}

/// Slots fire in the order of their deadlines and, of one deadline, of their epochs:
/// exactly those whose deadline has passed, each once, and each wakes its task.
pub proof fn law_fire_in_order_of_deadlines(
    timer: TimerView,
    now: Instant,
    order: Seq<u32>,
    i: int,
    j: int,
    s: u32,
)
    requires
        timer.firing_order(now, order),
        0 <= i < j < order.len(),
    ensures
        order[i] != order[j],
        order.contains(s) <==> s < timer.states.len() && (timer.states[s as int] matches
            SlotState::Armed { deadline, .. } && deadline <= now),
        timer.states[order[i] as int] is Armed,
        timer.states[order[j] as int] is Armed,
        timer.states[order[i] as int]->Armed_deadline <= timer.states[order[j] as int]->Armed_deadline,
        timer.states[order[i] as int]->Armed_deadline
            == timer.states[order[j] as int]->Armed_deadline ==> timer.epochs[order[i] as int]
            <= timer.epochs[order[j] as int],
        timer.wakes_of(order).len() == order.len(),
        timer.wakes_of(order)[i] == timer.states[order[i] as int]->wake,
{
    assert(order.contains(order[i]));
    assert(order.contains(order[j]));
    assert(timer.due(order[i], now));
    assert(timer.due(order[j], now));
    assert(timer.fires_before(order[i], order[j]));
    assert(timer.due(s, now) <==> order.contains(s));
}

/// Nothing that is armed and nobody who waits falls due before the earliest deadline;
/// where there is none, nothing is armed and nobody waits.
pub proof fn law_nothing_falls_due_before(
    timer: TimerView,
    earliest: Option<Instant>,
    s: u32,
    i: int,
)
    requires
        timer.wf(),
        timer.is_earliest(earliest),
    ensures
        s < timer.states.len() && timer.states[s as int] is Armed ==> earliest is Some
            && earliest->0 <= timer.states[s as int]->Armed_deadline,
        0 <= i < timer.starved.len() ==> earliest is Some && earliest->0
            <= timer.starved[i].deadline,
        earliest matches Some(d) ==> (timer.starved.len() > 0 && timer.starved[0].deadline == d) || (
        exists|k: u32|
            k < timer.states.len() && (#[trigger] timer.states[k as int] is Armed
                || timer.states[k as int] is Canceled) && timer.deadline(k) == d),
{
    if s < timer.states.len() && timer.states[s as int] is Armed {
        assert(timer.ticking(s));
    }
    if let Some(d) = earliest {
        if !(timer.starved.len() > 0 && timer.starved[0].deadline == d) {
            let k = choose|k: u32| #[trigger] timer.ticking(k) && timer.deadline(k) == d;
            assert(k < timer.states.len() && (timer.states[k as int] is Armed
                || timer.states[k as int] is Canceled) && timer.deadline(k) == d);
        }
    }
}

/// A flush frees every canceled slot, under its next epoch, or retires it if there is
/// none, and leaves all other slots as they are.
pub proof fn law_flush_frees_exactly_the_canceled(timer: TimerView, s: u32)
    requires
        timer.wf(),
        timer.has(s),
    ensures
        ({
            let after = timer.flushed();
            let i = s as int;
            &&& !(timer.states[i] is Canceled) ==> after.states[i] == timer.states[i]
                && after.epochs[i] == timer.epochs[i]
            &&& timer.states[i] is Canceled ==> {
                ||| after.states[i] is Free && after.epochs[i] == timer.epochs[i] + 1
                ||| after.states[i] is Retired && after.epochs[i] == timer.epochs[i]
            }
            &&& after.arming.len() == 0
            &&& after.canceling.len() == 0
            &&& after.states.len() == timer.states.len()
        }),
{
    lemma_flush_empties(timer);
    lemma_flush(timer, s);
}

proof fn lemma_settle_serves(timer: TimerView, slots: Seq<u32>)
    ensures
        starved::wakes(timer.starved) == timer.settle_wakes(slots) + starved::wakes(
            timer.settle(slots).starved,
        ),
    decreases slots.len(),
{
    if slots.len() == 0 {
        assert(starved::wakes(timer.starved) =~= Seq::empty() + starved::wakes(timer.starved));
    } else if timer.states[slots[0] as int] is Canceled {
        let next = timer.release(slots[0]);
        lemma_settle_serves(next, slots.skip(1));
        assert(starved::wakes(timer.starved) =~= timer.release_wakes(slots[0]) + starved::wakes(
            next.starved,
        ));
        assert(starved::wakes(timer.starved) =~= timer.settle_wakes(slots) + starved::wakes(
            timer.settle(slots).starved,
        ));
    } else {
        lemma_settle_serves(timer, slots.skip(1));
    }
}

/// Whoever is let go by a flush is woken, in the order of service, and whoever still
/// waits is not.
pub proof fn law_flush_wakes_whom_it_lets_go(timer: TimerView)
    ensures
        starved::wakes(timer.starved) == timer.flush_wakes() + starved::wakes(
            timer.flushed().starved,
        ),
{
    let first = TimerView { canceling: Seq::empty(), ..timer };
    let second = TimerView { arming: Seq::empty(), ..timer.half_flushed() };
    lemma_settle_serves(first, timer.canceling);
    lemma_settle_serves(second, timer.arming);
    assert(starved::wakes(timer.starved) =~= timer.flush_wakes() + starved::wakes(
        timer.flushed().starved,
    ));
}

/// Those who give up are let go, in the order of service; all others wait on, and no
/// slot is touched for it.
pub proof fn law_those_who_give_up_are_let_go(timer: TimerView, now: Instant, n: int)
    requires
        starved::overdue(timer.starved, now, n),
    ensures
        timer.starved == timer.starved.take(n) + timer.let_go(n).starved,
        timer.let_go(n).starved.len() + n == timer.starved.len(),
        timer.let_go(n).states == timer.states,
        timer.let_go(n).epochs == timer.epochs,
        timer.let_go(n).free == timer.free,
        timer.let_go(n).arming == timer.arming,
        timer.let_go(n).canceling == timer.canceling,
        forall|i: int|
            0 <= i < timer.let_go(n).starved.len() ==> (
            #[trigger] timer.let_go(n).starved[i]).deadline > now,
{
    assert(timer.starved =~= timer.starved.take(n) + timer.starved.skip(n));
}

/// `list` runs from `head` through the slots.
spec fn chained(slots: Seq<Slot>, head: u32, list: Seq<u32>) -> bool {
    &&& list.no_duplicates()
    &&& head == if list.len() > 0 {
        list[0]
    } else {
        NIL
    }
    &&& forall|i: int|
        #![trigger list[i]]
        0 <= i < list.len() ==> list[i] < slots.len() && slots[list[i] as int].next == if i + 1
            < list.len() {
            list[i + 1]
        } else {
            NIL
        }
}

/// Writing to a slot outside of a list leaves the list as it is.
proof fn lemma_undisturbed(
    before: Seq<Slot>,
    after: Seq<Slot>,
    head: u32,
    list: Seq<u32>,
    slot: u32,
)
    requires
        chained(before, head, list),
        !list.contains(slot),
        slot < before.len(),
        after =~= before.update(slot as int, after[slot as int]),
    ensures
        chained(after, head, list),
{
    assert forall|i: int| #![trigger list[i]] 0 <= i < list.len() implies after[list[i] as int]
        == before[list[i] as int] by {}
}

/// Writing anything but links leaves a list as it is.
proof fn lemma_relinked(before: Seq<Slot>, after: Seq<Slot>, head: u32, list: Seq<u32>)
    requires
        chained(before, head, list),
        before.len() == after.len(),
        forall|s: int| 0 <= s < before.len() ==> (#[trigger] after[s]).next == before[s].next,
    ensures
        chained(after, head, list),
{
}

/// Taking the head off a list, with anything written to it, leaves the rest.
proof fn lemma_popped(before: Seq<Slot>, after: Seq<Slot>, list: Seq<u32>, head: u32)
    requires
        chained(before, head, list),
        list.len() > 0,
        after =~= before.update(head as int, after[head as int]),
    ensures
        chained(after, before[head as int].next, list.skip(1)),
        !list.skip(1).contains(head),
{
    let rest = list.skip(1);
    assert forall|i: int| #![trigger rest[i]] 0 <= i < rest.len() implies rest[i] == list[i + 1]
        && rest[i] != head by {}
}

/// A slot that points to the head of a list it is not in extends the list.
proof fn lemma_pushed(
    before: Seq<Slot>,
    after: Seq<Slot>,
    head: u32,
    list: Seq<u32>,
    slot: u32,
)
    requires
        chained(before, head, list),
        !list.contains(slot),
        slot < before.len(),
        slot != NIL,
        after =~= before.update(slot as int, after[slot as int]),
        after[slot as int].next == head,
    ensures
        chained(after, slot, seq![slot] + list),
{
    let longer = seq![slot] + list;
    assert forall|i: int| 0 < i < longer.len() implies #[trigger] longer[i] == list[i - 1] by {}
    assert forall|i: int| #![trigger longer[i]] 0 <= i < longer.len() implies longer[i]
        < after.len() && after[longer[i] as int].next == if i + 1 < longer.len() {
        longer[i + 1]
    } else {
        NIL
    } by {
        if i > 0 {
            assert(list[i - 1] == longer[i]);
        }
    }
}

impl<const ID: u8> View for Timer<ID> {
    type V = TimerView;

    closed spec fn view(&self) -> TimerView {
        TimerView {
            epochs: Seq::new(self.slots@.len(), |s: int| self.slots@[s].epoch),
            states: Seq::new(self.slots@.len(), |s: int| state_of(self.slots@[s])),
            free: self.free_list@,
            arming: self.arm_list@,
            canceling: self.cancel_list@,
            starved: self.starved@,
        }
    }
}

spec fn state_of(slot: Slot) -> SlotState {
    match slot.state {
        State::Free => SlotState::Free,
        State::Armed => SlotState::Armed { deadline: slot.deadline, wake: slot.wake->0 },
        State::Fired => SlotState::Fired,
        State::Canceled => SlotState::Canceled { deadline: slot.deadline },
        State::Retired => SlotState::Retired,
    }
}

impl<const ID: u8> Timer<ID> {
    pub closed spec fn wf(self) -> bool {
        self.wf_but(-1)
    }

    /// Well-formed, but slot `hole` may be canceled and in neither list, and may
    /// have left the heap.
    spec fn wf_but(self, hole: int) -> bool {
        &&& self@.wf_but(hole)
        &&& self.starved.wf()
        &&& chained(self.slots@, self.free, self.free_list@)
        &&& chained(self.slots@, self.pending_arm, self.arm_list@)
        &&& chained(self.slots@, self.pending_cancel, self.cancel_list@)
        &&& heap::heap_capacity(self.heap) == self.slots@.len()
        &&& forall|s: int|
            0 <= s < self.slots@.len() && (#[trigger] self.slots@[s]).state == State::Armed
                ==> self.slots@[s].wake is Some
        &&& forall|s: usize|
            #![trigger heap::heap_entries(self.heap).contains_key(s)]
            s != hole ==> (heap::heap_entries(self.heap).contains_key(s) <==> s < self.slots@.len() && (
            self.slots@[s as int].state == State::Armed || self.slots@[s as int].state
                == State::Canceled) && !self.arm_list@.contains(s as u32))
        &&& forall|s: usize|
            #![trigger heap::heap_entries(self.heap)[s]]
            heap::heap_entries(self.heap).contains_key(s) ==> heap::heap_entries(self.heap)[s] == (
                self.slots@[s as int].deadline,
                self.slots@[s as int].epoch,
            )
    }

    /// Nothing but the slot itself knows of `slot`, which is to be released.
    spec fn releasable(self, slot: u32) -> bool {
        &&& self.wf_but(slot as int)
        &&& slot < self.slots@.len()
        &&& !self.arm_list@.contains(slot)
        &&& !self.cancel_list@.contains(slot)
        &&& !heap::heap_entries(self.heap).contains_key(slot as usize)
        &&& self.slots@[slot as int].state == State::Fired || self.slots@[slot as int].state
            == State::Canceled
    }

    /// What a well-formed timer shows of itself is well-formed.
    pub proof fn lemma_view_wf(&self)
        requires
            self.wf(),
        ensures
            self@.wf(),
    {
    }

    pub fn with_capacity(cap: usize) -> (timer: Self)
        requires
            cap <= u32::MAX,
        ensures
            timer.wf(),
            timer@.epochs == Seq::new(cap as nat, |s: int| 0u32),
            timer@.states == Seq::new(cap as nat, |s: int| SlotState::Free),
            timer@.free == Seq::new(cap as nat, |i: int| (cap - 1 - i) as u32),
            timer@.arming.len() == 0,
            timer@.canceling.len() == 0,
            timer@.starved.len() == 0,
    {
        let mut slots: Vec<Slot> = Vec::with_capacity(cap);
        let mut index: usize = 0;
        while index < cap
            invariant
                index <= cap <= u32::MAX,
                slots@.len() == index,
                forall|s: int|
                    0 <= s < index ==> #[trigger] slots@[s] == (Slot {
                        epoch: 0,
                        state: State::Free,
                        wake: None,
                        deadline: 0,
                        next: if s == 0 {
                            NIL
                        } else {
                            (s - 1) as u32
                        },
                    }),
            decreases cap - index,
        {
            let next = if index == 0 {
                NIL
            } else {
                index as u32 - 1
            };
            slots.push(Slot { epoch: 0, state: State::Free, wake: None, deadline: 0, next });
            index += 1;
        }
        let free = if cap == 0 {
            NIL
        } else {
            cap as u32 - 1
        };
        let timer = Timer {
            slots,
            free,
            pending_arm: NIL,
            pending_cancel: NIL,
            starved: StarvedQueue::new(),
            heap: DeadlineHeap::with_capacity(cap),
            free_list: Ghost(Seq::new(cap as nat, |i: int| (cap - 1 - i) as u32)),
            arm_list: Ghost(Seq::empty()),
            cancel_list: Ghost(Seq::empty()),
        };
        proof {
            let view = timer@;
            assert forall|s: u32| view.has(s) implies view.free.contains(s) by {
                assert(view.free[cap - 1 - s] == s);
            }
            assert(view.epochs =~= Seq::new(cap as nat, |s: int| 0u32));
            assert(view.states =~= Seq::new(cap as nat, |s: int| SlotState::Free));
        }
        timer
    }

    pub fn register_starved(&mut self, waiter: StarvedWaiter, deadline: Instant, wake: WakeRef)
        requires
            old(self).wf(),
        ensures
            final(self).wf(),
            final(self)@ == (TimerView { starved: final(self)@.starved, ..old(self)@ }),
            starved::registered(
                old(self)@.starved,
                Starved { deadline, waiter, wake },
                final(self)@.starved,
            ),
    {
        self.starved.register(waiter, deadline, wake);
        assert(self@.epochs =~= old(self)@.epochs);
        assert(self@.states =~= old(self)@.states);
    }

    /// Arms the next free slot for `deadline`, or returns `None` when there is
    /// none.
    pub fn try_arm(&mut self, deadline: Instant, wake: WakeRef) -> (ticket: Option<Ticket>)
        requires
            old(self).wf(),
        ensures
            final(self).wf(),
            ticket == old(self)@.next_ticket(),
            final(self)@ == old(self)@.arm(deadline, wake),
    {
        let slot = self.free;
        if slot == NIL {
            return None;
        }
        let index = slot as usize;
        let epoch = self.slots[index].epoch;
        self.free = self.slots[index].next;
        self.slots[index] = Slot {
            epoch,
            state: State::Armed,
            wake: Some(wake),
            deadline,
            next: self.pending_arm,
        };
        self.pending_arm = slot;
        proof {
            self.free_list@ = self.free_list@.skip(1);
            self.arm_list@ = seq![slot] + self.arm_list@;
            let view = old(self)@;
            assert(view.free.contains(slot));
            lemma_popped(old(self).slots@, self.slots@, view.free, slot);
            lemma_pushed(old(self).slots@, self.slots@, old(self).pending_arm, view.arming, slot);
            lemma_undisturbed(
                old(self).slots@,
                self.slots@,
                self.pending_cancel,
                view.canceling,
                slot,
            );
            let goal = view.arm(deadline, wake);
            assert(self@.epochs =~= goal.epochs);
            assert(self@.states =~= goal.states);
            seqs::lemma_tail(view.free);
            seqs::lemma_cons(slot, view.arming);
        }
        Some(Ticket { slot, epoch })
    }

    pub fn is_fired(&self, ticket: Ticket) -> (fired: bool)
        ensures
            fired == self@.fired(ticket),
    {
        let slot = ticket.slot as usize;
        if slot < self.slots.len() {
            self.slots[slot].epoch == ticket.epoch && self.slots[slot].state == State::Fired
        } else {
            false
        }
    }

    /// Has `wake` woken in place of the one that `ticket` was armed with.
    pub fn replace_waker(&mut self, ticket: Ticket, wake: WakeRef)
        requires
            old(self).wf(),
        ensures
            final(self).wf(),
            final(self)@ == old(self)@.replace_waker(ticket, wake),
    {
        let slot = ticket.slot as usize;
        if slot < self.slots.len() && self.slots[slot].epoch == ticket.epoch
            && self.slots[slot].state == State::Armed {
            self.slots[slot].wake = Some(wake);
            proof {
                let goal = old(self)@.replace_waker(ticket, wake);
                assert(self@.epochs =~= goal.epochs);
                assert(self@.states =~= goal.states);
                lemma_relinked(old(self).slots@, self.slots@, self.free, self.free_list@);
                lemma_relinked(old(self).slots@, self.slots@, self.pending_arm, self.arm_list@);
                lemma_relinked(
                    old(self).slots@,
                    self.slots@,
                    self.pending_cancel,
                    self.cancel_list@,
                );
            }
        }
    }

    /// Releases a slot that is in no list and not in the heap.
    fn release(&mut self, slot: u32) -> (woken: Option<WakeRef>)
        requires
            old(self).releasable(slot),
        ensures
            final(self).wf(),
            final(self)@ == old(self)@.release(slot),
            old(self)@.release_wakes(slot) == match woken {
                Some(wake) => seq![wake],
                None => Seq::empty(),
            },
    {
        let index = slot as usize;
        self.slots[index].wake = None;
        if self.slots[index].epoch == 0xffff_ffff {
            self.slots[index].state = State::Retired;
            self.slots[index].next = NIL;
            proof {
                let before = old(self).slots@;
                assert(!self.free_list@.contains(slot));
                lemma_undisturbed(before, self.slots@, self.free, self.free_list@, slot);
                lemma_undisturbed(before, self.slots@, self.pending_arm, self.arm_list@, slot);
                lemma_undisturbed(before, self.slots@, self.pending_cancel, self.cancel_list@, slot);
                let goal = old(self)@.release(slot);
                assert(self@.epochs =~= goal.epochs);
                assert(self@.states =~= goal.states);
            }
            return None;
        }
        self.slots[index].epoch = self.slots[index].epoch + 1;
        self.slots[index].state = State::Free;
        self.slots[index].next = self.free;
        self.free = slot;
        proof {
            let before = old(self).slots@;
            let list = self.free_list@;
            self.free_list@ = seq![slot] + list;
            assert(!list.contains(slot));
            lemma_pushed(before, self.slots@, old(self).free, list, slot);
            lemma_undisturbed(before, self.slots@, self.pending_arm, self.arm_list@, slot);
            lemma_undisturbed(before, self.slots@, self.pending_cancel, self.cancel_list@, slot);
            seqs::lemma_cons(slot, list);
        }
        let woken = self.starved.wake_min();
        proof {
            let goal = old(self)@.release(slot);
            assert(self@.epochs =~= goal.epochs);
            assert(self@.states =~= goal.states);
            assert(self@.starved =~= goal.starved);
        }
        woken
    }

    /// Takes `waiter` out of the queue. If a slot is free, the waiter that is now
    /// served first is let go in its place.
    pub fn unregister_starved(&mut self, waiter: StarvedWaiter) -> (woken: Option<WakeRef>)
        requires
            old(self).wf(),
        ensures
            final(self).wf(),
            exists|left: Seq<Starved>| #[trigger]
                starved::unregistered(old(self)@.starved, waiter, left) && final(self)@ == (
                TimerView {
                    starved: if old(self)@.free.len() > 0 && left.len() > 0 {
                        left.skip(1)
                    } else {
                        left
                    },
                    ..old(self)@
                }) && woken == if old(self)@.free.len() > 0 && left.len() > 0 {
                    Some(left[0].wake)
                } else {
                    None
                },
    {
        self.starved.unregister(waiter);
        let ghost left = self.starved@;
        assert(starved::unregistered(old(self)@.starved, waiter, left));
        let woken = if self.free != NIL {
            self.starved.wake_min()
        } else {
            None
        };
        proof {
            assert(self@.epochs =~= old(self)@.epochs);
            assert(self@.states =~= old(self)@.states);
            assert(self@.free.len() > 0 ==> self.free == self.free_list@[0] && self.free < self.slots@.len());
        }
        woken
    }

    /// Cancels a ticket: a fired one is released at once, an armed one by the
    /// next flush. Returns whom to wake.
    pub fn cancel(&mut self, ticket: Ticket) -> (woken: Option<WakeRef>)
        requires
            old(self).wf(),
        ensures
            final(self).wf(),
            final(self)@ == old(self)@.cancel(ticket),
            old(self)@.cancel_wakes(ticket) == match woken {
                Some(wake) => seq![wake],
                None => Seq::empty(),
            },
    {
        let slot = ticket.slot as usize;
        if slot >= self.slots.len() {
            return None;
        }
        if self.slots[slot].epoch != ticket.epoch {
            return None;
        }
        let ghost view = self@;
        match self.slots[slot].state {
            State::Fired => self.release(ticket.slot),
            State::Armed => {
                assert(view.states[ticket.slot as int] is Armed);
                if !self.heap.contains_key(slot) {
                    self.slots[slot].state = State::Canceled;
                    proof {
                        let before = old(self).slots@;
                        lemma_relinked(before, self.slots@, self.free, self.free_list@);
                        lemma_relinked(before, self.slots@, self.pending_arm, self.arm_list@);
                        lemma_relinked(before, self.slots@, self.pending_cancel, self.cancel_list@);
                    }
                } else {
                    self.slots[slot].state = State::Canceled;
                    self.slots[slot].next = self.pending_cancel;
                    self.pending_cancel = ticket.slot;
                    proof {
                        let before = old(self).slots@;
                        let list = self.cancel_list@;
                        self.cancel_list@ = seq![ticket.slot] + list;
                        assert(!view.free.contains(ticket.slot));
                        assert(!list.contains(ticket.slot));
                        lemma_undisturbed(before, self.slots@, self.free, self.free_list@, ticket.slot);
                        lemma_undisturbed(
                            before,
                            self.slots@,
                            self.pending_arm,
                            self.arm_list@,
                            ticket.slot,
                        );
                        lemma_pushed(before, self.slots@, old(self).pending_cancel, list, ticket.slot);
                        seqs::lemma_cons(ticket.slot, list);
                    }
                }
                proof {
                    let goal = view.cancel(ticket);
                    assert(self@.epochs =~= goal.epochs);
                    assert(self@.states =~= goal.states);
                }
                None
            },
            State::Free | State::Canceled | State::Retired => None,
        }
    }

    /// Takes all canceled slots off the heap and out of use, puts the slots that
    /// were armed since the last flush into the heap, and returns whom to wake.
    pub fn flush(&mut self) -> (woken: Vec<WakeRef>)
        requires
            old(self).wf(),
        ensures
            final(self).wf(),
            final(self)@ == old(self)@.flushed(),
            woken@ == old(self)@.flush_wakes(),
    {
        let mut woken: Vec<WakeRef> = Vec::new();
        let ghost start = self@;
        let ghost first = TimerView { canceling: Seq::empty(), ..start };
        let ghost first_wakes = first.settle_wakes(start.canceling);
        while self.pending_cancel != NIL
            invariant
                self.wf(),
                start == old(self)@,
                first == (TimerView { canceling: Seq::empty(), ..start }),
                first_wakes == first.settle_wakes(start.canceling),
                ({
                    let rest = TimerView { canceling: Seq::empty(), ..self@ };
                    &&& rest.settle(self@.canceling) == start.half_flushed()
                    &&& woken@ + rest.settle_wakes(self@.canceling) == first_wakes
                    &&& self@.arming == start.arming
                }),
            decreases self.cancel_list@.len(),
        {
            let ghost before = self@;
            let slot = self.pending_cancel;
            let index = slot as usize;
            self.pending_cancel = self.slots[index].next;
            let _ = self.heap.remove(index);
            proof {
                let list = self.cancel_list@;
                assert(before.canceling.contains(slot));
                self.cancel_list@ = list.skip(1);
                lemma_popped(self.slots@, self.slots@, list, slot);
                seqs::lemma_tail(list);
                assert(self@.states =~= before.states);
                assert(self@.epochs =~= before.epochs);
            }
            let wake = self.release(slot);
            if let Some(wake) = wake {
                woken.push(wake);
            }
        }
        proof {
            assert(self@.canceling =~= Seq::empty());
            assert(woken@ + Seq::<WakeRef>::empty() =~= woken@);
            assert(self@ == start.half_flushed());
        }
        let ghost second = TimerView { arming: Seq::empty(), ..start.half_flushed() };
        let ghost second_wakes = second.settle_wakes(start.arming);
        while self.pending_arm != NIL
            invariant
                self.wf(),
                start == old(self)@,
                second == (TimerView { arming: Seq::empty(), ..start.half_flushed() }),
                second_wakes == second.settle_wakes(start.arming),
                self@.canceling.len() == 0,
                ({
                    let rest = TimerView { arming: Seq::empty(), ..self@ };
                    &&& rest.settle(self@.arming) == start.flushed()
                    &&& woken@ + rest.settle_wakes(self@.arming) == first_wakes + second_wakes
                }),
            decreases self.arm_list@.len(),
        {
            let ghost before = self@;
            let slot = self.pending_arm;
            let index = slot as usize;
            self.pending_arm = self.slots[index].next;
            proof {
                let list = self.arm_list@;
                assert(before.arming.contains(slot));
                self.arm_list@ = list.skip(1);
                lemma_popped(self.slots@, self.slots@, list, slot);
                seqs::lemma_tail(list);
                assert(self@.states =~= before.states);
                assert(self@.epochs =~= before.epochs);
            }
            match self.slots[index].state {
                State::Canceled => {
                    let wake = self.release(slot);
                    if let Some(wake) = wake {
                        woken.push(wake);
                    }
                },
                State::Armed => {
                    let key = (self.slots[index].deadline, self.slots[index].epoch);
                    let _ = self.heap.insert(index, key);
                    assert(self@.states =~= before.states);
                    assert(self@.epochs =~= before.epochs);
                },
                State::Free | State::Fired | State::Retired => {},
            }
        }
        proof {
            assert(self@.arming =~= Seq::empty());
            assert(woken@ + Seq::<WakeRef>::empty() =~= woken@);
        }
        woken
    }

    /// The earliest deadline of an armed slot, of a canceled one that is still in
    /// the heap, or of a waiter.
    pub fn earliest(&self) -> (deadline: Option<Instant>)
        requires
            self.wf(),
        ensures
            self@.is_earliest(deadline),
    {
        let ghost view = self@;
        let mut min: Option<Instant> = None;
        if let Some((index, key)) = self.heap.peek() {
            min = Some(key.0);
            assert(heap::heap_entries(self.heap)[index] == key);
            assert(view.ticking(index as u32) && view.deadline(index as u32) == key.0);
        }
        proof {
            assert forall|s: u32| #[trigger] view.ticking(s) && !view.arming.contains(s) implies min is Some
                && min->0 <= view.deadline(s) by {
                assert(heap::heap_entries(self.heap).contains_key(s as usize));
                assert(heap::heap_entries(self.heap)[s as usize].0 == view.deadline(s));
            }
        }
        let mut slot = self.pending_arm;
        let ghost mut seen: int = 0;
        while slot != NIL
            invariant
                view == self@,
                chained(self.slots@, self.pending_arm, self.arm_list@),
                0 <= seen <= self.arm_list@.len(),
                slot == if seen < self.arm_list@.len() {
                    self.arm_list@[seen]
                } else {
                    NIL
                },
                min matches Some(d) ==> exists|s: u32| #[trigger]
                    view.ticking(s) && view.deadline(s) == d,
                forall|s: u32| #[trigger]
                    view.ticking(s) && !view.arming.contains(s) ==> min is Some && min->0
                        <= view.deadline(s),
                forall|i: int|
                    #![trigger self.arm_list@[i]]
                    0 <= i < seen && view.armed(self.arm_list@[i]) ==> min is Some && min->0
                        <= view.deadline(self.arm_list@[i]),
            decreases self.arm_list@.len() - seen,
        {
            assert(self.arm_list@[seen] == slot);
            let index = slot as usize;
            if self.slots[index].state == State::Armed {
                min = earlier(min, Some(self.slots[index].deadline));
                assert(view.ticking(slot));
            }
            slot = self.slots[index].next;
            proof {
                seen = seen + 1;
            }
        }
        assert forall|s: u32| #[trigger] view.ticking(s) implies min is Some && min->0
            <= view.deadline(s) by {
            if view.arming.contains(s) {
                let i = choose|i: int| 0 <= i < view.arming.len() && view.arming[i] == s;
                assert(self.arm_list@[i] == s);
            }
        }
        let deadline = earlier(min, self.starved.min_deadline());
        proof {
            let queue = view.starved;
            assert forall|i: int| 0 <= i < queue.len() implies queue[0].deadline <= (
            #[trigger] queue[i]).deadline by {
                assert(i > 0 ==> starved::before(queue[0], queue[i]));
            }
        }
        deadline
    }

    /// Lets go the waiters that give up by `now`, flushes, fires every slot that
    /// is due, and returns whom to wake in that order.
    pub fn expire(&mut self, now: Instant) -> (woken: Vec<WakeRef>)
        requires
            old(self).wf(),
        ensures
            final(self).wf(),
            exists|n: int, order: Seq<u32>|
                {
                    &&& #[trigger] starved::overdue(old(self)@.starved, now, n)
                    &&& #[trigger] old(self)@.let_go(n).flushed().firing_order(now, order)
                    &&& final(self)@ == old(self)@.let_go(n).flushed().fire(now)
                    &&& woken@ == starved::wakes(old(self)@.starved.take(n)) + old(self)@.let_go(
                        n,
                    ).flush_wakes() + old(self)@.let_go(n).flushed().wakes_of(order)
                },
    {
        let mut woken = self.starved.expire(now);
        let ghost n = choose|n: int| #[trigger]
            starved::overdue(old(self)@.starved, now, n) && self.starved@ == old(
                self,
            )@.starved.skip(n) && woken@ == starved::wakes(old(self)@.starved.take(n));
        proof {
            assert(self@.states =~= old(self)@.states);
            assert(self@.epochs =~= old(self)@.epochs);
            assert(self@ == old(self)@.let_go(n));
        }
        let mut released = self.flush();
        let ghost flush_wakes = released@;
        let ghost start = self@;
        woken.append(&mut released);
        let ghost mut order: Seq<u32> = Seq::empty();
        let ghost base = woken@;
        proof {
            lemma_flush_empties(old(self)@.let_go(n));
            assert(woken@ =~= base + start.wakes_of(order));
        }
        loop
            invariant
                self.wf(),
                start.arming.len() == 0,
                start.canceling.len() == 0,
                start.states.len() == self@.states.len(),
                self@ == (TimerView { states: self@.states, ..start }),
                order.no_duplicates(),
                forall|i: int| 0 <= i < order.len() ==> start.due(#[trigger] order[i], now),
                forall|s: u32|
                    start.has(s) ==> #[trigger] self@.states[s as int] == if order.contains(s) {
                        SlotState::Fired
                    } else {
                        start.states[s as int]
                    },
                forall|i: int, j: int|
                    0 <= i <= j < order.len() ==> start.fires_before(order[i], order[j]),
                forall|i: int, s: u32|
                    0 <= i < order.len() && #[trigger] self@.armed(s) ==> start.fires_before(
                        #[trigger] order[i],
                        s,
                    ),
                woken@ == base + start.wakes_of(order),
            ensures
                forall|s: u32| !#[trigger] self@.due(s, now),
            decreases heap::heap_entries(self.heap).dom().len(),
        {
            let ghost entries = heap::heap_entries(self.heap);
            let ghost before = *self;
            proof {
                self.lemma_entries_finite();
                assert forall|s: u32| #[trigger] self@.armed(s) implies entries.contains_key(
                    s as usize,
                ) && entries[s as usize] == (start.deadline(s), start.epochs[s as int]) by {
                    assert(self@.states[s as int] == start.states[s as int]);
                }
            }
            let due = match self.heap.peek() {
                Some((_, key)) => key.0 <= now,
                None => false,
            };
            if !due {
                break ;
            }
            if let Some((index, key)) = self.heap.pop() {
                let ghost root = index as u32;
                assert(entries.contains_key(index));
                assert(entries[index] == key);
                assert(self.slots@[index as int].state != State::Canceled) by {
                    assert(before@.states[root as int] is Canceled ==> before@.canceling.contains(root));
                }
                assert(before@.armed(root));
                assert(self@.states[root as int] == start.states[root as int]);
                self.slots[index].state = State::Fired;
                if let Some(wake) = self.slots[index].wake {
                    woken.push(wake);
                }
                proof {
                    let grown = order.push(root);
                    assert forall|s: u32| start.has(s) implies #[trigger] self@.states[s as int] == (
                    if grown.contains(s) {
                        SlotState::Fired
                    } else {
                        start.states[s as int]
                    }) by {
                        assert(before@.states[s as int] == if order.contains(s) {
                            SlotState::Fired
                        } else {
                            start.states[s as int]
                        });
                        if s == root {
                            assert(grown[order.len() as int] == root);
                        } else if order.contains(s) {
                            let i = choose|i: int| 0 <= i < order.len() && order[i] == s;
                            assert(grown[i] == s);
                        } else {
                            assert(!grown.contains(s));
                        }
                    }
                    assert forall|s: u32| #[trigger] self@.armed(s) implies before@.armed(s)
                        && start.fires_before(root, s) by {
                        assert(before.slots@[s as int].state == State::Armed);
                        assert(before@.armed(s));
                        assert(crate::collections::heap::key_le(key, entries[s as usize]));
                    }
                    assert forall|i: int| 0 <= i < order.len() implies start.fires_before(
                        #[trigger] grown[i],
                        root,
                    ) by {
                        assert(grown[i] == order[i]);
                    }
                    assert(woken@ =~= base + start.wakes_of(grown));
                    assert(self@.epochs =~= start.epochs);
                    let slots = before.slots@;
                    lemma_relinked(slots, self.slots@, self.free, self.free_list@);
                    lemma_relinked(slots, self.slots@, self.pending_arm, self.arm_list@);
                    lemma_relinked(slots, self.slots@, self.pending_cancel, self.cancel_list@);
                    order = grown;
                }
            }
        }
        proof {
            assert forall|s: u32| order.contains(s) <==> #[trigger] start.due(s, now) by {
                if start.due(s, now) && !order.contains(s) {
                    assert(self@.states[s as int] == start.states[s as int]);
                    assert(self@.due(s, now));
                }
            }
            assert forall|s: int| 0 <= s < start.states.len() implies #[trigger] self@.states[s]
                == start.fire(now).states[s] by {
                assert(self@.states[(s as u32) as int] == self@.states[s]);
            }
            assert(self@.states =~= start.fire(now).states);
            assert(start.firing_order(now, order));
        }
        woken
    }

    /// The heap holds finitely many entries.
    proof fn lemma_entries_finite(self)
        requires
            self.wf(),
        ensures
            heap::heap_entries(self.heap).dom().finite(),
    {
        heap::lemma_finite(heap::heap_entries(self.heap), self.slots@.len() as int);
    }

    /// What the timer does before the driver parks: expire at the turn's clock.
    pub fn pre_park(&mut self, now: Instant) -> (woken: Vec<WakeRef>)
        requires
            old(self).wf(),
        ensures
            final(self).wf(),
            exists|n: int, order: Seq<u32>|
                {
                    &&& #[trigger] starved::overdue(old(self)@.starved, now, n)
                    &&& #[trigger] old(self)@.let_go(n).flushed().firing_order(now, order)
                    &&& final(self)@ == old(self)@.let_go(n).flushed().fire(now)
                    &&& woken@ == starved::wakes(old(self)@.starved.take(n)) + old(self)@.let_go(
                        n,
                    ).flush_wakes() + old(self)@.let_go(n).flushed().wakes_of(order)
                },
    {
        self.expire(now)
    }

    pub fn idle(&self) -> (idle: Idle)
        requires
            self.wf(),
        ensures
            idle is Park,
            self@.is_earliest(idle->Park_0),
    {
        Idle::Park(self.earliest())
    }
}

} // verus!
