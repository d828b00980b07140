//! A timer whose slots are created on demand up to a cap.
//!
//! Armed slots stand in a binary min-heap ordered by deadline. Every slot
//! remembers its place in the heap, so that a ticket can be canceled without a
//! search.
use vstd::prelude::*;

use crate::manifold::Idle;
use crate::park::WakeRef;
use crate::time::Instant;

verus! {

pub const TIMER_CAP_HINT: usize = 4096;

pub const TIMER_DEFAULT_CAP: usize = 262144;

const NOT_IN_HEAP: u32 = 0xffff_ffff;

/// Names one arming of one slot: it goes stale when the slot is released.
#[derive(Clone, Copy, PartialEq, Eq, Structural, Debug)]
pub struct Ticket {
    pub slot: u32,
    pub epoch: u32,
}

#[derive(Clone, Copy)]
enum State {
    Free,
    Armed(WakeRef),
    Fired,
}

struct Slot {
    epoch: u32,
    heap_pos: u32,
    state: State,
}

#[derive(Clone, Copy)]
struct HeapEntry {
    deadline: Instant,
    slot: u32,
    epoch: u32,
}

pub struct Timer<const ID: u8> {
    slots: Vec<Slot>,
    free: Vec<u32>,
    heap: Vec<HeapEntry>,
    starved: Vec<WakeRef>,
    cap: usize,
}

/// What a slot is doing.
pub enum SlotState {
    Free,
    Armed { deadline: Instant, caller: WakeRef },
    Fired,
}

/// The abstract value of a [`Timer`].
pub struct TimerView {
    /// The most slots the timer may ever hold.
    pub cap: nat,
    /// The epoch of each slot: a ticket is live while it names the slot's epoch.
    pub epochs: Seq<u32>,
    pub states: Seq<SlotState>,
    /// Released slots, the next one to be reused last.
    pub free: Seq<u32>,
    /// Callers waiting for a slot to be released.
    pub starved: Seq<WakeRef>,
}

impl TimerView {
    /// The free list holds each free slot once, and slots stay within the cap.
    pub open spec fn wf(self) -> bool {
        &&& self.epochs.len() == self.states.len() <= self.cap <= u32::MAX
        &&& self.free.no_duplicates()
        &&& forall|s: u32|
            #![trigger self.free.contains(s)]
            #![trigger self.states[s as int]]
            self.free.contains(s) <==> s < self.states.len() && self.states[s as int] is Free
    }

    pub open spec fn live(self, ticket: Ticket) -> bool {
        &&& ticket.slot < self.states.len()
        &&& self.epochs[ticket.slot as int] == ticket.epoch
        &&& !(self.states[ticket.slot as int] is Free)
    }

    pub open spec fn fired(self, ticket: Ticket) -> bool {
        &&& ticket.slot < self.states.len()
        &&& self.epochs[ticket.slot as int] == ticket.epoch
        &&& self.states[ticket.slot as int] is Fired
    }

    pub open spec fn armed(self, slot: int) -> bool {
        0 <= slot < self.states.len() && self.states[slot] is Armed
    }

    pub open spec fn deadline(self, slot: int) -> Instant {
        self.states[slot]->deadline
    }

    /// Slot `slot` is armed with a deadline that has passed at `now`.
    pub open spec fn due(self, slot: int, now: Instant) -> bool {
        self.armed(slot) && self.deadline(slot) <= now
    }

    /// The earliest deadline of an armed slot.
    pub open spec fn is_earliest(self, deadline: Option<Instant>) -> bool {
        match deadline {
            None => forall|s: int| !#[trigger] self.armed(s),
            Some(d) => {
                &&& exists|s: int| #[trigger] self.armed(s) && self.deadline(s) == d
                &&& forall|s: int| #[trigger] self.armed(s) ==> d <= self.deadline(s)
            },
        }
    }

    /// The timer after every slot that is due at `now` has fired.
    pub open spec fn expired(self, now: Instant) -> TimerView {
        TimerView {
            states: Seq::new(
                self.states.len(),
                |s: int|
                    if self.due(s, now) {
                        SlotState::Fired
                    } else {
                        self.states[s]
                    },
            ),
            ..self
        }
    }

    /// `order` lists exactly the slots that are due at `now`, by deadline.
    pub open spec fn firing_order(self, now: Instant, order: Seq<int>) -> bool {
        &&& order.no_duplicates()
        &&& forall|s: int| order.contains(s) <==> #[trigger] self.due(s, now)
        &&& forall|i: int, j: int|
            0 <= i <= j < order.len() ==> self.deadline(order[i]) <= self.deadline(order[j])
    }

    /// The ticket that arming would hand out now, if any slot can be had.
    pub open spec fn next_ticket(self) -> Option<Ticket> {
        if self.free.len() > 0 {
            Some(Ticket { slot: self.free.last(), epoch: self.epochs[self.free.last() as int] })
        } else if self.states.len() < self.cap {
            Some(Ticket { slot: self.states.len() as u32, epoch: 0 })
        } else {
            None
        }
    }

    /// The timer after a slot has been armed, if one can be had.
    pub open spec fn arm(self, deadline: Instant, caller: WakeRef) -> TimerView {
        let state = SlotState::Armed { deadline, caller };
        if self.free.len() > 0 {
            TimerView {
                states: self.states.update(self.free.last() as int, state),
                free: self.free.drop_last(),
                ..self
            }
        } else if self.states.len() < self.cap {
            TimerView { epochs: self.epochs.push(0), states: self.states.push(state), ..self }
        } else {
            self
        }
    }

    /// The timer after `ticket` has been canceled: a live ticket's slot is
    /// released under its next epoch and all starved callers are let go.
    pub open spec fn cancel(self, ticket: Ticket) -> TimerView {
        if self.live(ticket) {
            TimerView {
                epochs: self.epochs.update(
                    ticket.slot as int,
                    if ticket.epoch == u32::MAX {
                        0
                    } else {
                        (ticket.epoch + 1) as u32
                    },
                ),
                states: self.states.update(ticket.slot as int, SlotState::Free),
                free: self.free.push(ticket.slot),
                starved: Seq::empty(),
                ..self
            }
        } else {
            self
        }
    }

    pub open spec fn replace_caller(self, ticket: Ticket, caller: WakeRef) -> TimerView {
        if self.live(ticket) && self.armed(ticket.slot as int) {
            TimerView {
                states: self.states.update(
                    ticket.slot as int,
                    SlotState::Armed { deadline: self.deadline(ticket.slot as int), caller },
                ),
                ..self
            }
        } else {
            self
        }
    }

    pub open spec fn callers(self, order: Seq<int>) -> Seq<WakeRef> {
        Seq::new(order.len(), |i: int| self.states[order[i]]->caller)
    }
}

/// A canceled ticket is neither live nor fired, whatever it was before.
pub proof fn law_cancel_ends_ticket(timer: TimerView, ticket: Ticket)
    requires
        timer.wf(),
    ensures
        !timer.cancel(ticket).live(ticket),
        !timer.cancel(ticket).fired(ticket),
{
}

/// Canceling touches no other slot: any ticket of another slot fires, or stays
/// live, exactly as it would have without the cancellation.
pub proof fn law_cancel_leaves_others(timer: TimerView, ticket: Ticket, other: Ticket)
    requires
        timer.wf(),
        other.slot != ticket.slot,
    ensures
        timer.cancel(ticket).live(other) == timer.live(other),
        timer.cancel(ticket).fired(other) == timer.fired(other),
{
}

/// The slot of a canceled ticket is the next to be armed, under another epoch.
pub proof fn law_canceled_slot_is_reused(timer: TimerView, ticket: Ticket)
    requires
        timer.wf(),
        timer.live(ticket),
    ensures
        timer.cancel(ticket).next_ticket() is Some,
        timer.cancel(ticket).next_ticket()->0.slot == ticket.slot,
        timer.cancel(ticket).next_ticket()->0 != ticket,
{
}

/// Arming fails exactly when no slot is free and the cap has been reached, and
/// a freshly armed ticket is live and fires when its deadline has passed, not
/// before.
pub proof fn law_arm_then_expire(
    timer: TimerView,
    deadline: Instant,
    caller: WakeRef,
    now: Instant,
)
    requires
        timer.wf(),
    ensures
        timer.next_ticket() is None <==> timer.free.len() == 0 && timer.states.len() == timer.cap,
        timer.next_ticket() matches Some(ticket) ==> {
            let armed = timer.arm(deadline, caller);
            &&& armed.live(ticket)
            &&& !armed.fired(ticket)
            &&& armed.expired(now).live(ticket)
            &&& armed.expired(now).fired(ticket) <==> deadline <= now
        },
{
    if timer.free.len() > 0 {
        assert(timer.free.contains(timer.free.last()));
    }
}

/// Once all due slots have fired, the earliest deadline left lies ahead, and
/// expiring again at the same instant changes nothing.
pub proof fn law_expire_settles(timer: TimerView, now: Instant, earliest: Instant)
    requires
        timer.expired(now).is_earliest(Some(earliest)),
    ensures
        now < earliest,
        timer.expired(now).expired(now) == timer.expired(now),
{
    let after = timer.expired(now);
    assert forall|s: int| !#[trigger] after.due(s, now) by {}
    let s = choose|s: int| #[trigger] after.armed(s) && after.deadline(s) == earliest;
    assert(!after.due(s, now));
    assert(after.expired(now).states =~= after.states);
}

/// Arming takes the slot that was released last, or a new one if there is none and
/// the cap allows it, for the deadline and the caller that it is armed with. Nothing
/// else changes; if no slot can be had nothing does.
pub proof fn law_arming_takes_one_slot(timer: TimerView, deadline: Instant, caller: WakeRef, s: int)
    requires
        timer.wf(),
        0 <= s < timer.states.len(),
    ensures
        timer.next_ticket() is None ==> timer.arm(deadline, caller) == timer,
        timer.next_ticket() matches Some(ticket) ==> {
            let after = timer.arm(deadline, caller);
            let slot = ticket.slot as int;
            &&& after.states[slot] == SlotState::Armed { deadline, caller }
            &&& after.epochs[slot] == ticket.epoch
            &&& slot < timer.states.len() ==> timer.states[slot] is Free && timer.epochs[slot]
                == ticket.epoch && after.states.len() == timer.states.len() && timer.free
                == after.free + seq![ticket.slot]
            &&& slot >= timer.states.len() ==> slot == timer.states.len() && ticket.epoch == 0
                && timer.free.len() == 0 && after.free.len() == 0 && after.states.len()
                == timer.states.len() + 1
            &&& s != slot ==> after.states[s] == timer.states[s]
            &&& s != slot ==> after.epochs[s] == timer.epochs[s]
            &&& after.starved == timer.starved
            &&& after.cap == timer.cap
        },
{
    if timer.free.len() > 0 {
        assert(timer.free.contains(timer.free.last()));
        assert(timer.free =~= timer.free.drop_last() + seq![timer.free.last()]);
    }
}

/// Canceling a live ticket frees its slot, the next to be armed, under the next epoch,
/// the first one again after the last; nobody waits for a slot any more. A ticket that
/// is not live changes nothing.
pub proof fn law_cancel_frees_one_slot(timer: TimerView, ticket: Ticket, s: int)
    requires
        timer.wf(),
        0 <= s < timer.states.len(),
    ensures
        ({
            let after = timer.cancel(ticket);
            let slot = ticket.slot as int;
            let live = slot < timer.states.len() && timer.epochs[slot] == ticket.epoch && !(
            timer.states[slot] is Free);
            &&& timer.live(ticket) <==> live
            &&& timer.fired(ticket) <==> live && timer.states[slot] is Fired
            &&& !live ==> after == timer
            &&& live ==> {
                &&& after.states[slot] is Free
                &&& ticket.epoch < u32::MAX ==> after.epochs[slot] == ticket.epoch + 1
                &&& ticket.epoch == u32::MAX ==> after.epochs[slot] == 0
                &&& after.free == timer.free + seq![ticket.slot]
                &&& after.starved.len() == 0
            }
            &&& s != slot ==> after.states[s] == timer.states[s] && after.epochs[s]
                == timer.epochs[s]
            &&& after.states.len() == timer.states.len()
            &&& after.cap == timer.cap
        }),
{
    assert(timer.free.push(ticket.slot) =~= timer.free + seq![ticket.slot]);
}

/// Another caller is woken in place of the one that a ticket was armed with exactly
/// while it is armed; its deadline stays, and nothing else changes.
pub proof fn law_other_caller_same_deadline(timer: TimerView, ticket: Ticket, caller: WakeRef)
    ensures
        ({
            let after = timer.replace_caller(ticket, caller);
            let slot = ticket.slot as int;
            let armed = slot < timer.states.len() && timer.epochs[slot] == ticket.epoch
                && timer.states[slot] is Armed;
            &&& !armed ==> after == timer
            &&& armed ==> {
                &&& after.states[slot] == SlotState::Armed {
                    deadline: timer.states[slot]->deadline,
                    caller,
                }
                &&& after.epochs == timer.epochs
                &&& after.free == timer.free
                &&& after.starved == timer.starved
                &&& after.cap == timer.cap
                &&& forall|s: int|
                    0 <= s < timer.states.len() && s != slot ==> #[trigger] after.states[s]
                        == timer.states[s]
            }
        }),
{
}

/// Exactly the armed slots whose deadline has passed fire; no other slot changes, nor
/// does any epoch or list.
pub proof fn law_exactly_the_due_fire(timer: TimerView, now: Instant, s: int)
    requires
        0 <= s < timer.states.len(),
    ensures
        ({
            let after = timer.expired(now);
            let due = match timer.states[s] {
                SlotState::Armed { deadline, .. } => deadline <= now,
                _ => false,
            };
            &&& due ==> after.states[s] is Fired
            &&& !due ==> after.states[s] == timer.states[s]
            &&& after.states.len() == timer.states.len()
            &&& after.epochs == timer.epochs
            &&& after.free == timer.free
            &&& after.starved == timer.starved
            &&& after.cap == timer.cap
        }),
{
}

/// Slots fire in the order of their deadlines: exactly those whose deadline has
/// passed, each once, and each wakes its caller.
pub proof fn law_fire_in_order_of_deadlines(
    timer: TimerView,
    now: Instant,
    order: Seq<int>,
    i: int,
    j: int,
    s: int,
)
    requires
        timer.firing_order(now, order),
        0 <= i < j < order.len(),
    ensures
        order[i] != order[j],
        order.contains(s) <==> 0 <= s < timer.states.len() && (timer.states[s] matches
            SlotState::Armed { deadline, .. } && deadline <= now),
        timer.states[order[i]] is Armed,
        timer.states[order[j]] is Armed,
        timer.states[order[i]]->deadline <= timer.states[order[j]]->deadline,
        timer.callers(order).len() == order.len(),
        timer.callers(order)[i] == timer.states[order[i]]->caller,
{
    assert(order.contains(order[i]));
    assert(order.contains(order[j]));
    assert(timer.due(order[i], now));
    assert(timer.due(order[j], now));
    assert(timer.due(s, now) <==> order.contains(s));
}

/// Nothing that is armed falls due before the earliest deadline, and something falls
/// due then; where there is none, nothing is armed.
pub proof fn law_nothing_falls_due_before(timer: TimerView, earliest: Option<Instant>, s: int)
    requires
        timer.is_earliest(earliest),
    ensures
        0 <= s < timer.states.len() && timer.states[s] is Armed ==> earliest is Some && earliest->0
            <= timer.states[s]->deadline,
        earliest matches Some(d) ==> exists|k: int|
            0 <= k < timer.states.len() && #[trigger] timer.states[k] is Armed
                && timer.states[k]->deadline == d,
{
    if 0 <= s < timer.states.len() && timer.states[s] is Armed {
        assert(timer.armed(s));
    }
    if let Some(d) = earliest {
        let k = choose|k: int| #[trigger] timer.armed(k) && timer.deadline(k) == d;
        assert(0 <= k < timer.states.len() && timer.states[k] is Armed && timer.states[k]->deadline
            == d);
    }
}

/// The heap position above position `j`.
spec fn parent(j: int) -> int {
    (j - 1) / 2
}

/// The entry at `j` does not come before the one above it.
spec fn ordered_at(heap: Seq<HeapEntry>, j: int) -> bool {
    heap[parent(j)].deadline <= heap[j].deadline
}

spec fn ordered(heap: Seq<HeapEntry>) -> bool {
    forall|j: int| 1 <= j < heap.len() ==> #[trigger] ordered_at(heap, j)
}

/// Ordered but for the edge above position `i`.
spec fn ordered_but_up(heap: Seq<HeapEntry>, i: int) -> bool {
    &&& forall|j: int| 1 <= j < heap.len() && j != i ==> #[trigger] ordered_at(heap, j)
    &&& bridged(heap, i)
}

/// Ordered but for the edges above and below position `i`.
spec fn ordered_but_at(heap: Seq<HeapEntry>, i: int) -> bool {
    &&& forall|j: int|
        1 <= j < heap.len() && j != i && parent(j) != i ==> #[trigger] ordered_at(heap, j)
    &&& bridged(heap, i)
}

/// The entries below position `i` do not come before the one above it.
spec fn bridged(heap: Seq<HeapEntry>, i: int) -> bool {
    i > 0 ==> forall|j: int|
        1 <= j < heap.len() && parent(j) == i ==> heap[parent(i)].deadline <= (
        #[trigger] heap[j]).deadline
}

/// The first entry of an ordered heap is a least one.
proof fn lemma_root_least(heap: Seq<HeapEntry>, j: int)
    requires
        ordered(heap),
        0 <= j < heap.len(),
    ensures
        heap[0].deadline <= heap[j].deadline,
    decreases j,
{
    if j > 0 {
        assert(ordered_at(heap, j));
        lemma_root_least(heap, parent(j));
    }
}

/// A heap whose only doubtful edges are those around `start` and below `i` has
/// no doubtful edge left below `start` once the entries below `i` are in order.
proof fn lemma_settled(heap: Seq<HeapEntry>, start: int, i: int)
    requires
        0 <= start <= i < heap.len(),
        bridged(heap, i),
        forall|j: int|
            1 <= j < heap.len() && (j != start || i != start) && parent(j) != i
                ==> #[trigger] ordered_at(heap, j),
        2 * i + 1 < heap.len() ==> heap[i].deadline <= heap[2 * i + 1].deadline,
        2 * i + 2 < heap.len() ==> heap[i].deadline <= heap[2 * i + 2].deadline,
    ensures
        ordered_but_up(heap, start),
{
    assert forall|j: int| 1 <= j < heap.len() && j != start implies #[trigger] ordered_at(
        heap,
        j,
    ) by {
        assert(parent(j) == i ==> j == 2 * i + 1 || j == 2 * i + 2);
    }
    if i != start && start > 0 {
        assert(ordered_at(heap, start));
        assert forall|j: int| 1 <= j < heap.len() && parent(j) == start implies heap[parent(
            start,
        )].deadline <= (#[trigger] heap[j]).deadline by {
            assert(ordered_at(heap, j));
        }
    }
}

impl<const ID: u8> View for Timer<ID> {
    type V = TimerView;

    closed spec fn view(&self) -> TimerView {
        TimerView {
            cap: self.cap as nat,
            epochs: Seq::new(self.slots@.len(), |s: int| self.slots@[s].epoch),
            states: Seq::new(self.slots@.len(), |s: int| self.state_of(s)),
            free: self.free@,
            starved: self.starved@,
        }
    }
}

impl<const ID: u8> Timer<ID> {
    spec fn state_of(self, s: int) -> SlotState {
        match self.slots@[s].state {
            State::Free => SlotState::Free,
            State::Armed(caller) => SlotState::Armed {
                deadline: self.heap@[self.slots@[s].heap_pos as int].deadline,
                caller,
            },
            State::Fired => SlotState::Fired,
        }
    }

    /// The heap and the slots' places in it agree.
    spec fn linked(self) -> bool {
        &&& self.slots@.len() <= self.cap <= u32::MAX
        &&& self.heap@.len() <= self.slots@.len()
        &&& forall|p: int|
            0 <= p < self.heap@.len() ==> {
                let s = (#[trigger] self.heap@[p]).slot as int;
                &&& s < self.slots@.len()
                &&& self.slots@[s].heap_pos == p
                &&& self.slots@[s].epoch == self.heap@[p].epoch
            }
        &&& forall|s: int|
            0 <= s < self.slots@.len() && (#[trigger] self.slots@[s]).heap_pos != NOT_IN_HEAP ==> {
                &&& self.slots@[s].heap_pos < self.heap@.len()
                &&& self.heap@[self.slots@[s].heap_pos as int].slot == s
            }
    }

    /// Exactly the armed slots stand in the heap.
    spec fn armed_in_heap(self) -> bool {
        forall|s: int|
            0 <= s < self.slots@.len() ==> ((#[trigger] self.slots@[s]).state is Armed
                <==> self.slots@[s].heap_pos != NOT_IN_HEAP)
    }

    spec fn free_wf(self) -> bool {
        &&& self.free@.no_duplicates()
        &&& forall|i: int|
            0 <= i < self.free@.len() ==> (#[trigger] self.free@[i]) < self.slots@.len()
                && self.slots@[self.free@[i] as int].state is Free
        &&& forall|s: int|
            0 <= s < self.slots@.len() && (#[trigger] self.slots@[s]).state is Free
                ==> self.free@.contains(s as u32)
    }

    pub closed spec fn wf(self) -> bool {
        &&& self.linked()
        &&& self.armed_in_heap()
        &&& ordered(self.heap@)
        &&& self.free_wf()
    }

    /// Same slots, same deadlines: only places in the heap may differ.
    spec fn same_slots(self, other: Self) -> bool {
        &&& self.slots@.len() == other.slots@.len()
        &&& self.heap@.len() == other.heap@.len()
        &&& self.free == other.free
        &&& self.starved == other.starved
        &&& self.cap == other.cap
        &&& forall|s: int|
            0 <= s < self.slots@.len() ==> {
                &&& (#[trigger] self.slots@[s]).epoch == other.slots@[s].epoch
                &&& self.slots@[s].state == other.slots@[s].state
                &&& (self.slots@[s].heap_pos != NOT_IN_HEAP <==> other.slots@[s].heap_pos
                    != NOT_IN_HEAP)
                &&& self.slots@[s].heap_pos != NOT_IN_HEAP
                    ==> self.heap@[self.slots@[s].heap_pos as int]
                    == other.heap@[other.slots@[s].heap_pos as int]
            }
    }

    /// Like `same_slots`, but slot `hole` stands in the heap in one of the two only.
    spec fn same_slots_but(self, other: Self, hole: int) -> bool {
        &&& self.slots@.len() == other.slots@.len()
        &&& self.free == other.free
        &&& self.starved == other.starved
        &&& self.cap == other.cap
        &&& forall|s: int|
            0 <= s < self.slots@.len() ==> {
                &&& (#[trigger] self.slots@[s]).epoch == other.slots@[s].epoch
                &&& self.slots@[s].state == other.slots@[s].state
                &&& s != hole ==> (self.slots@[s].heap_pos != NOT_IN_HEAP
                    <==> other.slots@[s].heap_pos != NOT_IN_HEAP)
                &&& s != hole && self.slots@[s].heap_pos != NOT_IN_HEAP
                    ==> self.heap@[self.slots@[s].heap_pos as int]
                    == other.heap@[other.slots@[s].heap_pos as int]
            }
    }

    /// What a well-formed timer shows of itself is well-formed.
    pub proof fn lemma_view_wf(&self)
        requires
            self.wf(),
        ensures
            self@.wf(),
    {
    }

    fn heap_swap(&mut self, i: usize, j: usize)
        requires
            old(self).linked(),
            i < old(self).heap@.len(),
            j < old(self).heap@.len(),
        ensures
            final(self).linked(),
            final(self).same_slots(*old(self)),
            final(self).heap@ == old(self).heap@.update(i as int, old(self).heap@[j as int]).update(
                j as int,
                old(self).heap@[i as int],
            ),
    {
        let a = self.heap[i];
        self.heap[i] = self.heap[j];
        self.heap[j] = a;
        let si = self.heap[i].slot as usize;
        let sj = self.heap[j].slot as usize;
        self.slots[si].heap_pos = i as u32;
        self.slots[sj].heap_pos = j as u32;
    }

    fn sift_up(&mut self, start: usize)
        requires
            old(self).linked(),
            start < old(self).heap@.len(),
            ordered_but_up(old(self).heap@, start as int),
        ensures
            final(self).linked(),
            final(self).same_slots(*old(self)),
            ordered(final(self).heap@),
    {
        let mut i: usize = start;
        while i > 0
            invariant
                self.linked(),
                self.same_slots(*old(self)),
                i < self.heap@.len(),
                ordered_but_up(self.heap@, i as int),
            ensures
                self.linked(),
                self.same_slots(*old(self)),
                ordered(self.heap@),
            decreases i,
        {
            let above = (i - 1) / 2;
            if self.heap[above].deadline <= self.heap[i].deadline {
                assert(ordered_at(self.heap@, i as int));
                break ;
            }
            let ghost before = self.heap@;
            self.heap_swap(above, i);
            proof {
                let after = self.heap@;
                assert forall|j: int| 1 <= j < after.len() && j != above implies #[trigger] ordered_at(
                    after,
                    j,
                ) by {
                    assert(j != i ==> ordered_at(before, j));
                    assert(above > 0 ==> ordered_at(before, above as int));
                }
                assert(bridged(after, above as int)) by {
                    if above > 0 {
                        assert(ordered_at(before, above as int));
                        assert forall|j: int|
                            1 <= j < after.len() && parent(j) == above implies after[parent(
                            above as int,
                        )].deadline <= (#[trigger] after[j]).deadline by {
                            assert(j != i ==> ordered_at(before, j));
                        }
                    }
                }
            }
            i = above;
        }
    }

    fn sift_down(&mut self, start: usize)
        requires
            old(self).linked(),
            start < old(self).heap@.len(),
            ordered_but_at(old(self).heap@, start as int),
        ensures
            final(self).linked(),
            final(self).same_slots(*old(self)),
            ordered_but_up(final(self).heap@, start as int),
    {
        let mut i: usize = start;
        let len = self.heap.len();
        loop
            invariant
                self.linked(),
                self.same_slots(*old(self)),
                start <= i < len == self.heap@.len(),
                bridged(self.heap@, i as int),
                forall|j: int|
                    1 <= j < self.heap@.len() && (j != start || i != start) && parent(j) != i
                        ==> #[trigger] ordered_at(self.heap@, j),
            ensures
                self.linked(),
                self.same_slots(*old(self)),
                ordered_but_up(self.heap@, start as int),
            decreases len - i,
        {
            if i >= len / 2 {
                proof {
                    lemma_settled(self.heap@, start as int, i as int);
                }
                break ;
            }
            let l = 2 * i + 1;
            let r = 2 * i + 2;
            let mut smallest = i;
            if l < len && self.heap[l].deadline < self.heap[smallest].deadline {
                smallest = l;
            }
            if r < len && self.heap[r].deadline < self.heap[smallest].deadline {
                smallest = r;
            }
            if smallest == i {
                proof {
                    lemma_settled(self.heap@, start as int, i as int);
                }
                break ;
            }
            let ghost before = self.heap@;
            self.heap_swap(i, smallest);
            proof {
                let after = self.heap@;
                assert forall|j: int| 1 <= j < after.len() && parent(j) != smallest implies #[trigger] ordered_at(
                    after,
                    j,
                ) by {
                    if j != i && parent(j) != i {
                        assert(ordered_at(before, j));
                    }
                }
                assert forall|j: int| 1 <= j < after.len() && parent(j) == smallest implies after[parent(
                    smallest as int,
                )].deadline <= (#[trigger] after[j]).deadline by {
                    assert(ordered_at(before, j));
                }
            }
            i = smallest;
        }
    }

    fn heap_push(&mut self, entry: HeapEntry)
        requires
            old(self).linked(),
            ordered(old(self).heap@),
            entry.slot < old(self).slots@.len(),
            old(self).slots@[entry.slot as int].heap_pos == NOT_IN_HEAP,
            old(self).slots@[entry.slot as int].epoch == entry.epoch,
            old(self).heap@.len() < old(self).slots@.len(),
        ensures
            final(self).linked(),
            ordered(final(self).heap@),
            final(self).same_slots_but(*old(self), entry.slot as int),
            final(self).slots@[entry.slot as int].heap_pos != NOT_IN_HEAP,
            final(self).heap@[final(self).slots@[entry.slot as int].heap_pos as int] == entry,
            final(self).heap@.len() == old(self).heap@.len() + 1,
    {
        let i = self.heap.len();
        let slot = entry.slot as usize;
        self.heap.push(entry);
        self.slots[slot].heap_pos = i as u32;
        proof {
            assert forall|j: int| 1 <= j < self.heap@.len() && j != i implies #[trigger] ordered_at(
                self.heap@,
                j,
            ) by {
                assert(ordered_at(old(self).heap@, j));
            }
        }
        self.sift_up(i);
    }

    fn heap_remove(&mut self, pos: usize)
        requires
            old(self).linked(),
            ordered(old(self).heap@),
            pos < old(self).heap@.len(),
        ensures
            final(self).linked(),
            ordered(final(self).heap@),
            final(self).same_slots_but(*old(self), old(self).heap@[pos as int].slot as int),
            final(self).slots@[old(self).heap@[pos as int].slot as int].heap_pos == NOT_IN_HEAP,
            final(self).heap@.len() == old(self).heap@.len() - 1,
    {
        let last = self.heap.len() - 1;
        self.heap_swap(pos, last);
        if let Some(out) = self.heap.pop() {
            self.slots[out.slot as usize].heap_pos = NOT_IN_HEAP;
        }
        if pos == last {
            assert forall|j: int| 1 <= j < self.heap@.len() implies #[trigger] ordered_at(
                self.heap@,
                j,
            ) by {
                assert(ordered_at(old(self).heap@, j));
            }
            return ;
        }
        proof {
            let kept = self.heap@;
            assert forall|j: int|
                1 <= j < kept.len() && j != pos && parent(j) != pos implies #[trigger] ordered_at(
                kept,
                j,
            ) by {
                assert(ordered_at(old(self).heap@, j));
            }
            assert forall|j: int|
                pos > 0 && 1 <= j < kept.len() && parent(j) == pos implies kept[parent(
                pos as int,
            )].deadline <= (#[trigger] kept[j]).deadline by {
                assert(ordered_at(old(self).heap@, j));
                assert(ordered_at(old(self).heap@, pos as int));
            }
        }
        self.sift_down(pos);
        self.sift_up(pos);
    }

    fn heap_pop(&mut self) -> (out: Option<HeapEntry>)
        requires
            old(self).linked(),
            ordered(old(self).heap@),
        ensures
            final(self).linked(),
            ordered(final(self).heap@),
            match out {
                None => old(self).heap@.len() == 0 && *final(self) == *old(self),
                Some(entry) => {
                    &&& old(self).heap@.len() > 0
                    &&& entry == old(self).heap@[0]
                    &&& final(self).heap@.len() == old(self).heap@.len() - 1
                    &&& final(self).same_slots_but(*old(self), entry.slot as int)
                    &&& final(self).slots@[entry.slot as int].heap_pos == NOT_IN_HEAP
                },
            },
    {
        if self.heap.len() == 0 {
            return None;
        }
        let out = self.heap[0];
        self.heap_remove(0);
        Some(out)
    }

    /// A slot outside the heap leaves room in the heap.
    proof fn lemma_room(self, s: int)
        requires
            self.linked(),
            0 <= s < self.slots@.len(),
            self.slots@[s].heap_pos == NOT_IN_HEAP,
        ensures
            self.heap@.len() < self.slots@.len(),
    {
        let taken = Seq::new(self.heap@.len(), |p: int| self.heap@[p].slot as int);
        let all = vstd::set_lib::set_int_range(0, self.slots@.len() as int);
        vstd::set_lib::lemma_int_range(0, self.slots@.len() as int);
        assert(taken.no_duplicates());
        taken.unique_seq_to_set();
        assert(taken.to_set().subset_of(all.remove(s)));
        vstd::set_lib::lemma_len_subset(taken.to_set(), all.remove(s));
    }

    pub fn with_capacity(cap: usize) -> (timer: Self)
        requires
            cap <= u32::MAX,
        ensures
            timer.wf(),
            timer@ == (TimerView {
                cap: cap as nat,
                epochs: Seq::empty(),
                states: Seq::empty(),
                free: Seq::empty(),
                starved: Seq::empty(),
            }),
    {
        let hint = if TIMER_CAP_HINT < cap {
            TIMER_CAP_HINT
        } else {
            cap
        };
        let timer = Timer {
            slots: Vec::with_capacity(hint),
            free: Vec::with_capacity(hint),
            heap: Vec::with_capacity(hint),
            starved: Vec::new(),
            cap,
        };
        assert(timer@.epochs =~= Seq::empty());
        assert(timer@.states =~= Seq::empty());
        timer
    }

    pub fn new() -> (timer: Self)
        ensures
            timer.wf(),
            timer@ == (TimerView {
                cap: TIMER_DEFAULT_CAP as nat,
                epochs: Seq::empty(),
                states: Seq::empty(),
                free: Seq::empty(),
                starved: Seq::empty(),
            }),
    {
        Self::with_capacity(TIMER_DEFAULT_CAP)
    }

    /// Remembers `caller` until a slot is released, once.
    pub fn register_starved(&mut self, caller: WakeRef)
        requires
            old(self).wf(),
        ensures
            final(self).wf(),
            final(self)@ == (TimerView {
                starved: if old(self)@.starved.contains(caller) {
                    old(self)@.starved
                } else {
                    old(self)@.starved.push(caller)
                },
                ..old(self)@
            }),
    {
        let mut i: usize = 0;
        while i < self.starved.len()
            invariant
                *self == *old(self),
                self.wf(),
                i <= self.starved@.len(),
                forall|k: int| 0 <= k < i ==> self.starved@[k] != caller,
            decreases self.starved@.len() - i,
        {
            if self.starved[i] == caller {
                return ;
            }
            i += 1;
        }
        self.starved.push(caller);
        proof {
            assert(!old(self).starved@.contains(caller));
            assert(self@.states =~= old(self)@.states);
            assert(self@.epochs =~= old(self)@.epochs);
        }
    }

    /// Arms a slot for `deadline`, or returns `None` when all slots are taken.
    pub fn try_arm(&mut self, deadline: Instant, caller: WakeRef) -> (ticket: Option<Ticket>)
        requires
            old(self).wf(),
        ensures
            final(self).wf(),
            ticket == old(self)@.next_ticket(),
            final(self)@ == old(self)@.arm(deadline, caller),
    {
        let slot: u32 = match self.free.pop() {
            Some(s) => {
                self.slots[s as usize].state = State::Armed(caller);
                s
            },
            None => {
                if self.slots.len() >= self.cap {
                    assert(self@.epochs =~= old(self)@.epochs);
                    assert(self@.states =~= old(self)@.states);
                    return None;
                }
                let s = self.slots.len() as u32;
                self.slots.push(
                    Slot { epoch: 0, heap_pos: NOT_IN_HEAP, state: State::Armed(caller) },
                );
                s
            },
        };
        let epoch = self.slots[slot as usize].epoch;
        proof {
            self.lemma_room(slot as int);
        }
        self.heap_push(HeapEntry { deadline, slot, epoch });
        proof {
            let goal = old(self)@.arm(deadline, caller);
            assert(self@.epochs =~= goal.epochs);
            assert(self@.states =~= goal.states);
            assert(self@.free =~= goal.free);
            assert forall|s: int|
                0 <= s < self.slots@.len() && (
                #[trigger] self.slots@[s]).state is Free implies self.free@.contains(s as u32) by {
                let i = choose|i: int|
                    0 <= i < old(self).free@.len() && old(self).free@[i] == s as u32;
                assert(old(self).slots@[s].state is Free);
                assert(self.free@[i] == s as u32);
            }
        }
        Some(Ticket { slot, epoch })
    }

    pub fn is_fired(&self, ticket: Ticket) -> (fired: bool)
        ensures
            fired == self@.fired(ticket),
    {
        let slot = ticket.slot as usize;
        if slot < self.slots.len() {
            self.slots[slot].epoch == ticket.epoch && matches!(self.slots[slot].state, State::Fired)
        } else {
            false
        }
    }

    /// Has `caller` woken in place of the one that `ticket` was armed with.
    pub fn replace_caller(&mut self, ticket: Ticket, caller: WakeRef)
        requires
            old(self).wf(),
        ensures
            final(self).wf(),
            final(self)@ == old(self)@.replace_caller(ticket, caller),
    {
        let slot = ticket.slot as usize;
        if slot < self.slots.len() && self.slots[slot].epoch == ticket.epoch && matches!(
            self.slots[slot].state,
            State::Armed(_)
        ) {
            self.slots[slot].state = State::Armed(caller);
            proof {
                let goal = old(self)@.replace_caller(ticket, caller);
                assert(self@.epochs =~= goal.epochs);
                assert(self@.states =~= goal.states);
            }
        }
    }

    /// Releases the slot of a live ticket and returns the callers to wake.
    pub fn cancel(&mut self, ticket: Ticket) -> (woken: Vec<WakeRef>)
        requires
            old(self).wf(),
        ensures
            final(self).wf(),
            final(self)@ == old(self)@.cancel(ticket),
            woken@ == if old(self)@.live(ticket) {
                old(self)@.starved
            } else {
                Seq::empty()
            },
    {
        let slot = ticket.slot as usize;
        if slot >= self.slots.len() {
            return Vec::new();
        }
        if matches!(self.slots[slot].state, State::Free) || self.slots[slot].epoch != ticket.epoch {
            return Vec::new();
        }
        let pos = self.slots[slot].heap_pos;
        if pos != NOT_IN_HEAP {
            self.heap_remove(pos as usize);
        }
        let woken = self.release(ticket.slot);
        proof {
            let goal = old(self)@.cancel(ticket);
            assert(self@.starved =~= goal.starved);
            assert(self@.epochs =~= goal.epochs);
            assert(self@.states =~= goal.states);
            assert forall|s: int|
                0 <= s < self.slots@.len() && (
                #[trigger] self.slots@[s]).state is Free implies self.free@.contains(s as u32) by {
                if s != ticket.slot {
                    assert(old(self).slots@[s].state is Free);
                    let i = choose|i: int|
                        0 <= i < old(self).free@.len() && old(self).free@[i] == s as u32;
                    assert(self.free@[i] == s as u32);
                } else {
                    assert(self.free@[self.free@.len() - 1] == ticket.slot);
                }
            }
        }
        woken
    }

    fn release(&mut self, slot: u32) -> (woken: Vec<WakeRef>)
        requires
            old(self).linked(),
            ordered(old(self).heap@),
            slot < old(self).slots@.len(),
            old(self).slots@[slot as int].heap_pos == NOT_IN_HEAP,
        ensures
            final(self).linked(),
            final(self).heap == old(self).heap,
            final(self).cap == old(self).cap,
            final(self).slots@ == old(self).slots@.update(
                slot as int,
                Slot {
                    epoch: if old(self).slots@[slot as int].epoch == u32::MAX {
                        0
                    } else {
                        (old(self).slots@[slot as int].epoch + 1) as u32
                    },
                    heap_pos: NOT_IN_HEAP,
                    state: State::Free,
                },
            ),
            final(self).free@ == old(self).free@.push(slot),
            final(self).starved@.len() == 0,
            woken@ == old(self).starved@,
    {
        self.slots[slot as usize].state = State::Free;
        self.slots[slot as usize].epoch = self.slots[slot as usize].epoch.wrapping_add(1);
        self.slots[slot as usize].heap_pos = NOT_IN_HEAP;
        self.free.push(slot);
        let mut woken: Vec<WakeRef> = Vec::new();
        woken.append(&mut self.starved);
        woken
    }

    /// The earliest deadline that is armed.
    pub fn earliest(&self) -> (deadline: Option<Instant>)
        requires
            self.wf(),
        ensures
            self@.is_earliest(deadline),
    {
        if self.heap.len() == 0 {
            return None;
        }
        let ghost view = self@;
        proof {
            let root = self.heap@[0].slot as int;
            assert(view.armed(root));
            assert forall|s: int| #[trigger] view.armed(s) implies self.heap@[0].deadline
                <= view.deadline(s) by {
                assert(self.slots@[s].state is Armed);
                lemma_root_least(self.heap@, self.slots@[s].heap_pos as int);
            }
        }
        Some(self.heap[0].deadline)
    }

    /// Fires every slot that is due at `now` and returns the callers to wake,
    /// those with earlier deadlines first.
    pub fn expire(&mut self, now: Instant) -> (woken: Vec<WakeRef>)
        requires
            old(self).wf(),
        ensures
            final(self).wf(),
            final(self)@ == old(self)@.expired(now),
            exists|order: Seq<int>| #[trigger]
                old(self)@.firing_order(now, order) && woken@ == old(self)@.callers(order),
    {
        let ghost start = self@;
        let ghost mut order: Seq<int> = Seq::empty();
        let mut woken: Vec<WakeRef> = Vec::new();
        assert(woken@ =~= start.callers(order));
        while self.heap.len() > 0
            invariant
                start == old(self)@,
                self.wf(),
                self@.cap == start.cap,
                self@.epochs == start.epochs,
                self@.free == start.free,
                self@.starved == start.starved,
                self@.states.len() == start.states.len(),
                order.no_duplicates(),
                forall|i: int| 0 <= i < order.len() ==> start.due(#[trigger] order[i], now),
                forall|s: int|
                    0 <= s < start.states.len() ==> #[trigger] self@.states[s] == if order.contains(s) {
                        SlotState::Fired
                    } else {
                        start.states[s]
                    },
                forall|i: int, j: int|
                    0 <= i <= j < order.len() ==> start.deadline(order[i]) <= start.deadline(
                        order[j],
                    ),
                forall|i: int, s: int|
                    0 <= i < order.len() && #[trigger] self@.armed(s) ==> start.deadline(
                        #[trigger] order[i],
                    ) <= start.deadline(s),
                woken@ == start.callers(order),
            ensures
                forall|s: int| !#[trigger] self@.due(s, now),
            decreases self.heap@.len(),
        {
            let ghost before = *self;
            if self.heap[0].deadline > now {
                proof {
                    assert forall|s: int| !#[trigger] self@.due(s, now) by {
                        if self@.armed(s) {
                            assert(self.slots@[s].state is Armed);
                            lemma_root_least(self.heap@, self.slots@[s].heap_pos as int);
                        }
                    }
                }
                break ;
            }
            let ghost root = self.heap@[0].slot as int;
            proof {
                assert(self.slots@[root].state is Armed);
                assert(self@.states[root] == start.states[root]);
                assert forall|s: int| #[trigger] self@.armed(s) implies start.deadline(root)
                    <= start.deadline(s) by {
                    assert(self.slots@[s].state is Armed);
                    assert(self@.states[s] == start.states[s]);
                    lemma_root_least(self.heap@, self.slots@[s].heap_pos as int);
                }
            }
            if let Some(entry) = self.heap_pop() {
                let slot = entry.slot as usize;
                let state = self.slots[slot].state;
                self.slots[slot].state = State::Fired;
                if let State::Armed(caller) = state {
                    woken.push(caller);
                }
                proof {
                    let grown = order.push(root);
                    assert(before@.armed(root));
                    assert forall|i: int| 0 <= i < order.len() implies start.deadline(
                        #[trigger] grown[i],
                    ) <= start.deadline(root) by {
                        assert(grown[i] == order[i]);
                    }
                    assert forall|s: int| 0 <= s < start.states.len() implies #[trigger] self@.states[s]
                        == (if grown.contains(s) {
                        SlotState::Fired
                    } else {
                        start.states[s]
                    }) by {
                        assert(before@.states[s] == if order.contains(s) {
                            SlotState::Fired
                        } else {
                            start.states[s]
                        });
                        if s == root {
                            assert(grown[order.len() as int] == root);
                        } else if order.contains(s) {
                            let i = choose|i: int| 0 <= i < order.len() && order[i] == s;
                            assert(grown[i] == s);
                        } else {
                            assert(!grown.contains(s));
                        }
                    }
                    assert forall|s: int| #[trigger] self@.armed(s) implies before@.armed(s) by {
                        assert(before.slots@[s].state is Armed);
                    }
                    assert(woken@ =~= start.callers(grown));
                    assert(self@.epochs =~= start.epochs);
                    order = grown;
                }
            }
        }
        proof {
            let goal = start.expired(now);
            assert forall|s: int| order.contains(s) <==> #[trigger] start.due(s, now) by {
                if start.due(s, now) && !order.contains(s) {
                    assert(self@.states[s] == start.states[s]);
                    assert(self@.due(s, now));
                }
            }
            assert(self@.states =~= goal.states);
            assert(start.firing_order(now, order));
        }
        woken
    }

    pub fn pre_park(&mut self, now: Instant) -> (woken: Vec<WakeRef>)
        requires
            old(self).wf(),
        ensures
            final(self).wf(),
            final(self)@ == old(self)@.expired(now),
            exists|order: Seq<int>| #[trigger]
                old(self)@.firing_order(now, order) && woken@ == old(self)@.callers(order),
    {
        self.expire(now)
    }

    pub fn idle(&self) -> (idle: Idle)
        requires
            self.wf(),
        ensures
            idle is Park,
            self@.is_earliest(idle->Park_0),
    {
        Idle::Park(self.earliest())
    }
}

impl<const ID: u8> Default for Timer<ID> {
    fn default() -> (timer: Self)
        ensures
            timer.wf(),
            timer@ == (TimerView {
                cap: TIMER_DEFAULT_CAP as nat,
                epochs: Seq::empty(),
                states: Seq::empty(),
                free: Seq::empty(),
                starved: Seq::empty(),
            }),
    {
        Self::new()
    }
}

} // verus!
