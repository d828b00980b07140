//! Connections that are to be closed when nothing happens on them.
use vstd::prelude::*;

use crate::collections::slots;
use crate::collections::slots::SlotList;
use crate::time::{Duration, Instant};

verus! {

/// The connections that run against one kind of deadline, the one that was armed
/// longest ago first.
pub struct IdleSet {
    queue: SlotList,
    window: Duration,
    cap: usize,
}

/// The abstract value of an [`IdleSet`].
pub struct IdleView {
    /// Slots and their deadlines.
    pub queue: Seq<(usize, Instant)>,
    pub window: Duration,
    /// Only slots below it are looked after.
    pub cap: nat,
}

impl IdleView {
    pub open spec fn wf(self) -> bool {
        &&& self.cap <= u32::MAX
        &&& slots::distinct(self.queue)
        &&& forall|i: int| 0 <= i < self.queue.len() ==> (#[trigger] self.queue[i]).0 < self.cap
    }

    pub open spec fn armed(self, index: usize) -> bool {
        slots::has_index(self.queue, index)
    }

    pub open spec fn arm(self, index: u32, now: Instant) -> Self {
        if index < self.cap {
            IdleView {
                queue: slots::without(self.queue, index as usize).push(
                    (index as usize, (now + self.window) as u128),
                ),
                ..self
            }
        } else {
            self
        }
    }

    pub open spec fn cancel(self, index: u32) -> Self {
        IdleView { queue: slots::without(self.queue, index as usize), ..self }
    }

    /// The first deadline.
    pub open spec fn first(self) -> Option<Instant> {
        if self.queue.len() > 0 {
            Some(self.queue[0].1)
        } else {
            None
        }
    }

    /// The first deadline has passed.
    pub open spec fn overdue(self, now: Instant) -> bool {
        self.queue.len() > 0 && self.queue[0].1 <= now
    }

    pub open spec fn pop_expired(self, now: Instant) -> Self {
        if self.overdue(now) {
            IdleView { queue: self.queue.skip(1), ..self }
        } else {
            self
        }
    }

    /// No deadline stands behind a later one. It holds as long as the clock does
    /// not run backwards.
    pub open spec fn in_order(self) -> bool {
        forall|i: int, j: int|
            0 <= i <= j < self.queue.len() ==> (#[trigger] self.queue[i]).1 <= (
            #[trigger] self.queue[j]).1
    }
}

proof fn lemma_without_in_order(queue: Seq<(usize, Instant)>, index: usize, bound: Instant)
    requires
        forall|i: int, j: int|
            0 <= i <= j < queue.len() ==> (#[trigger] queue[i]).1 <= (#[trigger] queue[j]).1,
        forall|i: int| 0 <= i < queue.len() ==> (#[trigger] queue[i]).1 <= bound,
    ensures
        ({
            let kept = slots::without(queue, index);
            &&& forall|i: int, j: int|
                0 <= i <= j < kept.len() ==> (#[trigger] kept[i]).1 <= (#[trigger] kept[j]).1
            &&& forall|i: int| 0 <= i < kept.len() ==> (#[trigger] kept[i]).1 <= bound
        }),
    decreases queue.len(),
{
    reveal(Seq::filter);
    if queue.len() > 0 {
        let init = queue.drop_last();
        let last = queue.last();
        assert forall|i: int| 0 <= i < init.len() implies (#[trigger] init[i]).1 <= last.1 by {
            assert(init[i] == queue[i]);
            assert(queue[queue.len() - 1] == last);
        }
        assert forall|i: int, j: int| 0 <= i <= j < init.len() implies (#[trigger] init[i]).1 <= (
        #[trigger] init[j]).1 by {
            assert(queue[i].1 <= queue[j].1);
        }
        lemma_without_in_order(init, index, last.1);
        assert(queue[queue.len() - 1].1 <= bound);
        let shorter = slots::without(init, index);
        let kept = slots::without(queue, index);
        assert(kept == if last.0 != index {
            shorter.push(last)
        } else {
            shorter
        });
        assert forall|i: int| 0 <= i < kept.len() implies (#[trigger] kept[i]).1 <= bound by {
            if i < shorter.len() {
                assert(kept[i] == shorter[i]);
            }
        }
        assert forall|i: int, j: int| 0 <= i <= j < kept.len() implies (#[trigger] kept[i]).1 <= (
        #[trigger] kept[j]).1 by {
            if j < shorter.len() {
                assert(shorter[i].1 <= shorter[j].1);
            } else if i < shorter.len() {
                assert(shorter[i].1 <= last.1);
            }
        }
    }
}

/// As long as the clock does not run backwards, deadlines stand in the order in
/// which they fall due.
pub proof fn law_armed_in_order(set: IdleView, index: u32, now: Instant)
    requires
        set.wf(),
        set.in_order(),
        now + set.window <= u128::MAX,
        forall|i: int| 0 <= i < set.queue.len() ==> (#[trigger] set.queue[i]).1 <= now + set.window,
    ensures
        set.arm(index, now).in_order(),
        set.cancel(index).in_order(),
        set.pop_expired(now).in_order(),
{
    lemma_without_in_order(set.queue, index as usize, (now + set.window) as u128);
    let after = set.pop_expired(now).queue;
    assert forall|i: int, j: int| 0 <= i <= j < after.len() implies (#[trigger] after[i]).1 <= (
    #[trigger] after[j]).1 by {
        if set.overdue(now) {
            assert(after[i] == set.queue[i + 1]);
            assert(after[j] == set.queue[j + 1]);
        }
    }
}

/// Deadlines in order: when the first has not passed, none has.
pub proof fn law_front_is_earliest(set: IdleView, now: Instant, i: int)
    requires
        set.in_order(),
        0 <= i < set.queue.len(),
    ensures
        set.queue[0].1 <= set.queue[i].1,
        !set.overdue(now) ==> now < set.queue[i].1,
{
    assert(set.queue[0].1 <= set.queue[i].1);
}

/// Arming again moves a deadline, and canceling takes it away: a slot never has
/// two.
pub proof fn law_one_deadline_per_slot(set: IdleView, index: u32, now: Instant)
    requires
        set.wf(),
        index < set.cap,
    ensures
        set.arm(index, now).queue.last() == (index as usize, (now + set.window) as u128),
        set.cancel(index).armed(index as usize) == false,
        set.arm(index, now).cancel(index).queue == set.cancel(index).queue,
{
    reveal(Seq::filter);
    let kept = slots::without(set.queue, index as usize);
    lemma_absent(set.queue, index as usize);
    slots::lemma_without_absent(kept, index as usize);
    let longer = set.arm(index, now).queue;
    assert(longer.drop_last() =~= kept);
}

/// Arming a slot gives it one deadline, its window from now; canceling takes its
/// deadline away. Neither touches the deadline of any other slot, nor the window.
pub proof fn law_other_slots_keep_their_deadlines(
    set: IdleView,
    index: u32,
    now: Instant,
    other: (usize, Instant),
)
    requires
        set.wf(),
        now + set.window <= u128::MAX,
    ensures
        other.0 != index ==> (set.arm(index, now).queue.contains(other) <==> set.queue.contains(
            other,
        )),
        other.0 != index ==> (set.cancel(index).queue.contains(other) <==> set.queue.contains(
            other,
        )),
        other.0 == index && index < set.cap ==> (set.arm(index, now).queue.contains(other)
            <==> other.1 == now + set.window),
        other.0 == index ==> !set.cancel(index).queue.contains(other),
        set.cap <= index ==> set.arm(index, now) == set,
        set.arm(index, now).window == set.window,
        set.arm(index, now).cap == set.cap,
        set.cancel(index).window == set.window,
        set.cancel(index).cap == set.cap,
{
    slots::lemma_without_keeps(set.queue, index as usize, other);
    if index < set.cap {
        let kept = slots::without(set.queue, index as usize);
        crate::collections::seqs::lemma_push(
            kept,
            (index as usize, (now + set.window) as u128),
        );
        assert(set.arm(index, now).queue.contains(other) <==> kept.contains(other) || other == (
            index as usize,
            (now + set.window) as u128,
        ));
    }
}

/// Exactly a deadline that has passed is taken out, the first one, and no other.
pub proof fn law_only_the_overdue_is_taken_out(set: IdleView, now: Instant)
    ensures
        set.overdue(now) <==> set.queue.len() > 0 && set.queue[0].1 <= now,
        set.overdue(now) ==> set.queue == seq![set.queue[0]] + set.pop_expired(now).queue,
        !set.overdue(now) ==> set.pop_expired(now) == set,
        set.pop_expired(now).window == set.window,
        set.pop_expired(now).cap == set.cap,
        set.first() is Some <==> set.queue.len() > 0,
        set.first() matches Some(at) ==> at == set.queue[0].1,
{
    if set.overdue(now) {
        assert(set.queue =~= seq![set.queue[0]] + set.queue.skip(1));
    }
}

/// What is filtered out is not there.
pub(super) proof fn lemma_absent(queue: Seq<(usize, Instant)>, index: usize)
    ensures
        !slots::has_index(slots::without(queue, index), index),
    decreases queue.len(),
{
    reveal(Seq::filter);
    if queue.len() > 0 {
        lemma_absent(queue.drop_last(), index);
        let kept = slots::without(queue.drop_last(), index);
        assert forall|i: int| 0 <= i < slots::without(queue, index).len() implies (
        #[trigger] slots::without(queue, index)[i]).0 != index by {
            if i < kept.len() {
                assert(kept[i].0 != index);
            }
        }
    }
}

impl View for IdleSet {
    type V = IdleView;

    closed spec fn view(&self) -> IdleView {
        IdleView { queue: self.queue@, window: self.window, cap: self.cap as nat }
    }
}

impl IdleSet {
    pub closed spec fn wf(self) -> bool {
        &&& self.queue.wf()
        &&& self.queue.room() <= self.cap <= u32::MAX
    }

    pub proof fn lemma_view_wf(&self)
        requires
            self.wf(),
        ensures
            self@.wf(),
    {
        assert forall|i: int| 0 <= i < self@.queue.len() implies (#[trigger] self@.queue[i]).0
            < self@.cap by {
            assert(self.queue@[i].0 < self.queue.room());
        }
    }

    /// A set for the slots below `cap`, which fall due `window` after they are
    /// armed.
    pub fn new(cap: usize, window: Duration) -> (set: Self)
        requires
            cap <= u32::MAX,
        ensures
            set.wf(),
            set@ == (IdleView { queue: Seq::empty(), window, cap: cap as nat }),
    {
        let set = IdleSet { queue: SlotList::with_capacity(0), window, cap };
        assert(set@.queue =~= Seq::empty());
        set
    }

    /// Makes room for a slot; fails when it is none of those looked after.
    fn ensure(&mut self, index: usize) -> (ensured: bool)
        requires
            old(self).wf(),
        ensures
            final(self).wf(),
            final(self)@ == old(self)@,
            ensured == (index < old(self).cap),
            ensured ==> index < final(self).queue.room(),
    {
        if index >= self.cap {
            return false;
        }
        let room = self.queue.capacity();
        if room <= index {
            let doubled: usize = if room <= self.cap / 2 {
                room * 2
            } else {
                self.cap
            };
            let wanted: usize = if doubled < index + 1 {
                index + 1
            } else {
                doubled
            };
            let capacity: usize = if wanted < self.cap {
                wanted
            } else {
                self.cap
            };
            self.queue.grow_to(capacity);
        }
        true
    }

    /// Has a slot fall due one window from `now`, whatever was armed for it before.
    pub fn arm(&mut self, index: u32, now: Instant)
        requires
            old(self).wf(),
            now + old(self)@.window <= u128::MAX,
        ensures
            final(self).wf(),
            final(self)@ == old(self)@.arm(index, now),
    {
        let i = index as usize;
        if !self.ensure(i) {
            return ;
        }
        let _ = self.queue.remove(i);
        let deadline = now + self.window;
        proof {
            lemma_absent(old(self)@.queue, i);
        }
        let _ = self.queue.push_back(i, deadline);
    }

    pub fn cancel(&mut self, index: u32)
        requires
            old(self).wf(),
        ensures
            final(self).wf(),
            final(self)@ == old(self)@.cancel(index),
    {
        let _ = self.queue.remove(index as usize);
    }

    /// Takes out the first slot if it has fallen due at `now`.
    pub fn pop_expired(&mut self, now: Instant) -> (index: Option<u32>)
        requires
            old(self).wf(),
        ensures
            final(self).wf(),
            final(self)@ == old(self)@.pop_expired(now),
            index == if old(self)@.overdue(now) {
                Some(old(self)@.queue[0].0 as u32)
            } else {
                None
            },
    {
        let first = self.queue.front();
        match first {
            Some((index, deadline)) => {
                if deadline > now {
                    return None;
                }
                assert(self.queue@[0].0 < self.queue.room());
                let _ = self.queue.pop_front();
                Some(index as u32)
            },
            None => None,
        }
    }

    /// The first deadline.
    pub fn earliest(&self) -> (deadline: Option<Instant>)
        ensures
            deadline == self@.first(),
    {
        match self.queue.front() {
            Some((_, deadline)) => Some(deadline),
            None => None,
        }
    }
}

} // verus!
