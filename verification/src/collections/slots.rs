//! A queue in which each index stands at most once.
use vstd::prelude::*;

use crate::collections::seqs;

verus! {

/// `o3::collections::SlotQueue`.
#[verifier::external_type_specification]
#[verifier::external_body]
#[verifier::reject_recursive_types(T)]
pub struct ExSlotQueue<T>(o3::collections::SlotQueue<T>);

/// The entries of a queue, front first: an index and the value queued with it.
pub uninterp spec fn queued(queue: o3::collections::SlotQueue<u128>) -> Seq<(usize, u128)>;

/// The number of indices that a queue has room for.
pub uninterp spec fn queue_capacity(queue: o3::collections::SlotQueue<u128>) -> nat;

/// Some entry of `entries` has index `index`.
pub open spec fn has_index(entries: Seq<(usize, u128)>, index: usize) -> bool {
    exists|i: int| 0 <= i < entries.len() && (#[trigger] entries[i]).0 == index
}

/// `SlotQueue::with_capacity`: an empty queue with room for the indices below
/// `capacity`. It panics on a capacity that does not fit 32 bits.
#[verifier::external_body]
fn queue_new(capacity: usize) -> (queue: o3::collections::SlotQueue<u128>)
    requires
        capacity <= u32::MAX,
    ensures
        queued(queue).len() == 0,
        queue_capacity(queue) == capacity,
{
    o3::collections::SlotQueue::with_capacity(capacity)
}

/// `SlotQueue::push_back`: queues an index last, unless it lies beyond the
/// capacity or is queued already.
#[verifier::external_body]
fn queue_push_back(
    queue: &mut o3::collections::SlotQueue<u128>,
    index: usize,
    value: u128,
) -> (pushed: bool)
    ensures
        pushed <==> index < queue_capacity(*old(queue)) && !has_index(queued(*old(queue)), index),
        queued(*final(queue)) == if pushed {
            queued(*old(queue)).push((index, value))
        } else {
            queued(*old(queue))
        },
        queue_capacity(*final(queue)) == queue_capacity(*old(queue)),
{
    queue.push_back(index, value).is_ok()
}

/// `SlotQueue::push_front`: queues an index first, unless it lies beyond the
/// capacity or is queued already.
#[verifier::external_body]
fn queue_push_front(
    queue: &mut o3::collections::SlotQueue<u128>,
    index: usize,
    value: u128,
) -> (pushed: bool)
    ensures
        pushed <==> index < queue_capacity(*old(queue)) && !has_index(queued(*old(queue)), index),
        queued(*final(queue)) == if pushed {
            seq![(index, value)] + queued(*old(queue))
        } else {
            queued(*old(queue))
        },
        queue_capacity(*final(queue)) == queue_capacity(*old(queue)),
{
    queue.push_front(index, value).is_ok()
}

/// `SlotQueue::pop_front_key_value`: takes out the first entry, if there is any.
#[verifier::external_body]
fn queue_pop_front(queue: &mut o3::collections::SlotQueue<u128>) -> (first: Option<(usize, u128)>)
    ensures
        first == if queued(*old(queue)).len() > 0 {
            Some(queued(*old(queue))[0])
        } else {
            None
        },
        queued(*final(queue)) == if queued(*old(queue)).len() > 0 {
            queued(*old(queue)).skip(1)
        } else {
            queued(*old(queue))
        },
        queue_capacity(*final(queue)) == queue_capacity(*old(queue)),
{
    queue.pop_front_key_value()
}

/// `SlotQueue::front_key_value`: the first entry, if there is any.
#[verifier::external_body]
fn queue_front(queue: &o3::collections::SlotQueue<u128>) -> (first: Option<(usize, u128)>)
    ensures
        first == if queued(*queue).len() > 0 {
            Some(queued(*queue)[0])
        } else {
            None
        },
{
    queue.front_key_value().map(|(index, value)| (index, *value))
}

/// `SlotQueue::remove`: takes out the entry of an index, if it is queued.
#[verifier::external_body]
fn queue_remove(
    queue: &mut o3::collections::SlotQueue<u128>,
    index: usize,
) -> (value: Option<u128>)
    ensures
        match value {
            Some(v) => exists|i: int|
                0 <= i < queued(*old(queue)).len() && #[trigger] queued(*old(queue))[i] == (
                    index,
                    v,
                ) && queued(*final(queue)) == queued(*old(queue)).remove(i),
            None => !has_index(queued(*old(queue)), index) && queued(*final(queue)) == queued(
                *old(queue),
            ),
        },
        queue_capacity(*final(queue)) == queue_capacity(*old(queue)),
{
    queue.remove(index)
}

/// `SlotQueue::grow_to`: makes room for more indices and keeps all entries. It
/// panics on a smaller capacity and on one that does not fit 32 bits.
#[verifier::external_body]
fn queue_grow_to(queue: &mut o3::collections::SlotQueue<u128>, capacity: usize)
    requires
        queue_capacity(*old(queue)) <= capacity <= u32::MAX,
    ensures
        queued(*final(queue)) == queued(*old(queue)),
        queue_capacity(*final(queue)) == capacity,
{
    queue.grow_to(capacity)
}

/// `SlotQueue::capacity`: the number of indices that a queue has room for.
#[verifier::external_body]
fn queue_room(queue: &o3::collections::SlotQueue<u128>) -> (capacity: usize)
    ensures
        capacity == queue_capacity(*queue),
{
    queue.capacity()
}

/// No index stands twice.
pub open spec fn distinct(entries: Seq<(usize, u128)>) -> bool {
    forall|i: int, j: int|
        0 <= i < j < entries.len() ==> (#[trigger] entries[i]).0 != (#[trigger] entries[j]).0
}

/// The entries without that of `index`.
pub open spec fn without(entries: Seq<(usize, u128)>, index: usize) -> Seq<(usize, u128)> {
    entries.filter(|e: (usize, u128)| e.0 != index)
}

/// The value queued with `index`.
pub open spec fn value_of(entries: Seq<(usize, u128)>, index: usize) -> u128 {
    entries[choose|i: int| 0 <= i < entries.len() && (#[trigger] entries[i]).0 == index].1
}

/// Filtering out an index leaves all entries of other indices, and no more than
/// them.
pub proof fn lemma_without_keeps(entries: Seq<(usize, u128)>, index: usize, entry: (usize, u128))
    ensures
        without(entries, index).contains(entry) <==> entries.contains(entry) && entry.0 != index,
    decreases entries.len(),
{
    reveal(Seq::filter);
    if entries.len() > 0 {
        let init = entries.drop_last();
        lemma_without_keeps(init, index, entry);
        seqs::lemma_push(init, entries.last());
        seqs::lemma_push(without(init, index), entries.last());
        assert(entries =~= init.push(entries.last()));
        assert(entries.contains(entry) <==> init.contains(entry) || entry == entries.last());
    }
}

/// Taking out the one entry of an index is filtering it out.
pub proof fn lemma_remove_is_without(entries: Seq<(usize, u128)>, i: int)
    requires
        distinct(entries),
        0 <= i < entries.len(),
    ensures
        entries.remove(i) == without(entries, entries[i].0),
    decreases entries.len(),
{
    reveal(Seq::filter);
    let last = entries.len() - 1;
    let init = entries.drop_last();
    let index = entries[i].0;
    if i == last {
        assert(entries.remove(i) =~= init);
        assert forall|k: int| 0 <= k < init.len() implies (#[trigger] init[k]).0 != index by {
            assert(entries[k].0 != entries[last].0);
        }
        lemma_without_absent(init, index);
    } else {
        lemma_remove_is_without(init, i);
        assert(entries[i].0 != entries[last].0);
        assert(entries.remove(i) =~= init.remove(i).push(entries[last]));
    }
}

/// Filtering out an index that is not there changes nothing.
pub proof fn lemma_without_absent(entries: Seq<(usize, u128)>, index: usize)
    requires
        !has_index(entries, index),
    ensures
        without(entries, index) == entries,
    decreases entries.len(),
{
    reveal(Seq::filter);
    if entries.len() > 0 {
        let init = entries.drop_last();
        assert forall|k: int| 0 <= k < init.len() implies (#[trigger] init[k]).0 != index by {
            assert(entries[k].0 != index);
        }
        assert(entries[entries.len() - 1].0 != index);
        lemma_without_absent(init, index);
        assert(init.push(entries.last()) =~= entries);
    }
}

/// A queue in which each index below a capacity stands at most once, with a
/// value.
pub struct SlotList {
    queue: o3::collections::SlotQueue<u128>,
}

impl View for SlotList {
    type V = Seq<(usize, u128)>;

    closed spec fn view(&self) -> Seq<(usize, u128)> {
        queued(self.queue)
    }
}

impl SlotList {
    pub closed spec fn room(self) -> nat {
        queue_capacity(self.queue)
    }

    pub open spec fn wf(self) -> bool {
        &&& self.room() <= u32::MAX
        &&& distinct(self@)
        &&& forall|i: int| 0 <= i < self@.len() ==> (#[trigger] self@[i]).0 < self.room()
    }

    pub fn with_capacity(capacity: usize) -> (list: Self)
        requires
            capacity <= u32::MAX,
        ensures
            list.wf(),
            list@.len() == 0,
            list.room() == capacity,
    {
        SlotList { queue: queue_new(capacity) }
    }

    pub fn capacity(&self) -> (capacity: usize)
        ensures
            capacity == self.room(),
    {
        queue_room(&self.queue)
    }

    pub fn push_back(&mut self, index: usize, value: u128) -> (pushed: bool)
        requires
            old(self).wf(),
        ensures
            final(self).wf(),
            final(self).room() == old(self).room(),
            pushed <==> index < old(self).room() && !has_index(old(self)@, index),
            final(self)@ == if pushed {
                old(self)@.push((index, value))
            } else {
                old(self)@
            },
    {
        queue_push_back(&mut self.queue, index, value)
    }

    pub fn push_front(&mut self, index: usize, value: u128) -> (pushed: bool)
        requires
            old(self).wf(),
        ensures
            final(self).wf(),
            final(self).room() == old(self).room(),
            pushed <==> index < old(self).room() && !has_index(old(self)@, index),
            final(self)@ == if pushed {
                seq![(index, value)] + old(self)@
            } else {
                old(self)@
            },
    {
        let pushed = queue_push_front(&mut self.queue, index, value);
        proof {
            if pushed {
                assert forall|i: int| 0 < i < self@.len() implies #[trigger] self@[i] == old(
                    self,
                )@[i - 1] by {}
                assert forall|i: int, j: int| 0 <= i < j < self@.len() implies (
                #[trigger] self@[i]).0 != (#[trigger] self@[j]).0 by {
                    assert(self@[j] == old(self)@[j - 1]);
                    if i > 0 {
                        assert(self@[i] == old(self)@[i - 1]);
                    }
                }
            }
        }
        pushed
    }

    pub fn front(&self) -> (first: Option<(usize, u128)>)
        ensures
            first == if self@.len() > 0 {
                Some(self@[0])
            } else {
                None
            },
    {
        queue_front(&self.queue)
    }

    pub fn pop_front(&mut self) -> (first: Option<(usize, u128)>)
        requires
            old(self).wf(),
        ensures
            final(self).wf(),
            final(self).room() == old(self).room(),
            first == if old(self)@.len() > 0 {
                Some(old(self)@[0])
            } else {
                None
            },
            final(self)@ == if old(self)@.len() > 0 {
                old(self)@.skip(1)
            } else {
                old(self)@
            },
    {
        let first = queue_pop_front(&mut self.queue);
        proof {
            if old(self)@.len() > 0 {
                assert forall|i: int| 0 <= i < self@.len() implies #[trigger] self@[i] == old(
                    self,
                )@[i + 1] by {}
            }
        }
        first
    }

    /// Takes out the entry of `index`, if it is queued.
    pub fn remove(&mut self, index: usize) -> (value: Option<u128>)
        requires
            old(self).wf(),
        ensures
            final(self).wf(),
            final(self).room() == old(self).room(),
            final(self)@ == without(old(self)@, index),
            value == if has_index(old(self)@, index) {
                Some(value_of(old(self)@, index))
            } else {
                None
            },
    {
        let value = queue_remove(&mut self.queue, index);
        proof {
            let before = old(self)@;
            match value {
                Some(v) => {
                    let i = choose|i: int|
                        0 <= i < before.len() && #[trigger] before[i] == (index, v) && self@
                            == before.remove(i);
                    assert(before[i].0 == index);
                    lemma_remove_is_without(before, i);
                    assert forall|a: int| 0 <= a < self@.len() implies #[trigger] self@[a]
                        == before[if a < i {
                        a
                    } else {
                        a + 1
                    }] by {}
                },
                None => {
                    lemma_without_absent(before, index);
                },
            }
        }
        value
    }

    pub fn grow_to(&mut self, capacity: usize)
        requires
            old(self).wf(),
            old(self).room() <= capacity <= u32::MAX,
        ensures
            final(self).wf(),
            final(self).room() == capacity,
            final(self)@ == old(self)@,
    {
        queue_grow_to(&mut self.queue, capacity)
    }
}

/// `list` without all of `gone`.
pub open spec fn minus_all(list: Seq<usize>, gone: Set<usize>) -> Seq<usize> {
    list.filter(|i: usize| !gone.contains(i))
}

/// `list` without `index`.
pub open spec fn minus(list: Seq<usize>, index: usize) -> Seq<usize> {
    minus_all(list, set![index])
}

/// The indices of a queue.
pub open spec fn indices(entries: Seq<(usize, u128)>) -> Seq<usize> {
    entries.map_values(|e: (usize, u128)| e.0)
}

proof fn lemma_indices_without(entries: Seq<(usize, u128)>, index: usize)
    ensures
        indices(without(entries, index)) == minus(indices(entries), index),
    decreases entries.len(),
{
    reveal(Seq::filter);
    if entries.len() > 0 {
        let init = entries.drop_last();
        lemma_indices_without(init, index);
        assert(indices(entries).drop_last() =~= indices(init));
        assert(indices(entries).last() == entries.last().0);
        assert(indices(without(init, index).push(entries.last())) =~= indices(
            without(init, index),
        ).push(entries.last().0));
    }
}

/// Taking out one index after others is taking out all of them.
pub proof fn lemma_minus_all_step(list: Seq<usize>, gone: Set<usize>, index: usize)
    ensures
        minus(minus_all(list, gone), index) == minus_all(list, gone.insert(index)),
    decreases list.len(),
{
    reveal(Seq::filter);
    if list.len() > 0 {
        let init = list.drop_last();
        lemma_minus_all_step(init, gone, index);
        let last = list.last();
        let kept = minus_all(init, gone);
        if !gone.contains(last) {
            assert(kept.push(last).drop_last() =~= kept);
        }
    }
}

pub proof fn lemma_minus_all_none(list: Seq<usize>)
    ensures
        minus_all(list, Set::empty()) == list,
    decreases list.len(),
{
    reveal(Seq::filter);
    if list.len() > 0 {
        lemma_minus_all_none(list.drop_last());
        assert(list.drop_last().push(list.last()) =~= list);
    }
}

/// Taking out what is not there changes nothing.
pub proof fn lemma_minus_absent(list: Seq<usize>, index: usize)
    requires
        !list.contains(index),
    ensures
        minus(list, index) == list,
    decreases list.len(),
{
    reveal(Seq::filter);
    if list.len() > 0 {
        let init = list.drop_last();
        assert forall|k: int| 0 <= k < init.len() implies init[k] != index by {
            assert(list[k] != index);
        }
        assert(list[list.len() - 1] != index);
        lemma_minus_absent(init, index);
        assert(init.push(list.last()) =~= list);
    }
}

/// Taking out of a list leaves no index twice.
pub proof fn lemma_minus_all_distinct(list: Seq<usize>, gone: Set<usize>)
    requires
        list.no_duplicates(),
    ensures
        minus_all(list, gone).no_duplicates(),
    decreases list.len(),
{
    reveal(Seq::filter);
    if list.len() > 0 {
        let init = list.drop_last();
        lemma_minus_all_distinct(init, gone);
        lemma_minus_all_contains(init, gone);
        let kept = minus_all(init, gone);
        assert(!init.contains(list.last()));
        assert(!kept.contains(list.last()));
        assert forall|i: int, j: int| 0 <= i < j < kept.push(list.last()).len() implies kept.push(
            list.last(),
        )[i] != kept.push(list.last())[j] by {
            if j == kept.len() {
                assert(kept.contains(kept[i]));
            }
        }
    }
}

/// What is left of a list after some of it has been taken out.
pub proof fn lemma_minus_all_contains(list: Seq<usize>, gone: Set<usize>)
    ensures
        forall|i: usize| #[trigger]
            minus_all(list, gone).contains(i) <==> list.contains(i) && !gone.contains(i),
{
    let keep = |i: usize| !gone.contains(i);
    lemma_filter(list, keep);
}

/// Filtering keeps exactly the members that pass.
proof fn lemma_filter(list: Seq<usize>, keep: spec_fn(usize) -> bool)
    ensures
        forall|i: usize| #[trigger]
            list.filter(keep).contains(i) <==> list.contains(i) && keep(i),
{
    let kept = list.filter(keep);
    assert forall|i: usize| #[trigger] kept.contains(i) <==> list.contains(i) && keep(i) by {
        if kept.contains(i) {
            let k = choose|k: int| 0 <= k < kept.len() && kept[k] == i;
            list.lemma_filter_pred(keep, k);
            list.lemma_filter_contains_rev(keep, i);
        }
        if list.contains(i) && keep(i) {
            let k = choose|k: int| 0 <= k < list.len() && list[k] == i;
            list.lemma_filter_contains(keep, k);
        }
    }
}

/// Taking out one index leaves the others.
pub proof fn lemma_minus_contains(list: Seq<usize>, index: usize)
    ensures
        forall|i: usize| #[trigger]
            minus(list, index).contains(i) <==> list.contains(i) && i != index,
{
    lemma_minus_all_contains(list, set![index]);
}

/// A queue in which each index below a capacity stands at most once.
pub struct IndexList {
    list: SlotList,
}

impl View for IndexList {
    type V = Seq<usize>;

    closed spec fn view(&self) -> Seq<usize> {
        indices(self.list@)
    }
}

impl IndexList {
    pub closed spec fn room(self) -> nat {
        self.list.room()
    }

    pub closed spec fn wf(self) -> bool {
        self.list.wf()
    }

    proof fn lemma_has(&self, index: usize)
        ensures
            has_index(self.list@, index) == self@.contains(index),
    {
        if has_index(self.list@, index) {
            let i = choose|i: int| 0 <= i < self.list@.len() && (#[trigger] self.list@[i]).0 == index;
            assert(self@[i] == index);
        }
        if self@.contains(index) {
            let i = choose|i: int| 0 <= i < self@.len() && self@[i] == index;
            assert(self.list@[i].0 == index);
        }
    }

    pub fn with_capacity(capacity: usize) -> (list: Self)
        requires
            capacity <= u32::MAX,
        ensures
            list.wf(),
            list@.len() == 0,
            list.room() == capacity,
    {
        IndexList { list: SlotList::with_capacity(capacity) }
    }

    pub fn is_empty(&self) -> (empty: bool)
        ensures
            empty == (self@.len() == 0),
    {
        self.list.front().is_none()
    }

    pub fn push_back(&mut self, index: usize) -> (pushed: bool)
        requires
            old(self).wf(),
        ensures
            final(self).wf(),
            final(self).room() == old(self).room(),
            pushed <==> index < old(self).room() && !old(self)@.contains(index),
            final(self)@ == if pushed {
                old(self)@.push(index)
            } else {
                old(self)@
            },
    {
        proof {
            self.lemma_has(index);
        }
        let pushed = self.list.push_back(index, 0);
        proof {
            if pushed {
                assert(self@ =~= old(self)@.push(index));
            }
        }
        pushed
    }

    pub fn push_front(&mut self, index: usize) -> (pushed: bool)
        requires
            old(self).wf(),
        ensures
            final(self).wf(),
            final(self).room() == old(self).room(),
            pushed <==> index < old(self).room() && !old(self)@.contains(index),
            final(self)@ == if pushed {
                seq![index] + old(self)@
            } else {
                old(self)@
            },
    {
        proof {
            self.lemma_has(index);
        }
        let pushed = self.list.push_front(index, 0);
        proof {
            if pushed {
                assert(self@ =~= seq![index] + old(self)@);
            }
        }
        pushed
    }

    pub fn pop_front(&mut self) -> (first: Option<usize>)
        requires
            old(self).wf(),
        ensures
            final(self).wf(),
            final(self).room() == old(self).room(),
            first == if old(self)@.len() > 0 {
                Some(old(self)@[0])
            } else {
                None
            },
            final(self)@ == if old(self)@.len() > 0 {
                old(self)@.skip(1)
            } else {
                old(self)@
            },
    {
        match self.list.pop_front() {
            Some((index, _)) => {
                assert(self@ =~= old(self)@.skip(1));
                Some(index)
            },
            None => None,
        }
    }

    /// Takes out `index`, if it is queued.
    pub fn remove(&mut self, index: usize) -> (removed: bool)
        requires
            old(self).wf(),
        ensures
            final(self).wf(),
            final(self).room() == old(self).room(),
            removed == old(self)@.contains(index),
            final(self)@ == minus(old(self)@, index),
    {
        proof {
            self.lemma_has(index);
            lemma_indices_without(self.list@, index);
        }
        self.list.remove(index).is_some()
    }

    pub fn grow_to(&mut self, capacity: usize)
        requires
            old(self).wf(),
            old(self).room() <= capacity <= u32::MAX,
        ensures
            final(self).wf(),
            final(self).room() == capacity,
            final(self)@ == old(self)@,
    {
        self.list.grow_to(capacity);
    }
}

} // verus!
