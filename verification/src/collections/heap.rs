//! A min-heap of deadlines that are found again by index.
use vstd::prelude::*;

use crate::time::Instant;

verus! {

/// A min-heap whose entries are keyed by a deadline and an epoch, at most one
/// for each index below its capacity.
///
/// It holds an `o3::collections::IndexedMinHeap`, whose own declaration needs a
/// bound on a hidden trait of that crate.
#[verifier::external_body]
pub struct DeadlineHeap {
    heap: o3::collections::IndexedMinHeap<(u128, u32)>,
}

/// The entries of a heap by index.
pub uninterp spec fn heap_entries(heap: DeadlineHeap) -> Map<usize, (Instant, u32)>;

/// The number of indices that a heap has room for.
pub uninterp spec fn heap_capacity(heap: DeadlineHeap) -> nat;

/// The order of a heap: by deadline, then by epoch.
pub open spec fn key_le(a: (Instant, u32), b: (Instant, u32)) -> bool {
    a.0 < b.0 || (a.0 == b.0 && a.1 <= b.1)
}

/// `(index, key)` is an entry that no other entry of `entries` precedes.
pub open spec fn is_least(
    entries: Map<usize, (Instant, u32)>,
    index: usize,
    key: (Instant, u32),
) -> bool {
    &&& entries.contains_key(index)
    &&& entries[index] == key
    &&& forall|i: usize| #[trigger] entries.contains_key(i) ==> key_le(key, entries[i])
}

/// A heap whose indices are bounded holds finitely many entries.
pub proof fn lemma_finite(entries: Map<usize, (Instant, u32)>, bound: int)
    requires
        0 <= bound <= usize::MAX,
        forall|i: usize| #[trigger] entries.contains_key(i) ==> i < bound,
    ensures
        entries.dom().finite(),
{
    let all = Set::new(|i: usize| i < bound);
    lemma_range_finite(bound);
    assert(entries.dom().subset_of(all));
    vstd::set_lib::lemma_len_subset(entries.dom(), all);
}

proof fn lemma_range_finite(n: int)
    requires
        0 <= n <= usize::MAX,
    ensures
        Set::new(|i: usize| i < n).finite(),
    decreases n,
{
    let all = Set::new(|i: usize| i < n);
    if n == 0 {
        assert(all =~= Set::empty());
    } else {
        lemma_range_finite(n - 1);
        assert(all =~= Set::new(|i: usize| i < n - 1).insert((n - 1) as usize));
    }
}

impl DeadlineHeap {
    /// `IndexedMinHeap::with_capacity`: an empty heap with room for the indices
    /// below `capacity`. It panics on a capacity that does not fit 32 bits.
    #[verifier::external_body]
    pub(crate) fn with_capacity(capacity: usize) -> (heap: Self)
        requires
            capacity <= u32::MAX,
        ensures
            heap_entries(heap) =~= Map::empty(),
            heap_capacity(heap) == capacity,
    {
        DeadlineHeap { heap: o3::collections::IndexedMinHeap::with_capacity(capacity) }
    }

    /// `IndexedMinHeap::insert`: adds an entry, unless the index lies beyond the
    /// capacity or has an entry already.
    #[verifier::external_body]
    pub(crate) fn insert(&mut self, index: usize, key: (Instant, u32)) -> (inserted: bool)
        ensures
            inserted <==> index < heap_capacity(*old(self)) && !heap_entries(
                *old(self),
            ).contains_key(index),
            heap_entries(*final(self)) == if inserted {
                heap_entries(*old(self)).insert(index, key)
            } else {
                heap_entries(*old(self))
            },
            heap_capacity(*final(self)) == heap_capacity(*old(self)),
    {
        self.heap.insert(index, key).is_ok()
    }

    /// `IndexedMinHeap::peek`: an entry that no other precedes, if there is any.
    /// Which one of several with the same key is left open.
    #[verifier::external_body]
    pub(crate) fn peek(&self) -> (least: Option<(usize, (Instant, u32))>)
        ensures
            match least {
                Some((index, key)) => is_least(heap_entries(*self), index, key),
                None => forall|i: usize| !#[trigger] heap_entries(*self).contains_key(i),
            },
    {
        self.heap.peek().map(|(index, key)| (index, *key))
    }

    /// `IndexedMinHeap::pop`: removes an entry that no other precedes, if there
    /// is any. Which one of several with the same key is left open.
    #[verifier::external_body]
    pub(crate) fn pop(&mut self) -> (least: Option<(usize, (Instant, u32))>)
        ensures
            match least {
                Some((index, key)) => {
                    &&& is_least(heap_entries(*old(self)), index, key)
                    &&& heap_entries(*final(self)) == heap_entries(*old(self)).remove(index)
                },
                None => {
                    &&& forall|i: usize| !#[trigger] heap_entries(*old(self)).contains_key(i)
                    &&& heap_entries(*final(self)) == heap_entries(*old(self))
                },
            },
            heap_capacity(*final(self)) == heap_capacity(*old(self)),
    {
        self.heap.pop()
    }

    /// `IndexedMinHeap::remove`: removes the entry of an index, if it has one.
    #[verifier::external_body]
    pub(crate) fn remove(&mut self, index: usize) -> (key: Option<(Instant, u32)>)
        ensures
            key == if heap_entries(*old(self)).contains_key(index) {
                Some(heap_entries(*old(self))[index])
            } else {
                None
            },
            heap_entries(*final(self)) == heap_entries(*old(self)).remove(index),
            heap_capacity(*final(self)) == heap_capacity(*old(self)),
    {
        self.heap.remove(index)
    }

    /// `IndexedMinHeap::contains_key`: whether an index has an entry.
    #[verifier::external_body]
    pub(crate) fn contains_key(&self, index: usize) -> (present: bool)
        ensures
            present == heap_entries(*self).contains_key(index),
    {
        self.heap.contains_key(index)
    }

    /// `IndexedMinHeap::grow_to`: makes room for more indices and keeps all
    /// entries. It panics on a smaller capacity and on one that does not fit 32
    /// bits.
    #[verifier::external_body]
    pub(crate) fn grow_to(&mut self, capacity: usize)
        requires
            heap_capacity(*old(self)) <= capacity <= u32::MAX,
        ensures
            heap_entries(*final(self)) == heap_entries(*old(self)),
            heap_capacity(*final(self)) == capacity,
    {
        self.heap.grow_to(capacity)
    }
}

} // verus!
