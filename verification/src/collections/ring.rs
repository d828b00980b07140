//! A bounded queue of slab keys.
use vstd::prelude::*;

use crate::collections::slab::SlabKey;

verus! {

/// `o3::collections::CellQueue`.
#[verifier::external_type_specification]
#[verifier::external_body]
#[verifier::reject_recursive_types(T)]
pub struct ExCellQueue<T>(o3::collections::CellQueue<T>);

/// The entries of a queue, front first.
pub uninterp spec fn ring_entries(queue: o3::collections::CellQueue<(u32, u32)>) -> Seq<(u32, u32)>;

/// The number of entries that a queue has room for.
pub uninterp spec fn ring_capacity(queue: o3::collections::CellQueue<(u32, u32)>) -> nat;

/// `CellQueue::with_capacity`: an empty queue. It panics on a capacity whose next
/// power of two does not fit a machine word.
#[verifier::external_body]
fn ring_new(capacity: usize) -> (queue: o3::collections::CellQueue<(u32, u32)>)
    requires
        capacity <= 0x4000_0000,
    ensures
        ring_entries(queue).len() == 0,
        ring_capacity(queue) == capacity,
{
    o3::collections::CellQueue::with_capacity(capacity)
}

/// `CellQueue::push_back`: adds an entry last, unless the queue is full. The queue
/// is borrowed for writing although the outside function changes it through a
/// shared reference.
#[verifier::external_body]
fn ring_push_back(
    queue: &mut o3::collections::CellQueue<(u32, u32)>,
    entry: (u32, u32),
) -> (pushed: bool)
    ensures
        pushed <==> ring_entries(*old(queue)).len() != ring_capacity(*old(queue)),
        ring_entries(*final(queue)) == if pushed {
            ring_entries(*old(queue)).push(entry)
        } else {
            ring_entries(*old(queue))
        },
        ring_capacity(*final(queue)) == ring_capacity(*old(queue)),
{
    queue.push_back(entry).is_ok()
}

/// `CellQueue::pop_front`: takes out the first entry, if there is any. The queue
/// is borrowed for writing although the outside function changes it through a
/// shared reference.
#[verifier::external_body]
fn ring_pop_front(queue: &mut o3::collections::CellQueue<(u32, u32)>) -> (first: Option<(u32, u32)>)
    ensures
        first == if ring_entries(*old(queue)).len() > 0 {
            Some(ring_entries(*old(queue))[0])
        } else {
            None
        },
        ring_entries(*final(queue)) == if ring_entries(*old(queue)).len() > 0 {
            ring_entries(*old(queue)).skip(1)
        } else {
            ring_entries(*old(queue))
        },
        ring_capacity(*final(queue)) == ring_capacity(*old(queue)),
{
    queue.pop_front()
}

/// A queue of slab keys with a fixed capacity.
pub struct KeyQueue {
    queue: o3::collections::CellQueue<(u32, u32)>,
}

pub open spec fn to_keys(entries: Seq<(u32, u32)>) -> Seq<SlabKey> {
    entries.map_values(|e: (u32, u32)| SlabKey { index: e.0, generation: e.1 })
}

impl View for KeyQueue {
    type V = Seq<SlabKey>;

    closed spec fn view(&self) -> Seq<SlabKey> {
        to_keys(ring_entries(self.queue))
    }
}

impl KeyQueue {
    pub closed spec fn room(self) -> nat {
        ring_capacity(self.queue)
    }

    pub fn with_capacity(capacity: usize) -> (queue: Self)
        requires
            capacity <= 0x4000_0000,
        ensures
            queue@.len() == 0,
            queue.room() == capacity,
    {
        KeyQueue { queue: ring_new(capacity) }
    }

    pub fn push_back(&mut self, key: SlabKey) -> (pushed: bool)
        ensures
            pushed <==> old(self)@.len() != old(self).room(),
            final(self)@ == if pushed {
                old(self)@.push(key)
            } else {
                old(self)@
            },
            final(self).room() == old(self).room(),
    {
        let pushed = ring_push_back(&mut self.queue, (key.index, key.generation));
        proof {
            if pushed {
                assert(self@ =~= old(self)@.push(key));
            }
        }
        pushed
    }

    pub fn pop_front(&mut self) -> (first: Option<SlabKey>)
        ensures
            first == if old(self)@.len() > 0 {
                Some(old(self)@[0])
            } else {
                None
            },
            final(self)@ == if old(self)@.len() > 0 {
                old(self)@.skip(1)
            } else {
                old(self)@
            },
            final(self).room() == old(self).room(),
    {
        match ring_pop_front(&mut self.queue) {
            Some((index, generation)) => {
                assert(self@ =~= old(self)@.skip(1));
                Some(SlabKey { index, generation })
            },
            None => None,
        }
    }
}

} // verus!
