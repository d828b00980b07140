//! A bounded queue that can be added to at both ends.
use vstd::prelude::*;

verus! {

/// `o3::collections::FixedQueue`.
#[verifier::external_type_specification]
#[verifier::external_body]
#[verifier::reject_recursive_types(T)]
pub struct ExFixedQueue<T>(o3::collections::FixedQueue<T>);

/// The entries of a queue, front first.
pub uninterp spec fn fixed_entries(queue: o3::collections::FixedQueue<u32>) -> Seq<u32>;

/// The number of entries that a queue has room for.
pub uninterp spec fn fixed_capacity(queue: o3::collections::FixedQueue<u32>) -> nat;

/// `FixedQueue::with_capacity`: an empty queue. It panics on a capacity whose
/// entries would not fit in memory.
#[verifier::external_body]
fn fixed_new(capacity: usize) -> (queue: o3::collections::FixedQueue<u32>)
    requires
        capacity <= 0x1000_0000,
    ensures
        fixed_entries(queue).len() == 0,
        fixed_capacity(queue) == capacity,
{
    o3::collections::FixedQueue::with_capacity(capacity)
}

/// `FixedQueue::push_back`: adds an entry last, unless the queue is full.
#[verifier::external_body]
fn fixed_push_back(queue: &mut o3::collections::FixedQueue<u32>, entry: u32) -> (pushed: bool)
    ensures
        pushed <==> fixed_entries(*old(queue)).len() != fixed_capacity(*old(queue)),
        fixed_entries(*final(queue)) == if pushed {
            fixed_entries(*old(queue)).push(entry)
        } else {
            fixed_entries(*old(queue))
        },
        fixed_capacity(*final(queue)) == fixed_capacity(*old(queue)),
{
    queue.push_back(entry).is_ok()
}

/// `FixedQueue::push_front`: adds an entry first, unless the queue is full.
#[verifier::external_body]
fn fixed_push_front(queue: &mut o3::collections::FixedQueue<u32>, entry: u32) -> (pushed: bool)
    ensures
        pushed <==> fixed_entries(*old(queue)).len() != fixed_capacity(*old(queue)),
        fixed_entries(*final(queue)) == if pushed {
            seq![entry] + fixed_entries(*old(queue))
        } else {
            fixed_entries(*old(queue))
        },
        fixed_capacity(*final(queue)) == fixed_capacity(*old(queue)),
{
    queue.push_front(entry).is_ok()
}

/// `FixedQueue::pop_front`: takes out the first entry, if there is any.
#[verifier::external_body]
fn fixed_pop_front(queue: &mut o3::collections::FixedQueue<u32>) -> (first: Option<u32>)
    ensures
        first == if fixed_entries(*old(queue)).len() > 0 {
            Some(fixed_entries(*old(queue))[0])
        } else {
            None
        },
        fixed_entries(*final(queue)) == if fixed_entries(*old(queue)).len() > 0 {
            fixed_entries(*old(queue)).skip(1)
        } else {
            fixed_entries(*old(queue))
        },
        fixed_capacity(*final(queue)) == fixed_capacity(*old(queue)),
{
    queue.pop_front()
}

/// `FixedQueue::len`: the number of entries.
#[verifier::external_body]
fn fixed_len(queue: &o3::collections::FixedQueue<u32>) -> (len: usize)
    ensures
        len == fixed_entries(*queue).len(),
{
    queue.len()
}

/// A queue of up to a fixed number of values. They lie in cells; the order is that
/// of the cells' numbers.
pub struct Backlog<T> {
    order: o3::collections::FixedQueue<u32>,
    cells: Vec<Option<T>>,
    free: Vec<u32>,
}

impl<T> View for Backlog<T> {
    type V = Seq<T>;

    closed spec fn view(&self) -> Seq<T> {
        Seq::new(
            fixed_entries(self.order).len(),
            |i: int| self.cells@[fixed_entries(self.order)[i] as int]->0,
        )
    }
}

impl<T> Backlog<T> {
    pub closed spec fn room(self) -> nat {
        fixed_capacity(self.order)
    }

    /// A cell is full and in the order once, or empty and free once.
    pub closed spec fn wf(self) -> bool {
        let order = fixed_entries(self.order);
        &&& self.cells@.len() == fixed_capacity(self.order)
        &&& fixed_capacity(self.order) <= 0x1000_0000
        &&& order.len() + self.free@.len() == self.cells@.len()
        &&& order.no_duplicates()
        &&& self.free@.no_duplicates()
        &&& forall|i: int|
            0 <= i < order.len() ==> #[trigger] order[i] < self.cells@.len()
                && self.cells@[order[i] as int] is Some
        &&& forall|i: int|
            0 <= i < self.free@.len() ==> #[trigger] self.free@[i] < self.cells@.len()
                && self.cells@[self.free@[i] as int] is None
    }

    pub fn with_capacity(capacity: usize) -> (backlog: Self)
        requires
            capacity <= 0x1000_0000,
        ensures
            backlog.wf(),
            backlog@ == Seq::<T>::empty(),
            backlog.room() == capacity,
    {
        let mut cells: Vec<Option<T>> = Vec::new();
        let mut free: Vec<u32> = Vec::new();
        let mut i: usize = 0;
        while i < capacity
            invariant
                i <= capacity,
                capacity <= 0x1000_0000,
                cells@.len() == i,
                free@.len() == i,
                forall|j: int| 0 <= j < i ==> #[trigger] cells@[j] is None,
                forall|j: int| 0 <= j < i ==> #[trigger] free@[j] == j,
            decreases capacity - i,
        {
            cells.push(None);
            free.push(i as u32);
            i += 1;
        }
        let backlog = Backlog { order: fixed_new(capacity), cells, free };
        assert(backlog@ =~= Seq::<T>::empty());
        backlog
    }

    pub fn len(&self) -> (len: usize)
        ensures
            len == self@.len(),
    {
        fixed_len(&self.order)
    }

    /// Adds a value last, or gives it back if there is no room.
    pub fn push_back(&mut self, value: T) -> (back: Option<T>)
        requires
            old(self).wf(),
        ensures
            final(self).wf(),
            final(self).room() == old(self).room(),
            if old(self)@.len() < old(self).room() {
                back is None && final(self)@ == old(self)@.push(value)
            } else {
                back == Some(value) && final(self)@ == old(self)@
            },
    {
        let ghost order = fixed_entries(self.order);
        let Some(cell) = self.free.pop() else {
            return Some(value);
        };
        assert(old(self).free@.last() == cell);
        assert(old(self).free@[old(self).free@.len() - 1] == cell);
        self.cells[cell as usize] = Some(value);
        let _ = fixed_push_back(&mut self.order, cell);
        proof {
            assert(!order.contains(cell));
            assert(fixed_entries(self.order) == order.push(cell));
            assert(order.push(cell).no_duplicates());
            assert forall|i: int| 0 <= i < self.free@.len() implies #[trigger] self.free@[i]
                < self.cells@.len() && self.cells@[self.free@[i] as int] is None by {
                assert(self.free@[i] == old(self).free@[i]);
            }
            assert(self@ =~= old(self)@.push(value));
        }
        None
    }

    /// Adds a value first, or gives it back if there is no room.
    pub fn push_front(&mut self, value: T) -> (back: Option<T>)
        requires
            old(self).wf(),
        ensures
            final(self).wf(),
            final(self).room() == old(self).room(),
            if old(self)@.len() < old(self).room() {
                back is None && final(self)@ == seq![value] + old(self)@
            } else {
                back == Some(value) && final(self)@ == old(self)@
            },
    {
        let ghost order = fixed_entries(self.order);
        let Some(cell) = self.free.pop() else {
            return Some(value);
        };
        assert(old(self).free@[old(self).free@.len() - 1] == cell);
        self.cells[cell as usize] = Some(value);
        let _ = fixed_push_front(&mut self.order, cell);
        proof {
            assert(!order.contains(cell));
            let after = seq![cell] + order;
            assert(fixed_entries(self.order) == after);
            assert forall|i: int, j: int|
                0 <= i < after.len() && 0 <= j < after.len() && i != j implies after[i]
                != after[j] by {
                if i > 0 && j > 0 {
                    assert(order[i - 1] != order[j - 1]);
                } else if i > 0 {
                    assert(order.contains(order[i - 1]));
                } else {
                    assert(order.contains(order[j - 1]));
                }
            }
            assert forall|i: int| 0 <= i < after.len() implies #[trigger] after[i]
                < self.cells@.len() && self.cells@[after[i] as int] is Some by {
                if i > 0 {
                    assert(order[i - 1] == after[i]);
                }
            }
            assert forall|i: int| 0 <= i < self.free@.len() implies #[trigger] self.free@[i]
                < self.cells@.len() && self.cells@[self.free@[i] as int] is None by {
                assert(self.free@[i] == old(self).free@[i]);
            }
            assert(self@ =~= seq![value] + old(self)@);
        }
        None
    }

    /// Takes the first value out.
    pub fn pop_front(&mut self) -> (first: Option<T>)
        requires
            old(self).wf(),
        ensures
            final(self).wf(),
            final(self).room() == old(self).room(),
            if old(self)@.len() > 0 {
                first == Some(old(self)@[0]) && final(self)@ == old(self)@.skip(1)
            } else {
                first is None && final(self)@ == old(self)@
            },
    {
        let ghost order = fixed_entries(self.order);
        let Some(cell) = fixed_pop_front(&mut self.order) else {
            return None;
        };
        assert(order[0] == cell);
        let mut value: Option<T> = None;
        std::mem::swap(&mut value, &mut self.cells[cell as usize]);
        self.free.push(cell);
        proof {
            let after = order.skip(1);
            assert forall|i: int| 0 <= i < after.len() implies #[trigger] after[i]
                < self.cells@.len() && self.cells@[after[i] as int] is Some by {
                assert(after[i] == order[i + 1]);
                assert(order[i + 1] != order[0]);
            }
            assert forall|i: int| 0 <= i < self.free@.len() implies #[trigger] self.free@[i]
                < self.cells@.len() && self.cells@[self.free@[i] as int] is None by {
                if i < old(self).free@.len() {
                    assert(self.free@[i] == old(self).free@[i]);
                }
            }
            assert forall|i: int, j: int|
                0 <= i < self.free@.len() && 0 <= j < self.free@.len() && i != j implies self.free@[i]
                != self.free@[j] by {
                if i < old(self).free@.len() {
                    assert(self.free@[i] == old(self).free@[i]);
                }
                if j < old(self).free@.len() {
                    assert(self.free@[j] == old(self).free@[j]);
                }
            }
            assert(self@ =~= old(self)@.skip(1));
        }
        value
    }
}

} // verus!
