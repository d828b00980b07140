//! Marks: what is still to be done for a connection.
//!
//! A connection carries its marks itself; the slots of marked connections wait in
//! a queue to be seen to.
use vstd::prelude::*;

verus! {

/// One thing that is still to be done for a connection.
#[derive(Clone, Copy, PartialEq, Eq, Structural, Debug)]
pub enum Mark {
    Egress,
    Shutdown,
    Close,
}

/// What is still to be done for a connection.
#[derive(Clone, Copy, PartialEq, Eq, Structural, Debug)]
pub struct Pending {
    pub egress: bool,
    pub shutdown: bool,
    pub close: bool,
    /// Which halves to shut down.
    pub how: i32,
}

impl Pending {
    pub open spec fn spec_any(self) -> bool {
        self.egress || self.shutdown || self.close
    }

    pub open spec fn marked(self, mark: Mark) -> Self {
        match mark {
            Mark::Egress => Pending { egress: true, ..self },
            Mark::Shutdown => Pending { shutdown: true, ..self },
            Mark::Close => Pending { close: true, ..self },
        }
    }

    pub open spec fn taken(self) -> Self {
        Pending { egress: false, shutdown: false, close: false, ..self }
    }

    pub fn new() -> (pending: Self)
        ensures
            !pending.spec_any(),
            pending.how == 0,
    {
        Pending { egress: false, shutdown: false, close: false, how: 0 }
    }

    pub fn any(self) -> (any: bool)
        ensures
            any == self.spec_any(),
    {
        self.egress || self.shutdown || self.close
    }

    /// Sets a mark; says whether it is the first one.
    pub fn mark(&mut self, mark: Mark) -> (first: bool)
        ensures
            *final(self) == old(self).marked(mark),
            first == !old(self).spec_any(),
    {
        let first = !self.any();
        match mark {
            Mark::Egress => {
                self.egress = true;
            },
            Mark::Shutdown => {
                self.shutdown = true;
            },
            Mark::Close => {
                self.close = true;
            },
        }
        first
    }

    pub fn set_shutdown(&mut self, how: i32)
        ensures
            *final(self) == (Pending { how, ..*old(self) }),
    {
        self.how = how;
    }

    /// Takes all marks off and returns them.
    pub fn take_flags(&mut self) -> (flags: Pending)
        ensures
            flags == *old(self),
            *final(self) == old(self).taken(),
    {
        let flags = *self;
        self.egress = false;
        self.shutdown = false;
        self.close = false;
        flags
    }
}

/// Setting a mark sets that one and leaves the others, and which halves to shut
/// down, as they were.
pub proof fn law_mark_sets_itself_only(pending: Pending, mark: Mark)
    ensures
        pending.marked(mark).egress == (pending.egress || mark is Egress),
        pending.marked(mark).shutdown == (pending.shutdown || mark is Shutdown),
        pending.marked(mark).close == (pending.close || mark is Close),
        pending.marked(mark).how == pending.how,
{
}

/// There is something to do exactly if a mark is set; taking the marks off takes
/// off all of them and does not forget which halves to shut down.
pub proof fn law_taking_takes_all_marks(pending: Pending)
    ensures
        pending.spec_any() <==> pending.egress || pending.shutdown || pending.close,
        !pending.taken().egress,
        !pending.taken().shutdown,
        !pending.taken().close,
        pending.taken().how == pending.how,
{
}

/// What carries marks.
pub trait Marked {
    spec fn marks(&self) -> Pending;
}

/// The slot holds a connection that is marked.
pub open spec fn is_marked<T: Marked>(slots: Seq<Option<T>>, idx: u32) -> bool {
    idx < slots.len() && (slots[idx as int] matches Some(state) && state.marks().spec_any())
}

/// Every marked connection waits to be seen to.
pub open spec fn all_queued<T: Marked>(slots: Seq<Option<T>>, dirty: Seq<u32>) -> bool {
    forall|idx: u32| #[trigger] is_marked(slots, idx) ==> dirty.contains(idx)
}

/// Changing a connection without marking it keeps every marked one in the queue.
pub proof fn lemma_update<T: Marked>(
    slots: Seq<Option<T>>,
    dirty: Seq<u32>,
    idx: u32,
    slot: Option<T>,
)
    requires
        all_queued(slots, dirty),
        idx < slots.len(),
        (slot matches Some(state) && state.marks().spec_any()) ==> is_marked(slots, idx),
    ensures
        all_queued(slots.update(idx as int, slot), dirty),
{
    let after = slots.update(idx as int, slot);
    assert forall|i: u32| #[trigger] is_marked(after, i) implies dirty.contains(i) by {
        assert(is_marked(slots, i));
    }
}

/// So does marking a connection and queueing its slot.
pub proof fn lemma_queue<T: Marked>(
    slots: Seq<Option<T>>,
    dirty: Seq<u32>,
    idx: u32,
    slot: Option<T>,
)
    requires
        all_queued(slots, dirty),
        idx < slots.len(),
    ensures
        all_queued(slots.update(idx as int, slot), dirty.push(idx)),
{
    let after = slots.update(idx as int, slot);
    let longer = dirty.push(idx);
    assert forall|i: u32| #[trigger] is_marked(after, i) implies longer.contains(i) by {
        if i == idx {
            assert(longer[dirty.len() as int] == idx);
        } else {
            assert(is_marked(slots, i));
            let k = choose|k: int| 0 <= k < dirty.len() && dirty[k] == i;
            assert(longer[k] == i);
        }
    }
}

/// So does taking the marks off the first connection in the queue.
pub proof fn lemma_take<T: Marked>(
    slots: Seq<Option<T>>,
    dirty: Seq<u32>,
    after: Seq<Option<T>>,
)
    requires
        all_queued(slots, dirty),
        dirty.len() > 0,
        !is_marked(after, dirty[0]),
        forall|i: u32| i != dirty[0] && #[trigger] is_marked(after, i) ==> is_marked(slots, i),
    ensures
        all_queued(after, dirty.skip(1)),
{
    let rest = dirty.skip(1);
    assert forall|i: u32| #[trigger] is_marked(after, i) implies rest.contains(i) by {
        assert(is_marked(slots, i));
        let k = choose|k: int| 0 <= k < dirty.len() && dirty[k] == i;
        assert(rest[k - 1] == i);
    }
}

} // verus!
