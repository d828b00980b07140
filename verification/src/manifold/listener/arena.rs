//! Buffers that writers borrow.
use vstd::multiset::Multiset;
use vstd::prelude::*;

use crate::manifold::listener::send::{Buf, WRITE_BUF_CAP};

verus! {

/// A borrowed buffer. It cannot be copied, so it is given back at most once.
pub struct Handle {
    index: u32,
}

impl Handle {
    pub closed spec fn index(self) -> u32 {
        self.index
    }
}

/// A pool of buffers that grows up to a cap and never shrinks.
pub struct Arena {
    pub bufs: Vec<Box<Buf>>,
    free: Vec<u32>,
    hard_cap: usize,
}

/// The abstract value of an [`Arena`].
pub struct ArenaView {
    /// What each buffer that has been made holds.
    pub bufs: Seq<Seq<u8>>,
    /// Those that are not borrowed, the next one to be borrowed last.
    pub free: Seq<u32>,
    pub hard_cap: nat,
}

impl ArenaView {
    /// How many buffers have been made.
    pub open spec fn made(self) -> nat {
        self.bufs.len()
    }

    pub open spec fn wf(self) -> bool {
        &&& self.made() <= self.hard_cap
        &&& self.free.no_duplicates()
        &&& forall|i: int| 0 <= i < self.free.len() ==> #[trigger] self.free[i] < self.made()
    }

    /// Buffer `index` has been made and is not free.
    pub open spec fn borrowed(self, index: u32) -> bool {
        index < self.made() && !self.free.contains(index)
    }

    pub open spec fn live(self) -> int {
        self.made() - self.free.len()
    }

    /// The buffer that is borrowed next, if there is one to be had.
    pub open spec fn next(self) -> Option<u32> {
        if self.free.len() > 0 {
            Some(self.free.last())
        } else if self.made() < self.hard_cap {
            Some(self.made() as u32)
        } else {
            None
        }
    }

    pub open spec fn borrow(self) -> Self {
        if self.free.len() > 0 {
            ArenaView { free: self.free.drop_last(), ..self }
        } else if self.made() < self.hard_cap {
            ArenaView {
                bufs: self.bufs.push(Seq::new(WRITE_BUF_CAP as nat, |i: int| 0u8)),
                ..self
            }
        } else {
            self
        }
    }

    /// The holder of buffer `index` leaves `bytes` in it.
    pub open spec fn written(self, index: u32, bytes: Seq<u8>) -> Self {
        ArenaView { bufs: self.bufs.update(index as int, bytes), ..self }
    }

    pub open spec fn release(self, index: u32) -> Self {
        ArenaView { free: self.free.push(index), ..self }
    }
}

/// A buffer that is given back is the next one to be borrowed, and the pool does
/// not grow for it.
pub proof fn law_released_is_reused(arena: ArenaView, index: u32)
    requires
        arena.wf(),
        arena.borrowed(index),
    ensures
        arena.release(index).live() == arena.live() - 1,
        arena.release(index).next() == Some(index),
        arena.release(index).borrow() == arena,
{
    assert(arena.free.push(index).drop_last() =~= arena.free);
}

/// What a writer puts into its buffer stays in it until it gives the buffer back,
/// whatever other writers borrow, write and give back meanwhile.
pub proof fn law_written_stays(
    arena: ArenaView,
    index: u32,
    bytes: Seq<u8>,
    other: u32,
    others: Seq<u8>,
)
    requires
        arena.wf(),
        arena.borrowed(index),
        arena.borrowed(other),
        other != index,
        arena.made() <= u32::MAX,
    ensures
        arena.written(index, bytes).bufs[index as int] == bytes,
        arena.written(index, bytes).borrow().bufs[index as int] == bytes,
        arena.written(index, bytes).release(other).bufs[index as int] == bytes,
        arena.written(index, bytes).written(other, others).bufs[index as int] == bytes,
        arena.written(index, bytes).borrow().borrowed(index),
        arena.written(index, bytes).release(other).borrowed(index),
        arena.written(index, bytes).next() != Some(index),
{
    let free = arena.free;
    assert(free.push(other)[free.len() as int] == other);
    if free.len() > 0 {
        assert(free.contains(free.last()));
        assert(!free.drop_last().contains(index)) by {
            if free.drop_last().contains(index) {
                let i = choose|i: int| 0 <= i < free.len() - 1 && free.drop_last()[i] == index;
                assert(free[i] == index);
            }
        }
    }
    if free.push(other).contains(index) {
        let i = choose|i: int| 0 <= i < free.len() + 1 && free.push(other)[i] == index;
        assert(free[i] == index);
    }
}

/// Borrowing fails exactly when as many buffers as the cap allows are borrowed.
pub proof fn law_borrow_fails_at_cap(arena: ArenaView)
    requires
        arena.wf(),
    ensures
        0 <= arena.live() <= arena.hard_cap,
        arena.next() is None <==> arena.live() == arena.hard_cap,
        arena.next() is Some ==> arena.borrow().live() == arena.live() + 1,
{
    let taken = arena.free.map_values(|i: u32| i as int);
    let all = vstd::set_lib::set_int_range(0, arena.made() as int);
    vstd::set_lib::lemma_int_range(0, arena.made() as int);
    taken.unique_seq_to_set();
    assert forall|x: int| taken.to_set().contains(x) implies all.contains(x) by {
        let i = choose|i: int| 0 <= i < taken.len() && taken[i] == x;
        assert(arena.free[i] < arena.made());
    }
    vstd::set_lib::lemma_len_subset(taken.to_set(), all);
}

/// Borrowing takes the buffer that was given back last, or makes a new one, empty, if
/// there is none and the cap allows it. It changes no buffer that was made before.
pub proof fn law_borrow_prefers_what_was_given_back(arena: ArenaView, i: int)
    requires
        arena.wf(),
        arena.hard_cap <= u32::MAX,
        0 <= i < arena.bufs.len(),
    ensures
        arena.borrow().bufs[i] == arena.bufs[i],
        arena.borrow().hard_cap == arena.hard_cap,
        arena.free.len() > 0 ==> {
            &&& arena.next() == Some(arena.free.last())
            &&& arena.free == arena.borrow().free + seq![arena.free.last()]
            &&& arena.borrow().bufs == arena.bufs
        },
        arena.free.len() == 0 && arena.bufs.len() < arena.hard_cap ==> {
            &&& arena.next() matches Some(index) && index == arena.bufs.len()
            &&& arena.borrow().bufs.len() == arena.bufs.len() + 1
            &&& arena.borrow().bufs.last().len() == WRITE_BUF_CAP
            &&& arena.borrow().free.len() == 0
        },
        arena.free.len() == 0 && arena.bufs.len() >= arena.hard_cap ==> arena.next() is None
            && arena.borrow() == arena,
{
    if arena.free.len() > 0 {
        assert(arena.free =~= arena.free.drop_last() + seq![arena.free.last()]);
    }
}

/// What is written goes to one buffer, and giving one back changes none.
pub proof fn law_writing_changes_one_buffer(
    arena: ArenaView,
    index: u32,
    bytes: Seq<u8>,
    i: int,
)
    requires
        index < arena.bufs.len(),
        0 <= i < arena.bufs.len(),
    ensures
        arena.written(index, bytes).bufs[index as int] == bytes,
        i != index ==> arena.written(index, bytes).bufs[i] == arena.bufs[i],
        arena.written(index, bytes).bufs.len() == arena.bufs.len(),
        arena.written(index, bytes).free == arena.free,
        arena.written(index, bytes).hard_cap == arena.hard_cap,
        arena.release(index).bufs == arena.bufs,
        arena.release(index).free == arena.free + seq![index],
        arena.release(index).hard_cap == arena.hard_cap,
{
    assert(arena.free.push(index) =~= arena.free + seq![index]);
}

/// `cycles` writers that each borrow a buffer and give it back.
pub open spec fn served(arena: ArenaView, cycles: nat) -> ArenaView
    decreases cycles,
{
    if cycles == 0 {
        arena
    } else {
        let before = served(arena, (cycles - 1) as nat);
        match before.next() {
            Some(index) => before.borrow().release(index),
            None => before,
        }
    }
}

/// Writers that follow one another share one buffer, however many there are.
pub proof fn law_serial_writers_share(arena: ArenaView, cycles: nat)
    requires
        arena.made() == 0,
        arena.free.len() == 0,
        1 <= arena.hard_cap,
        cycles > 0,
    ensures
        served(arena, cycles).made() == 1,
        served(arena, cycles).free == seq![0u32],
        served(arena, cycles).live() == 0,
    decreases cycles,
{
    if cycles == 1 {
        assert(served(arena, 0) == arena);
        assert(served(arena, 1).free =~= seq![0u32]);
    } else {
        law_serial_writers_share(arena, (cycles - 1) as nat);
        assert(served(arena, cycles).free =~= seq![0u32]);
    }
}

/// What is done with a pool of buffers.
pub enum Use {
    Borrow,
    Write { index: u32, bytes: Seq<u8> },
    Release { index: u32 },
}

impl ArenaView {
    pub open spec fn used(self, how: Use) -> Self {
        match how {
            Use::Borrow => self.borrow(),
            Use::Write { index, bytes } => self.written(index, bytes),
            Use::Release { index } => self.release(index),
        }
    }

    /// Only what is borrowed is written to or given back.
    pub open spec fn allows(self, how: Use) -> bool {
        match how {
            Use::Borrow => true,
            Use::Write { index, .. } => self.borrowed(index),
            Use::Release { index } => self.borrowed(index),
        }
    }

    /// The handles that are live after a use, if `handles` were before it, each by
    /// the buffer that it names.
    pub open spec fn handles_after(self, handles: Multiset<u32>, how: Use) -> Multiset<u32> {
        match how {
            Use::Borrow => match self.next() {
                Some(index) => handles.insert(index),
                None => handles,
            },
            Use::Write { .. } => handles,
            Use::Release { index } => handles.remove(index),
        }
    }

    pub open spec fn after(self, uses: Seq<Use>) -> Self
        decreases uses.len(),
    {
        if uses.len() == 0 {
            self
        } else {
            self.after(uses.drop_last()).used(uses.last())
        }
    }

    pub open spec fn allows_all(self, uses: Seq<Use>) -> bool
        decreases uses.len(),
    {
        uses.len() == 0 || self.allows_all(uses.drop_last()) && self.after(
            uses.drop_last(),
        ).allows(uses.last())
    }

    /// The handles that are live after `uses`, starting with none.
    pub open spec fn handles(self, uses: Seq<Use>) -> Multiset<u32>
        decreases uses.len(),
    {
        if uses.len() == 0 {
            Multiset::empty()
        } else {
            self.after(uses.drop_last()).handles_after(self.handles(uses.drop_last()), uses.last())
        }
    }

    /// The most handles that were live at once during `uses`.
    pub open spec fn peak(self, uses: Seq<Use>) -> nat
        decreases uses.len(),
    {
        if uses.len() == 0 {
            0
        } else {
            let before = self.peak(uses.drop_last());
            let live = self.handles(uses).len();
            if live > before {
                live
            } else {
                before
            }
        }
    }
}

/// Whatever is borrowed, written and given back, no two live handles name the same
/// buffer, and there are as many buffers as handles were ever live at once: never
/// more than the cap.
pub proof fn law_buffers_number_the_peak(arena: ArenaView, uses: Seq<Use>)
    requires
        arena.made() == 0,
        arena.free.len() == 0,
        arena.hard_cap <= u32::MAX,
        arena.allows_all(uses),
    ensures
        arena.after(uses).wf(),
        forall|index: u32| #[trigger]
            arena.handles(uses).count(index) == if arena.after(uses).borrowed(index) {
                1nat
            } else {
                0
            },
        arena.handles(uses).len() == arena.after(uses).live(),
        arena.after(uses).made() == arena.peak(uses),
        arena.peak(uses) <= arena.hard_cap,
        arena.after(uses).hard_cap == arena.hard_cap,
    decreases uses.len(),
{
    broadcast use vstd::multiset::group_multiset_axioms;

    if uses.len() == 0 {
    } else {
        law_buffers_number_the_peak(arena, uses.drop_last());
        let before = arena.after(uses.drop_last());
        let after = arena.after(uses);
        let free = before.free;
        match uses.last() {
            Use::Borrow => {
                if free.len() > 0 {
                    let index = free.last();
                    assert(free.contains(index));
                    assert forall|i: u32| #[trigger] after.free.contains(i) <==> free.contains(i)
                        && i != index by {
                        if free.contains(i) && i != index {
                            let k = choose|k: int| 0 <= k < free.len() && free[k] == i;
                            assert(after.free[k] == i);
                        }
                        if after.free.contains(i) {
                            let k = choose|k: int| 0 <= k < after.free.len() && after.free[k] == i;
                            assert(free[k] == i);
                        }
                    }
                } else if before.made() < before.hard_cap {
                    let index = before.made() as u32;
                    assert(!before.borrowed(index));
                }
            },
            Use::Write { .. } => {},
            Use::Release { index } => {
                assert forall|i: u32| #[trigger] after.free.contains(i) <==> free.contains(i) || i
                    == index by {
                    if free.contains(i) {
                        let k = choose|k: int| 0 <= k < free.len() && free[k] == i;
                        assert(after.free[k] == i);
                    }
                    if i == index {
                        assert(after.free[free.len() as int] == i);
                    }
                }
            },
        }
    }
}

impl View for Arena {
    type V = ArenaView;

    closed spec fn view(&self) -> ArenaView {
        ArenaView {
            bufs: self.bufs@.map_values(|buf: Box<Buf>| buf@),
            free: self.free@,
            hard_cap: self.hard_cap as nat,
        }
    }
}

impl Arena {
    pub closed spec fn wf(self) -> bool {
        self@.wf()
    }

    pub proof fn lemma_view_wf(&self)
        requires
            self.wf(),
        ensures
            self@.wf(),
    {
    }

    pub fn new(hard_cap: usize) -> (arena: Self)
        ensures
            arena.wf(),
            arena@ == (ArenaView {
                bufs: Seq::empty(),
                free: Seq::empty(),
                hard_cap: hard_cap as nat,
            }),
    {
        let arena = Arena { bufs: Vec::new(), free: Vec::new(), hard_cap };
        assert(arena@.bufs =~= Seq::empty());
        arena
    }

    /// Borrows a buffer, or returns `None` when all that the cap allows are
    /// borrowed.
    pub fn borrow(&mut self) -> (handle: Option<Handle>)
        requires
            old(self).wf(),
            old(self)@.made() <= u32::MAX,
        ensures
            final(self).wf(),
            final(self)@ == old(self)@.borrow(),
            match handle {
                Some(h) => old(self)@.next() == Some(h.index()) && final(self)@.borrowed(h.index()),
                None => old(self)@.next() is None,
            },
    {
        match self.free.pop() {
            Some(index) => {
                assert(self@.free =~= old(self)@.free.drop_last());
                Some(Handle { index })
            },
            None => {
                if self.bufs.len() >= self.hard_cap {
                    return None;
                }
                let index = self.bufs.len() as u32;
                self.bufs.push(Box::new(Buf::new()));
                assert(self@.bufs =~= old(self)@.borrow().bufs);
                Some(Handle { index })
            },
        }
    }

    /// Gives a buffer back.
    pub fn release(&mut self, handle: Handle)
        requires
            old(self).wf(),
            old(self)@.borrowed(handle.index()),
        ensures
            final(self).wf(),
            final(self)@ == old(self)@.release(handle.index()),
    {
        self.free.push(handle.index);
    }

    /// The bytes of a borrowed buffer.
    pub fn slice(&mut self, handle: &Handle) -> (bytes: &mut [u8])
        requires
            old(self).wf(),
            old(self)@.borrowed(handle.index()),
        ensures
            bytes@ == old(self)@.bufs[handle.index() as int],
            final(self).wf(),
            final(self)@ == old(self)@.written(handle.index(), final(bytes)@),
    {
        proof {
            let i = handle.index as int;
            let bufs = self.bufs@;
            let view = self@.bufs;
            assert forall|buf: Box<Buf>|
                (#[trigger] bufs.update(i, buf)).map_values(|buf: Box<Buf>| buf@) == view.update(
                    i,
                    buf@,
                ) by {
                assert(bufs.update(i, buf).map_values(|buf: Box<Buf>| buf@) =~= view.update(
                    i,
                    buf@,
                ));
            }
        }
        self.bufs[handle.index as usize].as_mut_slice()
    }

    /// How many buffers are borrowed.
    pub fn live(&self) -> (live: usize)
        requires
            self.wf(),
        ensures
            live == self@.live(),
    {
        proof {
            law_borrow_fails_at_cap(self@);
        }
        self.bufs.len() - self.free.len()
    }

    pub fn free_len(&self) -> (len: usize)
        ensures
            len == self@.free.len(),
    {
        self.free.len()
    }
}

} // verus!
