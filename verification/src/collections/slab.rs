//! Values that are found again by a key, where a key is never used twice.
use vstd::prelude::*;

verus! {

/// `o3::collections::CellSlab`.
#[verifier::external_type_specification]
#[verifier::external_body]
#[verifier::reject_recursive_types(T)]
#[verifier::reject_recursive_types(Tag)]
pub struct ExCellSlab<T, Tag, const MAX: u32>(o3::collections::CellSlab<T, Tag, MAX>);

/// The slots in use, each with the generation of its key.
pub uninterp spec fn slab_live(slab: o3::collections::CellSlab<(), (), 4294967295>) -> Map<u32, u32>;

/// The generation that each slot is in; there are as many as there are slots.
pub uninterp spec fn slab_generations(
    slab: o3::collections::CellSlab<(), (), 4294967295>,
) -> Seq<u32>;

/// The slots that have no generation left.
pub uninterp spec fn slab_retired(slab: o3::collections::CellSlab<(), (), 4294967295>) -> Set<u32>;

/// `CellSlab::with_capacity`: an empty slab whose slots are all in their first
/// generation. It panics on the highest 32-bit capacity and above.
#[verifier::external_body]
fn slab_new(capacity: usize) -> (slab: o3::collections::CellSlab<(), (), 4294967295>)
    requires
        capacity <= 0xffff_fffe,
    ensures
        slab_live(slab) =~= Map::empty(),
        slab_generations(slab) =~= Seq::new(capacity as nat, |i: int| 1u32),
        slab_retired(slab) =~= Set::empty(),
{
    o3::collections::CellSlab::with_capacity(capacity)
}

/// `CellSlab::insert`: takes some free slot into use and returns its index and
/// generation; it fails when every slot is in use or retired. The slab is borrowed
/// for writing although the outside function changes it through a shared
/// reference.
#[verifier::external_body]
fn slab_insert(
    slab: &mut o3::collections::CellSlab<(), (), 4294967295>,
) -> (key: Option<(u32, u32)>)
    ensures
        match key {
            Some((index, generation)) => {
                &&& index < slab_generations(*old(slab)).len()
                &&& !slab_live(*old(slab)).contains_key(index)
                &&& !slab_retired(*old(slab)).contains(index)
                &&& generation == slab_generations(*old(slab))[index as int]
                &&& slab_live(*final(slab)) == slab_live(*old(slab)).insert(index, generation)
            },
            None => {
                &&& forall|i: u32|
                    i < slab_generations(*old(slab)).len() ==> #[trigger] slab_live(
                        *old(slab),
                    ).contains_key(i) || slab_retired(*old(slab)).contains(i)
                &&& slab_live(*final(slab)) == slab_live(*old(slab))
            },
        },
        slab_generations(*final(slab)) == slab_generations(*old(slab)),
        slab_retired(*final(slab)) == slab_retired(*old(slab)),
{
    slab.insert(()).ok().map(|key| (key.index(), key.generation().get()))
}

/// `CellSlab::remove_parts`: frees the slot that is in use under a key. The slot
/// moves on to its next generation, or is retired when there is none. The slab is
/// borrowed for writing although the outside function changes it through a shared
/// reference.
#[verifier::external_body]
fn slab_remove(
    slab: &mut o3::collections::CellSlab<(), (), 4294967295>,
    index: u32,
    generation: u32,
) -> (removed: bool)
    ensures
        removed <==> generation != 0 && slab_live(*old(slab)).contains_key(index) && slab_live(
            *old(slab),
        )[index] == generation,
        slab_live(*final(slab)) == if removed {
            slab_live(*old(slab)).remove(index)
        } else {
            slab_live(*old(slab))
        },
        slab_generations(*final(slab)) == if removed && generation != u32::MAX {
            slab_generations(*old(slab)).update(index as int, (generation + 1) as u32)
        } else {
            slab_generations(*old(slab))
        },
        slab_retired(*final(slab)) == if removed && generation == u32::MAX {
            slab_retired(*old(slab)).insert(index)
        } else {
            slab_retired(*old(slab))
        },
{
    match o3::collections::SlabKeyParts::new(index, generation) {
        Some(parts) => slab.remove_parts(parts).is_some(),
        None => false,
    }
}

/// `CellSlab::grow_to`: adds free slots in their first generation and keeps the
/// others. It panics on a smaller capacity, and on the highest 32-bit capacity and
/// above.
#[verifier::external_body]
fn slab_grow_to(slab: &mut o3::collections::CellSlab<(), (), 4294967295>, capacity: usize)
    requires
        slab_generations(*old(slab)).len() <= capacity <= 0xffff_fffe,
    ensures
        slab_live(*final(slab)) == slab_live(*old(slab)),
        slab_generations(*final(slab)) =~= slab_generations(*old(slab)) + Seq::new(
            (capacity - slab_generations(*old(slab)).len()) as nat,
            |i: int| 1u32,
        ),
        slab_retired(*final(slab)) == slab_retired(*old(slab)),
{
    slab.grow_to(capacity)
}

/// `CellSlab::is_empty`: whether no slot is in use.
#[verifier::external_body]
fn slab_is_empty(slab: &o3::collections::CellSlab<(), (), 4294967295>) -> (empty: bool)
    ensures
        empty <==> forall|i: u32| !#[trigger] slab_live(*slab).contains_key(i),
{
    slab.is_empty()
}

/// Names one use of one slot of a slab.
#[derive(Clone, Copy, PartialEq, Eq, Structural, Debug)]
pub struct SlabKey {
    pub index: u32,
    pub generation: u32,
}

/// The abstract value of a [`Slab`].
#[verifier::ext_equal]
pub struct SlabView<T> {
    pub entries: Map<SlabKey, T>,
    /// The generation that each slot is in.
    pub generations: Seq<u32>,
    pub retired: Set<u32>,
}

impl<T> SlabView<T> {
    /// A slot is in use under at most one key, that of its generation, and not
    /// when it is retired.
    pub open spec fn wf(self) -> bool {
        &&& self.generations.len() <= 0xffff_fffe
        &&& forall|k: SlabKey| #[trigger]
            self.entries.contains_key(k) ==> {
                &&& k.index < self.generations.len()
                &&& k.generation == self.generations[k.index as int]
                &&& !self.retired.contains(k.index)
            }
        &&& forall|i: int|
            0 <= i < self.generations.len() ==> #[trigger] self.generations[i] >= 1
        &&& forall|i: u32| #[trigger] self.retired.contains(i) ==> i < self.generations.len()
    }

    /// No slot is in use.
    pub open spec fn is_idle(self) -> bool {
        forall|k: SlabKey| !#[trigger] self.entries.contains_key(k)
    }

    /// The key under which slot `i` is, or would be, in use.
    pub open spec fn key_at(self, i: int) -> SlabKey {
        SlabKey { index: i as u32, generation: self.generations[i] }
    }

    pub open spec fn occupied(self, i: int) -> bool {
        0 <= i < self.generations.len() && self.entries.contains_key(self.key_at(i))
    }

    /// No slot can be taken into use.
    pub open spec fn full(self) -> bool {
        forall|i: int|
            0 <= i < self.generations.len() ==> #[trigger] self.occupied(i)
                || self.retired.contains(i as u32)
    }

    /// `key` is what the next insertion may hand out.
    pub open spec fn vacant(self, key: SlabKey) -> bool {
        &&& key.index < self.generations.len()
        &&& key == self.key_at(key.index as int)
        &&& !self.entries.contains_key(key)
        &&& !self.retired.contains(key.index)
    }

    pub open spec fn insert(self, key: SlabKey, value: T) -> Self {
        SlabView { entries: self.entries.insert(key, value), ..self }
    }

    pub open spec fn remove(self, key: SlabKey) -> Self {
        if !self.entries.contains_key(key) {
            self
        } else if key.generation == u32::MAX {
            SlabView {
                entries: self.entries.remove(key),
                retired: self.retired.insert(key.index),
                ..self
            }
        } else {
            SlabView {
                entries: self.entries.remove(key),
                generations: self.generations.update(
                    key.index as int,
                    (key.generation + 1) as u32,
                ),
                ..self
            }
        }
    }

    pub open spec fn grown(self, capacity: int) -> Self {
        SlabView {
            generations: self.generations + Seq::new(
                (capacity - self.generations.len()) as nat,
                |i: int| 1u32,
            ),
            ..self
        }
    }

    /// `key` was in use once and is not any more: its slot has moved on.
    pub open spec fn spent(self, key: SlabKey) -> bool {
        key.index < self.generations.len() && (self.generations[key.index as int] > key.generation
            || self.retired.contains(key.index))
    }
}

/// Removing a key spends it.
pub proof fn law_remove_spends<T>(slab: SlabView<T>, key: SlabKey)
    requires
        slab.wf(),
        slab.entries.contains_key(key),
    ensures
        slab.remove(key).spent(key),
        !slab.remove(key).entries.contains_key(key),
{
}

/// A spent key is in no later state of the slab: it is not in use, insertion
/// does not hand it out, and neither insertion, removal nor growth revives it.
pub proof fn law_spent_stays_spent<T>(
    slab: SlabView<T>,
    key: SlabKey,
    fresh: SlabKey,
    value: T,
    other: SlabKey,
    capacity: int,
)
    requires
        slab.wf(),
        slab.spent(key),
        slab.vacant(fresh),
        slab.generations.len() <= capacity,
    ensures
        !slab.entries.contains_key(key),
        fresh != key,
        slab.insert(fresh, value).spent(key),
        slab.remove(other).spent(key),
        slab.grown(capacity).spent(key),
{
}

/// A value that is put in is found under its key, and one that is taken out is not;
/// all other values stay as they are, under their keys.
pub proof fn law_other_keys_are_untouched<T>(
    slab: SlabView<T>,
    key: SlabKey,
    value: T,
    other: SlabKey,
)
    requires
        slab.wf(),
    ensures
        slab.insert(key, value).entries.contains_key(key),
        slab.insert(key, value).entries[key] == value,
        slab.insert(key, value).generations == slab.generations,
        slab.insert(key, value).retired == slab.retired,
        other != key ==> (slab.insert(key, value).entries.contains_key(other)
            <==> slab.entries.contains_key(other)),
        other != key && slab.entries.contains_key(other) ==> slab.insert(key, value).entries[other]
            == slab.entries[other],
        !slab.remove(key).entries.contains_key(key),
        other != key ==> (slab.remove(key).entries.contains_key(other)
            <==> slab.entries.contains_key(other)),
        other != key && slab.entries.contains_key(other) ==> slab.remove(key).entries[other]
            == slab.entries[other],
        slab.remove(key).generations.len() == slab.generations.len(),
{
}

/// A slot that is given back is free under its next generation, or retired after the
/// last one; no other slot's generation changes, and none is retired for it. A key
/// that is not in use changes nothing.
pub proof fn law_slot_moves_on<T>(slab: SlabView<T>, key: SlabKey, i: u32)
    requires
        slab.wf(),
    ensures
        !slab.entries.contains_key(key) ==> slab.remove(key) == slab,
        slab.entries.contains_key(key) && key.generation < u32::MAX ==> {
            &&& slab.remove(key).generations[key.index as int] == key.generation + 1
            &&& slab.remove(key).retired == slab.retired
            &&& slab.remove(key).vacant(
                SlabKey { index: key.index, generation: (key.generation + 1) as u32 },
            )
        },
        slab.entries.contains_key(key) && key.generation == u32::MAX ==> {
            &&& slab.remove(key).generations == slab.generations
            &&& slab.remove(key).retired.contains(key.index)
        },
        i != key.index && i < slab.generations.len() ==> slab.remove(key).generations[i as int]
            == slab.generations[i as int],
        i != key.index ==> (slab.remove(key).retired.contains(i) <==> slab.retired.contains(i)),
{
}

/// A slab is full exactly if no key can be handed out, and idle exactly if nothing is
/// in it; growing adds free slots of the first generation behind those that there are
/// and changes none of them.
pub proof fn law_room_and_growth<T>(slab: SlabView<T>, capacity: int, i: int)
    requires
        slab.wf(),
        slab.generations.len() <= capacity <= 0xffff_fffe,
        0 <= i < capacity,
    ensures
        slab.full() <==> forall|key: SlabKey| !#[trigger] slab.vacant(key),
        slab.is_idle() <==> forall|key: SlabKey| !#[trigger] slab.entries.dom().contains(key),
        slab.grown(capacity).generations.len() == capacity,
        slab.grown(capacity).entries == slab.entries,
        slab.grown(capacity).retired == slab.retired,
        i < slab.generations.len() ==> slab.grown(capacity).generations[i] == slab.generations[i],
        i >= slab.generations.len() ==> slab.grown(capacity).generations[i] == 1 && slab.grown(
            capacity,
        ).vacant(SlabKey { index: i as u32, generation: 1 }),
{
    if slab.full() {
        assert forall|key: SlabKey| !#[trigger] slab.vacant(key) by {
            if slab.vacant(key) {
                assert(slab.occupied(key.index as int) || slab.retired.contains(key.index));
            }
        }
    }
    if forall|key: SlabKey| !#[trigger] slab.vacant(key) {
        assert forall|j: int| 0 <= j < slab.generations.len() implies #[trigger] slab.occupied(j)
            || slab.retired.contains(j as u32) by {
            assert(!slab.vacant(slab.key_at(j)));
        }
    }
}

/// Values that are found again by a key.
pub struct Slab<T> {
    keys: o3::collections::CellSlab<(), (), 4294967295>,
    values: Vec<Option<(u32, T)>>,
}

impl<T> View for Slab<T> {
    type V = SlabView<T>;

    closed spec fn view(&self) -> SlabView<T> {
        SlabView {
            entries: Map::new(
                |k: SlabKey|
                    k.index < self.values@.len() && self.values@[k.index as int] is Some && (
                    self.values@[k.index as int]->0).0 == k.generation,
                |k: SlabKey| (self.values@[k.index as int]->0).1,
            ),
            generations: slab_generations(self.keys),
            retired: slab_retired(self.keys),
        }
    }
}

impl<T> Slab<T> {
    /// The values lie at the slots that are in use.
    pub closed spec fn wf(self) -> bool {
        &&& self@.wf()
        &&& self.values@.len() == slab_generations(self.keys).len()
        &&& forall|i: u32|
            #![trigger slab_live(self.keys).contains_key(i)]
            #![trigger self.values@[i as int]]
            slab_live(self.keys).contains_key(i) <==> i < self.values@.len()
                && self.values@[i as int] is Some
        &&& forall|i: u32|
            #![trigger slab_live(self.keys)[i]]
            #![trigger self.values@[i as int]]
            i < self.values@.len() && self.values@[i as int] is Some ==> {
                &&& slab_live(self.keys)[i] == (self.values@[i as int]->0).0
                &&& slab_live(self.keys)[i] == slab_generations(self.keys)[i as int]
                &&& !slab_retired(self.keys).contains(i)
            }
    }

    pub proof fn lemma_view_wf(&self)
        requires
            self.wf(),
        ensures
            self@.wf(),
    {
    }

    proof fn lemma_occupied(&self, i: u32)
        requires
            self.wf(),
            i < self.values@.len(),
        ensures
            self@.occupied(i as int) <==> self.values@[i as int] is Some,
    {
    }

    pub fn with_capacity(capacity: usize) -> (slab: Self)
        requires
            capacity <= 0xffff_fffe,
        ensures
            slab.wf(),
            slab@ == (SlabView::<T> {
                entries: Map::empty(),
                generations: Seq::new(capacity as nat, |i: int| 1u32),
                retired: Set::empty(),
            }),
    {
        let mut values: Vec<Option<(u32, T)>> = Vec::with_capacity(capacity);
        let mut i: usize = 0;
        while i < capacity
            invariant
                i <= capacity,
                values@.len() == i,
                forall|j: int| 0 <= j < i ==> #[trigger] values@[j] is None,
            decreases capacity - i,
        {
            values.push(None);
            i += 1;
        }
        let slab = Slab { keys: slab_new(capacity), values };
        assert(slab@.entries =~= Map::empty());
        slab
    }

    pub fn capacity(&self) -> (capacity: usize)
        requires
            self.wf(),
        ensures
            capacity == self@.generations.len(),
    {
        self.values.len()
    }

    pub fn is_empty(&self) -> (empty: bool)
        requires
            self.wf(),
        ensures
            empty == self@.is_idle(),
    {
        let empty = slab_is_empty(&self.keys);
        proof {
            if empty {
                assert forall|k: SlabKey| !#[trigger] self@.entries.contains_key(k) by {
                    assert(!slab_live(self.keys).contains_key(k.index));
                }
            } else {
                let i = choose|i: u32| slab_live(self.keys).contains_key(i);
                assert(self.values@[i as int] is Some);
                assert(self@.entries.contains_key(self@.key_at(i as int)));
            }
        }
        empty
    }

    pub fn contains(&self, key: SlabKey) -> (present: bool)
        ensures
            present == self@.entries.contains_key(key),
    {
        let index = key.index as usize;
        if index < self.values.len() {
            match &self.values[index] {
                Some((generation, _)) => *generation == key.generation,
                None => false,
            }
        } else {
            false
        }
    }

    /// Takes a slot into use for `value`; gives `value` back when there is none.
    pub fn insert(&mut self, value: T) -> (key: Result<SlabKey, T>)
        requires
            old(self).wf(),
        ensures
            final(self).wf(),
            match key {
                Ok(k) => old(self)@.vacant(k) && final(self)@ == old(self)@.insert(k, value),
                Err(v) => v == value && old(self)@.full() && final(self)@ == old(self)@,
            },
    {
        match slab_insert(&mut self.keys) {
            Some((index, generation)) => {
                let key = SlabKey { index, generation };
                self.values[index as usize] = Some((generation, value));
                proof {
                    assert(!old(self)@.entries.contains_key(key)) by {
                        assert(old(self).values@[index as int] is None);
                    }
                    assert(self@.entries =~= old(self)@.entries.insert(key, value));
                    assert(self@.retired == old(self)@.retired);
                }
                Ok(key)
            },
            None => {
                proof {
                    assert forall|i: int| 0 <= i < old(self)@.generations.len() implies #[trigger] old(
                        self,
                    )@.occupied(i) || old(self)@.retired.contains(i as u32) by {
                        old(self).lemma_occupied(i as u32);
                        assert(slab_live(old(self).keys).contains_key(i as u32) || slab_retired(
                            old(self).keys,
                        ).contains(i as u32));
                    }
                    assert(self@ =~= old(self)@);
                }
                Err(value)
            },
        }
    }

    /// The value under `key`.
    pub fn get(&self, key: SlabKey) -> (value: Option<&T>)
        ensures
            value == if self@.entries.contains_key(key) {
                Some(&self@.entries[key])
            } else {
                None
            },
    {
        let index = key.index as usize;
        if index < self.values.len() {
            match &self.values[index] {
                Some((generation, value)) => if *generation == key.generation {
                    Some(value)
                } else {
                    None
                },
                None => None,
            }
        } else {
            None
        }
    }

    /// The value under `key`, to be changed.
    pub fn get_mut(&mut self, key: SlabKey) -> (value: Option<&mut T>)
        requires
            old(self).wf(),
        ensures
            final(self).wf(),
            match value {
                Some(v) => {
                    &&& old(self)@.entries.contains_key(key)
                    &&& *v == old(self)@.entries[key]
                    &&& final(self)@ == old(self)@.insert(key, *final(v))
                },
                None => !old(self)@.entries.contains_key(key) && final(self)@ == old(self)@,
            },
    {
        if !self.contains(key) {
            return None;
        }
        let index = key.index as usize;
        proof {
            assert forall|after: Slab<T>, e: Option<(u32, T)>|
                #![trigger after.wf(), self.values@.update(index as int, e)]
                e is Some && (e->0).0 == key.generation && after.keys == self.keys && after.values@ == self.values@.update(
                    index as int,
                    e,
                ) implies after.wf() by {
                assert(self.values@[index as int] is Some);
                assert(after@.entries =~= self@.entries.insert(key, (e->0).1));
            }
        }
        match &mut self.values[index] {
            Some((_, value)) => Some(value),
            None => None,
        }
    }

    /// Takes the value under `key` out of the slab and spends the key.
    pub fn remove(&mut self, key: SlabKey) -> (value: Option<T>)
        requires
            old(self).wf(),
        ensures
            final(self).wf(),
            final(self)@ == old(self)@.remove(key),
            value == if old(self)@.entries.contains_key(key) {
                Some(old(self)@.entries[key])
            } else {
                None
            },
    {
        if !self.contains(key) {
            return None;
        }
        let index = key.index as usize;
        let _ = slab_remove(&mut self.keys, key.index, key.generation);
        let taken = self.values[index].take();
        proof {
            let before = old(self)@;
            assert(before.entries.contains_key(key));
            assert(slab_live(old(self).keys).contains_key(key.index));
            assert(self@.entries =~= before.entries.remove(key));
            assert(self@ =~= before.remove(key));
        }
        match taken {
            Some((_, value)) => Some(value),
            None => None,
        }
    }

    /// The key that slot `index` is in use under.
    pub fn key_of(&self, index: usize) -> (key: Option<SlabKey>)
        requires
            self.wf(),
            index < self@.generations.len(),
        ensures
            key == if self@.occupied(index as int) {
                Some(self@.key_at(index as int))
            } else {
                None
            },
    {
        proof {
            self.lemma_occupied(index as u32);
        }
        match &self.values[index] {
            Some((generation, _)) => Some(
                SlabKey { index: index as u32, generation: *generation },
            ),
            None => None,
        }
    }

    pub fn grow_to(&mut self, capacity: usize)
        requires
            old(self).wf(),
            old(self)@.generations.len() <= capacity <= 0xffff_fffe,
        ensures
            final(self).wf(),
            final(self)@ == old(self)@.grown(capacity as int),
    {
        let first = self.values.len();
        slab_grow_to(&mut self.keys, capacity);
        let ghost after = *self;
        let mut i = first;
        while i < capacity
            invariant
                first <= i <= capacity,
                first == old(self).values@.len(),
                self.keys == after.keys,
                self.values@.len() == i,
                forall|j: int| 0 <= j < first ==> #[trigger] self.values@[j] == old(self).values@[j],
                forall|j: int| first <= j < i ==> #[trigger] self.values@[j] is None,
            decreases capacity - i,
        {
            self.values.push(None);
            i += 1;
        }
        proof {
            assert(self@.entries =~= old(self)@.entries);
            assert(self@ =~= old(self)@.grown(capacity as int));
        }
    }
}

} // verus!
