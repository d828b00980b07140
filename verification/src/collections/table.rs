//! Counters in a hash table of fixed capacity.
use vstd::prelude::*;

verus! {

/// `o3::collections::FixedHashTable`.
#[verifier::external_type_specification]
#[verifier::external_body]
#[verifier::reject_recursive_types(V)]
pub struct ExFixedHashTable<V>(o3::collections::FixedHashTable<V>);

/// The entries of a table: a number for each hash, kind and name.
pub uninterp spec fn table_entries(
    table: o3::collections::FixedHashTable<(u8, u128, u32)>,
) -> Map<(u64, u8, u128), u32>;

/// The number of entries that a table has room for.
pub uninterp spec fn table_capacity(
    table: o3::collections::FixedHashTable<(u8, u128, u32)>,
) -> nat;

fn is_named(entry: &(u8, u128, u32), kind: u8, name: u128) -> (named: bool)
    ensures
        named == (entry.0 == kind && entry.1 == name),
{
    entry.0 == kind && entry.1 == name
}

/// `FixedHashTable::with_capacity`: an empty table. It panics on a capacity for
/// which there is no address space.
#[verifier::external_body]
fn table_new(capacity: usize) -> (table: o3::collections::FixedHashTable<(u8, u128, u32)>)
    requires
        capacity <= 0x00ff_ffff,
    ensures
        table_entries(table) =~= Map::empty(),
        table_capacity(table) == capacity,
{
    o3::collections::FixedHashTable::with_capacity(capacity)
}

/// `FixedHashTable::get`: the entry that was inserted under a hash and that has a
/// kind and name.
#[verifier::external_body]
fn table_get(
    table: &o3::collections::FixedHashTable<(u8, u128, u32)>,
    hash: u64,
    kind: u8,
    name: u128,
) -> (count: Option<u32>)
    ensures
        count == if table_entries(*table).contains_key((hash, kind, name)) {
            Some(table_entries(*table)[(hash, kind, name)])
        } else {
            None
        },
{
    table.get(hash, |entry| is_named(entry, kind, name)).map(|entry| entry.2)
}

/// `FixedHashTable::get_mut`: changes the number of the entry that was inserted
/// under a hash and that has a kind and name, if there is one.
#[verifier::external_body]
fn table_set(
    table: &mut o3::collections::FixedHashTable<(u8, u128, u32)>,
    hash: u64,
    kind: u8,
    name: u128,
    count: u32,
) -> (found: bool)
    ensures
        found == table_entries(*old(table)).contains_key((hash, kind, name)),
        table_entries(*final(table)) == if found {
            table_entries(*old(table)).insert((hash, kind, name), count)
        } else {
            table_entries(*old(table))
        },
        table_capacity(*final(table)) == table_capacity(*old(table)),
{
    match table.get_mut(hash, |entry| is_named(entry, kind, name)) {
        Some(entry) => {
            entry.2 = count;
            true
        },
        None => false,
    }
}

/// `FixedHashTable::try_insert`: adds an entry under a hash, unless there is one
/// with that kind and name under it, or no room for another.
#[verifier::external_body]
fn table_insert(
    table: &mut o3::collections::FixedHashTable<(u8, u128, u32)>,
    hash: u64,
    kind: u8,
    name: u128,
    count: u32,
) -> (inserted: bool)
    ensures
        inserted == (!table_entries(*old(table)).contains_key((hash, kind, name)) && table_entries(
            *old(table),
        ).len() != table_capacity(*old(table))),
        table_entries(*final(table)) == if inserted {
            table_entries(*old(table)).insert((hash, kind, name), count)
        } else {
            table_entries(*old(table))
        },
        table_capacity(*final(table)) == table_capacity(*old(table)),
{
    table.try_insert(hash, (kind, name, count), |entry| is_named(entry, kind, name)).is_ok()
}

/// `FixedHashTable::remove`: takes out the entry that was inserted under a hash and
/// that has a kind and name, if there is one.
#[verifier::external_body]
fn table_remove(
    table: &mut o3::collections::FixedHashTable<(u8, u128, u32)>,
    hash: u64,
    kind: u8,
    name: u128,
) -> (removed: bool)
    ensures
        removed == table_entries(*old(table)).contains_key((hash, kind, name)),
        table_entries(*final(table)) == table_entries(*old(table)).remove((hash, kind, name)),
        table_capacity(*final(table)) == table_capacity(*old(table)),
{
    table.remove(hash, |entry| is_named(entry, kind, name)).is_some()
}

/// What a counter is found by. The same kind and name must come with the same hash
/// every time.
#[derive(Clone, Copy, PartialEq, Eq, Structural, Debug)]
pub struct CounterKey {
    pub hash: u64,
    pub kind: u8,
    pub name: u128,
}

/// Counters, none of which is zero.
pub struct Counters {
    table: o3::collections::FixedHashTable<(u8, u128, u32)>,
}

/// The abstract value of a [`Counters`].
pub struct CountersView {
    pub counts: Map<CounterKey, u32>,
    /// How many counters there is room for.
    pub room: nat,
    /// How many there are.
    pub len: nat,
}

impl CountersView {
    /// There are no more counters than there is room for, and none is zero.
    pub open spec fn wf(self) -> bool {
        &&& self.counts.dom().finite()
        &&& self.counts.dom().len() == self.len
        &&& self.len <= self.room
        &&& forall|k: CounterKey| #[trigger] self.counts.contains_key(k) ==> self.counts[k] >= 1
    }

    /// No counter is above `limit`.
    pub open spec fn within(self, limit: u32) -> bool {
        forall|k: CounterKey| #[trigger] self.counts.contains_key(k) ==> self.counts[k] <= limit
    }

    pub open spec fn count(self, key: CounterKey) -> u32 {
        if self.counts.contains_key(key) {
            self.counts[key]
        } else {
            0
        }
    }

    /// The counter may go up: it is below the limit, and there is room for it if it
    /// is a new one.
    pub open spec fn can_acquire(self, key: CounterKey, limit: u32) -> bool {
        if self.counts.contains_key(key) {
            self.counts[key] < limit
        } else {
            self.len != self.room
        }
    }

    pub open spec fn acquired(self, key: CounterKey) -> Self {
        CountersView {
            counts: self.counts.insert(key, (self.count(key) + 1) as u32),
            len: if self.counts.contains_key(key) {
                self.len
            } else {
                self.len + 1
            },
            ..self
        }
    }

    pub open spec fn released(self, key: CounterKey) -> Self {
        if !self.counts.contains_key(key) {
            self
        } else if self.counts[key] > 1 {
            CountersView {
                counts: self.counts.insert(key, (self.counts[key] - 1) as u32),
                ..self
            }
        } else {
            CountersView {
                counts: self.counts.remove(key),
                len: (self.len - 1) as nat,
                ..self
            }
        }
    }
}

/// Giving back what was taken leaves the counters as they were.
pub proof fn law_release_undoes_acquire(view: CountersView, key: CounterKey, limit: u32)
    requires
        view.wf(),
        view.can_acquire(key, limit),
    ensures
        view.acquired(key).released(key).counts == view.counts,
        view.acquired(key).released(key).len == view.len,
{
    assert(view.acquired(key).released(key).counts =~= view.counts);
}

/// A counter at its limit does not go up, and one that is given back may.
pub proof fn law_limit_holds(view: CountersView, key: CounterKey, limit: u32)
    requires
        view.wf(),
        limit >= 1,
        view.count(key) == limit,
    ensures
        !view.can_acquire(key, limit),
        view.released(key).can_acquire(key, limit),
{
}

/// No counter ever comes to stand above the limit that is kept to.
pub proof fn law_limit_is_kept(view: CountersView, key: CounterKey, limit: u32)
    requires
        view.wf(),
        view.within(limit),
        limit >= 1,
    ensures
        view.can_acquire(key, limit) ==> view.acquired(key).within(limit),
        view.released(key).within(limit),
{
}

/// A counter that is not there stands at zero. It may go up exactly if it is below
/// the limit, and if it is a new one there is room for it.
pub proof fn law_may_go_up_below_the_limit(view: CountersView, key: CounterKey, limit: u32)
    requires
        view.wf(),
        limit >= 1,
    ensures
        view.counts.contains_key(key) ==> (view.can_acquire(key, limit) <==> view.counts[key]
            < limit),
        !view.counts.contains_key(key) ==> (view.can_acquire(key, limit) <==> view.counts.dom().len()
            != view.room),
        view.counts.contains_key(key) ==> view.count(key) == view.counts[key],
        !view.counts.contains_key(key) ==> view.count(key) == 0,
{
}

/// Counting up adds one to one counter and counting down takes one off it, and it is
/// gone at zero. No other counter changes, nor does the room.
pub proof fn law_counting_changes_one_counter(
    view: CountersView,
    key: CounterKey,
    other: CounterKey,
    limit: u32,
)
    requires
        view.wf(),
    ensures
        view.can_acquire(key, limit) ==> view.acquired(key).count(key) == view.count(key) + 1,
        view.count(key) > 0 ==> view.released(key).count(key) == view.count(key) - 1,
        view.count(key) == 0 ==> view.released(key) == view,
        view.released(key).counts.contains_key(key) <==> view.count(key) > 1,
        other != key ==> view.acquired(key).count(other) == view.count(other),
        other != key ==> view.released(key).count(other) == view.count(other),
        other != key ==> (view.acquired(key).counts.contains_key(other)
            <==> view.counts.contains_key(other)),
        other != key ==> (view.released(key).counts.contains_key(other)
            <==> view.counts.contains_key(other)),
        view.acquired(key).room == view.room,
        view.released(key).room == view.room,
{
}

/// Counting up and down keeps counters well-formed.
pub proof fn lemma_wf_kept(view: CountersView, key: CounterKey, limit: u32)
    requires
        view.wf(),
    ensures
        view.can_acquire(key, limit) ==> view.acquired(key).wf(),
        view.released(key).wf(),
{
    let up = view.counts.insert(key, (view.count(key) + 1) as u32);
    if view.counts.contains_key(key) {
        assert(up.dom() =~= view.counts.dom());
        assert(view.counts.insert(key, (view.counts[key] - 1) as u32).dom() =~= view.counts.dom());
    }
}

/// The counters of a table, by their keys.
spec fn keyed(entries: Map<(u64, u8, u128), u32>) -> Map<CounterKey, u32> {
    Map::new(
        |k: CounterKey| entries.contains_key((k.hash, k.kind, k.name)),
        |k: CounterKey| entries[(k.hash, k.kind, k.name)],
    )
}

proof fn lemma_keyed_len(entries: Map<(u64, u8, u128), u32>)
    requires
        entries.dom().finite(),
    ensures
        keyed(entries).dom().finite(),
        keyed(entries).dom().len() == entries.len(),
{
    let f = |e: (u64, u8, u128)| CounterKey { hash: e.0, kind: e.1, name: e.2 };
    let keys = keyed(entries).dom();
    assert forall|k: CounterKey| keys.contains(k) implies #[trigger] entries.dom().map(f).contains(
        k,
    ) by {
        let e = (k.hash, k.kind, k.name);
        assert(entries.dom().contains(e) && f(e) == k);
    }
    assert(entries.dom().map(f) =~= keys);
    vstd::set_lib::lemma_map_size(entries.dom(), keys, f);
}

impl View for Counters {
    type V = CountersView;

    closed spec fn view(&self) -> CountersView {
        CountersView {
            counts: keyed(table_entries(self.table)),
            room: table_capacity(self.table),
            len: table_entries(self.table).len(),
        }
    }
}

impl Counters {
    pub closed spec fn wf(self) -> bool {
        &&& self@.wf()
        &&& table_entries(self.table).dom().finite()
        &&& forall|k: (u64, u8, u128)| #[trigger]
            table_entries(self.table).contains_key(k) ==> table_entries(self.table)[k] >= 1
    }

    pub fn with_capacity(capacity: usize) -> (counters: Self)
        requires
            capacity <= 0x00ff_ffff,
        ensures
            counters.wf(),
            counters@.counts == Map::<CounterKey, u32>::empty(),
            counters@.room == capacity,
            counters@.len == 0,
    {
        let counters = Counters { table: table_new(capacity) };
        assert(table_entries(counters.table) == Map::<(u64, u8, u128), u32>::empty());
        proof {
            lemma_keyed_len(table_entries(counters.table));
            assert(counters@.counts =~= Map::<CounterKey, u32>::empty());
        }
        counters
    }

    /// Counts one down; a counter that comes to zero is gone.
    pub fn release(&mut self, key: CounterKey)
        requires
            old(self).wf(),
        ensures
            final(self).wf(),
            final(self)@ == old(self)@.released(key),
    {
        let ghost entry = (key.hash, key.kind, key.name);
        let ghost before = table_entries(self.table);
        match table_get(&self.table, key.hash, key.kind, key.name) {
            Some(count) => {
                if count > 1 {
                    let _ = table_set(&mut self.table, key.hash, key.kind, key.name, count - 1);
                    assert(before.insert(entry, (count - 1) as u32).dom() =~= before.dom());
                } else {
                    let _ = table_remove(&mut self.table, key.hash, key.kind, key.name);
                }
                proof {
                    lemma_keyed_len(table_entries(self.table));
                    assert(self@.counts =~= old(self)@.released(key).counts);
                }
            },
            None => {},
        }
    }

    /// Counts one up, unless the counter is at the limit or there is no room for
    /// it.
    pub fn acquire(&mut self, key: CounterKey, limit: u32) -> (acquired: bool)
        requires
            old(self).wf(),
        ensures
            final(self).wf(),
            acquired == old(self)@.can_acquire(key, limit),
            final(self)@ == if acquired {
                old(self)@.acquired(key)
            } else {
                old(self)@
            },
    {
        let ghost entry = (key.hash, key.kind, key.name);
        let ghost before = table_entries(self.table);
        match table_get(&self.table, key.hash, key.kind, key.name) {
            Some(count) => {
                if count >= limit {
                    return false;
                }
                let _ = table_set(&mut self.table, key.hash, key.kind, key.name, count + 1);
                proof {
                    assert(before.insert(entry, (count + 1) as u32).dom() =~= before.dom());
                    lemma_keyed_len(table_entries(self.table));
                    assert(self@.counts =~= old(self)@.acquired(key).counts);
                }
                true
            },
            None => {
                let inserted = table_insert(&mut self.table, key.hash, key.kind, key.name, 1);
                proof {
                    if inserted {
                        lemma_keyed_len(table_entries(self.table));
                        assert(self@.counts =~= old(self)@.acquired(key).counts);
                    }
                }
                inserted
            },
        }
    }
}

} // verus!
