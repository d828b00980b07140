//! A dialer that connects where it is told to, once.
use vstd::prelude::*;

use crate::collections::seqs;
use crate::collections::slab::{Slab, SlabKey, SlabView};
use crate::time::Instant;
use super::{Action, DialKey, Dialer};

verus! {

/// A connection that was asked for.
struct ExplicitSlot<A, C> {
    addr: A,
    config: C,
    /// It has been handed out to be connected; before that it is pending.
    dialing: bool,
    binding: Option<u32>,
    pending_next: Option<SlabKey>,
    pending_prev: Option<SlabKey>,
}

/// A dialer for connections that are asked for one by one.
///
/// The pending ones form a list that runs through the slots in both directions,
/// the one that was asked for first in front.
pub struct Explicit<A, C> {
    slots: Slab<ExplicitSlot<A, C>>,
    pending: Option<SlabKey>,
    pending_tail: Option<SlabKey>,
    queue: Ghost<Seq<SlabKey>>,
}

/// A connection that was asked for, as it is seen from outside.
pub struct Dial<A, C> {
    pub addr: A,
    pub config: C,
    pub dialing: bool,
    /// The slot of the connector that the connection lives in.
    pub binding: Option<u32>,
}

/// The abstract value of an [`Explicit`].
pub struct ExplicitView<A, C> {
    pub slab: SlabView<Dial<A, C>>,
    /// The connections that have not been handed out, in order.
    pub pending: Seq<SlabKey>,
}

/// `queue` without `key`.
pub open spec fn without(queue: Seq<SlabKey>, key: SlabKey) -> Seq<SlabKey> {
    if queue.contains(key) {
        queue.remove(queue.index_of(key))
    } else {
        queue
    }
}

impl<A, C> ExplicitView<A, C> {
    pub open spec fn has(self, key: DialKey) -> bool {
        self.slab.entries.contains_key(key.spec_parts())
    }

    pub open spec fn dial_of(self, key: DialKey) -> Dial<A, C> {
        self.slab.entries[key.spec_parts()]
    }

    /// Exactly the connections that have not been handed out are pending.
    pub open spec fn wf(self) -> bool {
        &&& self.slab.wf()
        &&& self.pending.no_duplicates()
        &&& forall|k: SlabKey|
            #![trigger self.pending.contains(k)]
            #![trigger self.slab.entries.dom().contains(k)]
            self.pending.contains(k) <==> self.slab.entries.contains_key(k)
                && !self.slab.entries[k].dialing
    }

    /// A connection is asked for, under `key`.
    pub open spec fn dialed(self, key: DialKey, addr: A, config: C) -> Self {
        ExplicitView {
            slab: self.slab.insert(
                key.spec_parts(),
                Dial { addr, config, dialing: false, binding: None },
            ),
            pending: self.pending.push(key.spec_parts()),
        }
    }

    /// A connection is forgotten.
    pub open spec fn freed(self, key: DialKey) -> Self {
        ExplicitView {
            slab: self.slab.remove(key.spec_parts()),
            pending: without(self.pending, key.spec_parts()),
        }
    }

    /// The first pending connection is handed out.
    pub open spec fn polled(self) -> Self {
        if self.pending.len() == 0 {
            self
        } else {
            let key = self.pending[0];
            ExplicitView {
                slab: self.slab.insert(key, Dial { dialing: true, ..self.slab.entries[key] }),
                pending: self.pending.skip(1),
            }
        }
    }

    pub open spec fn poll_action(self) -> Action {
        if self.pending.len() == 0 {
            Action::Idle
        } else {
            Action::Connect {
                key: DialKey {
                    index: self.pending[0].index,
                    generation: self.pending[0].generation,
                },
            }
        }
    }

    /// A connection that was handed out becomes pending again, behind the others.
    pub open spec fn deferred(self, key: DialKey) -> Self {
        if self.has(key) && self.dial_of(key).dialing {
            ExplicitView {
                slab: self.slab.insert(
                    key.spec_parts(),
                    Dial { dialing: false, ..self.dial_of(key) },
                ),
                pending: self.pending.push(key.spec_parts()),
            }
        } else {
            self
        }
    }

    pub open spec fn bound(self, key: DialKey, binding: u32) -> Self {
        if self.has(key) {
            ExplicitView {
                slab: self.slab.insert(
                    key.spec_parts(),
                    Dial { binding: Some(binding), ..self.dial_of(key) },
                ),
                ..self
            }
        } else {
            self
        }
    }
}

/// The dialer after `n` polls.
pub open spec fn polled_times<A, C>(source: ExplicitView<A, C>, n: nat) -> ExplicitView<A, C>
    decreases n,
{
    if n == 0 {
        source
    } else {
        polled_times(source, (n - 1) as nat).polled()
    }
}

proof fn lemma_polled_times<A, C>(source: ExplicitView<A, C>, n: nat)
    requires
        n <= source.pending.len(),
    ensures
        polled_times(source, n).pending == source.pending.skip(n as int),
    decreases n,
{
    if n > 0 {
        lemma_polled_times(source, (n - 1) as nat);
        assert(source.pending.skip(n - 1).skip(1) =~= source.pending.skip(n as int));
    } else {
        assert(source.pending.skip(0) =~= source.pending);
    }
}

/// Connections are handed out in the order in which they were asked for: one that
/// is asked for comes right after those that were pending then.
pub proof fn law_handed_out_in_order<A, C>(
    source: ExplicitView<A, C>,
    key: DialKey,
    addr: A,
    config: C,
)
    requires
        source.wf(),
        source.slab.vacant(key.spec_parts()),
    ensures
        polled_times(
            source.dialed(key, addr, config),
            source.pending.len(),
        ).poll_action() == (Action::Connect { key }),
{
    let after = source.dialed(key, addr, config);
    lemma_polled_times(after, source.pending.len());
    assert(after.pending.skip(source.pending.len() as int)[0] == key.spec_parts());
}

/// A connection is handed out once: it is not pending any more, until it is
/// deferred.
pub proof fn law_handed_out_once<A, C>(source: ExplicitView<A, C>)
    requires
        source.wf(),
        source.pending.len() > 0,
    ensures
        !source.polled().pending.contains(source.pending[0]),
        source.polled().slab.entries[source.pending[0]].dialing,
{
    seqs::lemma_tail(source.pending);
}

/// A connection that is forgotten is not handed out, and its key is spent.
pub proof fn law_freed_is_gone<A, C>(source: ExplicitView<A, C>, key: DialKey)
    requires
        source.wf(),
        source.has(key),
    ensures
        !source.freed(key).has(key),
        !source.freed(key).pending.contains(key.spec_parts()),
        source.freed(key).slab.spent(key.spec_parts()),
{
    lemma_without(source.pending, key.spec_parts());
}

/// Deferring a connection that was just handed out puts it behind the others and
/// loses none.
pub proof fn law_deferred_comes_last<A, C>(source: ExplicitView<A, C>)
    requires
        source.wf(),
        source.pending.len() > 0,
    ensures
        ({
            let first = source.pending[0];
            let key = DialKey { index: first.index, generation: first.generation };
            source.polled().deferred(key).pending == source.pending.skip(1).push(first)
        }),
{
    assert(source.pending.contains(source.pending[0]));
}

/// A connection that is asked for is found under its key with its address and its
/// setup, waits to be handed out behind all others, and lives in no slot yet. The key
/// was not in use, and everything else stays. There is none exactly if no slot is left.
pub proof fn law_dialed_is_kept<A, C: Copy>(
    before: Explicit<A, C>,
    addr: A,
    config: C,
    key: Option<DialKey>,
    after: Explicit<A, C>,
)
    requires
        before.dials(addr, config, key, after),
    ensures
        match key {
            Some(key) => {
                let k = SlabKey { index: key.index, generation: key.generation };
                &&& !before@.slab.entries.contains_key(k)
                &&& after.addr(key) == Some(addr)
                &&& after.config(key) == Some(config)
                &&& after@.slab.entries[k].binding is None
                &&& !after@.slab.entries[k].dialing
                &&& after@.pending == before@.pending.push(k)
                &&& after.pending()
                &&& after@.slab.generations == before@.slab.generations
                &&& forall|other: SlabKey|
                    other != k ==> (#[trigger] after@.slab.entries.contains_key(other)
                        == before@.slab.entries.contains_key(other)
                        && after@.slab.entries[other] == before@.slab.entries[other])
            },
            None => {
                &&& after@ == before@
                &&& forall|i: int|
                    0 <= i < before@.slab.generations.len() ==> #[trigger] before@.slab.occupied(i)
                        || before@.slab.retired.contains(i as u32)
            },
        },
{
}

/// Polling hands out the connection that has waited longest, and none exactly if none
/// waits. It is not handed out again, keeps all that is known of it, and nothing else
/// changes.
pub proof fn law_longest_waiting_is_handed_out<A, C: Copy>(
    before: Explicit<A, C>,
    now: Instant,
    action: Action,
    after: Explicit<A, C>,
)
    requires
        before.wf(),
        before.polls(now, action, after),
    ensures
        if before@.pending.len() == 0 {
            action is Idle && after@ == before@
        } else {
            let k = before@.pending[0];
            let was = before@.slab.entries[k];
            let cur = after@.slab.entries[k];
            &&& action == Action::Connect {
                key: DialKey { index: k.index, generation: k.generation },
            }
            &&& after@.pending == before@.pending.skip(1)
            &&& after@.slab.entries.contains_key(k)
            &&& cur.dialing
            &&& cur.addr == was.addr && cur.config == was.config && cur.binding == was.binding
            &&& forall|other: SlabKey|
                other != k ==> (#[trigger] after@.slab.entries.contains_key(other)
                    == before@.slab.entries.contains_key(other)
                    && after@.slab.entries[other] == before@.slab.entries[other])
        },
{
}

/// A connection that came up is kept as it is. One that failed, was lost or was given
/// up is forgotten and not handed out any more; no other connection is touched, and
/// those that wait keep their order.
pub proof fn law_ended_is_forgotten<A, C: Copy>(
    before: Explicit<A, C>,
    key: DialKey,
    now: Instant,
    up: Explicit<A, C>,
    failed: Explicit<A, C>,
    lost: Explicit<A, C>,
    killed: Explicit<A, C>,
)
    requires
        before.wf(),
        before.settles(key, true, now, up),
        before.settles(key, false, now, failed),
        before.drops(key, now, lost),
        before.kills(key, killed),
    ensures
        up@ == before@,
        lost@ == failed@,
        killed@ == failed@,
        failed.addr(key) is None,
        failed.config(key) is None,
        ({
            let k = SlabKey { index: key.index, generation: key.generation };
            &&& !failed@.pending.contains(k)
            &&& forall|other: SlabKey|
                other != k ==> (#[trigger] failed@.slab.entries.contains_key(other)
                    == before@.slab.entries.contains_key(other)
                    && failed@.slab.entries[other] == before@.slab.entries[other])
            &&& forall|other: SlabKey|
                other != k ==> #[trigger] failed@.pending.contains(other)
                    == before@.pending.contains(other)
        }),
{
    let k = key.spec_parts();
    lemma_without(before@.pending, k);
}

/// A connection that was handed out and could not be started waits again, behind all
/// others; one that still waits is not queued twice. Where a connection lives is noted
/// on it alone. Making room adds slots and touches no connection; nothing is revived.
pub proof fn law_deferred_and_bound<A, C: Copy>(
    before: Explicit<A, C>,
    key: DialKey,
    now: Instant,
    local: u32,
    max_connections: usize,
    deferred: Explicit<A, C>,
    bound: Explicit<A, C>,
    resized: Explicit<A, C>,
    revived: Explicit<A, C>,
)
    requires
        before.defers(key, now, deferred),
        before.binds(key, local, bound),
        before.resizes(max_connections, resized),
        before.revives(revived),
    ensures
        ({
            let k = SlabKey { index: key.index, generation: key.generation };
            let known = before@.slab.entries.contains_key(k);
            let was = before@.slab.entries[k];
            &&& deferred@.pending == if known && was.dialing {
                before@.pending.push(k)
            } else {
                before@.pending
            }
            &&& known ==> {
                let held = deferred@.slab.entries[k];
                let here = bound@.slab.entries[k];
                &&& !held.dialing || !was.dialing
                &&& was.dialing ==> !held.dialing
                &&& held.addr == was.addr && held.config == was.config && held.binding
                    == was.binding
                &&& here.binding == Some(local)
                &&& here.addr == was.addr && here.config == was.config && here.dialing
                    == was.dialing
            }
            &&& bound@.pending == before@.pending
            &&& forall|other: SlabKey| #[trigger]
                deferred@.slab.entries.contains_key(other) == before@.slab.entries.contains_key(
                    other,
                )
            &&& forall|other: SlabKey| #[trigger]
                bound@.slab.entries.contains_key(other) == before@.slab.entries.contains_key(other)
            &&& forall|other: SlabKey|
                other != k ==> #[trigger] deferred@.slab.entries[other]
                    == before@.slab.entries[other]
            &&& forall|other: SlabKey|
                other != k ==> #[trigger] bound@.slab.entries[other] == before@.slab.entries[other]
            &&& resized@.slab.entries == before@.slab.entries
            &&& resized@.pending == before@.pending
            &&& resized@.slab.generations.len() == if max_connections
                > before@.slab.generations.len() {
                max_connections as nat
            } else {
                before@.slab.generations.len()
            }
            &&& resized@.slab.generations.take(before@.slab.generations.len() as int)
                == before@.slab.generations
            &&& revived@ == before@
        }),
{
    assert(resized@.slab.generations.take(before@.slab.generations.len() as int)
        =~= before@.slab.generations);
}

/// The list from `head` to `tail` runs through the slots as `queue` says, and no
/// slot outside of it has a link.
spec fn linked<A, C>(
    entries: Map<SlabKey, ExplicitSlot<A, C>>,
    head: Option<SlabKey>,
    tail: Option<SlabKey>,
    queue: Seq<SlabKey>,
) -> bool {
    &&& queue.no_duplicates()
    &&& head == if queue.len() > 0 {
        Some(queue[0])
    } else {
        None
    }
    &&& tail == if queue.len() > 0 {
        Some(queue.last())
    } else {
        None
    }
    &&& forall|i: int|
        #![trigger queue[i]]
        0 <= i < queue.len() ==> {
            &&& entries.contains_key(queue[i])
            &&& entries[queue[i]].pending_next == if i + 1 < queue.len() {
                Some(queue[i + 1])
            } else {
                None
            }
            &&& entries[queue[i]].pending_prev == if i > 0 {
                Some(queue[i - 1])
            } else {
                None
            }
        }
    &&& forall|k: SlabKey|
        #![trigger entries[k]]
        entries.contains_key(k) && !queue.contains(k) ==> entries[k].pending_next is None
            && entries[k].pending_prev is None
}

spec fn outside<A, C>(slot: ExplicitSlot<A, C>) -> Dial<A, C> {
    Dial { addr: slot.addr, config: slot.config, dialing: slot.dialing, binding: slot.binding }
}

impl<A, C: Copy> View for Explicit<A, C> {
    type V = ExplicitView<A, C>;

    closed spec fn view(&self) -> ExplicitView<A, C> {
        ExplicitView {
            slab: SlabView {
                entries: self.slots@.entries.map_values(|slot: ExplicitSlot<A, C>| outside(slot)),
                generations: self.slots@.generations,
                retired: self.slots@.retired,
            },
            pending: self.queue@,
        }
    }
}

impl<A, C: Copy> Explicit<A, C> {
    spec fn list_wf(self) -> bool {
        &&& self.slots.wf()
        &&& linked(self.slots@.entries, self.pending, self.pending_tail, self.queue@)
    }

    spec fn valid(self) -> bool {
        self.list_wf() && self@.wf()
    }

    fn set_next(&mut self, key: SlabKey, next: Option<SlabKey>)
        requires
            old(self).slots.wf(),
            old(self).slots@.entries.contains_key(key),
        ensures
            *final(self) == (Explicit { slots: final(self).slots, ..*old(self) }),
            final(self).slots.wf(),
            final(self).slots@ == old(self).slots@.insert(
                key,
                ExplicitSlot { pending_next: next, ..old(self).slots@.entries[key] },
            ),
    {
        if let Some(slot) = self.slots.get_mut(key) {
            slot.pending_next = next;
        }
    }

    fn set_prev(&mut self, key: SlabKey, prev: Option<SlabKey>)
        requires
            old(self).slots.wf(),
            old(self).slots@.entries.contains_key(key),
        ensures
            *final(self) == (Explicit { slots: final(self).slots, ..*old(self) }),
            final(self).slots.wf(),
            final(self).slots@ == old(self).slots@.insert(
                key,
                ExplicitSlot { pending_prev: prev, ..old(self).slots@.entries[key] },
            ),
    {
        if let Some(slot) = self.slots.get_mut(key) {
            slot.pending_prev = prev;
        }
    }

    /// The slots are the same but for their links.
    spec fn same_dials(self, other: Self) -> bool {
        &&& self.slots@.generations == other.slots@.generations
        &&& self.slots@.retired == other.slots@.retired
        &&& self.slots@.entries.dom() == other.slots@.entries.dom()
        &&& forall|k: SlabKey|
            #![trigger self.slots@.entries[k]]
            self.slots@.entries.contains_key(k) ==> outside(self.slots@.entries[k]) == outside(
                other.slots@.entries[k],
            )
    }

    /// Puts a connection behind all that are pending.
    fn push_pending(&mut self, key: SlabKey)
        requires
            old(self).list_wf(),
            old(self).slots@.entries.contains_key(key),
            !old(self).queue@.contains(key),
        ensures
            final(self).list_wf(),
            final(self).same_dials(*old(self)),
            final(self).queue@ == old(self).queue@.push(key),
    {
        let tail = self.pending_tail;
        self.pending_tail = Some(key);
        self.set_prev(key, tail);
        match tail {
            Some(tail) => {
                assert(self.queue@.last() == tail);
                assert(self.queue@[self.queue@.len() - 1] == tail);
                self.set_next(tail, Some(key));
            },
            None => {
                self.pending = Some(key);
            },
        }
        proof {
            assert(self.slots@.entries.dom() =~= old(self).slots@.entries.dom());
            let before = self.queue@;
            seqs::lemma_push(before, key);
            self.queue@ = before.push(key);
            let queue = self.queue@;
            let entries = self.slots@.entries;
            assert forall|i: int| #![trigger queue[i]] 0 <= i < queue.len() implies {
                &&& entries.contains_key(queue[i])
                &&& entries[queue[i]].pending_next == if i + 1 < queue.len() {
                    Some(queue[i + 1])
                } else {
                    None
                }
                &&& entries[queue[i]].pending_prev == if i > 0 {
                    Some(queue[i - 1])
                } else {
                    None
                }
            } by {
                if i < before.len() {
                    assert(queue[i] == before[i]);
                    assert(before.contains(before[i]));
                } else {
                    assert(old(self).slots@.entries[key].pending_next is None);
                }
            }
        }
    }

    /// Takes a connection out of the pending ones, if it is one of them.
    #[verifier::spinoff_prover]
    #[verifier::rlimit(40)]
    fn remove_pending(&mut self, key: SlabKey)
        requires
            old(self).list_wf(),
        ensures
            final(self).list_wf(),
            final(self).same_dials(*old(self)),
            final(self).queue@ == without(old(self).queue@, key),
            !final(self).queue@.contains(key),
    {
        let ghost queue = self.queue@;
        let ghost start = *self;
        let (prev, next) = match self.slots.get(key) {
            Some(slot) => (slot.pending_prev, slot.pending_next),
            None => {
                proof {
                    if queue.contains(key) {
                        let i = queue.index_of(key);
                        assert(queue[i] == key);
                    }
                }
                return ;
            },
        };
        let first = match self.pending {
            Some(head) => head == key,
            None => false,
        };
        let last = match self.pending_tail {
            Some(tail) => tail == key,
            None => false,
        };
        let ghost at = queue.index_of(key);
        proof {
            assert(self.slots@.entries[key].pending_prev == prev);
            if queue.contains(key) {
                assert(0 <= at < queue.len() && queue[at] == key);
                assert(prev is None ==> at == 0);
                assert(next is None ==> at == queue.len() - 1);
            } else {
                assert(queue.len() > 0 ==> queue.contains(queue[0]) && queue.contains(
                    queue[queue.len() - 1],
                ));
            }
        }
        if prev.is_none() && next.is_none() && !first && !last {
            return ;
        }
        assert(queue.contains(key));
        self.set_prev(key, None);
        self.set_next(key, None);
        match prev {
            Some(prev) => {
                assert(queue[at - 1] == prev);
                assert(prev != key);
                self.set_next(prev, next);
            },
            None => {
                self.pending = next;
            },
        }
        match next {
            Some(next) => {
                assert(queue[at + 1] == next);
                assert(next != key);
                self.set_prev(next, prev);
            },
            None => {
                self.pending_tail = prev;
            },
        }
        proof {
            let shorter = queue.remove(at);
            self.queue@ = shorter;
            assert(self.slots@.entries.dom() =~= start.slots@.entries.dom());
            let entries = self.slots@.entries;
            assert forall|i: int| 0 <= i < shorter.len() implies #[trigger] shorter[i] == queue[if i
                < at {
                i
            } else {
                i + 1
            }] by {}
            lemma_without(queue, key);
            assert forall|i: int| #![trigger shorter[i]] 0 <= i < shorter.len() implies {
                &&& entries.contains_key(shorter[i])
                &&& entries[shorter[i]].pending_next == if i + 1 < shorter.len() {
                    Some(shorter[i + 1])
                } else {
                    None
                }
                &&& entries[shorter[i]].pending_prev == if i > 0 {
                    Some(shorter[i - 1])
                } else {
                    None
                }
            } by {
                let j = if i < at {
                    i
                } else {
                    i + 1
                };
                assert(shorter[i] == queue[j]);
                assert(start.slots@.entries.contains_key(queue[j]));
            }
            assert forall|k: SlabKey|
                #![trigger entries[k]]
                entries.contains_key(k) && !shorter.contains(k) implies entries[k].pending_next is None
                && entries[k].pending_prev is None by {
                if k != key {
                    assert(!queue.contains(k));
                    assert(start.slots@.entries[k].pending_next is None);
                }
            }
        }
    }

    /// Takes out the first pending connection.
    fn pop_pending(&mut self) -> (key: Option<SlabKey>)
        requires
            old(self).list_wf(),
        ensures
            final(self).list_wf(),
            final(self).same_dials(*old(self)),
            match key {
                Some(k) => {
                    &&& old(self).queue@.len() > 0
                    &&& k == old(self).queue@[0]
                    &&& final(self).queue@ == old(self).queue@.skip(1)
                },
                None => old(self).queue@.len() == 0 && final(self).queue@ == old(self).queue@,
            },
    {
        let key = match self.pending {
            Some(key) => key,
            None => {
                return None;
            },
        };
        let ghost queue = self.queue@;
        proof {
            assert(queue[0] == key);
            assert(queue.contains(key));
            let at = queue.index_of(key);
            assert(queue[at] == key);
            assert(at == 0);
            assert(queue.remove(0) =~= queue.skip(1));
        }
        self.remove_pending(key);
        Some(key)
    }
}

/// Dials that agree slot by slot look the same from outside.
proof fn lemma_same_view<A, C: Copy>(a: Explicit<A, C>, b: Explicit<A, C>)
    requires
        a.same_dials(b),
    ensures
        a@.slab == b@.slab,
{
    assert(a@.slab.entries =~= b@.slab.entries);
}

impl<A, C: Copy> Explicit<A, C> {
    /// A dialer with room for `capacity` connections.
    pub fn with_capacity(capacity: usize) -> (source: Self)
        requires
            capacity < u32::MAX,
        ensures
            source.wf(),
            source@.slab.entries == Map::<SlabKey, Dial<A, C>>::empty(),
            source@.slab.generations == Seq::new(capacity as nat, |i: int| 1u32),
            source@.slab.retired == Set::<u32>::empty(),
            source@.pending == Seq::<SlabKey>::empty(),
    {
        let source = Explicit {
            slots: Slab::with_capacity(capacity),
            pending: None,
            pending_tail: None,
            queue: Ghost(Seq::empty()),
        };
        assert(source@.slab.entries =~= Map::empty());
        source
    }

    pub fn capacity(&self) -> (capacity: usize)
        requires
            self.wf(),
        ensures
            capacity == self@.slab.generations.len(),
    {
        self.slots.capacity()
    }

    /// Asks for a connection; `None` when there is no room for it.
    pub fn dial_shared(&mut self, addr: A, config: C) -> (key: Option<DialKey>)
        requires
            old(self).wf(),
        ensures
            final(self).wf(),
            match key {
                Some(k) => {
                    &&& old(self)@.slab.vacant(k.spec_parts())
                    &&& final(self)@ == old(self)@.dialed(k, addr, config)
                },
                None => old(self)@.slab.full() && final(self)@ == old(self)@,
            },
    {
        let slot = ExplicitSlot {
            addr,
            config,
            dialing: false,
            binding: None,
            pending_next: None,
            pending_prev: None,
        };
        let key = match self.slots.insert(slot) {
            Ok(key) => key,
            Err(_) => {
                proof {
                    let before = old(self)@.slab;
                    assert forall|i: int| 0 <= i < before.generations.len() implies #[trigger] before.occupied(
                        i,
                    ) || before.retired.contains(i as u32) by {
                        assert(old(self).slots@.occupied(i) || old(self).slots@.retired.contains(
                            i as u32,
                        ));
                    }
                }
                return None;
            },
        };
        proof {
            assert(!old(self)@.slab.entries.contains_key(key));
            assert(!self.queue@.contains(key));
            assert(linked(self.slots@.entries, self.pending, self.pending_tail, self.queue@)) by {
                assert forall|i: int| #![trigger self.queue@[i]] 0 <= i < self.queue@.len() implies {
                    &&& self.queue@.contains(self.queue@[i])
                    &&& self.slots@.entries[self.queue@[i]] == old(
                        self,
                    ).slots@.entries[self.queue@[i]]
                } by {}
            }
        }
        let ghost entered = *self;
        self.push_pending(key);
        let dial = DialKey::from_slab(key);
        proof {
            let goal = old(self)@.dialed(dial, addr, config);
            lemma_same_view(*self, entered);
            assert(self@.slab.entries =~= goal.slab.entries);
            seqs::lemma_push(old(self)@.pending, key);
        }
        Some(dial)
    }

    /// Forgets a connection and returns the slot of the connector it lived in.
    fn free(&mut self, key: DialKey) -> (binding: Option<u32>)
        requires
            old(self).valid(),
        ensures
            final(self).valid(),
            final(self)@ == old(self)@.freed(key),
            binding == if old(self)@.has(key) {
                old(self)@.dial_of(key).binding
            } else {
                None
            },
    {
        let key = key.parts();
        self.remove_pending(key);
        let ghost unlinked = *self;
        proof {
            lemma_same_view(unlinked, *old(self));
            lemma_without(old(self).queue@, key);
        }
        let removed = self.slots.remove(key);
        proof {
            let goal = old(self)@.freed(DialKey { index: key.index, generation: key.generation });
            assert(self@.slab.entries =~= goal.slab.entries);
            assert(self@.slab =~= goal.slab);
            assert(linked(self.slots@.entries, self.pending, self.pending_tail, self.queue@)) by {
                assert forall|i: int| #![trigger self.queue@[i]] 0 <= i < self.queue@.len() implies {
                    &&& self.queue@.contains(self.queue@[i])
                    &&& self.slots@.entries.contains_key(self.queue@[i])
                    &&& self.slots@.entries[self.queue@[i]] == unlinked.slots@.entries[self.queue@[i]]
                } by {}
                assert forall|k: SlabKey|
                    #![trigger self.slots@.entries[k]]
                    self.slots@.entries.contains_key(k) implies self.slots@.entries[k]
                    == unlinked.slots@.entries[k] by {}
            }
        }
        match removed {
            Some(slot) => slot.binding,
            None => None,
        }
    }

    /// Forgets a connection for good.
    pub fn kill_shared(&mut self, key: DialKey) -> (binding: Option<u32>)
        requires
            old(self).wf(),
        ensures
            final(self).wf(),
            final(self)@ == old(self)@.freed(key),
            binding == if old(self)@.has(key) {
                old(self)@.dial_of(key).binding
            } else {
                None
            },
    {
        self.free(key)
    }
}

/// What is left of a queue.
proof fn lemma_without(queue: Seq<SlabKey>, key: SlabKey)
    requires
        queue.no_duplicates(),
    ensures
        without(queue, key).no_duplicates(),
        forall|k: SlabKey| #[trigger]
            without(queue, key).contains(k) <==> queue.contains(k) && k != key,
{
    let shorter = without(queue, key);
    if queue.contains(key) {
        let at = queue.index_of(key);
        assert(queue[at] == key);
        assert forall|i: int| 0 <= i < shorter.len() implies #[trigger] shorter[i] == queue[if i
            < at {
            i
        } else {
            i + 1
        }] by {}
        assert forall|k: SlabKey| #[trigger] shorter.contains(k) <==> queue.contains(k) && k
            != key by {
            if queue.contains(k) && k != key {
                let j = queue.index_of(k);
                assert(queue[j] == k);
                assert(shorter[if j < at {
                    j
                } else {
                    j - 1
                }] == k);
            }
            if shorter.contains(k) {
                let j = shorter.index_of(k);
                assert(shorter[j] == k);
                assert(queue[if j < at {
                    j
                } else {
                    j + 1
                }] == k);
            }
        }
    }
}

impl<A, C: Copy> Default for Explicit<A, C> {
    fn default() -> (source: Self)
        ensures
            source.wf(),
            source@.slab.entries == Map::<SlabKey, Dial<A, C>>::empty(),
            source@.slab.generations.len() == 0,
            source@.pending.len() == 0,
    {
        Self::with_capacity(0)
    }
}

impl<A, C: Copy> Dialer<A, C> for Explicit<A, C> {
    closed spec fn wf(&self) -> bool {
        self.valid()
    }

    open spec fn resizes(&self, max_connections: usize, after: Self) -> bool {
        after@ == (ExplicitView {
            slab: if max_connections > self@.slab.generations.len() {
                self@.slab.grown(max_connections as int)
            } else {
                self@.slab
            },
            ..self@
        })
    }

    open spec fn dials(&self, addr: A, config: C, key: Option<DialKey>, after: Self) -> bool {
        match key {
            Some(k) => {
                &&& self@.slab.vacant(k.spec_parts())
                &&& after@ == self@.dialed(k, addr, config)
            },
            None => self@.slab.full() && after@ == self@,
        }
    }

    open spec fn polls(&self, now: Instant, action: Action, after: Self) -> bool {
        action == self@.poll_action() && after@ == self@.polled()
    }

    open spec fn pending(&self) -> bool {
        self@.pending.len() > 0
    }

    open spec fn addr(&self, key: DialKey) -> Option<A> {
        if self@.has(key) {
            Some(self@.dial_of(key).addr)
        } else {
            None
        }
    }

    open spec fn config(&self, key: DialKey) -> Option<C> {
        if self@.has(key) {
            Some(self@.dial_of(key).config)
        } else {
            None
        }
    }

    open spec fn settles(&self, key: DialKey, success: bool, now: Instant, after: Self) -> bool {
        after@ == if success {
            self@
        } else {
            self@.freed(key)
        }
    }

    open spec fn defers(&self, key: DialKey, now: Instant, after: Self) -> bool {
        after@ == self@.deferred(key)
    }

    open spec fn drops(&self, key: DialKey, now: Instant, after: Self) -> bool {
        after@ == self@.freed(key)
    }

    open spec fn kills(&self, key: DialKey, after: Self) -> bool {
        after@ == self@.freed(key)
    }

    open spec fn binds(&self, key: DialKey, local: u32, after: Self) -> bool {
        after@ == self@.bound(key, local)
    }

    /// Nothing is kept that could be dialed again.
    open spec fn revives(&self, after: Self) -> bool {
        after == *self
    }

    fn resize(&mut self, max_connections: usize) {
        if max_connections > self.slots.capacity() {
            self.slots.grow_to(max_connections);
            proof {
                let goal = old(self)@.slab.grown(max_connections as int);
                assert(self@.slab.entries =~= goal.entries);
                self.slots.lemma_view_wf();
            }
        }
    }

    fn dial(&mut self, addr: A, config: C) -> (key: Option<DialKey>) {
        self.dial_shared(addr, config)
    }

    fn poll_connect(&mut self, now: Instant) -> (action: Action) {
        let ghost view = self@;
        match self.pop_pending() {
            Some(key) => {
                let ghost popped = *self;
                proof {
                    lemma_same_view(popped, *old(self));
                    assert(view.pending.contains(key));
                    seqs::lemma_tail(view.pending);
                }
                if let Some(slot) = self.slots.get_mut(key) {
                    slot.dialing = true;
                }
                proof {
                    let goal = view.polled();
                    assert(self@.slab.entries =~= goal.slab.entries);
                    assert(linked(self.slots@.entries, self.pending, self.pending_tail, self.queue@));
                }
                Action::Connect { key: DialKey::from_slab(key) }
            },
            None => {
                proof {
                    lemma_same_view(*self, *old(self));
                    assert(self@.pending =~= view.pending);
                }
                Action::Idle
            },
        }
    }

    fn has_pending(&self) -> (pending: bool) {
        self.pending.is_some()
    }

    fn sock_addr(&self, key: DialKey) -> (addr: Option<&A>) {
        match self.slots.get(key.parts()) {
            Some(slot) => Some(&slot.addr),
            None => None,
        }
    }

    fn stream_config(&self, key: DialKey) -> (config: Option<C>) {
        match self.slots.get(key.parts()) {
            Some(slot) => Some(slot.config),
            None => None,
        }
    }

    fn connect_outcome(&mut self, key: DialKey, success: bool, now: Instant) {
        if !success {
            let _ = self.free(key);
        }
    }

    fn connect_deferred(&mut self, key: DialKey, now: Instant) {
        let ghost view = self@;
        let parts = key.parts();
        let queued = match self.slots.get_mut(parts) {
            Some(slot) => {
                let dialing = slot.dialing;
                slot.dialing = false;
                dialing
            },
            None => false,
        };
        let ghost marked = *self;
        proof {
            assert(self.slots@.entries.dom() =~= old(self).slots@.entries.dom());
            assert(linked(self.slots@.entries, self.pending, self.pending_tail, self.queue@));
            assert(self@.slab.entries =~= view.deferred(key).slab.entries);
        }
        if queued {
            assert(!view.pending.contains(parts));
            self.push_pending(parts);
            proof {
                lemma_same_view(*self, marked);
                seqs::lemma_push(view.pending, parts);
            }
        }
    }

    fn disconnect(&mut self, key: DialKey, now: Instant) {
        let _ = self.free(key);
    }

    fn kill(&mut self, key: DialKey) {
        let _ = self.free(key);
    }

    fn bind(&mut self, key: DialKey, local: u32) {
        if let Some(slot) = self.slots.get_mut(key.parts()) {
            slot.binding = Some(local);
        }
        proof {
            assert(self.slots@.entries.dom() =~= old(self).slots@.entries.dom());
            assert(self@.slab.entries =~= old(self)@.bound(key, local).slab.entries);
            assert(linked(self.slots@.entries, self.pending, self.pending_tail, self.queue@));
        }
    }

    fn revive(&mut self) {
    }
}

} // verus!
