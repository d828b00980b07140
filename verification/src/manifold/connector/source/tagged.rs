//! Dialers that name their connections by plain numbers.
//!
//! A tag is the number of a slot and is used again as soon as the slot is. Slots
//! are searched rather than kept in lists.
use std::collections::VecDeque;

use vstd::prelude::*;

use crate::time::{Duration, Instant, MAX_DURATION};
use super::health;
use super::health::MAX_BACKOFF_SHIFT;

verus! {

/// What a dialer asks for when it is polled.
pub enum Action<A> {
    Connect { addr: A, tag: u32 },
    Backoff { min_retry_at: Instant },
    Idle,
}

/// A dialer that connects where it is told to.
pub struct Explicit<A> {
    slots: Vec<Option<A>>,
    pending: VecDeque<u32>,
}

/// The abstract value of an [`Explicit`].
pub struct ExplicitView<A> {
    /// The addresses, by tag.
    pub slots: Seq<Option<A>>,
    /// Tags to be handed out; some may have been given up since.
    pub pending: Seq<u32>,
}

impl<A> ExplicitView<A> {
    pub open spec fn live(self, tag: u32) -> bool {
        tag < self.slots.len() && self.slots[tag as int] is Some
    }

    /// `tag` is the first one without an address.
    pub open spec fn first_free(self, tag: int) -> bool {
        &&& 0 <= tag <= self.slots.len()
        &&& forall|i: int| 0 <= i < tag ==> #[trigger] self.slots[i] is Some
        &&& tag < self.slots.len() ==> self.slots[tag] is None
    }

    pub open spec fn dialed(self, tag: int, addr: A) -> Self {
        ExplicitView {
            slots: if tag < self.slots.len() {
                self.slots.update(tag, Some(addr))
            } else {
                self.slots.push(Some(addr))
            },
            pending: self.pending.push(tag as u32),
        }
    }

    /// The first `n` pending tags have been given up.
    pub open spec fn stale(self, n: int) -> bool {
        &&& 0 <= n <= self.pending.len()
        &&& forall|i: int| 0 <= i < n ==> !self.live(#[trigger] self.pending[i])
    }

    pub open spec fn cleared(self, tag: u32) -> Self {
        if tag < self.slots.len() {
            ExplicitView { slots: self.slots.update(tag as int, None), ..self }
        } else {
            self
        }
    }
}

/// A tag that was given up is not handed out.
pub proof fn law_cleared_is_not_live<A>(source: ExplicitView<A>, tag: u32)
    ensures
        !source.cleared(tag).live(tag),
        source.cleared(tag).pending == source.pending,
{
}

/// What is dialed takes the lowest free tag, or a new one, and waits behind all that
/// wait; a tag that is given up loses its address and no other does.
pub proof fn law_lowest_free_tag_is_dialed<A>(
    source: ExplicitView<A>,
    tag: u32,
    addr: A,
    gone: u32,
)
    requires
        source.first_free(tag as int),
    ensures
        ({
            let after = source.dialed(tag as int, addr);
            let n = source.slots.len();
            &&& tag <= n
            &&& forall|i: int| 0 <= i < tag ==> (#[trigger] source.slots[i]) is Some
            &&& tag < n ==> source.slots[tag as int] is None
            &&& after.slots[tag as int] == Some(addr)
            &&& after.slots.len() == if tag < n {
                n
            } else {
                n + 1
            }
            &&& forall|i: int|
                0 <= i < n && i != tag ==> #[trigger] after.slots[i] == source.slots[i]
            &&& after.pending == source.pending.push(tag)
            &&& after.live(tag)
        }),
        ({
            let after = source.cleared(gone);
            &&& after.slots.len() == source.slots.len()
            &&& gone < source.slots.len() ==> after.slots[gone as int] is None
            &&& forall|i: int|
                0 <= i < source.slots.len() && i != gone ==> #[trigger] after.slots[i]
                    == source.slots[i]
            &&& after.pending == source.pending
        }),
{
}

impl<A> View for Explicit<A> {
    type V = ExplicitView<A>;

    closed spec fn view(&self) -> ExplicitView<A> {
        ExplicitView { slots: self.slots@, pending: self.pending@ }
    }
}

impl<A: Clone> Explicit<A> {
    pub fn new() -> (source: Self)
        ensures
            source@ == (ExplicitView::<A> { slots: Seq::empty(), pending: Seq::empty() }),
    {
        Explicit { slots: Vec::new(), pending: VecDeque::new() }
    }

    pub fn resize(&mut self, max_conn: usize)
        ensures
            final(self)@ == (ExplicitView {
                slots: if old(self)@.slots.len() < max_conn {
                    old(self)@.slots + Seq::new(
                        (max_conn - old(self)@.slots.len()) as nat,
                        |i: int| None::<A>,
                    )
                } else {
                    old(self)@.slots
                },
                ..old(self)@
            }),
    {
        let ghost first = self.slots@;
        while self.slots.len() < max_conn
            invariant
                first == old(self).slots@,
                self.pending == old(self).pending,
                first.len() <= self.slots@.len(),
                self.slots@.len() <= max_conn || self.slots@.len() == first.len(),
                self.slots@ == first + Seq::new(
                    (self.slots@.len() - first.len()) as nat,
                    |i: int| None::<A>,
                ),
            decreases max_conn - self.slots@.len(),
        {
            self.slots.push(None);
            assert(self.slots@ =~= first + Seq::new(
                (self.slots@.len() - first.len()) as nat,
                |i: int| None::<A>,
            ));
        }
        assert(self@.slots =~= if first.len() < max_conn {
            first + Seq::new((max_conn - first.len()) as nat, |i: int| None::<A>)
        } else {
            first
        });
    }

    /// Asks for a connection under the first tag that is free.
    pub fn dial(&mut self, addr: A) -> (tag: u32)
        requires
            old(self)@.slots.len() <= u32::MAX,
        ensures
            old(self)@.first_free(tag as int),
            final(self)@ == old(self)@.dialed(tag as int, addr),
    {
        let mut tag: usize = 0;
        while tag < self.slots.len() && self.slots[tag].is_some()
            invariant
                *self == *old(self),
                tag <= self.slots@.len(),
                forall|i: int| 0 <= i < tag ==> #[trigger] self.slots@[i] is Some,
            decreases self.slots@.len() - tag,
        {
            tag += 1;
        }
        if tag < self.slots.len() {
            self.slots[tag] = Some(addr);
        } else {
            self.slots.push(Some(addr));
        }
        self.pending.push_back(tag as u32);
        tag as u32
    }

    /// Hands out the first pending tag that has not been given up.
    pub fn poll_connect(&mut self) -> (action: Action<A>)
        ensures
            final(self)@.slots == old(self)@.slots,
            match action {
                Action::Connect { addr, tag } => exists|n: int|
                    {
                        &&& #[trigger] old(self)@.stale(n)
                        &&& n < old(self)@.pending.len()
                        &&& tag == old(self)@.pending[n]
                        &&& old(self)@.live(tag)
                        &&& cloned(old(self)@.slots[tag as int]->0, addr)
                        &&& final(self)@.pending == old(self)@.pending.skip(n + 1)
                    },
                Action::Idle => old(self)@.stale(old(self)@.pending.len() as int) && final(self)@.pending.len() == 0,
                Action::Backoff { .. } => false,
            },
    {
        let ghost view = self@;
        let ghost mut n: int = 0;
        assert(view.pending.skip(0) =~= view.pending);
        loop
            invariant
                view == old(self)@,
                self.slots == old(self).slots,
                view.stale(n),
                self.pending@ == view.pending.skip(n),
            ensures
                n == view.pending.len(),
            decreases view.pending.len() - n,
        {
            match self.pending.pop_front() {
                None => {
                    break ;
                },
                Some(tag) => {
                    assert(tag == view.pending[n]);
                    assert(self.pending@ =~= view.pending.skip(n + 1));
                    if (tag as usize) < self.slots.len() {
                        if let Some(addr) = &self.slots[tag as usize] {
                            assert(view.live(tag));
                            return Action::Connect { addr: addr.clone(), tag };
                        }
                    }
                    proof {
                        n = n + 1;
                    }
                },
            }
        }
        Action::Idle
    }

    pub fn sock_addr(&self, tag: u32) -> (addr: Option<&A>)
        ensures
            addr == if self@.live(tag) {
                Some(&self@.slots[tag as int]->0)
            } else {
                None
            },
    {
        if (tag as usize) < self.slots.len() {
            self.slots[tag as usize].as_ref()
        } else {
            None
        }
    }

    pub fn connect_outcome(&mut self, tag: u32, success: bool)
        ensures
            final(self)@ == if success {
                old(self)@
            } else {
                old(self)@.cleared(tag)
            },
    {
        if !success {
            self.kill(tag);
        }
    }

    pub fn disconnect(&mut self, tag: u32)
        ensures
            final(self)@ == old(self)@.cleared(tag),
    {
        self.kill(tag);
    }

    pub fn kill(&mut self, tag: u32)
        ensures
            final(self)@ == old(self)@.cleared(tag),
    {
        if (tag as usize) < self.slots.len() {
            self.slots[tag as usize] = None;
        }
    }
}

/// How an upstream fares.
#[derive(Clone, Copy, PartialEq, Eq, Structural, Debug)]
pub enum Health {
    Idle,
    Busy { attempt: u8 },
    Backoff { retry_at: Instant, attempt: u8 },
    Dead,
}

/// A dialer that goes round its upstreams.
pub struct Static<A> {
    upstreams: Vec<A>,
    overrides: Vec<Option<A>>,
    states: Vec<Health>,
    base_window: Duration,
    next: u32,
    rng_state: u64,
}

/// The abstract value of a [`Static`].
pub struct StaticView<A> {
    pub upstreams: Seq<A>,
    /// Addresses that were dialed by hand, by tag.
    pub overrides: Seq<Option<A>>,
    pub states: Seq<Health>,
    pub base_window: Duration,
    /// The tag that is looked at first.
    pub next: u32,
    pub rng: u64,
}

/// When to try again after a failure at `failed_at`: half a window later, and up
/// to another half by chance. The half that chance is drawn from is cut to 64
/// bits.
pub open spec fn retry_after(base: Duration, failed_at: Instant, attempt: u8, draw: u64) -> int {
    let half = health::half_window(base, attempt);
    let cut = health::scaled_window(base, attempt) % 0x1_0000_0000_0000_0000 / 2;
    let span = if cut == 0 {
        1
    } else {
        cut
    };
    failed_at + half + draw as int % span
}

impl<A> StaticView<A> {
    pub open spec fn wf(self) -> bool {
        &&& self.upstreams.len() <= self.states.len() <= u32::MAX
        &&& self.overrides.len() == self.states.len()
        &&& self.base_window <= MAX_DURATION
        &&& self.rng != 0
        &&& self.states.len() == 0 ==> self.next == 0
        &&& self.states.len() > 0 ==> self.next < self.states.len()
    }

    pub open spec fn has(self, tag: u32) -> bool {
        tag < self.states.len()
    }

    pub open spec fn addr(self, i: int) -> Option<A> {
        if 0 <= i < self.overrides.len() && self.overrides[i] is Some {
            self.overrides[i]
        } else if self.upstreams.len() == 0 {
            None
        } else {
            Some(self.upstreams[i % self.upstreams.len() as int])
        }
    }

    /// The slot that is looked at as the `k`-th.
    pub open spec fn nth(self, k: int) -> int {
        (self.next + k) % (self.states.len() as int)
    }

    /// The slot waits for a try that has not come yet.
    pub open spec fn waiting(self, i: int, now: Instant) -> bool {
        self.states[i] matches Health::Backoff { retry_at, .. } && retry_at > now
    }

    /// The slot can be connected at `now`.
    pub open spec fn available(self, i: int, now: Instant) -> bool {
        &&& self.states[i] is Idle || self.states[i] is Backoff && !self.waiting(i, now)
        &&& self.addr(i) is Some
    }

    pub open spec fn attempt(self, i: int) -> u8 {
        match self.states[i] {
            Health::Backoff { attempt, .. } => attempt,
            Health::Busy { attempt } => attempt,
            _ => 0,
        }
    }

    pub open spec fn with_state(self, i: int, state: Health) -> Self {
        StaticView { states: self.states.update(i, state), ..self }
    }

    /// The `k`-th slot is the first that can be connected.
    pub open spec fn first_available(self, k: int, now: Instant) -> bool {
        &&& 0 <= k < self.states.len()
        &&& self.available(self.nth(k), now)
        &&& forall|j: int| 0 <= j < k ==> !self.available(#[trigger] self.nth(j), now)
    }

    pub open spec fn none_available(self, now: Instant) -> bool {
        forall|j: int|
            0 <= j < self.states.len() ==> !self.available(#[trigger] self.nth(j), now)
    }

    /// `at` is the earliest try that is waited for.
    pub open spec fn first_retry(self, at: Instant, now: Instant) -> bool {
        &&& exists|j: int|
            0 <= j < self.states.len() && self.waiting(#[trigger] self.nth(j), now)
                && self.states[self.nth(j)]->retry_at == at
        &&& forall|j: int|
            0 <= j < self.states.len() && self.waiting(#[trigger] self.nth(j), now) ==> at
                <= self.states[self.nth(j)]->retry_at
    }

    pub open spec fn none_waiting(self, now: Instant) -> bool {
        forall|j: int| 0 <= j < self.states.len() ==> !self.waiting(#[trigger] self.nth(j), now)
    }

    /// Slot `i` is connected and the next one is looked at first from now on.
    pub open spec fn connecting(self, i: int) -> Self {
        StaticView {
            next: ((i + 1) % (self.states.len() as int)) as u32,
            ..self.with_state(i, Health::Busy { attempt: self.attempt(i) })
        }
    }

    pub open spec fn backing_off(self, i: int, attempt: u8, now: Instant) -> Self {
        let rng = health::xorshift(self.rng);
        StaticView {
            rng,
            ..self.with_state(
                i,
                Health::Backoff {
                    retry_at: retry_after(
                        self.base_window,
                        now,
                        attempt,
                        health::scrambled(rng),
                    ) as u128,
                    attempt,
                },
            )
        }
    }

    pub open spec fn connect_outcome(self, tag: u32, success: bool, now: Instant) -> Self {
        let i = tag as int;
        if !self.has(tag) || self.states[i] is Dead {
            self
        } else if success {
            self.with_state(i, Health::Busy { attempt: 0 })
        } else {
            self.backing_off(
                i,
                health::at_most(self.attempt(i) + 1, MAX_BACKOFF_SHIFT as int) as u8,
                now,
            )
        }
    }

    pub open spec fn connect_deferred(self, tag: u32, now: Instant) -> Self {
        if self.has(tag) {
            match self.states[tag as int] {
                Health::Busy { attempt } => self.with_state(
                    tag as int,
                    if attempt == 0 {
                        Health::Idle
                    } else {
                        Health::Backoff { retry_at: now, attempt }
                    },
                ),
                _ => self,
            }
        } else {
            self
        }
    }

    pub open spec fn disconnect(self, tag: u32, now: Instant) -> Self {
        let i = tag as int;
        if !self.has(tag) || self.states[i] is Dead {
            self
        } else if self.overrides[i] is Some {
            self.with_state(i, Health::Dead)
        } else {
            self.backing_off(i, 1, now)
        }
    }

    pub open spec fn kill(self, tag: u32) -> Self {
        if self.has(tag) {
            self.with_state(tag as int, Health::Dead)
        } else {
            self
        }
    }

    pub open spec fn revive(self) -> Self {
        StaticView {
            states: self.states.map_values(
                |state: Health|
                    match state {
                        Health::Dead => Health::Idle,
                        Health::Backoff { .. } => Health::Idle,
                        _ => state,
                    },
            ),
            ..self
        }
    }

    /// Successive polls at `now` hand out `tags`, with no other call in between.
    pub open spec fn hands_out(self, now: Instant, tags: Seq<u32>, after: Self) -> bool
        decreases tags.len(),
    {
        if tags.len() == 0 {
            after == self
        } else {
            &&& exists|k: int|
                #[trigger] self.first_available(k, now) && tags[0] == self.nth(k)
            &&& self.connecting(tags[0] as int).hands_out(now, tags.skip(1), after)
        }
    }

    /// No slot has failed: each is in use or can be.
    pub open spec fn sound(self) -> bool {
        forall|i: int|
            0 <= i < self.states.len() ==> (#[trigger] self.states[i] is Idle
                || self.states[i] is Busy)
    }

    /// `i` is the first slot that was dialed by hand and is dead, or a new one.
    pub open spec fn reusable(self, i: int) -> bool {
        0 <= i < self.states.len() && self.states[i] is Dead && self.overrides[i] is Some
    }

    pub open spec fn dial_slot(self, i: int) -> bool {
        &&& 0 <= i <= self.states.len()
        &&& i < self.states.len() ==> self.reusable(i)
        &&& forall|j: int| 0 <= j < i ==> !#[trigger] self.reusable(j)
    }

    pub open spec fn dialed(self, i: int, addr: A) -> Self {
        if i < self.states.len() {
            StaticView {
                overrides: self.overrides.update(i, Some(addr)),
                states: self.states.update(i, Health::Idle),
                ..self
            }
        } else {
            StaticView {
                overrides: self.overrides.push(Some(addr)),
                states: self.states.push(Health::Idle),
                ..self
            }
        }
    }

    pub open spec fn resized(self, want: int) -> Self {
        if self.states.len() < want {
            let added = (want - self.states.len()) as nat;
            StaticView {
                overrides: self.overrides + Seq::new(added, |i: int| None::<A>),
                states: self.states + Seq::new(added, |i: int| Health::Idle),
                ..self
            }
        } else {
            self
        }
    }
}

/// A killed upstream is not available, whatever the time, until it is revived.
pub proof fn law_killed_is_unavailable<A>(source: StaticView<A>, tag: u32, now: Instant)
    requires
        source.wf(),
        source.has(tag),
    ensures
        !source.kill(tag).available(tag as int, now),
        source.kill(tag).connect_outcome(tag, true, now) == source.kill(tag),
        source.kill(tag).disconnect(tag, now) == source.kill(tag),
        source.addr(tag as int) is Some ==> source.kill(tag).revive().available(tag as int, now),
{
}

/// Upstreams take turns: the one that was connected is looked at last next time.
pub proof fn law_upstreams_take_turns<A>(source: StaticView<A>, i: int)
    requires
        source.wf(),
        0 <= i < source.states.len(),
    ensures
        source.connecting(i).nth(source.states.len() - 1) == i,
{
    let n = source.states.len() as int;
    if i + 1 < n {
        assert((i + 1) % n == i + 1) by (nonlinear_arith)
            requires
                0 <= i + 1 < n,
        ;
        assert((i + 1 + n - 1) % n == i) by (nonlinear_arith)
            requires
                0 <= i < n,
        ;
    } else {
        assert((i + 1) % n == 0) by (nonlinear_arith)
            requires
                i + 1 == n,
                n > 0,
        ;
        assert((0 + n - 1) % n == n - 1) by (nonlinear_arith)
            requires
                n > 0,
        ;
    }
}

proof fn lemma_nth_covers<A>(source: StaticView<A>, i: int) -> (k: int)
    requires
        source.wf(),
        0 <= i < source.states.len(),
    ensures
        0 <= k < source.states.len(),
        source.nth(k) == i,
{
    let n = source.states.len() as int;
    let k = if source.next <= i {
        i - source.next
    } else {
        i - source.next + n
    };
    vstd::arithmetic::div_mod::lemma_small_mod(i as nat, n as nat);
    if source.next > i {
        vstd::arithmetic::div_mod::lemma_mod_add_multiples_vanish(i, n);
        assert(source.next + k == n + i);
    }
    k
}

proof fn lemma_first_among<A>(source: StaticView<A>, now: Instant, bound: int) -> (k: int)
    requires
        0 <= bound < source.states.len(),
        source.available(source.nth(bound), now),
    ensures
        source.first_available(k, now),
    decreases bound,
{
    if exists|j: int| 0 <= j < bound && source.available(#[trigger] source.nth(j), now) {
        let j = choose|j: int| 0 <= j < bound && source.available(#[trigger] source.nth(j), now);
        lemma_first_among(source, now, j)
    } else {
        bound
    }
}

proof fn lemma_hands_out<A>(
    source: StaticView<A>,
    now: Instant,
    tags: Seq<u32>,
    after: StaticView<A>,
)
    requires
        source.wf(),
        source.sound(),
        source.hands_out(now, tags, after),
    ensures
        after.wf(),
        after.sound(),
        after.states.len() == source.states.len(),
        tags.no_duplicates(),
        forall|tag: u32| #[trigger]
            tags.contains(tag) ==> source.has(tag) && source.states[tag as int] is Idle
                && source.addr(tag as int) is Some,
        forall|i: int|
            0 <= i < source.states.len() ==> #[trigger] after.states[i] == if tags.contains(
                i as u32,
            ) {
                Health::Busy { attempt: 0 }
            } else {
                source.states[i]
            },
        forall|i: int| #[trigger] after.addr(i) == source.addr(i),
    decreases tags.len(),
{
    if tags.len() > 0 {
        let tag = tags[0];
        let rest = tags.skip(1);
        let n = source.states.len() as int;
        let k = choose|k: int| #[trigger] source.first_available(k, now) && tag == source.nth(k);
        vstd::arithmetic::div_mod::lemma_mod_bound(source.next + k, n);
        vstd::arithmetic::div_mod::lemma_mod_bound(tag + 1, n);
        let mid = source.connecting(tag as int);
        assert(source.states[tag as int] is Idle);
        assert(mid.states[tag as int] == (Health::Busy { attempt: 0 }));
        lemma_hands_out(mid, now, rest, after);
        assert(!rest.contains(tag));
        assert forall|t: u32| #[trigger] tags.contains(t) <==> t == tag || rest.contains(t) by {
            if rest.contains(t) {
                let i = choose|i: int| 0 <= i < rest.len() && rest[i] == t;
                assert(tags[i + 1] == t);
            }
            if tags.contains(t) && t != tag {
                let i = choose|i: int| 0 <= i < tags.len() && tags[i] == t;
                assert(rest[i - 1] == t);
            }
            if t == tag {
                assert(tags[0] == t);
            }
        }
        assert forall|i: int, j: int| 0 <= i < j < tags.len() implies tags[i] != tags[j] by {
            assert(rest[j - 1] == tags[j]);
            if i == 0 {
                assert(rest.contains(tags[j]));
            } else {
                assert(rest[i - 1] == tags[i]);
            }
        }
        assert forall|i: int| 0 <= i < n implies #[trigger] after.states[i] == if tags.contains(
            i as u32,
        ) {
            Health::Busy { attempt: 0 }
        } else {
            source.states[i]
        } by {
            assert(after.states[i] == if rest.contains(i as u32) {
                Health::Busy { attempt: 0 }
            } else {
                mid.states[i]
            });
        }
        assert forall|i: int| #[trigger] after.addr(i) == source.addr(i) by {
            assert(after.addr(i) == mid.addr(i));
        }
    }
}

/// After a revival all that was dead or waited can be connected at any time, with its
/// count of failures at zero, and what was in use stays so. Successive polls hand out
/// each slot that is not in use and has an address exactly once, and then find nothing
/// more to connect and nothing to wait for.
pub proof fn law_revived_are_handed_out_once<A>(
    source: StaticView<A>,
    now: Instant,
    tags: Seq<u32>,
    after: StaticView<A>,
)
    requires
        source.wf(),
        source.revive().hands_out(now, tags, after),
    ensures
        forall|i: int|
            0 <= i < source.states.len() ==> {
                &&& #[trigger] source.revive().states[i] == if source.states[i] is Busy {
                    source.states[i]
                } else {
                    Health::Idle
                }
                &&& source.revive().available(i, now) == (!(source.states[i] is Busy)
                    && source.addr(i) is Some)
            },
        tags.no_duplicates(),
        tags.len() <= source.states.len(),
        forall|tag: u32| #[trigger]
            tags.contains(tag) ==> source.has(tag) && source.revive().available(tag as int, now),
        forall|i: int|
            0 <= i < source.states.len() ==> #[trigger] after.states[i] == if tags.contains(
                i as u32,
            ) {
                Health::Busy { attempt: 0 }
            } else {
                source.revive().states[i]
            },
        after.none_waiting(now),
        after.none_available(now) <==> forall|tag: u32|
            source.has(tag) && #[trigger] source.revive().available(tag as int, now)
                ==> tags.contains(tag),
        !after.none_available(now) ==> exists|k: int| #[trigger] after.first_available(k, now),
{
    let revived = source.revive();
    let n = source.states.len() as int;
    assert forall|i: int| 0 <= i < n implies {
        &&& #[trigger] revived.states[i] == if source.states[i] is Busy {
            source.states[i]
        } else {
            Health::Idle
        }
        &&& revived.available(i, now) == (!(source.states[i] is Busy) && source.addr(i) is Some)
    } by {
        assert(revived.addr(i) == source.addr(i));
    }
    assert(revived.sound());
    lemma_hands_out(revived, now, tags, after);
    assert forall|tag: u32| #[trigger] tags.contains(tag) implies source.has(tag)
        && revived.available(tag as int, now) by {
        assert(revived.states[tag as int] is Idle);
    }
    assert forall|j: int| 0 <= j < n implies !after.waiting(#[trigger] after.nth(j), now) by {
        vstd::arithmetic::div_mod::lemma_mod_bound(after.next + j, n);
        assert(after.states[after.nth(j)] is Idle || after.states[after.nth(j)] is Busy);
    }
    assert forall|i: int| 0 <= i < n implies #[trigger] after.available(i, now) == (
    revived.available(i, now) && !tags.contains(i as u32)) by {
        assert(after.states[i] == if tags.contains(i as u32) {
            Health::Busy { attempt: 0 }
        } else {
            revived.states[i]
        });
        assert(after.addr(i) == revived.addr(i));
    }
    if after.none_available(now) {
        assert forall|tag: u32|
            source.has(tag) && #[trigger] revived.available(tag as int, now) implies tags.contains(
            tag,
        ) by {
            let k = lemma_nth_covers(after, tag as int);
            assert(!after.available(after.nth(k), now));
        }
    } else {
        let j = choose|j: int| 0 <= j < n && after.available(#[trigger] after.nth(j), now);
        vstd::arithmetic::div_mod::lemma_mod_bound(after.next + j, n);
        let tag = after.nth(j) as u32;
        assert(after.available(tag as int, now));
        assert(revived.available(tag as int, now));
        assert(!tags.contains(tag));
        let k = lemma_first_among(after, now, j);
    }
    let taken = tags.map_values(|tag: u32| tag as int);
    let all = vstd::set_lib::set_int_range(0, n);
    vstd::set_lib::lemma_int_range(0, n);
    assert(taken.no_duplicates()) by {
        assert forall|i: int, j: int|
            0 <= i < taken.len() && 0 <= j < taken.len() && i != j implies taken[i] != taken[j] by {
            assert(tags[i] != tags[j]);
        }
    }
    taken.unique_seq_to_set();
    assert forall|x: int| taken.to_set().contains(x) implies all.contains(x) by {
        let i = choose|i: int| 0 <= i < taken.len() && taken[i] == x;
        assert(tags.contains(tags[i]));
    }
    vstd::set_lib::lemma_len_subset(taken.to_set(), all);
}

/// Of two states of a dialer at most the health of slot `i`, which slot is looked at
/// first and the generator differ.
pub open spec fn same_but_health<A>(
    before: StaticView<A>,
    after: StaticView<A>,
    i: int,
) -> bool {
    &&& after.upstreams == before.upstreams
    &&& after.overrides == before.overrides
    &&& after.base_window == before.base_window
    &&& after.states.len() == before.states.len()
    &&& forall|j: int|
        0 <= j < before.states.len() && j != i ==> #[trigger] after.states[j] == before.states[j]
}

/// A failed slot is tried again half of a window later, and less than that again by
/// chance, however often it has failed; the window doubles with each failure in a row,
/// ten times at most. A connection that is lost counts as a first failure.
pub proof fn law_failed_waits_half_a_window<A>(
    source: StaticView<A>,
    tag: u32,
    now: Instant,
    failures: u8,
)
    requires
        source.base_window <= MAX_DURATION,
        now + MAX_DURATION <= u128::MAX,
        tag < source.states.len(),
        !(source.states[tag as int] is Dead),
        failures == match source.states[tag as int] {
            Health::Busy { attempt } => attempt,
            Health::Backoff { attempt, .. } => attempt,
            _ => 0,
        },
    ensures
        ({
            let failed = source.connect_outcome(tag, false, now);
            let lost = source.disconnect(tag, now);
            let window = health::full_window(source.base_window, failures + 1);
            let first = health::full_window(source.base_window, 1);
            let state = failed.states[tag as int];
            &&& same_but_health(source, failed, tag as int)
            &&& failed.next == source.next
            &&& state is Backoff
            &&& state->Backoff_attempt == if failures < 10 {
                failures + 1
            } else {
                10
            }
            &&& now + window / 2 <= state->retry_at
            &&& state->retry_at <= now + 2 * (window / 2)
            &&& source.overrides[tag as int] is None ==> {
                let state = lost.states[tag as int];
                &&& same_but_health(source, lost, tag as int)
                &&& lost.next == source.next
                &&& state is Backoff
                &&& state->Backoff_attempt == 1
                &&& now + first / 2 <= state->retry_at
                &&& state->retry_at <= now + 2 * (first / 2)
            }
        }),
{
    let attempt = health::at_most(failures + 1, MAX_BACKOFF_SHIFT as int) as u8;
    let draw = health::scrambled(health::xorshift(source.rng));
    lemma_retry(source.base_window, now, attempt, draw);
    lemma_retry(source.base_window, now, 1, draw);
    assert(health::full_window(source.base_window, attempt as int) == health::full_window(
        source.base_window,
        failures + 1,
    ));
}

proof fn lemma_retry(base: Duration, now: Instant, attempt: u8, draw: u64)
    requires
        base <= MAX_DURATION,
        now + MAX_DURATION <= u128::MAX,
    ensures
        ({
            let half = health::full_window(base, attempt as int) / 2;
            let at = retry_after(base, now, attempt, draw);
            now + half <= at <= now + 2 * half && at <= u128::MAX
        }),
{
    let scaled = health::scaled_window(base, attempt);
    assert(scaled == health::full_window(base, attempt as int));
    assert(scaled >= 0) by {
        let p = vstd::arithmetic::power2::pow2(
            health::at_most(attempt as int, MAX_BACKOFF_SHIFT as int) as nat,
        );
        assert(base * p >= 0) by (nonlinear_arith)
            requires
                base >= 0,
                p >= 0,
        ;
    }
    let cut = scaled % 0x1_0000_0000_0000_0000 / 2;
    let span = if cut == 0 {
        1
    } else {
        cut
    };
    assert(0 <= draw as int % span < span) by (nonlinear_arith)
        requires
            span > 0,
    ;
    assert(scaled % 0x1_0000_0000_0000_0000 <= scaled);
}

/// A connection that comes up counts no failures any more. A slot that was dialed by
/// hand is dead once its connection is lost. A try that could not be started is ready
/// again, or due at once if it failed before. A dead slot stays dead whatever it is
/// told, and a tag that names no slot changes nothing.
pub proof fn law_told_of_one_slot<A>(source: StaticView<A>, tag: u32, success: bool, now: Instant)
    ensures
        ({
            let i = tag as int;
            let up = source.connect_outcome(tag, true, now);
            let told = source.connect_outcome(tag, success, now);
            let lost = source.disconnect(tag, now);
            let held = source.connect_deferred(tag, now);
            let killed = source.kill(tag);
            if tag < source.states.len() {
                &&& same_but_health(source, up, i)
                &&& same_but_health(source, held, i)
                &&& same_but_health(source, killed, i)
                &&& up.next == source.next && held.next == source.next && killed.next
                    == source.next
                &&& killed.states[i] is Dead
                &&& source.states[i] is Dead ==> told == source && lost == source
                &&& !(source.states[i] is Dead) ==> up.states[i] == (Health::Busy { attempt: 0 })
                &&& !(source.states[i] is Dead) && source.overrides[i] is Some ==> {
                    lost.states[i] is Dead && same_but_health(source, lost, i)
                }
                &&& held.states[i] == match source.states[i] {
                    Health::Busy { attempt } => if attempt == 0 {
                        Health::Idle
                    } else {
                        Health::Backoff { retry_at: now, attempt }
                    },
                    other => other,
                }
            } else {
                told == source && lost == source && held == source && killed == source
            }
        }),
{
}

/// What is dialed by hand takes the lowest dead slot that was dialed before, or a new
/// one, and can be connected at once to its address. Room that is made is for upstreams
/// and can be connected at once too. No other slot changes.
pub proof fn law_new_slots_are_idle<A>(
    source: StaticView<A>,
    i: int,
    addr: A,
    now: Instant,
    want: int,
)
    requires
        source.wf(),
        source.dial_slot(i),
    ensures
        ({
            let after = source.dialed(i, addr);
            let bigger = source.resized(want);
            let n = source.states.len() as int;
            &&& i < n ==> source.states[i] is Dead && source.overrides[i] is Some
            &&& forall|j: int|
                0 <= j < i ==> !((#[trigger] source.states[j]) is Dead && source.overrides[j] is Some)
            &&& i <= n
            &&& after.states.len() == if i < n {
                n
            } else {
                n + 1
            }
            &&& after.states[i] is Idle
            &&& after.addr(i) == Some(addr)
            &&& after.available(i, now)
            &&& after.next == source.next
            &&& forall|j: int|
                0 <= j < n && j != i ==> (#[trigger] after.states[j]) == source.states[j]
                    && after.overrides[j] == source.overrides[j]
            &&& bigger.states.len() == if want > n {
                want
            } else {
                n
            }
            &&& bigger.states.take(n) == source.states
            &&& bigger.overrides.take(n) == source.overrides
            &&& bigger.upstreams == source.upstreams
            &&& bigger.next == source.next
            &&& forall|j: int|
                n <= j < want ==> (#[trigger] bigger.states[j]) is Idle && bigger.overrides[j] is None
        }),
{
    let bigger = source.resized(want);
    let n = source.states.len() as int;
    assert(bigger.states.take(n) =~= source.states);
    assert(bigger.overrides.take(n) =~= source.overrides);
    assert forall|j: int| 0 <= j < i implies !((#[trigger] source.states[j]) is Dead
        && source.overrides[j] is Some) by {
        assert(!source.reusable(j));
    }
}

/// A slot can be connected exactly if it has an address and is idle or waits for a try
/// that is due. The slots are looked at in turn from the first, and the one that is
/// connected keeps its count of failures; its successor is looked at first next.
pub proof fn law_available_slots_in_turn<A>(source: StaticView<A>, i: int, now: Instant)
    requires
        source.wf(),
        0 <= i < source.states.len(),
    ensures
        source.available(i, now) <==> {
            let addressed = source.overrides[i] is Some || source.upstreams.len() > 0;
            addressed && match source.states[i] {
                Health::Idle => true,
                Health::Backoff { retry_at, .. } => retry_at <= now,
                _ => false,
            }
        },
        source.addr(i) == match source.overrides[i] {
            Some(addr) => Some(addr),
            None => if source.upstreams.len() > 0 {
                Some(source.upstreams[i % source.upstreams.len() as int])
            } else {
                None
            },
        },
        source.nth(i) == if source.next + i < source.states.len() {
            source.next + i
        } else {
            source.next + i - source.states.len()
        },
        ({
            let after = source.connecting(i);
            &&& same_but_health(source, after, i)
            &&& after.states[i] == Health::Busy {
                attempt: match source.states[i] {
                    Health::Backoff { attempt, .. } => attempt,
                    Health::Busy { attempt } => attempt,
                    _ => 0,
                },
            }
            &&& after.next == if i + 1 < source.states.len() {
                i + 1
            } else {
                0
            }
            &&& after.rng == source.rng
        }),
{
    let n = source.states.len() as int;
    if source.next + i < n {
        vstd::arithmetic::div_mod::lemma_small_mod((source.next + i) as nat, n as nat);
    } else {
        let r = source.next + i - n;
        vstd::arithmetic::div_mod::lemma_small_mod(r as nat, n as nat);
        vstd::arithmetic::div_mod::lemma_mod_add_multiples_vanish(r, n);
        assert(source.next + i == n + r);
    }
    if i + 1 < n {
        vstd::arithmetic::div_mod::lemma_small_mod((i + 1) as nat, n as nat);
    } else {
        vstd::arithmetic::div_mod::lemma_mod_self_0(n);
    }
}

impl<A> View for Static<A> {
    type V = StaticView<A>;

    closed spec fn view(&self) -> StaticView<A> {
        StaticView {
            upstreams: self.upstreams@,
            overrides: self.overrides@,
            states: self.states@,
            base_window: self.base_window,
            next: self.next,
            rng: self.rng_state,
        }
    }
}

/// The state that the generator of jitter starts in.
pub open spec fn seed(entropy: u64, n: usize, base_window: Duration) -> u64 {
    let mixed = entropy ^ (n as u64).wrapping_mul(0x9E3779B97F4A7C15) ^ (base_window as u64);
    if mixed == 0 {
        1
    } else {
        mixed
    }
}

impl<A: Clone> Static<A> {
    pub closed spec fn wf(self) -> bool {
        self@.wf()
    }

    /// A dialer with one slot for each upstream. `entropy` should differ from one
    /// process to another.
    pub fn new(upstreams: Vec<A>, base_window: Duration, entropy: u64) -> (source: Self)
        requires
            upstreams@.len() <= u32::MAX,
            base_window <= MAX_DURATION,
        ensures
            source.wf(),
            source@ == (StaticView {
                upstreams: upstreams@,
                overrides: Seq::new(upstreams@.len(), |i: int| None::<A>),
                states: Seq::new(upstreams@.len(), |i: int| Health::Idle),
                base_window,
                next: 0,
                rng: seed(entropy, upstreams.len(), base_window),
            }),
    {
        let n = upstreams.len();
        let mixed: u64 = entropy ^ (n as u64).wrapping_mul(0x9E3779B97F4A7C15) ^ (base_window as u64);
        let mut overrides: Vec<Option<A>> = Vec::new();
        let mut states: Vec<Health> = Vec::new();
        let mut i: usize = 0;
        while i < n
            invariant
                i <= n,
                overrides@ == Seq::new(i as nat, |i: int| None::<A>),
                states@ == Seq::new(i as nat, |i: int| Health::Idle),
            decreases n - i,
        {
            overrides.push(None);
            states.push(Health::Idle);
            i += 1;
            assert(overrides@ =~= Seq::new(i as nat, |i: int| None::<A>));
            assert(states@ =~= Seq::new(i as nat, |i: int| Health::Idle));
        }
        Static {
            upstreams,
            overrides,
            states,
            base_window,
            next: 0,
            rng_state: if mixed == 0 {
                1
            } else {
                mixed
            },
        }
    }

    fn addr_for(&self, idx: usize) -> (addr: Option<&A>)
        requires
            self.wf(),
        ensures
            match addr {
                Some(a) => self@.addr(idx as int) == Some(*a),
                None => self@.addr(idx as int) is None,
            },
    {
        if idx < self.overrides.len() {
            if let Some(addr) = &self.overrides[idx] {
                return Some(addr);
            }
        }
        if self.upstreams.len() == 0 {
            return None;
        }
        Some(&self.upstreams[idx % self.upstreams.len()])
    }

    /// Draws when to try again.
    fn retry_at(&mut self, failed_at: Instant, attempt: u8) -> (at: Instant)
        requires
            old(self).base_window <= MAX_DURATION,
            failed_at + MAX_DURATION <= u128::MAX,
        ensures
            *final(self) == (Static {
                rng_state: health::xorshift(old(self).rng_state),
                ..*old(self)
            }),
            at == retry_after(
                old(self).base_window,
                failed_at,
                attempt,
                health::scrambled(health::xorshift(old(self).rng_state)),
            ),
    {
        let scaled = health::window_after(self.base_window, attempt);
        let (next, r) = health::draw(self.rng_state);
        self.rng_state = next;
        let low: u64 = (scaled % 0x1_0000_0000_0000_0000) as u64;
        let half: u64 = low / 2;
        let span: u64 = if half == 0 {
            1
        } else {
            half
        };
        let jitter: u64 = r % span;
        proof {
            assert(scaled / 2 + jitter <= MAX_DURATION);
            assert(jitter == (r as int) % (span as int));
        }
        failed_at + scaled / 2 + jitter as u128
    }

    pub fn resize(&mut self, max_conn: usize)
        requires
            old(self).wf(),
            max_conn <= u32::MAX,
        ensures
            final(self).wf(),
            final(self)@ == old(self)@.resized(max_conn as int),
    {
        let ghost view = self@;
        while self.states.len() < max_conn
            invariant
                view == old(self)@,
                view.wf(),
                max_conn <= u32::MAX,
                self.upstreams == old(self).upstreams,
                self.base_window == old(self).base_window,
                self.next == old(self).next,
                self.rng_state == old(self).rng_state,
                view.states.len() <= self.states@.len(),
                self.states@.len() <= max_conn || self.states@.len() == view.states.len(),
                self.overrides@ == view.overrides + Seq::new(
                    (self.states@.len() - view.states.len()) as nat,
                    |i: int| None::<A>,
                ),
                self.states@ == view.states + Seq::new(
                    (self.states@.len() - view.states.len()) as nat,
                    |i: int| Health::Idle,
                ),
            decreases max_conn - self.states@.len(),
        {
            self.states.push(Health::Idle);
            self.overrides.push(None);
            assert(self.overrides@ =~= view.overrides + Seq::new(
                (self.states@.len() - view.states.len()) as nat,
                |i: int| None::<A>,
            ));
            assert(self.states@ =~= view.states + Seq::new(
                (self.states@.len() - view.states.len()) as nat,
                |i: int| Health::Idle,
            ));
        }
        assert(self@.overrides =~= view.resized(max_conn as int).overrides);
        assert(self@.states =~= view.resized(max_conn as int).states);
    }

    /// Asks for a connection to `addr`, under the first tag that was dialed by hand
    /// and is dead, or a new one.
    pub fn dial(&mut self, addr: A) -> (tag: u32)
        requires
            old(self).wf(),
            old(self)@.states.len() < u32::MAX,
        ensures
            final(self).wf(),
            old(self)@.dial_slot(tag as int),
            final(self)@ == old(self)@.dialed(tag as int, addr),
    {
        let mut idx: usize = 0;
        while idx < self.states.len() && !(self.states[idx] == Health::Dead && self.overrides[idx].is_some())
            invariant
                *self == *old(self),
                self.wf(),
                idx <= self.states@.len(),
                forall|j: int| 0 <= j < idx ==> !#[trigger] self@.reusable(j),
            decreases self.states@.len() - idx,
        {
            idx += 1;
        }
        if idx < self.states.len() {
            self.states[idx] = Health::Idle;
            self.overrides[idx] = Some(addr);
        } else {
            self.states.push(Health::Idle);
            self.overrides.push(Some(addr));
        }
        idx as u32
    }

    /// Looks round the slots for one that can be connected.
    pub fn poll_connect(&mut self, now: Instant) -> (action: Action<A>)
        requires
            old(self).wf(),
        ensures
            final(self).wf(),
            match action {
                Action::Connect { addr, tag } => {
                    &&& exists|k: int|
                        #[trigger] old(self)@.first_available(k, now) && tag == old(self)@.nth(k)
                    &&& cloned(old(self)@.addr(tag as int)->0, addr)
                    &&& final(self)@ == old(self)@.connecting(tag as int)
                },
                Action::Backoff { min_retry_at } => {
                    &&& old(self)@.none_available(now)
                    &&& old(self)@.first_retry(min_retry_at, now)
                    &&& final(self)@ == old(self)@
                },
                Action::Idle => {
                    &&& old(self)@.none_available(now)
                    &&& old(self)@.none_waiting(now)
                    &&& final(self)@ == old(self)@
                },
            },
    {
        let n = self.states.len();
        if n == 0 {
            return Action::Idle;
        }
        let ghost view = self@;
        let mut min_retry: Option<Instant> = None;
        let mut offset: usize = 0;
        while offset < n
            invariant
                *self == *old(self),
                view == self@,
                view.wf(),
                n == view.states.len(),
                n > 0,
                offset <= n,
                forall|j: int| 0 <= j < offset ==> !view.available(#[trigger] view.nth(j), now),
                match min_retry {
                    None => forall|j: int|
                        0 <= j < offset ==> !view.waiting(#[trigger] view.nth(j), now),
                    Some(at) => {
                        &&& exists|j: int|
                            0 <= j < offset && view.waiting(#[trigger] view.nth(j), now)
                                && view.states[view.nth(j)]->retry_at == at
                        &&& forall|j: int|
                            0 <= j < offset && view.waiting(#[trigger] view.nth(j), now) ==> at
                                <= view.states[view.nth(j)]->retry_at
                    },
                },
            decreases n - offset,
        {
            let idx: usize = ((self.next as u64 + offset as u64) % (n as u64)) as usize;
            assert(idx == view.nth(offset as int));
            let ghost before = min_retry;
            let (open, attempt): (bool, u8) = match self.states[idx] {
                Health::Idle => (true, 0),
                Health::Backoff { retry_at, attempt } => if retry_at > now {
                    min_retry = match min_retry {
                        None => Some(retry_at),
                        Some(at) => if retry_at < at {
                            Some(retry_at)
                        } else {
                            Some(at)
                        },
                    };
                    (false, attempt)
                } else {
                    (true, attempt)
                },
                Health::Busy { attempt } => (false, attempt),
                Health::Dead => (false, 0),
            };
            proof {
                if before is Some {
                    let w = choose|j: int|
                        0 <= j < offset && view.waiting(#[trigger] view.nth(j), now)
                            && view.states[view.nth(j)]->retry_at == before->0;
                    assert(view.waiting(view.nth(w), now));
                }
            }
            if open {
                if let Some(addr) = self.addr_for(idx) {
                    let addr = addr.clone();
                    proof {
                        assert(view.first_available(offset as int, now));
                        vstd::arithmetic::div_mod::lemma_mod_bound(idx + 1, n as int);
                    }
                    self.next = ((idx as u64 + 1) % (n as u64)) as u32;
                    self.states[idx] = Health::Busy { attempt };
                    return Action::Connect { addr, tag: idx as u32 };
                }
            }
            offset += 1;
        }
        match min_retry {
            Some(min_retry_at) => Action::Backoff { min_retry_at },
            None => Action::Idle,
        }
    }

    pub fn sock_addr(&self, tag: u32) -> (addr: Option<&A>)
        requires
            self.wf(),
        ensures
            match addr {
                Some(a) => self@.addr(tag as int) == Some(*a),
                None => self@.addr(tag as int) is None,
            },
    {
        self.addr_for(tag as usize)
    }

    pub fn connect_outcome(&mut self, tag: u32, success: bool, now: Instant)
        requires
            old(self).wf(),
            now + MAX_DURATION <= u128::MAX,
        ensures
            final(self).wf(),
            final(self)@ == old(self)@.connect_outcome(tag, success, now),
    {
        let idx = tag as usize;
        if idx >= self.states.len() || self.states[idx] == Health::Dead {
            return ;
        }
        if success {
            self.states[idx] = Health::Busy { attempt: 0 };
            return ;
        }
        let failed: u8 = match self.states[idx] {
            Health::Busy { attempt } => attempt,
            Health::Backoff { attempt, .. } => attempt,
            _ => 0,
        };
        let attempt: u8 = if failed < MAX_BACKOFF_SHIFT {
            failed + 1
        } else {
            MAX_BACKOFF_SHIFT
        };
        let retry_at = self.retry_at(now, attempt);
        self.states[idx] = Health::Backoff { retry_at, attempt };
        proof {
            health::lemma_xorshift_nonzero(old(self).rng_state);
        }
    }

    pub fn connect_deferred(&mut self, tag: u32, now: Instant)
        requires
            old(self).wf(),
        ensures
            final(self).wf(),
            final(self)@ == old(self)@.connect_deferred(tag, now),
    {
        let idx = tag as usize;
        if idx >= self.states.len() {
            return ;
        }
        if let Health::Busy { attempt } = self.states[idx] {
            self.states[idx] = if attempt == 0 {
                Health::Idle
            } else {
                Health::Backoff { retry_at: now, attempt }
            };
        }
    }

    pub fn disconnect(&mut self, tag: u32, now: Instant)
        requires
            old(self).wf(),
            now + MAX_DURATION <= u128::MAX,
        ensures
            final(self).wf(),
            final(self)@ == old(self)@.disconnect(tag, now),
    {
        let idx = tag as usize;
        if idx >= self.states.len() || self.states[idx] == Health::Dead {
            return ;
        }
        if self.overrides[idx].is_some() {
            self.states[idx] = Health::Dead;
            return ;
        }
        let retry_at = self.retry_at(now, 1);
        self.states[idx] = Health::Backoff { retry_at, attempt: 1 };
        proof {
            health::lemma_xorshift_nonzero(old(self).rng_state);
        }
    }

    pub fn kill(&mut self, tag: u32)
        requires
            old(self).wf(),
        ensures
            final(self).wf(),
            final(self)@ == old(self)@.kill(tag),
    {
        let idx = tag as usize;
        if idx < self.states.len() {
            self.states[idx] = Health::Dead;
        }
    }

    /// Makes everything available again that has failed or been killed.
    pub fn revive(&mut self)
        requires
            old(self).wf(),
        ensures
            final(self).wf(),
            final(self)@ == old(self)@.revive(),
    {
        let mut i: usize = 0;
        let n = self.states.len();
        let ghost target = self@.revive().states;
        while i < n
            invariant
                i <= n,
                n == self.states@.len(),
                n == old(self).states@.len(),
                target == old(self)@.revive().states,
                self.upstreams == old(self).upstreams,
                self.overrides == old(self).overrides,
                self.base_window == old(self).base_window,
                self.next == old(self).next,
                self.rng_state == old(self).rng_state,
                forall|j: int| 0 <= j < i ==> self.states@[j] == target[j],
                forall|j: int| i <= j < n ==> self.states@[j] == old(self).states@[j],
            decreases n - i,
        {
            match self.states[i] {
                Health::Dead => {
                    self.states[i] = Health::Idle;
                },
                Health::Backoff { .. } => {
                    self.states[i] = Health::Idle;
                },
                _ => {},
            }
            i += 1;
        }
        assert(self.states@ =~= target);
    }
}

} // verus!
