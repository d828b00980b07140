//! A dialer for a fixed set of upstreams, with backoff.
use vstd::prelude::*;

use crate::collections::heap;
use crate::collections::heap::DeadlineHeap;
use crate::collections::seqs;
use crate::collections::slots;
use crate::collections::slots::IndexList;
use crate::time;
use crate::time::{deadline_after, Duration, Instant, MAX_DURATION};
use super::{Action, DialKey, Dialer};

verus! {

pub const MAX_BACKOFF_SHIFT: u8 = 10;

#[derive(Clone, Copy)]
enum SlotState {
    Vacant,
    Ready,
    Busy { attempt: u8 },
    Backoff { attempt: u8 },
    Dead,
    Retired,
}

/// What a slot connects to.
pub enum Target<A, C> {
    /// The upstream that the slot's number falls on.
    Static,
    /// An address that was dialed by hand.
    Dynamic { addr: A, config: C },
}

struct StaticSlot<A, C> {
    target: Option<Target<A, C>>,
    state: SlotState,
    generation: u32,
}

/// A dialer that keeps connections to its upstreams and tries failed ones again
/// after a while.
pub struct Static<A, C> {
    upstreams: Vec<A>,
    slots: Vec<StaticSlot<A, C>>,
    base_window: Duration,
    rng_state: u64,
    ready: IndexList,
    free: IndexList,
    dead: IndexList,
    retries: DeadlineHeap,
    needs_poll: bool,
}

/// What a slot is doing.
pub enum Health {
    Vacant,
    /// To be connected at the next poll.
    Ready,
    /// Connected, or being connected after `attempt` failures in a row.
    Busy { attempt: u8 },
    Backoff { attempt: u8, retry_at: Instant },
    Dead,
    /// Out of generations: never to be used again.
    Retired,
}

pub struct SlotView<A, C> {
    pub target: Option<Target<A, C>>,
    pub health: Health,
    pub generation: u32,
}

/// The abstract value of a [`Static`].
pub struct StaticView<A, C> {
    pub upstreams: Seq<A>,
    pub slots: Seq<SlotView<A, C>>,
    pub base_window: Duration,
    pub rng: u64,
    /// Slots to be connected, in this order.
    pub ready: Seq<usize>,
    /// Slots that can be dialed, in this order.
    pub free: Seq<usize>,
    pub dead: Seq<usize>,
    pub needs_poll: bool,
}

/// The next state of the generator of jitter.
pub open spec fn xorshift(x: u64) -> u64 {
    let a = x ^ (x >> 12u64);
    let b = a ^ (a << 25u64);
    b ^ (b >> 27u64)
}

/// The number drawn in a state of the generator.
pub open spec fn scrambled(x: u64) -> u64 {
    x.wrapping_mul(0x2545F4914F6CDD1D)
}

pub open spec fn at_most(x: int, bound: int) -> int {
    if x < bound {
        x
    } else {
        bound
    }
}

/// The window after `attempt` failures: it doubles with each one, up to 2^10 times
/// the base.
pub open spec fn scaled_window(base: Duration, attempt: u8) -> int {
    at_most(
        base * vstd::arithmetic::power2::pow2(
            at_most(attempt as int, MAX_BACKOFF_SHIFT as int) as nat,
        ),
        MAX_DURATION as int,
    )
}

pub open spec fn half_window(base: Duration, attempt: u8) -> int {
    scaled_window(base, attempt) / 2
}

/// Draws a number: the generator's next state, and what is drawn in it.
pub(super) fn draw(state: u64) -> (drawn: (u64, u64))
    ensures
        drawn.0 == xorshift(state),
        drawn.1 == scrambled(xorshift(state)),
{
    let mut x: u64 = state;
    x ^= x >> 12;
    x ^= x << 25;
    x ^= x >> 27;
    (x, x.wrapping_mul(0x2545F4914F6CDD1D))
}

/// Returns the window after `attempt` failures.
pub(super) fn window_after(base: Duration, attempt: u8) -> (scaled: Duration)
    requires
        base <= MAX_DURATION,
    ensures
        scaled == scaled_window(base, attempt),
        scaled <= MAX_DURATION,
{
    let shift: u8 = if attempt < MAX_BACKOFF_SHIFT {
        attempt
    } else {
        MAX_BACKOFF_SHIFT
    };
    let factor: u64 = 1u64 << (shift as u64);
    proof {
        vstd::bits::lemma_u64_pow2_no_overflow(shift as nat);
        vstd::bits::lemma_u64_shl_is_mul(1, shift as u64);
        vstd::arithmetic::power2::lemma2_to64();
        if shift < 10 {
            vstd::arithmetic::power2::lemma_pow2_strictly_increases(shift as nat, 10);
        }
        assert(base * factor <= MAX_DURATION * 1024) by (nonlinear_arith)
            requires
                base <= MAX_DURATION,
                factor <= 1024,
        ;
    }
    let product: u128 = base * (factor as u128);
    if product < MAX_DURATION {
        product
    } else {
        MAX_DURATION
    }
}

/// When to try again after a failure at `failed_at`: half a window later, and up
/// to another half by chance.
pub open spec fn retry_after(base: Duration, failed_at: Instant, attempt: u8, draw: u64) -> Instant {
    let half = half_window(base, attempt);
    let span = if half == 0 {
        1
    } else {
        at_most(half, u64::MAX as int)
    };
    time::after(failed_at, at_most(half + draw as int % span, MAX_DURATION as int) as u128)
}

impl<A, C> StaticView<A, C> {
    pub open spec fn dynamic(self, i: int) -> bool {
        self.slots[i].target matches Some(Target::Dynamic { .. })
    }

    pub open spec fn in_backoff(self, i: int) -> bool {
        0 <= i < self.slots.len() && self.slots[i].health is Backoff
    }

    /// Each slot is in the lists that its health says, once; a slot in use has a
    /// target; and a slot that is ready is known to be pending.
    pub open spec fn wf(self) -> bool {
        &&& self.upstreams.len() <= self.slots.len() <= u32::MAX
        &&& self.base_window <= MAX_DURATION
        &&& self.rng != 0
        &&& self.ready.no_duplicates()
        &&& self.free.no_duplicates()
        &&& self.dead.no_duplicates()
        &&& self.ready.len() > 0 ==> self.needs_poll
        &&& forall|i: usize|
            #![trigger self.ready.contains(i)]
            #![trigger self.slots[i as int]]
            self.ready.contains(i) <==> i < self.slots.len() && self.slots[i as int].health is Ready
        &&& forall|i: usize|
            #![trigger self.dead.contains(i)]
            #![trigger self.slots[i as int]]
            self.dead.contains(i) <==> i < self.slots.len() && self.slots[i as int].health is Dead
        &&& forall|i: usize|
            #![trigger self.free.contains(i)]
            #![trigger self.slots[i as int]]
            self.free.contains(i) <==> i < self.slots.len() && (
            self.slots[i as int].health is Vacant || (self.slots[i as int].health is Dead
                && self.dynamic(i as int)))
        &&& forall|i: int|
            #![trigger self.slots[i]]
            0 <= i < self.slots.len() ==> {
                &&& self.slots[i].generation >= 1
                &&& self.slots[i].target is None ==> self.slots[i].health is Vacant
                &&& self.slots[i].target matches Some(Target::Static) ==> self.upstreams.len() > 0
            }
    }

    /// A dialer whose slots are all ready, one for each upstream.
    pub open spec fn fresh(upstreams: Seq<A>, base_window: Duration, seed: u64) -> Self {
        StaticView {
            upstreams,
            slots: Seq::new(
                upstreams.len(),
                |i: int|
                    SlotView {
                        target: Some(Target::Static),
                        health: Health::Ready,
                        generation: 1,
                    },
            ),
            base_window,
            rng: if seed == 0 {
                1
            } else {
                seed
            },
            ready: Seq::new(upstreams.len(), |i: int| i as usize),
            free: Seq::empty(),
            dead: Seq::empty(),
            needs_poll: upstreams.len() > 0,
        }
    }

    /// `key` names a slot in use in its present generation.
    pub open spec fn current(self, key: DialKey) -> bool {
        let i = key.index as int;
        &&& i < self.slots.len()
        &&& self.slots[i].generation == key.generation
        &&& self.slots[i].health is Ready || self.slots[i].health is Busy
            || self.slots[i].health is Backoff
    }

    pub open spec fn key(self, i: int) -> DialKey {
        DialKey { index: i as u32, generation: self.slots[i].generation }
    }

    pub open spec fn addr(self, i: int) -> Option<A> {
        match self.slots[i].target {
            None => None,
            Some(Target::Static) => Some(self.upstreams[i % self.upstreams.len() as int]),
            Some(Target::Dynamic { addr, .. }) => Some(addr),
        }
    }

    pub open spec fn with_health(self, i: int, health: Health) -> Self {
        StaticView { slots: self.slots.update(i, SlotView { health, ..self.slots[i] }), ..self }
    }

    pub open spec fn any_pending(self) -> bool {
        self.ready.len() > 0 || exists|i: int| #[trigger] self.in_backoff(i)
    }

    pub open spec fn refreshed(self) -> Self {
        StaticView { needs_poll: self.any_pending(), ..self }
    }

    pub open spec fn retiring(self, i: int) -> bool {
        self.slots[i].generation == u32::MAX
    }

    /// Slot `i` waits for its next try, in its next generation.
    pub open spec fn backing_off(self, i: int, attempt: u8, now: Instant) -> Self {
        let rng = xorshift(self.rng);
        let health = Health::Backoff {
            attempt,
            retry_at: retry_after(self.base_window, now, attempt, scrambled(rng)),
        };
        StaticView {
            slots: self.slots.update(
                i,
                SlotView {
                    health,
                    generation: (self.slots[i].generation + 1) as u32,
                    ..self.slots[i]
                },
            ),
            rng,
            needs_poll: true,
            ..self
        }
    }

    /// Slot `i` is not to be connected any more, in its next generation.
    pub open spec fn buried(self, i: int) -> Self {
        StaticView {
            slots: self.slots.update(
                i,
                SlotView {
                    health: Health::Dead,
                    generation: (self.slots[i].generation + 1) as u32,
                    ..self.slots[i]
                },
            ),
            free: if self.dynamic(i) {
                seq![i as usize] + self.free
            } else {
                self.free
            },
            dead: self.dead.push(i as usize),
            ..self
        }
    }

    /// Slot `i` is taken off the list of ready slots.
    pub open spec fn detached(self, i: int) -> Self {
        StaticView { ready: slots::minus(self.ready, i as usize), ..self }
    }

    pub open spec fn connect_outcome(self, key: DialKey, success: bool, now: Instant) -> Self {
        let i = key.index as int;
        if !self.current(key) {
            self
        } else {
            match self.slots[i].health {
                Health::Busy { attempt } => if success {
                    self.with_health(i, Health::Busy { attempt: 0 })
                } else if self.retiring(i) {
                    self.with_health(i, Health::Retired).refreshed()
                } else {
                    self.backing_off(
                        i,
                        at_most(attempt + 1, MAX_BACKOFF_SHIFT as int) as u8,
                        now,
                    )
                },
                _ => self,
            }
        }
    }

    pub open spec fn connect_deferred(self, key: DialKey, now: Instant) -> Self {
        let i = key.index as int;
        if !self.current(key) {
            self
        } else {
            match self.slots[i].health {
                Health::Busy { attempt } => {
                    let held = StaticView { needs_poll: true, ..self };
                    if attempt == 0 {
                        StaticView {
                            ready: self.ready.push(i as usize),
                            ..held.with_health(i, Health::Ready)
                        }
                    } else {
                        held.with_health(i, Health::Backoff { attempt, retry_at: now })
                    }
                },
                _ => self,
            }
        }
    }

    pub open spec fn disconnect(self, key: DialKey, now: Instant) -> Self {
        let i = key.index as int;
        if !self.current(key) {
            self
        } else if self.retiring(i) {
            self.detached(i).with_health(i, Health::Retired).refreshed()
        } else if self.dynamic(i) {
            self.detached(i).buried(i).refreshed()
        } else {
            self.detached(i).backing_off(i, 1, now)
        }
    }

    pub open spec fn kill(self, key: DialKey) -> Self {
        let i = key.index as int;
        if !self.current(key) {
            self
        } else if self.retiring(i) {
            self.detached(i).with_health(i, Health::Retired).refreshed()
        } else {
            self.detached(i).buried(i).refreshed()
        }
    }

    pub open spec fn dial(self, addr: A, config: C) -> Self {
        if self.free.len() == 0 {
            self
        } else {
            let i = self.free[0] as int;
            StaticView {
                slots: self.slots.update(
                    i,
                    SlotView {
                        target: Some(Target::Dynamic { addr, config }),
                        health: Health::Ready,
                        ..self.slots[i]
                    },
                ),
                ready: self.ready.push(i as usize),
                free: self.free.skip(1),
                dead: slots::minus(self.dead, i as usize),
                needs_poll: true,
                ..self
            }
        }
    }

    /// `i` waits for a try no later than any other.
    pub open spec fn first_retry(self, i: int) -> bool {
        &&& self.in_backoff(i)
        &&& forall|j: int| #[trigger]
            self.in_backoff(j) ==> self.slots[i].health->retry_at <= self.slots[j].health->retry_at
    }

    /// Polling at `now` yields `action` and leaves `after`.
    pub open spec fn polls(self, now: Instant, action: Action, after: Self) -> bool {
        if self.ready.len() > 0 {
            let i = self.ready[0] as int;
            &&& action == Action::Connect { key: self.key(i) }
            &&& after == (StaticView {
                ready: self.ready.skip(1),
                ..self.with_health(i, Health::Busy { attempt: 0 })
            }).refreshed()
        } else {
            ||| {
                &&& forall|i: int| !#[trigger] self.in_backoff(i)
                &&& action == Action::Idle
                &&& after == (StaticView { needs_poll: false, ..self })
            }
            ||| exists|i: int|
                {
                    &&& #[trigger] self.first_retry(i)
                    &&& if self.slots[i].health->retry_at > now {
                        &&& action == Action::Backoff {
                            min_retry_at: self.slots[i].health->retry_at,
                        }
                        &&& after == (StaticView { needs_poll: false, ..self })
                    } else {
                        &&& action == Action::Connect { key: self.key(i) }
                        &&& after == self.with_health(
                            i,
                            Health::Busy { attempt: self.slots[i].health->Backoff_attempt },
                        ).refreshed()
                    }
                }
        }
    }

    /// `order` lists the slots in backoff, those to be tried sooner first.
    pub open spec fn retry_order(self, order: Seq<usize>) -> bool {
        &&& order.no_duplicates()
        &&& forall|i: usize| order.contains(i) <==> #[trigger] self.in_backoff(i as int)
        &&& forall|a: int, b: int|
            0 <= a <= b < order.len() ==> self.slots[order[a] as int].health->retry_at
                <= self.slots[order[b] as int].health->retry_at
    }

    /// Everything in backoff, in `order`, and everything dead is ready again.
    pub open spec fn revived(self, order: Seq<usize>) -> Self {
        StaticView {
            slots: Seq::new(
                self.slots.len(),
                |i: int|
                    if self.slots[i].health is Backoff || self.slots[i].health is Dead {
                        SlotView { health: Health::Ready, ..self.slots[i] }
                    } else {
                        self.slots[i]
                    },
            ),
            ready: self.ready + order + self.dead,
            free: slots::minus_all(self.free, self.dead.to_set()),
            dead: Seq::empty(),
            needs_poll: self.needs_poll || order.len() > 0 || self.dead.len() > 0,
            ..self
        }
    }

    pub open spec fn resized(self, max_connections: usize) -> Self {
        let first = self.slots.len() as int;
        if max_connections <= first {
            self
        } else {
            let added = Seq::new((max_connections - first) as nat, |k: int| (first + k) as usize);
            let empty = self.upstreams.len() == 0;
            StaticView {
                slots: self.slots + Seq::new(
                    added.len(),
                    |k: int|
                        SlotView {
                            target: if empty {
                                None
                            } else {
                                Some(Target::Static)
                            },
                            health: if empty {
                                Health::Vacant
                            } else {
                                Health::Ready
                            },
                            generation: 1,
                        },
                ),
                ready: if empty {
                    self.ready
                } else {
                    self.ready + added
                },
                free: if empty {
                    self.free + added
                } else {
                    self.free
                },
                needs_poll: self.needs_poll || !empty,
                ..self
            }
        }
    }
}

/// A retry comes no sooner than half a window after the failure and less than
/// half a window after that, as long as the clock can name the instant.
pub proof fn law_retry_within_window(base: Duration, failed_at: Instant, attempt: u8, draw: u64)
    requires
        0 < half_window(base, attempt),
        failed_at + 2 * half_window(base, attempt) <= u128::MAX,
    ensures
        failed_at + half_window(base, attempt) <= retry_after(base, failed_at, attempt, draw),
        retry_after(base, failed_at, attempt, draw) < failed_at + 2 * half_window(base, attempt),
{
    let span = at_most(half_window(base, attempt), u64::MAX as int);
    assert(0 <= draw as int % span < span) by (nonlinear_arith)
        requires
            span > 0,
    ;
}

/// The window doubles with each failure in a row, up to the tenth, and stays
/// below the longest span there is.
pub proof fn law_window_doubles(base: Duration, attempt: u8)
    requires
        attempt < MAX_BACKOFF_SHIFT,
        base * vstd::arithmetic::power2::pow2((attempt + 1) as nat) <= MAX_DURATION,
    ensures
        half_window(base, (attempt + 1) as u8) == base * vstd::arithmetic::power2::pow2(
            attempt as nat,
        ),
        half_window(base, attempt) == base * vstd::arithmetic::power2::pow2(attempt as nat) / 2,
{
    vstd::arithmetic::power2::lemma_pow2_unfold((attempt + 1) as nat);
    let p = vstd::arithmetic::power2::pow2(attempt as nat);
    assert(base * (2 * p) == 2 * (base * p)) by (nonlinear_arith);
    assert(base * p >= 0) by (nonlinear_arith)
        requires
            base >= 0,
            p >= 0,
    ;
}

/// From the tenth failure in a row on, the window no longer grows.
pub proof fn law_window_is_capped(base: Duration, attempt: u8)
    requires
        attempt >= MAX_BACKOFF_SHIFT,
    ensures
        half_window(base, attempt) == half_window(base, MAX_BACKOFF_SHIFT),
{
}

/// A key is stale once its connection has failed, been closed or been killed.
pub proof fn law_keys_go_stale<A, C>(source: StaticView<A, C>, key: DialKey, now: Instant)
    requires
        source.wf(),
        source.current(key),
    ensures
        source.slots[key.index as int].health is Busy ==> !source.connect_outcome(
            key,
            false,
            now,
        ).current(key),
        !source.disconnect(key, now).current(key),
        !source.kill(key).current(key),
{
}

/// A stale key has no effect.
pub proof fn law_stale_keys_do_nothing<A, C>(
    source: StaticView<A, C>,
    key: DialKey,
    success: bool,
    now: Instant,
)
    requires
        !source.current(key),
    ensures
        source.connect_outcome(key, success, now) == source,
        source.connect_deferred(key, now) == source,
        source.disconnect(key, now) == source,
        source.kill(key) == source,
{
}

/// A killed connection is not dialed by polling: whatever polling asks for is
/// another slot, and the killed one stays dead.
pub proof fn law_killed_is_not_polled<A, C>(
    source: StaticView<A, C>,
    i: int,
    now: Instant,
    action: Action,
    after: StaticView<A, C>,
)
    requires
        source.wf(),
        0 <= i < source.slots.len(),
        source.slots[i].health is Dead,
        source.polls(now, action, after),
    ensures
        action matches Action::Connect { key } ==> key.index != i,
        after.slots[i] == source.slots[i],
{
    if source.ready.len() > 0 {
        assert(source.ready.contains(source.ready[0]));
    }
}

/// What was killed is dialed again once the dialer is revived.
pub proof fn law_killed_then_revived<A, C>(source: StaticView<A, C>, key: DialKey, order: Seq<usize>)
    requires
        source.wf(),
        source.current(key),
        !source.retiring(key.index as int),
        source.kill(key).retry_order(order),
    ensures
        source.kill(key).slots[key.index as int].health is Dead,
        source.kill(key).revived(order).slots[key.index as int].health is Ready,
        source.kill(key).revived(order).ready.contains(key.index as usize),
        source.kill(key).revived(order).dead.len() == 0,
{
    let i = key.index as usize;
    let killed = source.kill(key);
    seqs::lemma_push(source.dead, i);
    seqs::lemma_concat(killed.ready + order, killed.dead);
}

/// Reviving leaves nothing dead and nothing in backoff.
pub proof fn law_revive_clears<A, C>(source: StaticView<A, C>, order: Seq<usize>)
    requires
        source.wf(),
        source.retry_order(order),
    ensures
        source.revived(order).dead.len() == 0,
        forall|i: int| !#[trigger] source.revived(order).in_backoff(i),
        source.revived(order).ready.len() == source.ready.len() + order.len() + source.dead.len(),
{
}

/// A connection that succeeds starts over: its next failure is its first.
pub proof fn law_success_resets<A, C>(source: StaticView<A, C>, key: DialKey, now: Instant)
    requires
        source.wf(),
        source.current(key),
        source.slots[key.index as int].health is Busy,
        !source.retiring(key.index as int),
    ensures
        source.connect_outcome(key, true, now).current(key),
        source.connect_outcome(key, true, now).connect_outcome(
            key,
            false,
            now,
        ).slots[key.index as int].health->Backoff_attempt == 1,
{
}

/// A deferred try is polled again: a first one after all that are ready, a later one
/// as soon as no other is due earlier. Its key stays good.
pub proof fn law_deferred_is_polled_again<A, C>(source: StaticView<A, C>, key: DialKey, now: Instant)
    requires
        source.wf(),
        source.current(key),
        source.slots[key.index as int].health is Busy,
    ensures
        ({
            let after = source.connect_deferred(key, now);
            let attempt = source.slots[key.index as int].health->Busy_attempt;
            &&& after.needs_poll
            &&& after.current(key)
            &&& attempt == 0 ==> after.ready.last() == key.index as usize
            &&& attempt > 0 ==> after.slots[key.index as int].health == Health::Backoff {
                attempt,
                retry_at: now,
            }
        }),
{
}

/// Of two states of a dialer the upstreams, the window and all slots but slot `i` are
/// the same.
pub open spec fn same_but_slot<A, C>(
    before: StaticView<A, C>,
    after: StaticView<A, C>,
    i: int,
) -> bool {
    &&& after.upstreams == before.upstreams
    &&& after.base_window == before.base_window
    &&& after.slots.len() == before.slots.len()
    &&& forall|j: int|
        0 <= j < before.slots.len() && j != i ==> #[trigger] after.slots[j] == before.slots[j]
}

/// The window after so many failures in a row, in full: it doubles ten times at most
/// and never exceeds the longest span there is.
pub open spec fn full_window(base: Duration, failures: int) -> int {
    let shift = if failures < 10 {
        failures
    } else {
        10
    };
    let window = base * vstd::arithmetic::power2::pow2(shift as nat);
    if window < MAX_DURATION {
        window
    } else {
        MAX_DURATION as int
    }
}

/// The instant for a retry is half of the window away, and further by what was drawn,
/// which is less than the other half: the draw alone decides how much.
pub proof fn law_retry_is_half_a_window_and_jitter(
    base: Duration,
    failed_at: Instant,
    attempt: u8,
    draw: u64,
)
    requires
        base <= MAX_DURATION,
        failed_at + full_window(base, attempt as int) <= u128::MAX,
    ensures
        ({
            let half = full_window(base, attempt as int) / 2;
            let at = retry_after(base, failed_at, attempt, draw);
            &&& half == 0 ==> at == failed_at
            &&& 0 < half <= u64::MAX ==> at == failed_at + half + draw as int % half
            &&& half > u64::MAX ==> at == failed_at + half + draw as int % (u64::MAX as int)
            &&& half > 0 ==> failed_at + half <= at < failed_at + 2 * half
        }),
{
    let half = full_window(base, attempt as int) / 2;
    assert(half == half_window(base, attempt));
    let span = if half == 0 {
        1
    } else {
        at_most(half, u64::MAX as int)
    };
    assert(0 <= draw as int % span < span) by (nonlinear_arith)
        requires
            span > 0,
    ;
}

/// A connection that fails for the n-th time in a row waits for another try, however
/// often it has failed: half of the window after n failures, and less than that again
/// by chance. Its key is spent, what it connects to stays, and no other slot changes.
pub proof fn law_failure_is_tried_again<A, C: Copy>(
    before: Static<A, C>,
    key: DialKey,
    now: Instant,
    after: Static<A, C>,
)
    requires
        before@.base_window <= MAX_DURATION,
        key.index < before@.slots.len(),
        before@.slots[key.index as int].generation == key.generation,
        before@.slots[key.index as int].health is Busy,
        key.generation < u32::MAX,
        before.settles(key, false, now, after),
    ensures
        ({
            let i = key.index as int;
            let failures = before@.slots[i].health->Busy_attempt + 1;
            let window = full_window(before@.base_window, failures);
            let health = after@.slots[i].health;
            &&& health is Backoff
            &&& health->Backoff_attempt == if failures < 10 {
                failures
            } else {
                10
            }
            &&& now + window <= u128::MAX ==> if window < 2 {
                health->retry_at == now
            } else {
                now + window / 2 <= health->retry_at < now + 2 * (window / 2)
            }
            &&& after@.slots[i].generation == key.generation + 1
            &&& after@.slots[i].target == before@.slots[i].target
            &&& after@.needs_poll
            &&& after@.ready == before@.ready
            &&& after@.free == before@.free
            &&& after@.dead == before@.dead
            &&& same_but_slot(before@, after@, i)
        }),
{
    let i = key.index as int;
    let failures = before@.slots[i].health->Busy_attempt + 1;
    let window = full_window(before@.base_window, failures);
    assert(before@.current(key));
    let attempt = at_most(failures, MAX_BACKOFF_SHIFT as int) as u8;
    assert(full_window(before@.base_window, attempt as int) == window);
    if now + window <= u128::MAX {
        law_retry_is_half_a_window_and_jitter(
            before@.base_window,
            now,
            attempt,
            scrambled(xorshift(before@.rng)),
        );
    }
}

/// A failed connection is dialed again at the instant that was set for it and at every
/// later one, if nothing else is to be dialed then, and not before.
pub proof fn law_failed_is_dialed_again<A, C: Copy>(
    before: Static<A, C>,
    key: DialKey,
    now: Instant,
    failed: Static<A, C>,
    later: Instant,
    action: Action,
    after: Static<A, C>,
)
    requires
        key.index < before@.slots.len(),
        before@.slots[key.index as int].generation == key.generation,
        before@.slots[key.index as int].health is Busy,
        key.generation < u32::MAX,
        before@.ready.len() == 0,
        forall|j: int|
            0 <= j < before@.slots.len() ==> !((#[trigger] before@.slots[j]).health is Backoff),
        before.settles(key, false, now, failed),
        failed.polls(later, action, after),
    ensures
        ({
            let i = key.index as int;
            let at = failed@.slots[i].health->retry_at;
            if at <= later {
                &&& action == Action::Connect {
                    key: DialKey { index: key.index, generation: (key.generation + 1) as u32 },
                }
                &&& after@.slots[i].health is Busy
            } else {
                &&& action == Action::Backoff { min_retry_at: at }
                &&& after@.slots == failed@.slots
            }
        }),
{
    let i = key.index as int;
    assert(before@.current(key));
    assert(failed@.in_backoff(i));
    assert forall|j: int| j != i implies !#[trigger] failed@.in_backoff(j) by {
        if 0 <= j < before@.slots.len() {
            assert(failed@.slots[j] == before@.slots[j]);
        }
    }
}

/// A connection that comes up counts no failures any more; nothing else changes.
pub proof fn law_success_changes_one_slot<A, C: Copy>(
    before: Static<A, C>,
    key: DialKey,
    now: Instant,
    after: Static<A, C>,
)
    requires
        key.index < before@.slots.len(),
        before@.slots[key.index as int].generation == key.generation,
        before@.slots[key.index as int].health is Busy,
        before.settles(key, true, now, after),
    ensures
        ({
            let i = key.index as int;
            &&& after@.slots[i].health == (Health::Busy { attempt: 0 })
            &&& after@.slots[i].generation == key.generation
            &&& after@.slots[i].target == before@.slots[i].target
            &&& same_but_slot(before@, after@, i)
            &&& after@.ready == before@.ready
            &&& after@.free == before@.free
            &&& after@.dead == before@.dead
            &&& after@.rng == before@.rng
            &&& after@.needs_poll == before@.needs_poll
        }),
{
    assert(before@.current(key));
}

/// A connection to an upstream that is lost is tried again as after a first failure;
/// one that was dialed by hand is not, and its slot can be dialed anew at once. In
/// either case its key is spent and it is not to be connected meanwhile.
pub proof fn law_lost_upstream_is_tried_again<A, C: Copy>(
    before: Static<A, C>,
    key: DialKey,
    now: Instant,
    after: Static<A, C>,
)
    requires
        before@.base_window <= MAX_DURATION,
        before@.current(key),
        key.generation < u32::MAX,
        before.drops(key, now, after),
    ensures
        ({
            let i = key.index as int;
            let window = full_window(before@.base_window, 1);
            let slot = after@.slots[i];
            &&& slot.generation == key.generation + 1
            &&& slot.target == before@.slots[i].target
            &&& same_but_slot(before@, after@, i)
            &&& !after@.ready.contains(i as usize)
            &&& forall|j: usize|
                j != i ==> #[trigger] after@.ready.contains(j) == before@.ready.contains(j)
            &&& if before@.slots[i].target matches Some(Target::Dynamic { .. }) {
                &&& slot.health is Dead
                &&& after@.free == seq![i as usize] + before@.free
                &&& after@.dead == before@.dead.push(i as usize)
            } else {
                &&& slot.health is Backoff
                &&& slot.health->Backoff_attempt == 1
                &&& now + window <= u128::MAX && window >= 2 ==> now + window / 2
                    <= slot.health->retry_at < now + 2 * (window / 2)
                &&& after@.needs_poll
                &&& after@.free == before@.free
                &&& after@.dead == before@.dead
            }
        }),
{
    let i = key.index as int;
    let window = full_window(before@.base_window, 1);
    slots::lemma_minus_contains(before@.ready, i as usize);
    if now + window <= u128::MAX {
        law_retry_is_half_a_window_and_jitter(
            before@.base_window,
            now,
            1,
            scrambled(xorshift(before@.rng)),
        );
    }
}

/// A connection that is given up is dead whatever it was doing and whatever it
/// connects to, and is not to be connected. One that was dialed by hand can be dialed
/// anew; an upstream cannot, until it is revived.
pub proof fn law_given_up_is_dead<A, C: Copy>(
    before: Static<A, C>,
    key: DialKey,
    after: Static<A, C>,
)
    requires
        before@.current(key),
        key.generation < u32::MAX,
        before.kills(key, after),
    ensures
        ({
            let i = key.index as int;
            let slot = after@.slots[i];
            &&& slot.health is Dead
            &&& slot.generation == key.generation + 1
            &&& slot.target == before@.slots[i].target
            &&& same_but_slot(before@, after@, i)
            &&& after@.dead == before@.dead.push(i as usize)
            &&& !after@.ready.contains(i as usize)
            &&& forall|j: usize|
                j != i ==> #[trigger] after@.ready.contains(j) == before@.ready.contains(j)
            &&& after@.free == if before@.slots[i].target matches Some(Target::Dynamic { .. }) {
                seq![i as usize] + before@.free
            } else {
                before@.free
            }
        }),
{
    slots::lemma_minus_contains(before@.ready, key.index as usize);
}

/// A slot whose generations are used up is retired when its connection is lost or
/// given up: it is in no list any more, and reviving does not bring it back.
pub proof fn law_spent_slot_is_retired<A, C: Copy>(
    before: Static<A, C>,
    key: DialKey,
    now: Instant,
    failed: Static<A, C>,
    dropped: Static<A, C>,
    killed: Static<A, C>,
    revived: Static<A, C>,
)
    requires
        before@.current(key),
        key.generation == u32::MAX,
        before.settles(key, false, now, failed),
        before.drops(key, now, dropped),
        before.kills(key, killed),
        killed.revives(revived),
    ensures
        ({
            let i = key.index as int;
            &&& before@.slots[i].health is Busy ==> failed@.slots[i].health is Retired
            &&& dropped@.slots[i].health is Retired
            &&& killed@.slots[i].health is Retired
            &&& revived@.slots[i].health is Retired
            &&& !dropped@.ready.contains(i as usize)
            &&& !killed@.ready.contains(i as usize)
            &&& dropped@.dead == before@.dead
            &&& killed@.free == before@.free
            &&& same_but_slot(before@, dropped@, i)
            &&& same_but_slot(before@, killed@, i)
        }),
{
    slots::lemma_minus_contains(before@.ready, key.index as usize);
}

/// Polling hands out what is ready in its order, then what waits for a try that is due,
/// the one that is due first, and otherwise says when the next is due. It says that
/// there is nothing exactly if nothing is ready and nothing waits. What is handed out
/// keeps its key and its count of failures, and nothing else changes.
pub proof fn law_poll_hands_out_what_is_due<A, C: Copy>(
    before: Static<A, C>,
    now: Instant,
    action: Action,
    after: Static<A, C>,
)
    requires
        before.wf(),
        before.polls(now, action, after),
    ensures
        ({
            let v = before@;
            match action {
                Action::Connect { key } => {
                    let i = key.index as int;
                    &&& 0 <= i < v.slots.len()
                    &&& key.generation == v.slots[i].generation
                    &&& after@.slots[i].health is Busy
                    &&& after@.slots[i].generation == v.slots[i].generation
                    &&& after@.slots[i].target == v.slots[i].target
                    &&& same_but_slot(v, after@, i)
                    &&& after@.free == v.free
                    &&& after@.dead == v.dead
                    &&& after@.rng == v.rng
                    &&& if v.ready.len() > 0 {
                        &&& v.ready[0] == i
                        &&& after@.ready == v.ready.skip(1)
                        &&& after@.slots[i].health->Busy_attempt == 0
                    } else {
                        &&& after@.ready == v.ready
                        &&& v.slots[i].health is Backoff
                        &&& v.slots[i].health->retry_at <= now
                        &&& after@.slots[i].health->Busy_attempt
                            == v.slots[i].health->Backoff_attempt
                        &&& forall|j: int|
                            0 <= j < v.slots.len() && (#[trigger] v.slots[j]).health is Backoff
                                ==> v.slots[i].health->retry_at <= v.slots[j].health->retry_at
                    }
                },
                Action::Backoff { min_retry_at } => {
                    &&& v.ready.len() == 0
                    &&& min_retry_at > now
                    &&& exists|i: int|
                        0 <= i < v.slots.len() && (#[trigger] v.slots[i]).health is Backoff
                            && v.slots[i].health->retry_at == min_retry_at
                    &&& forall|j: int|
                        0 <= j < v.slots.len() && (#[trigger] v.slots[j]).health is Backoff
                            ==> min_retry_at <= v.slots[j].health->retry_at
                    &&& after@ == (StaticView { needs_poll: false, ..v })
                },
                Action::Idle => {
                    &&& v.ready.len() == 0
                    &&& forall|j: int|
                        0 <= j < v.slots.len() ==> !((#[trigger] v.slots[j]).health is Backoff)
                    &&& after@ == (StaticView { needs_poll: false, ..v })
                },
            }
        }),
{
    let v = before@;
    if v.ready.len() > 0 {
        assert(v.ready.contains(v.ready[0]));
    } else {
        assert forall|j: int|
            0 <= j < v.slots.len() && (#[trigger] v.slots[j]).health is Backoff implies v.in_backoff(
            j,
        ) by {}
        if exists|i: int| #[trigger] v.first_retry(i) {
            let i = choose|i: int| #[trigger] v.first_retry(i);
            assert(v.in_backoff(i));
        }
    }
}

/// A dialer that has anything to connect, now or later, is known to be pending after
/// every poll that hands something out.
pub proof fn law_pending_after_poll<A, C: Copy>(
    before: Static<A, C>,
    now: Instant,
    key: DialKey,
    after: Static<A, C>,
    j: int,
)
    requires
        before.wf(),
        before.polls(now, Action::Connect { key }, after),
        after@.ready.len() > 0 || (0 <= j < after@.slots.len() && after@.slots[j].health is Backoff),
    ensures
        after.pending(),
{
    let v = before@;
    if v.ready.len() > 0 {
        let i = v.ready[0] as int;
        let handed = StaticView {
            ready: v.ready.skip(1),
            ..v.with_health(i, Health::Busy { attempt: 0 })
        };
        assert(after@.ready.len() > 0 || handed.in_backoff(j));
    } else {
        let i = choose|i: int|
            {
                &&& #[trigger] v.first_retry(i)
                &&& if v.slots[i].health->retry_at > now {
                    false
                } else {
                    &&& key == v.key(i)
                    &&& after@ == v.with_health(
                        i,
                        Health::Busy { attempt: v.slots[i].health->Backoff_attempt },
                    ).refreshed()
                }
            };
        let handed = v.with_health(
            i,
            Health::Busy { attempt: v.slots[i].health->Backoff_attempt },
        );
        assert(after@.ready.len() > 0 || handed.in_backoff(j));
    }
}

/// Dialing by hand takes the first slot that can be dialed, gives its key back, and has
/// it connected after all that is ready. Without such a slot nothing happens. What is
/// dialed is found under its key, and nothing is found under any other.
pub proof fn law_dialed_by_hand_is_connected<A, C: Copy>(
    before: Static<A, C>,
    addr: A,
    config: C,
    key: Option<DialKey>,
    after: Static<A, C>,
)
    requires
        before.wf(),
        before.dials(addr, config, key, after),
    ensures
        if before@.free.len() == 0 {
            key is None && after@ == before@
        } else {
            let i = before@.free[0] as int;
            &&& key == Some(
                DialKey { index: i as u32, generation: before@.slots[i].generation },
            )
            &&& after@.slots[i].health is Ready
            &&& after@.slots[i].generation == before@.slots[i].generation
            &&& after@.ready == before@.ready.push(i as usize)
            &&& after@.free == before@.free.skip(1)
            &&& !after@.dead.contains(i as usize)
            &&& after@.needs_poll
            &&& after.pending()
            &&& same_but_slot(before@, after@, i)
            &&& after.addr(key->0) == Some(addr)
            &&& after.config(key->0) == Some(config)
        },
{
    if before@.free.len() > 0 {
        assert(before@.free.contains(before@.free[0]));
        slots::lemma_minus_contains(before@.dead, before@.free[0]);
    }
}

/// An address is found under a key exactly while the key is the slot's and the slot is
/// in use: that of the upstream which the slot falls on, or the one that was dialed.
pub proof fn law_address_of_a_key<A, C: Copy>(source: Static<A, C>, key: DialKey)
    requires
        source.wf(),
    ensures
        ({
            let slot = source@.slots[key.index as int];
            let used = key.index < source@.slots.len() && slot.generation == key.generation && (
            slot.health is Ready || slot.health is Busy || slot.health is Backoff);
            &&& source.addr(key) == if !used {
                None
            } else {
                match slot.target {
                    Some(Target::Dynamic { addr, .. }) => Some(addr),
                    Some(Target::Static) => Some(
                        source@.upstreams[key.index as int % source@.upstreams.len() as int],
                    ),
                    None => None,
                }
            }
            &&& source.config(key) == match slot.target {
                Some(Target::Dynamic { config, .. }) if used => Some(config),
                _ => None,
            }
        }),
{
}

/// Reviving makes everything that waited or was dead ready, after what was ready
/// before: what waited first, by when it was due. Slots in use, keys and targets stay.
pub proof fn law_revival_readies_all<A, C: Copy>(before: Static<A, C>, after: Static<A, C>)
    requires
        before.wf(),
        before.revives(after),
    ensures
        after@.upstreams == before@.upstreams,
        after@.slots.len() == before@.slots.len(),
        forall|i: int|
            0 <= i < before@.slots.len() ==> {
                let was = before@.slots[i];
                let cur = #[trigger] after@.slots[i];
                &&& cur.generation == was.generation
                &&& cur.target == was.target
                &&& if was.health is Backoff || was.health is Dead {
                    cur.health is Ready
                } else {
                    cur.health == was.health
                }
            },
        after@.ready.take(before@.ready.len() as int) == before@.ready,
        forall|i: usize|
            i < before@.slots.len() ==> (#[trigger] after@.ready.contains(i) <==> (
            before@.slots[i as int].health is Ready || before@.slots[i as int].health is Backoff
                || before@.slots[i as int].health is Dead)),
        after@.dead.len() == 0,
        after@.ready.len() > before@.ready.len() ==> after.pending(),
{
    let order = choose|order: Seq<usize>| #[trigger]
        before@.retry_order(order) && after@ == before@.revived(order);
    assert(after@.ready.take(before@.ready.len() as int) =~= before@.ready);
    seqs::lemma_concat(before@.ready, order);
    seqs::lemma_concat(before@.ready + order, before@.dead);
    assert forall|i: usize| i < before@.slots.len() implies (#[trigger] after@.ready.contains(i) <==> (
    before@.slots[i as int].health is Ready || before@.slots[i as int].health is Backoff
        || before@.slots[i as int].health is Dead)) by {
        assert(order.contains(i) <==> before@.in_backoff(i as int));
    }
}

/// Making room adds slots and changes none: each new one is ready to be connected to
/// the upstream it falls on, or can be dialed if there are no upstreams. There are never
/// fewer slots afterwards.
pub proof fn law_room_is_added<A, C: Copy>(
    before: Static<A, C>,
    max_connections: usize,
    after: Static<A, C>,
)
    requires
        before.wf(),
        before.resizes(max_connections, after),
    ensures
        ({
            let n = before@.slots.len();
            let none = before@.upstreams.len() == 0;
            &&& after@.upstreams == before@.upstreams
            &&& after@.slots.len() == if max_connections > n {
                max_connections as nat
            } else {
                n
            }
            &&& after@.slots.take(n as int) == before@.slots
            &&& forall|i: int|
                n <= i < max_connections ==> {
                    let slot = #[trigger] after@.slots[i];
                    &&& slot.generation == 1
                    &&& if none {
                        slot.health is Vacant && slot.target is None && after@.free.contains(
                            i as usize,
                        )
                    } else {
                        slot.health is Ready && slot.target == Some(Target::<A, C>::Static)
                            && after@.ready.contains(i as usize)
                    }
                }
            &&& max_connections > n && !none ==> after.pending()
            &&& max_connections <= n ==> after@ == before@
        }),
{
    let n = before@.slots.len() as int;
    assert(after@.slots.take(n) =~= before@.slots);
    if max_connections > n {
        let added = Seq::new((max_connections - n) as nat, |k: int| (n + k) as usize);
        seqs::lemma_concat(before@.ready, added);
        seqs::lemma_concat(before@.free, added);
        assert forall|i: usize| n <= i < max_connections implies #[trigger] added.contains(i) by {
            assert(added[i - n] == i);
        }
        assert forall|i: int| n <= i < max_connections implies {
            let slot = #[trigger] after@.slots[i];
            &&& before@.upstreams.len() == 0 ==> after@.free.contains(i as usize)
            &&& before@.upstreams.len() > 0 ==> after@.ready.contains(i as usize)
        } by {
            assert(added.contains(i as usize));
        }
    }
}

/// A try that could not be started is ready again, after all that is ready, or waits
/// again and is due at once if it failed before. It keeps its key and its count of
/// failures, and nothing else changes. An outcome for a slot that is not being
/// connected changes nothing at all.
pub proof fn law_deferral_changes_one_slot<A, C: Copy>(
    before: Static<A, C>,
    key: DialKey,
    success: bool,
    now: Instant,
    deferred: Static<A, C>,
    settled: Static<A, C>,
)
    requires
        before@.current(key),
        before.defers(key, now, deferred),
        before.settles(key, success, now, settled),
    ensures
        ({
            let i = key.index as int;
            let was = before@.slots[i];
            let slot = deferred@.slots[i];
            if was.health is Busy {
                &&& slot.generation == was.generation
                &&& slot.target == was.target
                &&& same_but_slot(before@, deferred@, i)
                &&& deferred.pending()
                &&& deferred@.free == before@.free
                &&& deferred@.dead == before@.dead
                &&& if was.health->Busy_attempt == 0 {
                    slot.health is Ready && deferred@.ready == before@.ready.push(i as usize)
                } else {
                    &&& slot.health == Health::Backoff {
                        attempt: was.health->Busy_attempt,
                        retry_at: now,
                    }
                    &&& deferred@.ready == before@.ready
                }
            } else {
                deferred@ == before@ && settled@ == before@
            }
        }),
{
}

/// A new dialer has every upstream ready, in the order in which they are given, and no
/// slot that could be dialed by hand.
pub proof fn law_fresh_is_ready<A, C>(upstreams: Seq<A>, base_window: Duration, seed: u64)
    requires
        upstreams.len() <= usize::MAX,
    ensures
        ({
            let fresh = StaticView::<A, C>::fresh(upstreams, base_window, seed);
            &&& fresh.upstreams == upstreams
            &&& fresh.base_window == base_window
            &&& fresh.slots.len() == upstreams.len()
            &&& fresh.ready.len() == upstreams.len()
            &&& forall|i: int|
                0 <= i < upstreams.len() ==> {
                    &&& (#[trigger] fresh.slots[i]).health is Ready
                    &&& fresh.slots[i].target == Some(Target::<A, C>::Static)
                    &&& fresh.slots[i].generation == 1
                    &&& fresh.ready[i] == i
                    &&& fresh.addr(i) == Some(upstreams[i])
                }
            &&& fresh.free.len() == 0
            &&& fresh.dead.len() == 0
            &&& fresh.needs_poll <==> upstreams.len() > 0
        }),
{
    let fresh = StaticView::<A, C>::fresh(upstreams, base_window, seed);
    assert forall|i: int| 0 <= i < upstreams.len() implies #[trigger] fresh.addr(i) == Some(
        upstreams[i],
    ) by {
        vstd::arithmetic::div_mod::lemma_small_mod(i as nat, upstreams.len());
    }
}

impl<A, C: Copy> View for Static<A, C> {
    type V = StaticView<A, C>;

    closed spec fn view(&self) -> StaticView<A, C> {
        StaticView {
            upstreams: self.upstreams@,
            slots: Seq::new(
                self.slots@.len(),
                |i: int|
                    SlotView {
                        target: self.slots@[i].target,
                        health: self.health(i),
                        generation: self.slots@[i].generation,
                    },
            ),
            base_window: self.base_window,
            rng: self.rng_state,
            ready: self.ready@,
            free: self.free@,
            dead: self.dead@,
            needs_poll: self.needs_poll,
        }
    }
}

impl<A, C: Copy> Static<A, C> {
    /// A dialer whose slots are all ready, one for each upstream. `seed` starts
    /// the generator of jitter.
    pub fn new(upstreams: Vec<A>, base_window: Duration, seed: u64) -> (source: Self)
        requires
            upstreams@.len() <= u32::MAX,
            base_window <= MAX_DURATION,
        ensures
            source.wf(),
            source@ == StaticView::<A, C>::fresh(upstreams@, base_window, seed),
    {
        let n = upstreams.len();
        let mut ready = IndexList::with_capacity(n);
        let mut slots: Vec<StaticSlot<A, C>> = Vec::with_capacity(n);
        let mut index: usize = 0;
        while index < n
            invariant
                index <= n,
                ready.wf(),
                ready.room() == n,
                ready@ == Seq::new(index as nat, |i: int| i as usize),
                slots@ == Seq::new(
                    index as nat,
                    |i: int|
                        StaticSlot::<A, C> {
                            target: Some(Target::Static),
                            state: SlotState::Ready,
                            generation: 1,
                        },
                ),
            decreases n - index,
        {
            let _ = ready.push_back(index);
            slots.push(
                StaticSlot { target: Some(Target::Static), state: SlotState::Ready, generation: 1 },
            );
            index += 1;
            assert(ready@ =~= Seq::new(index as nat, |i: int| i as usize));
        }
        let source = Static {
            upstreams,
            slots,
            base_window,
            rng_state: if seed == 0 {
                1
            } else {
                seed
            },
            ready,
            free: IndexList::with_capacity(n),
            dead: IndexList::with_capacity(n),
            retries: DeadlineHeap::with_capacity(n),
            needs_poll: n != 0,
        };
        proof {
            let view = source@;
            assert(view.slots =~= StaticView::<A, C>::fresh(upstreams@, base_window, seed).slots);
            assert(view.free =~= Seq::empty());
            assert(view.dead =~= Seq::empty());
            assert forall|i: usize| i < n implies #[trigger] view.ready.contains(i) by {
                assert(view.ready[i as int] == i);
            }
        }
        source
    }

    spec fn health(self, i: int) -> Health {
        match self.slots@[i].state {
            SlotState::Vacant => Health::Vacant,
            SlotState::Ready => Health::Ready,
            SlotState::Busy { attempt } => Health::Busy { attempt },
            SlotState::Backoff { attempt } => Health::Backoff {
                attempt,
                retry_at: heap::heap_entries(self.retries)[i as usize].0,
            },
            SlotState::Dead => Health::Dead,
            SlotState::Retired => Health::Retired,
        }
    }

    /// The lists have room for all slots, and exactly the slots in backoff stand
    /// in the heap.
    spec fn stored(self) -> bool {
        &&& self.ready.wf() && self.ready.room() == self.slots@.len()
        &&& self.free.wf() && self.free.room() == self.slots@.len()
        &&& self.dead.wf() && self.dead.room() == self.slots@.len()
        &&& heap::heap_capacity(self.retries) == self.slots@.len()
        &&& forall|i: usize|
            #![trigger heap::heap_entries(self.retries).contains_key(i)]
            #![trigger self.slots@[i as int]]
            heap::heap_entries(self.retries).contains_key(i) <==> i < self.slots@.len()
                && self.slots@[i as int].state is Backoff
    }

    spec fn valid(self) -> bool {
        self.stored() && self@.wf()
    }

    fn next_rand(&mut self) -> (draw: u64)
        ensures
            *final(self) == (Static { rng_state: xorshift(old(self).rng_state), ..*old(self) }),
            draw == scrambled(xorshift(old(self).rng_state)),
    {
        let (next, drawn) = draw(self.rng_state);
        self.rng_state = next;
        drawn
    }

    /// Draws when a slot is to be tried again after `attempt` failures.
    fn retry_at(&mut self, failed_at: Instant, attempt: u8) -> (at: Instant)
        requires
            old(self).base_window <= MAX_DURATION,
        ensures
            *final(self) == (Static { rng_state: xorshift(old(self).rng_state), ..*old(self) }),
            at == retry_after(
                old(self).base_window,
                failed_at,
                attempt,
                scrambled(xorshift(old(self).rng_state)),
            ),
    {
        let scaled = window_after(self.base_window, attempt);
        let r = self.next_rand();
        let delay = scaled / 2;
        let span: u64 = if delay == 0 {
            1
        } else if delay < 0xffff_ffff_ffff_ffff {
            delay as u64
        } else {
            0xffff_ffff_ffff_ffff
        };
        let jitter: u64 = r % span;
        let total: u128 = delay + jitter as u128;
        let capped: u128 = if total < MAX_DURATION {
            total
        } else {
            MAX_DURATION
        };
        deadline_after(failed_at, capped)
    }

    fn matches(&self, key: DialKey) -> (current: bool)
        ensures
            current == self@.current(key),
    {
        let index = key.index as usize;
        if index >= self.slots.len() {
            return false;
        }
        match self.slots[index].state {
            SlotState::Ready | SlotState::Busy { .. } | SlotState::Backoff { .. } => {
                self.slots[index].generation == key.generation
            },
            SlotState::Vacant | SlotState::Dead | SlotState::Retired => false,
        }
    }

    /// Moves a slot on to its next generation, or retires it.
    fn advance_generation(&mut self, index: usize) -> (advanced: bool)
        requires
            index < old(self).slots@.len(),
        ensures
            advanced == (old(self).slots@[index as int].generation != u32::MAX),
            *final(self) == (Static { slots: final(self).slots, ..*old(self) }),
            final(self).slots@ == old(self).slots@.update(
                index as int,
                if advanced {
                    StaticSlot {
                        generation: (old(self).slots@[index as int].generation + 1) as u32,
                        ..old(self).slots@[index as int]
                    }
                } else {
                    StaticSlot { state: SlotState::Retired, ..old(self).slots@[index as int] }
                },
            ),
    {
        if self.slots[index].generation == 0xffff_ffff {
            self.slots[index].state = SlotState::Retired;
            return false;
        }
        self.slots[index].generation = self.slots[index].generation + 1;
        true
    }

    /// A least entry of the heap is a slot to be tried first.
    proof fn lemma_least(self, index: usize, key: (Instant, u32))
        requires
            self.stored(),
            self.slots@.len() <= u32::MAX,
            heap::is_least(heap::heap_entries(self.retries), index, key),
        ensures
            self@.first_retry(index as int),
            self@.slots[index as int].health->retry_at == key.0,
    {
        let entries = heap::heap_entries(self.retries);
        assert(entries.contains_key(index));
        assert forall|j: int| #[trigger] self@.in_backoff(j) implies key.0
            <= self@.slots[j].health->retry_at by {
            assert(entries.contains_key(j as usize));
            assert(heap::key_le(key, entries[j as usize]));
        }
    }

    fn addr_for(&self, index: usize) -> (addr: Option<&A>)
        requires
            self@.wf(),
            index < self.slots@.len(),
        ensures
            addr == match self@.addr(index as int) {
                Some(a) => Some(&a),
                None => None,
            },
    {
        assert(self@.slots[index as int].target == self.slots@[index as int].target);
        match &self.slots[index].target {
            None => None,
            Some(Target::Static) => Some(&self.upstreams[index % self.upstreams.len()]),
            Some(Target::Dynamic { addr, .. }) => Some(addr),
        }
    }

    fn is_dynamic(&self, index: usize) -> (dynamic: bool)
        requires
            index < self.slots@.len(),
        ensures
            dynamic == self@.dynamic(index as int),
    {
        matches!(self.slots[index].target, Some(Target::Dynamic { .. }))
    }

    fn schedule_backoff(&mut self, index: usize, attempt: u8, retry_at: Instant)
        requires
            index < old(self).slots@.len(),
            heap::heap_capacity(old(self).retries) == old(self).slots@.len(),
            !heap::heap_entries(old(self).retries).contains_key(index),
        ensures
            *final(self) == (Static {
                slots: final(self).slots,
                retries: final(self).retries,
                ..*old(self)
            }),
            heap::heap_capacity(final(self).retries) == heap::heap_capacity(old(self).retries),
            heap::heap_entries(final(self).retries) == heap::heap_entries(
                old(self).retries,
            ).insert(index, (retry_at, 0)),
            final(self).slots@ == old(self).slots@.update(
                index as int,
                StaticSlot {
                    state: SlotState::Backoff { attempt },
                    ..old(self).slots@[index as int]
                },
            ),
    {
        let _ = self.retries.insert(index, (retry_at, 0));
        self.slots[index].state = SlotState::Backoff { attempt };
    }

    fn schedule_ready(&mut self, index: usize)
        requires
            index < old(self).slots@.len(),
            old(self).ready.wf(),
            old(self).ready.room() == old(self).slots@.len(),
            !old(self).ready@.contains(index),
        ensures
            *final(self) == (Static {
                slots: final(self).slots,
                ready: final(self).ready,
                ..*old(self)
            }),
            final(self).ready.wf(),
            final(self).ready.room() == old(self).ready.room(),
            final(self).ready@ == old(self).ready@.push(index),
            final(self).slots@ == old(self).slots@.update(
                index as int,
                StaticSlot { state: SlotState::Ready, ..old(self).slots@[index as int] },
            ),
    {
        let _ = self.ready.push_back(index);
        self.slots[index].state = SlotState::Ready;
    }

    fn schedule_dead(&mut self, index: usize)
        requires
            index < old(self).slots@.len(),
            old(self).free.wf(),
            old(self).free.room() == old(self).slots@.len(),
            old(self).dead.wf(),
            old(self).dead.room() == old(self).slots@.len(),
            !old(self).free@.contains(index),
            !old(self).dead@.contains(index),
        ensures
            *final(self) == (Static {
                slots: final(self).slots,
                free: final(self).free,
                dead: final(self).dead,
                ..*old(self)
            }),
            final(self).free.wf(),
            final(self).free.room() == old(self).free.room(),
            final(self).free@ == if old(self)@.dynamic(index as int) {
                seq![index] + old(self).free@
            } else {
                old(self).free@
            },
            final(self).dead.wf(),
            final(self).dead.room() == old(self).dead.room(),
            final(self).dead@ == old(self).dead@.push(index),
            final(self).slots@ == old(self).slots@.update(
                index as int,
                StaticSlot { state: SlotState::Dead, ..old(self).slots@[index as int] },
            ),
    {
        if self.is_dynamic(index) {
            let _ = self.free.push_front(index);
        }
        let _ = self.dead.push_back(index);
        self.slots[index].state = SlotState::Dead;
    }

    /// Takes a slot in use off the list or the heap that it stands in.
    fn detach_active(&mut self, index: usize) -> (active: bool)
        requires
            old(self).valid(),
            index < old(self).slots@.len(),
        ensures
            active == !(old(self).slots@[index as int].state is Vacant || old(
                self,
            ).slots@[index as int].state is Dead || old(
                self,
            ).slots@[index as int].state is Retired),
            *final(self) == (Static {
                ready: final(self).ready,
                retries: final(self).retries,
                ..*old(self)
            }),
            final(self).ready.wf(),
            final(self).ready.room() == old(self).ready.room(),
            final(self).ready@ == slots::minus(old(self).ready@, index),
            heap::heap_capacity(final(self).retries) == heap::heap_capacity(old(self).retries),
            heap::heap_entries(final(self).retries) == heap::heap_entries(
                old(self).retries,
            ).remove(index),
    {
        proof {
            assert(self@.ready.contains(index) <==> self@.slots[index as int].health is Ready);
            if !self.ready@.contains(index) {
                slots::lemma_minus_absent(self.ready@, index);
            }
            if !heap::heap_entries(self.retries).contains_key(index) {
                assert(heap::heap_entries(self.retries).remove(index) =~= heap::heap_entries(
                    self.retries,
                ));
            }
        }
        match self.slots[index].state {
            SlotState::Ready => {
                let _ = self.ready.remove(index);
            },
            SlotState::Busy { .. } => {},
            SlotState::Backoff { .. } => {
                let _ = self.retries.remove(index);
            },
            SlotState::Vacant | SlotState::Dead | SlotState::Retired => {
                return false;
            },
        }
        true
    }

    fn refresh_pending(&mut self)
        requires
            old(self).stored(),
            old(self).slots@.len() <= u32::MAX,
        ensures
            *final(self) == (Static { needs_poll: final(self).needs_poll, ..*old(self) }),
            final(self)@ == old(self)@.refreshed(),
    {
        let empty = self.ready.is_empty();
        let least = self.retries.peek();
        proof {
            match least {
                Some((index, _)) => {
                    assert(self@.in_backoff(index as int));
                },
                None => {
                    assert forall|i: int| !#[trigger] self@.in_backoff(i) by {
                        if self@.in_backoff(i) {
                            assert(heap::heap_entries(self.retries).contains_key(i as usize));
                        }
                    }
                },
            }
        }
        self.needs_poll = !empty || least.is_some();
        assert(self@.slots =~= old(self)@.slots);
    }
}

/// The generator of jitter never gets stuck at zero.
pub proof fn lemma_xorshift_nonzero(x: u64)
    requires
        x != 0,
    ensures
        xorshift(x) != 0,
{
    assert(({
        let a = x ^ (x >> 12u64);
        let b = a ^ (a << 25u64);
        b ^ (b >> 27u64)
    }) != 0) by (bit_vector)
        requires
            x != 0,
    ;
}

proof fn lemma_resized_wf<A, C>(view: StaticView<A, C>, max_connections: usize)
    requires
        view.wf(),
        max_connections <= u32::MAX,
    ensures
        view.resized(max_connections).wf(),
{
    let first = view.slots.len() as int;
    if max_connections > first {
        let after = view.resized(max_connections);
        let added = Seq::new((max_connections - first) as nat, |k: int| (first + k) as usize);
        assert forall|i: usize| #[trigger] added.contains(i) <==> first <= i < max_connections by {
            if first <= i < max_connections {
                assert(added[i - first] == i);
            }
        }
        assert forall|i: usize| view.ready.contains(i) implies !added.contains(i) by {}
        assert forall|i: usize| view.free.contains(i) implies !added.contains(i) by {}
        seqs::lemma_concat(view.ready, added);
        seqs::lemma_concat(view.free, added);
        assert forall|i: int| 0 <= i < first implies #[trigger] after.slots[i] == view.slots[i] by {}
    }
}

proof fn lemma_revived_wf<A, C>(view: StaticView<A, C>, order: Seq<usize>)
    requires
        view.wf(),
        view.retry_order(order),
    ensures
        view.revived(order).wf(),
{
    let after = view.revived(order);
    assert forall|i: usize| view.ready.contains(i) implies !order.contains(i) by {
        assert(!view.in_backoff(i as int));
    }
    seqs::lemma_concat(view.ready, order);
    assert forall|i: usize| (view.ready + order).contains(i) implies !view.dead.contains(i) by {
        assert(order.contains(i) ==> view.in_backoff(i as int));
    }
    seqs::lemma_concat(view.ready + order, view.dead);
    slots::lemma_minus_all_contains(view.free, view.dead.to_set());
    slots::lemma_minus_all_distinct(view.free, view.dead.to_set());
    assert forall|i: usize|
        #![trigger after.ready.contains(i)]
        after.ready.contains(i) <==> i < after.slots.len() && after.slots[i as int].health is Ready by {
        assert(order.contains(i) <==> view.in_backoff(i as int));
        assert(view.ready.contains(i) <==> i < view.slots.len()
            && view.slots[i as int].health is Ready);
        assert(view.dead.contains(i) <==> i < view.slots.len()
            && view.slots[i as int].health is Dead);
    }
    assert forall|i: usize|
        #![trigger after.free.contains(i)]
        after.free.contains(i) <==> i < after.slots.len() && (after.slots[i as int].health is Vacant
            || (after.slots[i as int].health is Dead && after.dynamic(i as int))) by {
        assert(view.free.contains(i) <==> i < view.slots.len() && (
        view.slots[i as int].health is Vacant || (view.slots[i as int].health is Dead
            && view.dynamic(i as int))));
        assert(view.dead.contains(i) <==> i < view.slots.len()
            && view.slots[i as int].health is Dead);
    }
    assert forall|i: usize|
        #![trigger after.slots[i as int]]
        i < after.slots.len() implies (after.ready.contains(i) <==> after.slots[i as int].health is Ready)
        && !(after.slots[i as int].health is Dead) && (after.free.contains(i)
        <==> after.slots[i as int].health is Vacant) by {
        assert(after.ready.contains(i) <==> i < after.slots.len()
            && after.slots[i as int].health is Ready);
        assert(view.slots[i as int].health is Vacant ==> view.free.contains(i));
    }
}

impl<A, C: Copy> Dialer<A, C> for Static<A, C> {
    closed spec fn wf(&self) -> bool {
        self.valid()
    }

    open spec fn resizes(&self, max_connections: usize, after: Self) -> bool {
        after@ == self@.resized(max_connections)
    }

    open spec fn dials(&self, addr: A, config: C, key: Option<DialKey>, after: Self) -> bool {
        &&& after@ == self@.dial(addr, config)
        &&& key == if self@.free.len() > 0 {
            Some(self@.key(self@.free[0] as int))
        } else {
            None
        }
    }

    open spec fn polls(&self, now: Instant, action: Action, after: Self) -> bool {
        self@.polls(now, action, after@)
    }

    open spec fn pending(&self) -> bool {
        self@.needs_poll
    }

    open spec fn addr(&self, key: DialKey) -> Option<A> {
        if self@.current(key) {
            self@.addr(key.index as int)
        } else {
            None
        }
    }

    open spec fn config(&self, key: DialKey) -> Option<C> {
        if self@.current(key) {
            match self@.slots[key.index as int].target {
                Some(Target::Dynamic { config, .. }) => Some(config),
                _ => None,
            }
        } else {
            None
        }
    }

    open spec fn settles(&self, key: DialKey, success: bool, now: Instant, after: Self) -> bool {
        after@ == self@.connect_outcome(key, success, now)
    }

    open spec fn defers(&self, key: DialKey, now: Instant, after: Self) -> bool {
        after@ == self@.connect_deferred(key, now)
    }

    open spec fn drops(&self, key: DialKey, now: Instant, after: Self) -> bool {
        after@ == self@.disconnect(key, now)
    }

    open spec fn kills(&self, key: DialKey, after: Self) -> bool {
        after@ == self@.kill(key)
    }

    /// Where a connection lives makes no difference here.
    open spec fn binds(&self, key: DialKey, local: u32, after: Self) -> bool {
        after == *self
    }

    open spec fn revives(&self, after: Self) -> bool {
        exists|order: Seq<usize>| #[trigger]
            self@.retry_order(order) && after@ == self@.revived(order)
    }

    fn resize(&mut self, max_connections: usize) {
        let want = max_connections;
        let first = self.slots.len();
        let ghost view = self@;
        let ghost goal = view.resized(max_connections);
        if first >= want {
            return ;
        }
        let empty = self.upstreams.len() == 0;
        self.ready.grow_to(want);
        self.free.grow_to(want);
        self.dead.grow_to(want);
        self.retries.grow_to(want);
        let mut index = first;
        while index < want
            invariant
                first <= index <= want <= u32::MAX,
                first == view.slots.len(),
                goal == view.resized(want),
                empty == (view.upstreams.len() == 0),
                view.wf(),
                self@.upstreams == view.upstreams,
                self@.base_window == view.base_window,
                self@.rng == view.rng,
                self@.dead == view.dead,
                self@.needs_poll == view.needs_poll,
                self.slots@.len() == index,
                self@.slots == goal.slots.take(index as int),
                self@.ready == if empty {
                    view.ready
                } else {
                    goal.ready.take(view.ready.len() + index - first)
                },
                self@.free == if empty {
                    goal.free.take(view.free.len() + index - first)
                } else {
                    view.free
                },
                self.ready.wf() && self.ready.room() == want,
                self.free.wf() && self.free.room() == want,
                self.dead.wf() && self.dead.room() == want,
                heap::heap_capacity(self.retries) == want,
                forall|i: usize|
                    #![trigger heap::heap_entries(self.retries).contains_key(i)]
                    #![trigger self.slots@[i as int]]
                    heap::heap_entries(self.retries).contains_key(i) <==> i < self.slots@.len()
                        && self.slots@[i as int].state is Backoff,
                forall|i: usize| #[trigger] self@.ready.contains(i) ==> i < index,
                forall|i: usize| #[trigger] self@.free.contains(i) ==> i < index,
            decreases want - index,
        {
            let ghost before = self@;
            proof {
                assert(!before.ready.contains(index));
                assert(!before.free.contains(index));
                seqs::lemma_push(before.ready, index);
                seqs::lemma_push(before.free, index);
            }
            if empty {
                self.slots.push(
                    StaticSlot { target: None, state: SlotState::Vacant, generation: 1 },
                );
                let _ = self.free.push_back(index);
            } else {
                self.slots.push(
                    StaticSlot {
                        target: Some(Target::Static),
                        state: SlotState::Ready,
                        generation: 1,
                    },
                );
                let _ = self.ready.push_back(index);
            }
            index += 1;
            proof {
                assert(self@.slots =~= goal.slots.take(index as int));
                if empty {
                    assert(self@.free =~= goal.free.take(view.free.len() + index - first));
                } else {
                    assert(self@.ready =~= goal.ready.take(view.ready.len() + index - first));
                }
            }
        }
        self.needs_poll = self.needs_poll || !empty;
        proof {
            assert(goal.slots.take(want as int) =~= goal.slots);
            assert(goal.ready.take(goal.ready.len() as int) =~= goal.ready);
            assert(goal.free.take(goal.free.len() as int) =~= goal.free);
            assert(self@.slots =~= goal.slots);
            lemma_resized_wf(view, max_connections);
        }
    }

    fn dial(&mut self, addr: A, config: C) -> (key: Option<DialKey>) {
        let ghost goal = self@.dial(addr, config);
        let index = match self.free.pop_front() {
            Some(index) => index,
            None => {
                assert(self@.slots =~= old(self)@.slots);
                return None;
            },
        };
        proof {
            let view = old(self)@;
            assert(view.free[0] == index);
            assert(view.free.contains(index));
            assert(!view.ready.contains(index));
            seqs::lemma_tail(view.free);
            seqs::lemma_push(view.ready, index);
            slots::lemma_minus_contains(view.dead, index);
            slots::lemma_minus_all_distinct(view.dead, set![index]);
            if !view.dead.contains(index) {
                slots::lemma_minus_absent(view.dead, index);
            }
        }
        if let SlotState::Dead = self.slots[index].state {
            let _ = self.dead.remove(index);
        }
        self.slots[index].target = Some(Target::Dynamic { addr, config });
        self.slots[index].state = SlotState::Ready;
        let key = DialKey::new(index as u32, self.slots[index].generation);
        let _ = self.ready.push_back(index);
        self.needs_poll = true;
        assert(self@.slots =~= goal.slots);
        Some(key)
    }

    fn poll_connect(&mut self, now: Instant) -> (action: Action) {
        let ghost view = self@;
        if let Some(index) = self.ready.pop_front() {
            proof {
                assert(view.ready[0] == index);
                assert(view.ready.contains(index));
                seqs::lemma_tail(view.ready);
            }
            self.slots[index].state = SlotState::Busy { attempt: 0 };
            let key = DialKey::new(index as u32, self.slots[index].generation);
            assert(self@.slots =~= view.with_health(
                index as int,
                Health::Busy { attempt: 0 },
            ).slots);
            self.refresh_pending();
            return Action::Connect { key };
        }
        assert(self@.slots =~= view.slots);
        let least = self.retries.peek();
        let retry_at = match least {
            Some((_, key)) => key.0,
            None => {
                self.needs_poll = false;
                proof {
                    assert forall|i: int| !#[trigger] view.in_backoff(i) by {
                        if view.in_backoff(i) {
                            assert(heap::heap_entries(self.retries).contains_key(i as usize));
                        }
                    }
                    assert(self@.slots =~= view.slots);
                }
                return Action::Idle;
            },
        };
        if retry_at > now {
            self.needs_poll = false;
            proof {
                let (first, key) = least->0;
                self.lemma_least(first, key);
                assert(self@.slots =~= view.slots);
                assert(view.first_retry(first as int));
            }
            return Action::Backoff { min_retry_at: retry_at };
        }
        let ghost before = *self;
        if let Some((index, key)) = self.retries.pop() {
            proof {
                before.lemma_least(index, key);
                assert(before@.slots =~= view.slots);
                assert(view.first_retry(index as int));
            }
            let attempt: u8 = match self.slots[index].state {
                SlotState::Backoff { attempt } => attempt,
                _ => 0,
            };
            self.slots[index].state = SlotState::Busy { attempt };
            let key = DialKey::new(index as u32, self.slots[index].generation);
            assert(self@.slots =~= view.with_health(index as int, Health::Busy { attempt }).slots);
            self.refresh_pending();
            return Action::Connect { key };
        }
        Action::Idle
    }

    fn has_pending(&self) -> (pending: bool) {
        self.needs_poll
    }

    fn sock_addr(&self, key: DialKey) -> (addr: Option<&A>) {
        if !self.matches(key) {
            return None;
        }
        self.addr_for(key.index as usize)
    }

    fn stream_config(&self, key: DialKey) -> (config: Option<C>) {
        if !self.matches(key) {
            return None;
        }
        match &self.slots[key.index as usize].target {
            Some(Target::Dynamic { config, .. }) => Some(*config),
            Some(Target::Static) | None => None,
        }
    }

    fn connect_outcome(&mut self, key: DialKey, success: bool, now: Instant) {
        if !self.matches(key) {
            return ;
        }
        let index = key.index as usize;
        let ghost goal = self@.connect_outcome(key, success, now);
        let attempt: u8 = match self.slots[index].state {
            SlotState::Busy { attempt } => attempt,
            _ => {
                return ;
            },
        };
        if success {
            self.slots[index].state = SlotState::Busy { attempt: 0 };
            assert(self@.slots =~= goal.slots);
            return ;
        }
        let attempt: u8 = if attempt < MAX_BACKOFF_SHIFT {
            attempt + 1
        } else {
            MAX_BACKOFF_SHIFT
        };
        let advanced = self.advance_generation(index);
        if !advanced {
            assert(self@.slots =~= old(self)@.with_health(index as int, Health::Retired).slots);
            self.refresh_pending();
            return ;
        }
        let retry_at = self.retry_at(now, attempt);
        self.schedule_backoff(index, attempt, retry_at);
        self.needs_poll = true;
        proof {
            lemma_xorshift_nonzero(old(self)@.rng);
            assert(self@.slots =~= goal.slots);
        }
    }

    fn connect_deferred(&mut self, key: DialKey, now: Instant) {
        if !self.matches(key) {
            return ;
        }
        let index = key.index as usize;
        let ghost goal = self@.connect_deferred(key, now);
        if let SlotState::Busy { attempt } = self.slots[index].state {
            proof {
                assert(!self@.ready.contains(index));
                seqs::lemma_push(self@.ready, index);
            }
            if attempt == 0 {
                self.schedule_ready(index);
            } else {
                self.schedule_backoff(index, attempt, now);
            }
            self.needs_poll = true;
            assert(self@.slots =~= goal.slots);
            assert(self@.ready =~= goal.ready);
        }
    }

    fn disconnect(&mut self, key: DialKey, now: Instant) {
        if !self.matches(key) {
            return ;
        }
        let index = key.index as usize;
        let ghost goal = self@.disconnect(key, now);
        proof {
            slots::lemma_minus_contains(self@.ready, index);
            slots::lemma_minus_all_distinct(self@.ready, set![index]);
            assert(!self@.free.contains(index));
            assert(!self@.dead.contains(index));
            seqs::lemma_cons(index, self@.free);
            seqs::lemma_push(self@.dead, index);
            lemma_xorshift_nonzero(self@.rng);
        }
        if !self.detach_active(index) {
            return ;
        }
        let advanced = self.advance_generation(index);
        if !advanced {
            assert(self@.slots =~= old(self)@.with_health(index as int, Health::Retired).slots);
            self.refresh_pending();
            return ;
        }
        if self.is_dynamic(index) {
            self.schedule_dead(index);
            assert(self@.slots =~= old(self)@.detached(index as int).buried(index as int).slots);
            self.refresh_pending();
            return ;
        }
        let retry_at = self.retry_at(now, 1);
        self.schedule_backoff(index, 1, retry_at);
        self.needs_poll = true;
        assert(self@.slots =~= goal.slots);
    }

    fn kill(&mut self, key: DialKey) {
        if !self.matches(key) {
            return ;
        }
        let index = key.index as usize;
        proof {
            slots::lemma_minus_contains(self@.ready, index);
            slots::lemma_minus_all_distinct(self@.ready, set![index]);
            assert(!self@.free.contains(index));
            assert(!self@.dead.contains(index));
            seqs::lemma_cons(index, self@.free);
            seqs::lemma_push(self@.dead, index);
        }
        if !self.detach_active(index) {
            return ;
        }
        let advanced = self.advance_generation(index);
        if !advanced {
            assert(self@.slots =~= old(self)@.with_health(index as int, Health::Retired).slots);
            self.refresh_pending();
            return ;
        }
        self.schedule_dead(index);
        assert(self@.slots =~= old(self)@.detached(index as int).buried(index as int).slots);
        self.refresh_pending();
    }

    fn revive(&mut self) {
        let ghost view = self@;
        let ghost mut order: Seq<usize> = Seq::empty();
        let mut revived = false;
        assert(view.ready + order =~= view.ready);
        loop
            invariant
                self.stored(),
                view.wf(),
                self@ == (StaticView { slots: self@.slots, ready: view.ready + order, ..view }),
                self@.slots.len() == view.slots.len(),
                revived == (order.len() > 0),
                order.no_duplicates(),
                forall|i: usize|
                    #![trigger order.contains(i)]
                    order.contains(i) ==> view.in_backoff(i as int),
                forall|i: usize|
                    #![trigger self@.slots[i as int]]
                    i < view.slots.len() ==> self@.slots[i as int] == if order.contains(i) {
                        SlotView { health: Health::Ready, ..view.slots[i as int] }
                    } else {
                        view.slots[i as int]
                    },
                forall|a: int, b: int|
                    0 <= a <= b < order.len() ==> view.slots[order[a] as int].health->retry_at
                        <= view.slots[order[b] as int].health->retry_at,
                forall|a: int, j: int|
                    0 <= a < order.len() && #[trigger] self@.in_backoff(j)
                        ==> view.slots[#[trigger] order[a] as int].health->retry_at
                        <= view.slots[j].health->retry_at,
            ensures
                forall|i: int| !#[trigger] self@.in_backoff(i),
            decreases heap::heap_entries(self.retries).dom().len(),
        {
            let ghost before = *self;
            proof {
                heap::lemma_finite(
                    heap::heap_entries(self.retries),
                    self.slots@.len() as int,
                );
            }
            match self.retries.pop() {
                None => {
                    proof {
                        assert forall|i: int| !#[trigger] before@.in_backoff(i) by {
                            if before@.in_backoff(i) {
                                assert(heap::heap_entries(before.retries).contains_key(
                                    i as usize,
                                ));
                            }
                        }
                        assert(self@.slots =~= before@.slots);
                    }
                    break ;
                },
                Some((index, key)) => {
                    proof {
                        before.lemma_least(index, key);
                        assert(before@.slots[index as int].health is Backoff);
                        assert(!order.contains(index));
                        assert(!view.ready.contains(index));
                        seqs::lemma_concat(view.ready, order);
                        seqs::lemma_push(order, index);
                    }
                    self.schedule_ready(index);
                    revived = true;
                    proof {
                        let grown = order.push(index);
                        assert(view.ready + order.push(index) =~= (view.ready + order).push(index));
                        assert forall|i: usize|
                            #![trigger self@.slots[i as int]]
                            i < view.slots.len() implies self@.slots[i as int] == (
                        if grown.contains(i) {
                            SlotView { health: Health::Ready, ..view.slots[i as int] }
                        } else {
                            view.slots[i as int]
                        }) by {
                            assert(before@.slots[i as int] == if order.contains(i) {
                                SlotView { health: Health::Ready, ..view.slots[i as int] }
                            } else {
                                view.slots[i as int]
                            });
                        }
                        assert forall|j: int| #[trigger] self@.in_backoff(j) implies before@.in_backoff(
                            j,
                        ) by {
                            assert(self@.slots[(j as usize) as int] == self@.slots[j]);
                        }
                        assert forall|a: int| 0 <= a < order.len() implies view.slots[(
                        #[trigger] grown[a]) as int].health->retry_at
                            <= view.slots[index as int].health->retry_at by {
                            assert(grown[a] == order[a]);
                            assert(before@.in_backoff(index as int));
                        }
                        assert forall|a: int, j: int|
                            0 <= a < grown.len() && #[trigger] self@.in_backoff(
                                j,
                            ) implies view.slots[#[trigger] grown[a] as int].health->retry_at
                            <= view.slots[j].health->retry_at by {
                            assert(before@.in_backoff(j));
                            assert(a < order.len() ==> grown[a] == order[a]);
                            assert(before@.slots[(j as usize) as int] == before@.slots[j]);
                            assert(self@.slots[(j as usize) as int] == self@.slots[j]);
                        }
                        order = grown;
                    }
                },
            }
        }
        proof {
            assert forall|i: usize| order.contains(i) <==> #[trigger] view.in_backoff(i as int) by {
                if view.in_backoff(i as int) && !order.contains(i) {
                    assert(self@.slots[i as int] == view.slots[i as int]);
                    assert(self@.in_backoff(i as int));
                }
            }
            assert(view.retry_order(order));
        }
        let ghost mid = self@;
        let ghost mut done: int = 0;
        proof {
            slots::lemma_minus_all_none(view.free);
            assert(view.dead.take(0).to_set() =~= Set::empty());
            assert(view.dead.skip(0) =~= view.dead);
            assert(view.ready + order + view.dead.take(0) =~= view.ready + order);
        }
        loop
            invariant
                self.stored(),
                view.wf(),
                view.retry_order(order),
                0 <= done <= view.dead.len(),
                mid.slots.len() == view.slots.len(),
                self@ == (StaticView {
                    slots: self@.slots,
                    ready: view.ready + order + view.dead.take(done),
                    free: slots::minus_all(view.free, view.dead.take(done).to_set()),
                    dead: view.dead.skip(done),
                    ..view
                }),
                self@.slots.len() == view.slots.len(),
                revived == (order.len() > 0 || done > 0),
                forall|i: usize|
                    #![trigger mid.slots[i as int]]
                    i < view.slots.len() ==> mid.slots[i as int] == if view.in_backoff(i as int) {
                        SlotView { health: Health::Ready, ..view.slots[i as int] }
                    } else {
                        view.slots[i as int]
                    },
                forall|i: usize|
                    #![trigger self@.slots[i as int]]
                    i < view.slots.len() ==> self@.slots[i as int] == if view.dead.take(
                        done,
                    ).contains(i) {
                        SlotView { health: Health::Ready, ..view.slots[i as int] }
                    } else {
                        mid.slots[i as int]
                    },
            ensures
                done == view.dead.len(),
            decreases view.dead.len() - done,
        {
            let ghost before = self@;
            match self.dead.pop_front() {
                None => {
                    assert(self@.slots =~= before.slots);
                    break ;
                },
                Some(index) => {
                    proof {
                        assert(index == view.dead[done]);
                        assert(view.dead.contains(index));
                        assert(!view.in_backoff(index as int));
                        assert(!view.ready.contains(index));
                        assert(!order.contains(index));
                        let head = view.dead.take(done);
                        assert(!head.contains(index));
                        assert(view.dead.take(done + 1) =~= head.push(index));
                        seqs::lemma_push(head, index);
                        seqs::lemma_concat(view.ready, order);
                        seqs::lemma_concat(view.ready + order, head);
                        slots::lemma_minus_all_step(view.free, head.to_set(), index);
                        assert(head.push(index).to_set() =~= head.to_set().insert(index));
                        assert(before.slots[index as int] == mid.slots[index as int]);
                        assert(mid.slots[index as int] == view.slots[index as int]);
                        if !before.free.contains(index) {
                            slots::lemma_minus_absent(before.free, index);
                        } else {
                            slots::lemma_minus_all_contains(view.free, head.to_set());
                            assert(view.free.contains(index));
                        }
                    }
                    if self.is_dynamic(index) {
                        let _ = self.free.remove(index);
                    } else {
                        proof {
                            slots::lemma_minus_all_contains(
                                view.free,
                                view.dead.take(done).to_set(),
                            );
                        }
                    }
                    self.schedule_ready(index);
                    revived = true;
                    proof {
                        assert(view.dead.skip(done).skip(1) =~= view.dead.skip(done + 1));
                        assert(view.ready + order + view.dead.take(done + 1) =~= (view.ready
                            + order + view.dead.take(done)).push(index));
                        assert forall|i: usize|
                            #![trigger self@.slots[i as int]]
                            i < view.slots.len() implies self@.slots[i as int] == (
                        if view.dead.take(done + 1).contains(i) {
                            SlotView { health: Health::Ready, ..view.slots[i as int] }
                        } else {
                            mid.slots[i as int]
                        }) by {
                            assert(before.slots[i as int] == if view.dead.take(done).contains(i) {
                                SlotView { health: Health::Ready, ..view.slots[i as int] }
                            } else {
                                mid.slots[i as int]
                            });
                        }
                        done = done + 1;
                    }
                },
            }
        }
        self.needs_poll = self.needs_poll || revived;
        proof {
            let goal = view.revived(order);
            assert(view.dead.take(done) =~= view.dead);
            assert(view.dead.skip(done) =~= Seq::empty());
            assert forall|i: int| 0 <= i < goal.slots.len() implies #[trigger] self@.slots[i]
                == goal.slots[i] by {
                let u = i as usize;
                assert(self@.slots[u as int] == if view.dead.take(done).contains(u) {
                    SlotView { health: Health::Ready, ..view.slots[u as int] }
                } else {
                    mid.slots[u as int]
                });
                assert(mid.slots[u as int] == if view.in_backoff(u as int) {
                    SlotView { health: Health::Ready, ..view.slots[u as int] }
                } else {
                    view.slots[u as int]
                });
                assert(view.dead.contains(u) <==> view.slots[u as int].health is Dead);
            }
            assert(self@.slots =~= goal.slots);
            lemma_revived_wf(view, order);
        }
    }

    fn bind(&mut self, key: DialKey, local: u32) {
    }
}
/// Where a connection lives makes no difference to what is dialed next.
pub proof fn law_place_of_a_connection_is_not_kept<A, C: Copy>(
    before: Static<A, C>,
    key: DialKey,
    local: u32,
    after: Static<A, C>,
)
    requires
        before.binds(key, local, after),
    ensures
        after == before,
{
}


} // verus!
