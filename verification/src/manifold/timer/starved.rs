//! Tasks that wait for a timer slot.
use std::collections::VecDeque;

use vstd::prelude::*;

use crate::park::WakeRef;
use crate::time::Instant;

verus! {

/// A task that may wait for a slot, told apart from others by its address.
#[derive(Clone, Copy, PartialEq, Eq, Structural, Debug)]
pub struct StarvedWaiter {
    pub address: u64,
}

/// A waiter in the queue: when it gives up and whom to wake for it.
#[derive(Clone, Copy, PartialEq, Eq, Structural, Debug)]
pub struct Starved {
    pub deadline: Instant,
    pub waiter: StarvedWaiter,
    pub wake: WakeRef,
}

/// `a` is served before `b`: by deadline, then by address.
pub open spec fn before(a: Starved, b: Starved) -> bool {
    a.deadline < b.deadline || (a.deadline == b.deadline && a.waiter.address < b.waiter.address)
}

/// In the order of service, each waiter once.
pub open spec fn in_service_order(queue: Seq<Starved>) -> bool {
    &&& forall|i: int, j: int| 0 <= i < j < queue.len() ==> before(queue[i], queue[j])
    &&& forall|i: int, j: int| 0 <= i < j < queue.len() ==> queue[i].waiter != queue[j].waiter
}

pub open spec fn waits(queue: Seq<Starved>, waiter: StarvedWaiter) -> bool {
    exists|i: int| 0 <= i < queue.len() && (#[trigger] queue[i]).waiter == waiter
}

/// The first `n` waiters are those that give up by `now`.
pub open spec fn overdue(queue: Seq<Starved>, now: Instant, n: int) -> bool {
    &&& 0 <= n <= queue.len()
    &&& forall|i: int| 0 <= i < n ==> (#[trigger] queue[i]).deadline <= now
    &&& forall|i: int| n <= i < queue.len() ==> (#[trigger] queue[i]).deadline > now
}

/// `joined` is the queue with `entry` in it; if its waiter was queued already, it
/// keeps its deadline and only its waker changes.
pub open spec fn registered(queue: Seq<Starved>, entry: Starved, joined: Seq<Starved>) -> bool {
    &&& in_service_order(joined)
    &&& if waits(queue, entry.waiter) {
        exists|i: int|
            0 <= i < queue.len() && (#[trigger] queue[i]).waiter == entry.waiter && joined
                == queue.update(i, Starved { wake: entry.wake, ..queue[i] })
    } else {
        exists|i: int| 0 <= i <= queue.len() && joined == #[trigger] queue.insert(i, entry)
    }
}

/// `left` is the queue without the entry of `waiter`.
pub open spec fn unregistered(
    queue: Seq<Starved>,
    waiter: StarvedWaiter,
    left: Seq<Starved>,
) -> bool {
    if waits(queue, waiter) {
        exists|i: int|
            0 <= i < queue.len() && (#[trigger] queue[i]).waiter == waiter && left == queue.remove(i)
    } else {
        left == queue
    }
}

/// Whom to wake for the waiters of a queue.
pub open spec fn wakes(queue: Seq<Starved>) -> Seq<WakeRef> {
    queue.map_values(|s: Starved| s.wake)
}

/// A waiter that registers waits from then on, under its own deadline or, if it
/// waited already, under the one that it had, and with the waker that it gave; all
/// others wait as they did. The order of service is that of the deadlines.
pub proof fn law_registered_waits(
    queue: Seq<Starved>,
    entry: Starved,
    joined: Seq<Starved>,
    other: Starved,
)
    requires
        in_service_order(queue),
        registered(queue, entry, joined),
    ensures
        waits(joined, entry.waiter),
        other.waiter != entry.waiter ==> (joined.contains(other) <==> queue.contains(other)),
        other.waiter == entry.waiter && joined.contains(other) ==> other.wake == entry.wake,
        !waits(queue, entry.waiter) ==> joined.contains(entry) && joined.len() == queue.len() + 1,
        waits(queue, entry.waiter) ==> joined.len() == queue.len(),
        waits(queue, entry.waiter) && queue.contains(other) && other.waiter == entry.waiter
            ==> joined.contains(Starved { wake: entry.wake, ..other }),
        forall|i: int, j: int|
            0 <= i < j < joined.len() ==> (#[trigger] joined[i]).deadline <= (
            #[trigger] joined[j]).deadline,
{
    assert forall|i: int, j: int| 0 <= i < j < joined.len() implies (#[trigger] joined[i]).deadline
        <= (#[trigger] joined[j]).deadline by {
        assert(before(joined[i], joined[j]));
    }
    if waits(queue, entry.waiter) {
        let i = choose|i: int|
            0 <= i < queue.len() && (#[trigger] queue[i]).waiter == entry.waiter && joined
                == queue.update(i, Starved { wake: entry.wake, ..queue[i] });
        assert(joined[i].waiter == entry.waiter);
        if other.waiter != entry.waiter {
            if queue.contains(other) {
                let k = choose|k: int| 0 <= k < queue.len() && queue[k] == other;
                assert(joined[k] == other);
            }
            if joined.contains(other) {
                let k = choose|k: int| 0 <= k < joined.len() && joined[k] == other;
                assert(queue[k] == other);
            }
        } else {
            if joined.contains(other) {
                let k = choose|k: int| 0 <= k < joined.len() && joined[k] == other;
                assert(k < i ==> queue[k].waiter != queue[i].waiter);
                assert(k > i ==> queue[i].waiter != queue[k].waiter);
                assert(k == i);
            }
            if queue.contains(other) {
                let k = choose|k: int| 0 <= k < queue.len() && queue[k] == other;
                assert(k < i ==> queue[k].waiter != queue[i].waiter);
                assert(k > i ==> queue[i].waiter != queue[k].waiter);
                assert(joined[i] == Starved { wake: entry.wake, ..other });
            }
        }
    } else {
        let i = choose|i: int| 0 <= i <= queue.len() && joined == #[trigger] queue.insert(i, entry);
        assert(joined[i] == entry);
        if queue.contains(other) {
            let k = choose|k: int| 0 <= k < queue.len() && queue[k] == other;
            assert(joined[if k < i {
                k
            } else {
                k + 1
            }] == other);
        }
        if joined.contains(other) {
            let k = choose|k: int| 0 <= k < joined.len() && joined[k] == other;
            if k < i {
                assert(queue[k] == other);
            } else if k > i {
                assert(queue[k - 1] == other);
            }
        }
    }
}

/// A waiter that unregisters waits no longer, and all others wait as they did.
pub proof fn law_unregistered_waits_no_longer(
    queue: Seq<Starved>,
    waiter: StarvedWaiter,
    left: Seq<Starved>,
    other: Starved,
)
    requires
        in_service_order(queue),
        unregistered(queue, waiter, left),
    ensures
        !waits(left, waiter),
        other.waiter != waiter ==> (left.contains(other) <==> queue.contains(other)),
{
    if waits(queue, waiter) {
        let i = choose|i: int|
            0 <= i < queue.len() && (#[trigger] queue[i]).waiter == waiter && left
                == queue.remove(i);
        assert forall|k: int| 0 <= k < left.len() implies (#[trigger] left[k]).waiter != waiter by {
            if k < i {
                assert(left[k] == queue[k]);
                assert(queue[k].waiter != queue[i].waiter);
            } else {
                assert(left[k] == queue[k + 1]);
                assert(queue[i].waiter != queue[k + 1].waiter);
            }
        }
        if other.waiter != waiter {
            if queue.contains(other) {
                let k = choose|k: int| 0 <= k < queue.len() && queue[k] == other;
                assert(left[if k < i {
                    k
                } else {
                    k - 1
                }] == other);
            }
            if left.contains(other) {
                let k = choose|k: int| 0 <= k < left.len() && left[k] == other;
                assert(queue[if k < i {
                    k
                } else {
                    k + 1
                }] == other);
            }
        }
    }
}

/// Whoever gives up is woken, each in turn, and the first who does not has a deadline
/// that lies ahead.
pub proof fn law_overdue_are_the_first(queue: Seq<Starved>, now: Instant, n: int, i: int)
    requires
        overdue(queue, now, n),
        0 <= i < queue.len(),
    ensures
        i < n <==> queue[i].deadline <= now,
        wakes(queue.take(n)).len() == n,
        i < n ==> wakes(queue.take(n))[i] == queue[i].wake,
{
}

/// Waiters in the order in which they are served.
pub struct StarvedQueue {
    queue: VecDeque<Starved>,
}

impl View for StarvedQueue {
    type V = Seq<Starved>;

    closed spec fn view(&self) -> Seq<Starved> {
        self.queue@
    }
}

impl StarvedQueue {
    pub open spec fn wf(self) -> bool {
        in_service_order(self@)
    }

    pub fn new() -> (queue: Self)
        ensures
            queue.wf(),
            queue@ == Seq::<Starved>::empty(),
    {
        StarvedQueue { queue: VecDeque::new() }
    }

    /// Queues `waiter`; one that is queued already keeps its deadline and only
    /// has `wake` woken from now on.
    pub fn register(&mut self, waiter: StarvedWaiter, deadline: Instant, wake: WakeRef)
        requires
            old(self).wf(),
        ensures
            final(self).wf(),
            registered(old(self)@, Starved { deadline, waiter, wake }, final(self)@),
    {
        let len = self.queue.len();
        let mut i: usize = 0;
        while i < len
            invariant
                *self == *old(self),
                self.wf(),
                i <= len == self.queue@.len(),
                forall|k: int| 0 <= k < i ==> (#[trigger] self.queue@[k]).waiter != waiter,
            decreases len - i,
        {
            if self.queue[i].waiter == waiter {
                let renewed = Starved { wake, ..self.queue[i] };
                let _ = self.queue.remove(i);
                self.queue.insert(i, renewed);
                proof {
                    let prior = old(self)@;
                    let queue = self@;
                    assert(queue =~= prior.update(i as int, renewed));
                    assert(prior[i as int].waiter == waiter);
                    assert forall|a: int, b: int| 0 <= a < b < queue.len() implies before(
                        queue[a],
                        queue[b],
                    ) && queue[a].waiter != queue[b].waiter by {
                        assert(before(prior[a], prior[b]) && prior[a].waiter != prior[b].waiter);
                    }
                }
                return ;
            }
            i += 1;
        }
        let entry = Starved { deadline, waiter, wake };
        let mut at: usize = 0;
        while at < len && (self.queue[at].deadline < deadline || (self.queue[at].deadline
            == deadline && self.queue[at].waiter.address < waiter.address))
            invariant
                *self == *old(self),
                self.wf(),
                at <= len == self.queue@.len(),
                entry == (Starved { deadline, waiter, wake }),
                forall|k: int| 0 <= k < at ==> before(#[trigger] self.queue@[k], entry),
            decreases len - at,
        {
            at += 1;
        }
        assert(at < len ==> old(self)@[at as int].waiter != waiter);
        self.queue.insert(at, entry);
        proof {
            let queue = self@;
            assert(queue == old(self)@.insert(at as int, entry));
            let prior = old(self)@;
            let at = at as int;
            assert forall|i: int, j: int| 0 <= i < j < queue.len() implies before(
                queue[i],
                queue[j],
            ) && queue[i].waiter != queue[j].waiter by {
                if i < at {
                    assert(queue[i] == prior[i]);
                    if j > at {
                        assert(queue[j] == prior[j - 1]);
                    } else if j < at {
                        assert(queue[j] == prior[j]);
                    }
                } else {
                    assert(queue[j] == prior[j - 1]);
                    if i > at {
                        assert(queue[i] == prior[i - 1]);
                    } else {
                        assert(before(entry, prior[at]));
                        assert(at < j - 1 ==> before(prior[at], prior[j - 1]));
                    }
                }
            }
        }
    }

    /// Takes `waiter` out of the queue, if it is there.
    pub fn unregister(&mut self, waiter: StarvedWaiter)
        requires
            old(self).wf(),
        ensures
            final(self).wf(),
            unregistered(old(self)@, waiter, final(self)@),
    {
        let mut i: usize = 0;
        while i < self.queue.len()
            invariant
                *self == *old(self),
                self.wf(),
                i <= self.queue@.len(),
                forall|k: int| 0 <= k < i ==> (#[trigger] self.queue@[k]).waiter != waiter,
            decreases self.queue@.len() - i,
        {
            if self.queue[i].waiter == waiter {
                assert(old(self)@[i as int].waiter == waiter);
                let _ = self.queue.remove(i);
                return ;
            }
            i += 1;
        }
    }

    /// Takes out the waiter that is served first and returns whom to wake.
    pub fn wake_min(&mut self) -> (woken: Option<WakeRef>)
        requires
            old(self).wf(),
        ensures
            final(self).wf(),
            match woken {
                None => old(self)@.len() == 0 && final(self)@ == old(self)@,
                Some(wake) => {
                    &&& old(self)@.len() > 0
                    &&& wake == old(self)@[0].wake
                    &&& final(self)@ == old(self)@.skip(1)
                },
            },
    {
        match self.queue.pop_front() {
            None => None,
            Some(first) => Some(first.wake),
        }
    }

    /// Takes out all waiters that give up by `now` and returns whom to wake, in
    /// the order of service.
    pub fn expire(&mut self, now: Instant) -> (woken: Vec<WakeRef>)
        requires
            old(self).wf(),
        ensures
            final(self).wf(),
            exists|n: int| #[trigger]
                overdue(old(self)@, now, n) && final(self)@ == old(self)@.skip(n) && woken@ == wakes(
                    old(self)@.take(n),
                ),
    {
        let mut woken: Vec<WakeRef> = Vec::new();
        let ghost mut n: int = 0;
        let ghost prior = self@;
        assert(self@ =~= prior.skip(0));
        assert(woken@ =~= wakes(prior.take(0)));
        while self.queue.len() > 0 && self.queue[0].deadline <= now
            invariant
                prior == old(self)@,
                in_service_order(prior),
                0 <= n <= prior.len(),
                self@ == prior.skip(n),
                woken@ == wakes(prior.take(n)),
                forall|i: int| 0 <= i < n ==> (#[trigger] prior[i]).deadline <= now,
            decreases self.queue@.len(),
        {
            assert(self@[0] == prior[n]);
            if let Some(first) = self.queue.pop_front() {
                woken.push(first.wake);
                proof {
                    n = n + 1;
                    assert(self@ =~= prior.skip(n));
                    assert(woken@ =~= wakes(prior.take(n)));
                }
            }
        }
        proof {
            assert forall|i: int| n <= i < prior.len() implies (#[trigger] prior[i]).deadline > now by {
                assert(self@[0] == prior[n]);
                assert(i > n ==> before(prior[n], prior[i]));
            }
            assert(overdue(prior, now, n));
        }
        woken
    }

    pub fn min_deadline(&self) -> (deadline: Option<Instant>)
        requires
            self.wf(),
        ensures
            match deadline {
                None => self@.len() == 0,
                Some(d) => {
                    &&& exists|i: int| 0 <= i < self@.len() && (#[trigger] self@[i]).deadline == d
                    &&& forall|i: int| 0 <= i < self@.len() ==> d <= (#[trigger] self@[i]).deadline
                },
            },
    {
        let len = self.queue.len();
        if len == 0 {
            None
        } else {
            proof {
                let first = self@[0];
                assert forall|i: int| 0 <= i < self@.len() implies first.deadline <= (
                #[trigger] self@[i]).deadline by {
                    assert(i > 0 ==> before(self@[0], self@[i]));
                }
            }
            Some(self.queue[0].deadline)
        }
    }
}

} // verus!
