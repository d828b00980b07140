//! Dialing: when the dialer is polled, and when silent connections are given up.
use vstd::prelude::*;

use crate::manifold::connector::source::{Action, DialKey, Dialer};
use crate::manifold::connector::state::{Establish, State};
use crate::manifold::pending;
use crate::manifold::pending::Pending;
use crate::time;
use crate::time::{deadline_after, earlier, Duration, Instant};
use crate::token::Token;
use super::{Core, CoreView, Task};

verus! {

/// What came of polling the dialer once.
#[derive(Clone, Copy, PartialEq, Eq, Structural, Debug)]
pub enum SourceStep {
    /// A socket is to be opened; `left` more polls may follow.
    Submit { key: DialKey, left: usize },
    /// The dialer had no address for what it asked for.
    Skipped,
    /// The connector is to be woken at the given instant.
    Armed(Instant),
    /// The connector will be woken anyway.
    Waiting,
    Done,
}

/// What came of opening a socket.
pub enum Submitted<D> {
    Opened { token: Token, conn: D },
    /// There is no room for it now.
    Full,
    Failed,
}

/// The deadline has passed.
pub open spec fn due(deadline: Option<Instant>, now: Instant) -> bool {
    deadline matches Some(at) && at <= now
}

/// The connection stands and something was received on it at `seen`.
pub open spec fn watched<D>(slot: Option<State<D>>, seen: Instant) -> bool {
    slot matches Some(state) && state.establish is Done && !state.retired && state.last_recv
        == Some(seen)
}

/// Nothing was received on the connection for `timeout`.
pub open spec fn silent<D>(slot: Option<State<D>>, now: Instant, timeout: Duration) -> bool {
    &&& slot matches Some(state)
    &&& state.last_recv matches Some(seen)
    &&& watched(slot, seen)
    &&& if seen <= now {
        now - seen >= timeout
    } else {
        timeout == 0
    }
}

impl<D> CoreView<D> {
    pub open spec fn poll_source(self, now: Instant, pending: bool) -> Self {
        if self.draining {
            self
        } else {
            let fired = due(self.backoff, now);
            let after = CoreView {
                backoff: if fired {
                    None
                } else {
                    self.backoff
                },
                ..self
            };
            if pending || fired {
                after.schedule(Task::Source { left: self.slots.len() as usize })
            } else {
                after
            }
        }
    }

    /// A new connection in the slot of its token.
    pub open spec fn opened(self, token: Token, conn: D, key: DialKey) -> Self {
        self.with(
            token.slot,
            State {
                conn,
                token,
                lane: token.slot as usize,
                dial: key,
                pending: Pending {
                    egress: false,
                    shutdown: false,
                    close: false,
                    how: 0,
                },
                establish: Establish::Idle,
                retired: false,
                last_recv: None,
                close_permanent: false,
            },
        )
    }

    /// All silent connections from slot `from` on are to be closed, lowest first.
    pub open spec fn closing_silent(self, from: int, now: Instant, timeout: Duration) -> Self
        decreases self.slots.len() - from,
    {
        if 0 <= from < self.slots.len() {
            let rest = self.closing_silent(from + 1, now, timeout);
            if silent(self.slots[from], now, timeout) {
                rest.schedule(Task::Close { idx: from as u32 })
            } else {
                rest
            }
        } else {
            self
        }
    }

    pub open spec fn poll_liveness(self, now: Instant, timeout: Option<Duration>) -> Self {
        if !due(self.liveness, now) {
            self
        } else {
            let fired = CoreView { liveness: None, ..self };
            match timeout {
                None => fired,
                Some(timeout) => fired.schedule(Task::Rearm { timeout }).closing_silent(
                    0,
                    now,
                    timeout,
                ),
            }
        }
    }

    /// `at` is the first instant at which a connection may be found silent.
    pub open spec fn first_silence(self, timeout: Duration, at: Option<Instant>) -> bool {
        first_silence_before(self.slots, self.slots.len() as int, timeout, at)
    }
}

/// The same for the first `n` slots.
pub open spec fn first_silence_before<D>(
    slots: Seq<Option<State<D>>>,
    n: int,
    timeout: Duration,
    at: Option<Instant>,
) -> bool {
    match at {
        None => forall|i: int, seen: Instant|
            0 <= i < n ==> !#[trigger] watched(slots[i], seen),
        Some(at) => {
            &&& exists|i: int, seen: Instant|
                0 <= i < n && #[trigger] watched(slots[i], seen) && time::after(seen, timeout) == at
            &&& forall|i: int, seen: Instant|
                0 <= i < n && #[trigger] watched(slots[i], seen) ==> at <= time::after(
                    seen,
                    timeout,
                )
        },
    }
}

proof fn lemma_closing_silent<D>(view: CoreView<D>, from: int, now: Instant, timeout: Duration)
    ensures
        view.closing_silent(from, now, timeout) == (CoreView {
            work: view.closing_silent(from, now, timeout).work,
            ..view
        }),
    decreases view.slots.len() - from,
{
    if 0 <= from < view.slots.len() {
        lemma_closing_silent(view, from + 1, now, timeout);
    }
}

/// A connector that shuts down dials nothing more.
pub proof fn law_draining_dials_nothing<D>(view: CoreView<D>, now: Instant, pending: bool)
    requires
        view.draining,
    ensures
        view.poll_source(now, pending) == view,
        view.shut_down().poll_source(now, pending) == view.shut_down(),
{
    let base = (CoreView { draining: true, backoff: None, liveness: None, ..view }).schedule(
        Task::Quiesce,
    ).schedule(Task::FlushDirty);
    super::lemma_closing(base, 0);
}

/// A connection is found silent exactly when the deadline set for it has passed.
pub proof fn law_silent_at_deadline<D>(
    slot: Option<State<D>>,
    seen: Instant,
    now: Instant,
    timeout: Duration,
)
    requires
        watched(slot, seen),
        seen + timeout <= u128::MAX,
        seen <= now,
    ensures
        silent(slot, now, timeout) <==> time::after(seen, timeout) <= now,
{
}

/// The dialer is polled exactly if it has something to dial or the time to try again
/// has come, once for each slot at most; the deadline for trying again is taken off
/// once it has come and not before. No connection changes.
pub proof fn law_polled_when_due<D>(view: CoreView<D>, now: Instant, pending: bool)
    requires
        !view.draining,
    ensures
        ({
            let after = view.poll_source(now, pending);
            let fired = view.backoff is Some && view.backoff->0 <= now;
            &&& after.work == if pending || fired {
                view.work.push(Task::Source { left: view.slots.len() as usize })
            } else {
                view.work
            }
            &&& after.backoff == if fired {
                None
            } else {
                view.backoff
            }
            &&& (CoreView { work: view.work, backoff: view.backoff, ..after }) == view
        }),
{
}

/// A new connection starts with nothing received, nothing asked for and its socket
/// still to be made, in the slot that its token names, for the dial it was made for.
/// No other slot changes.
pub proof fn law_opened_starts_afresh<D>(view: CoreView<D>, token: Token, conn: D, key: DialKey)
    requires
        token.slot < view.slots.len(),
    ensures
        ({
            let after = view.opened(token, conn, key);
            let cur = after.slots[token.slot as int]->0;
            &&& super::same_elsewhere(view, after, token.slot)
            &&& after.work == view.work
            &&& after.dirty == view.dirty
            &&& after.slots[token.slot as int] is Some
            &&& cur.conn == conn
            &&& cur.token == token
            &&& cur.dial == key
            &&& cur.lane == token.slot
            &&& cur.establish == Establish::Idle
            &&& !cur.retired && !cur.close_permanent
            &&& cur.last_recv is None
            &&& !cur.pending.egress && !cur.pending.shutdown && !cur.pending.close
            &&& cur.pending.how == 0
        }),
{
}

/// The slot holds a standing connection on which nothing was received for `timeout`.
pub open spec fn is_mute<D>(slot: Option<State<D>>, now: Instant, timeout: Duration) -> bool {
    slot matches Some(state) && !state.retired && state.establish == Establish::Done && (
    state.last_recv matches Some(seen) && (if seen <= now {
        now - seen
    } else {
        0
    }) >= timeout)
}

proof fn lemma_mute_are_closed<D>(view: CoreView<D>, from: int, now: Instant, timeout: Duration)
    requires
        0 <= from <= view.slots.len() <= u32::MAX,
    ensures
        ({
            let after = view.closing_silent(from, now, timeout);
            let added = after.work.skip(view.work.len() as int);
            &&& after.work == view.work + added
            &&& forall|k: int|
                0 <= k < added.len() ==> (#[trigger] added[k] matches Task::Close { idx } && from
                    <= idx < view.slots.len() && is_mute(view.slots[idx as int], now, timeout))
            &&& forall|i: u32|
                from <= i < view.slots.len() && is_mute(#[trigger] view.slots[i as int], now, timeout)
                    ==> added.contains(Task::Close { idx: i })
            &&& forall|j: int, k: int|
                0 <= j < k < added.len() ==> (#[trigger] added[j])->Close_idx > (
                #[trigger] added[k])->Close_idx
        }),
    decreases view.slots.len() - from,
{
    let after = view.closing_silent(from, now, timeout);
    let added = after.work.skip(view.work.len() as int);
    if from < view.slots.len() {
        lemma_mute_are_closed(view, from + 1, now, timeout);
        let rest = view.closing_silent(from + 1, now, timeout);
        let others = rest.work.skip(view.work.len() as int);
        assert(silent(view.slots[from], now, timeout) == is_mute(view.slots[from], now, timeout));
        let closing = Task::Close { idx: from as u32 };
        if silent(view.slots[from], now, timeout) {
            assert(added =~= others.push(closing));
            assert(added[others.len() as int] == closing);
        } else {
            assert(added =~= others);
        }
        assert forall|i: u32|
            from <= i < view.slots.len() && is_mute(
                #[trigger] view.slots[i as int],
                now,
                timeout,
            ) implies added.contains(Task::Close { idx: i }) by {
            if i > from {
                let k = choose|k: int| 0 <= k < others.len() && others[k] == Task::Close { idx: i };
                assert(added[k] == Task::Close { idx: i });
            }
        }
    }
    assert(after.work =~= view.work + added);
}

/// When the deadline for silence has come, exactly the standing connections on which
/// nothing was received for that long are closed, each once and the lowest slot first,
/// and then the next deadline is set. Before the deadline nothing happens, and without
/// a bound on silence the deadline is only taken off.
pub proof fn law_exactly_the_silent_are_closed<D>(
    view: CoreView<D>,
    now: Instant,
    timeout: Option<Duration>,
)
    requires
        view.slots.len() <= u32::MAX,
    ensures
        ({
            let after = view.poll_liveness(now, timeout);
            let added = after.work.skip(view.work.len() as int);
            if view.liveness is None || view.liveness->0 > now {
                after == view
            } else {
                &&& (CoreView { work: view.work, liveness: view.liveness, ..after }) == view
                &&& after.liveness is None
                &&& match timeout {
                    None => after.work == view.work,
                    Some(timeout) => {
                        &&& after.work == view.work + added
                        &&& added[0] == Task::Rearm { timeout }
                        &&& forall|k: int|
                            1 <= k < added.len() ==> (#[trigger] added[k] matches Task::Close {
                                idx,
                            } && idx < view.slots.len() && is_mute(
                                view.slots[idx as int],
                                now,
                                timeout,
                            ))
                        &&& forall|i: u32|
                            i < view.slots.len() && is_mute(
                                #[trigger] view.slots[i as int],
                                now,
                                timeout,
                            ) ==> added.contains(Task::Close { idx: i })
                        &&& forall|j: int, k: int|
                            1 <= j < k < added.len() ==> (#[trigger] added[j])->Close_idx > (
                            #[trigger] added[k])->Close_idx
                    },
                }
            }
        }),
{
    if due(view.liveness, now) {
        if let Some(timeout) = timeout {
            let base = (CoreView { liveness: None, ..view }).schedule(Task::Rearm { timeout });
            lemma_closing_silent(base, 0, now, timeout);
            lemma_mute_are_closed(base, 0, now, timeout);
            let after = view.poll_liveness(now, Some(timeout));
            let added = after.work.skip(view.work.len() as int);
            let closed = after.work.skip(base.work.len() as int);
            assert(added =~= seq![Task::Rearm { timeout }] + closed);
            assert(after.work =~= view.work + added);
            assert forall|i: u32|
                i < view.slots.len() && is_mute(
                    #[trigger] view.slots[i as int],
                    now,
                    timeout,
                ) implies added.contains(Task::Close { idx: i }) by {
                assert(base.slots[i as int] == view.slots[i as int]);
                let k = choose|k: int| 0 <= k < closed.len() && closed[k] == Task::Close { idx: i };
                assert(added[k + 1] == Task::Close { idx: i });
            }
        }
    }
}

impl<A, C, D, S: Dialer<A, C>> Core<A, C, D, S> {
    /// Starts polling the dialer if it has something to dial, or if it is time to
    /// try failed dials again.
    pub fn poll_source(&mut self, now: Instant)
        requires
            old(self).wf(),
        ensures
            final(self).wf(),
            final(self)@ == old(self)@.poll_source(now, old(self).dialer().pending()),
            final(self).dialer() == old(self).dialer(),
    {
        if self.draining {
            return ;
        }
        let fired = match self.backoff {
            Some(at) => at <= now,
            None => false,
        };
        if fired {
            self.backoff = None;
        }
        if !self.upstreams.has_pending() && !fired {
            return ;
        }
        let left = self.slots.len();
        self.schedule(Task::Source { left });
    }

    /// Polls the dialer once, unless no polls are left.
    pub fn source(&mut self, left: usize, now: Instant) -> (step: SourceStep)
        requires
            old(self).wf(),
        ensures
            final(self).wf(),
            left == 0 ==> step is Done && final(self)@ == old(self)@ && final(self).dialer()
                == old(self).dialer(),
            left > 0 ==> exists|action: Action, mid: S|
                {
                    &&& #[trigger] old(self).dialer().polls(now, action, mid)
                    &&& match action {
                        Action::Connect { key } => if mid.addr(key) is Some {
                            &&& step == SourceStep::Submit { key, left: (left - 1) as usize }
                            &&& final(self)@ == old(self)@
                            &&& final(self).dialer() == mid
                        } else {
                            &&& step is Skipped
                            &&& final(self)@ == old(self)@.schedule(
                                Task::Source { left: (left - 1) as usize },
                            )
                            &&& mid.settles(key, false, now, final(self).dialer())
                        },
                        Action::Backoff { min_retry_at } => {
                            &&& final(self).dialer() == mid
                            &&& if old(self)@.backoff is None {
                                &&& step == SourceStep::Armed(min_retry_at)
                                &&& final(self)@ == (CoreView {
                                    backoff: Some(min_retry_at),
                                    ..old(self)@
                                })
                            } else {
                                step is Waiting && final(self)@ == old(self)@
                            }
                        },
                        Action::Idle => {
                            &&& step is Done
                            &&& final(self)@ == old(self)@
                            &&& final(self).dialer() == mid
                        },
                    }
                },
    {
        if left == 0 {
            return SourceStep::Done;
        }
        let action = self.upstreams.poll_connect(now);
        let ghost mid = self.upstreams;
        assert(old(self).dialer().polls(now, action, mid));
        match action {
            Action::Connect { key } => {
                if self.upstreams.sock_addr(key).is_some() {
                    return SourceStep::Submit { key, left: left - 1 };
                }
                self.upstreams.connect_outcome(key, false, now);
                self.schedule(Task::Source { left: left - 1 });
                SourceStep::Skipped
            },
            Action::Backoff { min_retry_at } => {
                if self.backoff.is_none() {
                    self.backoff = Some(min_retry_at);
                    return SourceStep::Armed(min_retry_at);
                }
                SourceStep::Waiting
            },
            Action::Idle => SourceStep::Done,
        }
    }

    /// Takes what came of opening the socket for `key`. If it could not be opened, the
    /// dialer gives `key` up, and then the application is told.
    pub fn submitted(&mut self, key: DialKey, left: usize, answer: Submitted<D>, now: Instant)
        requires
            old(self).wf(),
            answer matches Submitted::Opened { token, .. } ==> token.slot < old(self)@.slots.len(),
        ensures
            final(self).wf(),
            match answer {
                Submitted::Opened { token, conn } => {
                    &&& final(self)@ == old(self)@.opened(token, conn, key).schedule(
                        Task::Source { left },
                    )
                    &&& old(self).dialer().binds(key, token.slot, final(self).dialer())
                },
                Submitted::Full => {
                    &&& final(self)@ == old(self)@
                    &&& old(self).dialer().defers(key, now, final(self).dialer())
                },
                Submitted::Failed => {
                    &&& final(self)@ == old(self)@.schedule(Task::Source { left }).schedule(
                        Task::OpenFailed { key },
                    )
                    &&& old(self).dialer().kills(key, final(self).dialer())
                },
            },
    {
        match answer {
            Submitted::Opened { token, conn } => {
                let state = State::new(conn, token, key, token.slot as usize);
                self.slots[token.slot as usize] = Some(state);
                self.upstreams.bind(key, token.slot);
                proof {
                    pending::lemma_update(
                        old(self)@.slots,
                        old(self)@.dirty,
                        token.slot,
                        Some(state),
                    );
                }
                self.schedule(Task::Source { left });
            },
            Submitted::Full => {
                self.upstreams.connect_deferred(key, now);
            },
            Submitted::Failed => {
                self.upstreams.kill(key);
                self.schedule(Task::Source { left });
                self.schedule(Task::OpenFailed { key });
            },
        }
    }

    /// If it is time to look for silent connections, has them closed. `timeout` is
    /// how long a connection may be silent.
    pub fn poll_liveness(&mut self, now: Instant, timeout: Option<Duration>)
        requires
            old(self).wf(),
        ensures
            final(self).wf(),
            final(self)@ == old(self)@.poll_liveness(now, timeout),
            final(self).dialer() == old(self).dialer(),
    {
        match self.liveness {
            Some(at) => {
                if at > now {
                    return ;
                }
            },
            None => {
                return ;
            },
        }
        self.liveness = None;
        let Some(timeout) = timeout else {
            return ;
        };
        self.schedule(Task::Rearm { timeout });
        let ghost base = self@;
        let mut from: usize = self.slots.len();
        while from > 0
            invariant
                from <= base.slots.len(),
                base.wf(),
                self@ == base.closing_silent(from as int, now, timeout),
                self.slots@ == base.slots,
                self.dialer() == old(self).dialer(),
            decreases from,
        {
            from -= 1;
            let expired = match &self.slots[from] {
                Some(state) => match state.last_recv {
                    Some(seen) => state.establish == Establish::Done && !state.retired
                        && now.saturating_sub(seen) >= timeout,
                    None => false,
                },
                None => false,
            };
            if expired {
                self.schedule(Task::Close { idx: from as u32 });
            }
        }
        proof {
            lemma_closing_silent(base, 0, now, timeout);
        }
    }

    /// The first instant at which a connection may be found silent.
    pub fn earliest_liveness(&self, timeout: Duration) -> (earliest: Option<Instant>)
        ensures
            self@.first_silence(timeout, earliest),
    {
        let mut earliest: Option<Instant> = None;
        let mut i: usize = 0;
        while i < self.slots.len()
            invariant
                i <= self.slots@.len(),
                first_silence_before(self.slots@, i as int, timeout, earliest),
            decreases self.slots@.len() - i,
        {
            let ghost before = earliest;
            if let Some(state) = &self.slots[i] {
                if state.establish == Establish::Done && !state.retired {
                    if let Some(seen) = state.last_recv {
                        earliest = earlier(earliest, Some(deadline_after(seen, timeout)));
                        assert(watched(self.slots@[i as int], seen));
                    }
                }
            }
            proof {
                if before is Some {
                    let (j, seen) = choose|j: int, seen: Instant|
                        0 <= j < i && #[trigger] watched(self.slots@[j], seen) && time::after(
                            seen,
                            timeout,
                        ) == before->0;
                    assert(watched(self.slots@[j], seen));
                }
            }
            i += 1;
        }
        earliest
    }

    /// Sets the next deadline for silent connections and returns it.
    pub fn rearm(&mut self, timeout: Duration) -> (armed: Option<Instant>)
        requires
            old(self).wf(),
        ensures
            final(self).wf(),
            old(self)@.first_silence(timeout, armed),
            final(self)@ == (CoreView {
                liveness: if armed is Some {
                    armed
                } else {
                    old(self)@.liveness
                },
                ..old(self)@
            }),
            final(self).dialer() == old(self).dialer(),
    {
        let earliest = self.earliest_liveness(timeout);
        if earliest.is_some() {
            self.liveness = earliest;
        }
        earliest
    }
}

} // verus!
