//! Setting up: from a socket to a standing connection.
use vstd::prelude::*;

use crate::manifold::connector::source::{DialKey, Dialer};
use crate::manifold::connector::state::{Establish, State};
use crate::time;
use crate::time::{Duration, Instant};
use super::source;
use super::{Core, CoreView, Task};

verus! {

/// How an attempt to connect has ended.
#[derive(Clone, Copy, PartialEq, Eq, Structural, Debug)]
pub enum ConnectStep {
    Connected { idx: u32, key: DialKey },
    Failed { key: DialKey },
    /// Nobody waits for it any more.
    Dropped(Option<DialKey>),
}

impl<D> CoreView<D> {
    pub open spec fn connecting(self, idx: u32) -> Self {
        if self.has(idx) {
            self.with(idx, State { establish: Establish::Connecting, ..self.at(idx) })
        } else {
            self
        }
    }

    /// A connection stands: it counts as heard from, and then the application is
    /// told, what is queued is written, and the dialer is told.
    pub open spec fn connected(self, idx: u32, key: DialKey, now: Instant) -> Self {
        if self.has(idx) {
            self.with(
                idx,
                State { establish: Establish::Done, last_recv: Some(now), ..self.at(idx) },
            ).schedule(Task::Established { key }).schedule(Task::Egress { idx }).schedule(
                Task::Connected { idx, key },
            )
        } else {
            self.schedule(Task::Established { key }).schedule(Task::Egress { idx })
        }
    }

    /// An attempt to connect has failed: the application is told, and then the
    /// dialer.
    pub open spec fn unconnected(self, key: DialKey) -> Self {
        self.schedule(Task::Unsettle { key }).schedule(Task::ConnectFailed { key })
    }

    pub open spec fn connect(self, step: ConnectStep, now: Instant) -> Self {
        match step {
            ConnectStep::Connected { idx, key } => self.connected(idx, key, now),
            ConnectStep::Failed { key } => self.unconnected(key),
            ConnectStep::Dropped(Some(key)) => self.unconnected(key),
            ConnectStep::Dropped(None) => self,
        }
    }

    /// The first connection that stands sets the deadline for silence; those that
    /// come later have later ones.
    pub open spec fn watch(self, now: Instant, timeout: Option<Duration>) -> Self {
        match timeout {
            Some(timeout) if self.liveness is None => CoreView {
                liveness: Some((now + timeout) as u128),
                ..self
            },
            _ => self,
        }
    }
}

/// However an attempt to connect ends, the application hears of it before the
/// dialer, and each hears of it once. An attempt that nobody waits for is told to
/// nobody.
pub proof fn law_application_hears_first<D>(view: CoreView<D>, step: ConnectStep, now: Instant)
    ensures
        ({
            let tasks = view.connect(step, now).work.skip(view.work.len() as int);
            &&& view.connect(step, now).work.take(view.work.len() as int) == view.work
            &&& match step {
                ConnectStep::Connected { idx, key } => if view.has(idx) {
                    tasks == seq![
                        Task::Established { key },
                        Task::Egress { idx },
                        Task::Connected { idx, key },
                    ]
                } else {
                    tasks == seq![Task::Established { key }, Task::Egress { idx }]
                },
                ConnectStep::Failed { key } | ConnectStep::Dropped(Some(key)) => tasks == seq![
                    Task::Unsettle { key },
                    Task::ConnectFailed { key },
                ],
                ConnectStep::Dropped(None) => tasks.len() == 0,
            }
        }),
{
    let after = view.connect(step, now).work;
    let n = view.work.len() as int;
    assert(after.take(n) =~= view.work);
    match step {
        ConnectStep::Connected { idx, key } => {
            if view.has(idx) {
                assert(after.skip(n) =~= seq![
                    Task::Established { key },
                    Task::Egress { idx },
                    Task::Connected { idx, key },
                ]);
            } else {
                assert(after.skip(n) =~= seq![Task::Established { key }, Task::Egress { idx }]);
            }
        },
        ConnectStep::Failed { key } | ConnectStep::Dropped(Some(key)) => {
            assert(after.skip(n) =~= seq![Task::Unsettle { key }, Task::ConnectFailed { key }]);
        },
        ConnectStep::Dropped(None) => {},
    }
}

/// No connection can have been silent for `timeout` before silent connections are
/// looked for.
pub open spec fn covered<D>(view: CoreView<D>, timeout: Duration) -> bool {
    forall|i: int, seen: Instant|
        0 <= i < view.slots.len() && #[trigger] source::watched(view.slots[i], seen) ==> {
            &&& view.liveness matches Some(at)
            &&& at <= time::after(seen, timeout)
        }
}

/// The deadline that the first connection has set covers those that come later.
pub proof fn law_standing_deadline_covers<D>(
    view: CoreView<D>,
    idx: u32,
    key: DialKey,
    now: Instant,
    timeout: Duration,
)
    requires
        view.wf(),
        covered(view, timeout),
        view.liveness matches Some(at) ==> at <= now + timeout,
        now + timeout <= u128::MAX,
    ensures
        covered(view.connected(idx, key, now).watch(now, Some(timeout)), timeout),
        view.liveness is Some ==> view.connected(idx, key, now).watch(
            now,
            Some(timeout),
        ).liveness == view.liveness,
{
    let after = view.connected(idx, key, now).watch(now, Some(timeout));
    assert forall|i: int, seen: Instant|
        0 <= i < after.slots.len() && #[trigger] source::watched(after.slots[i], seen) implies {
        &&& after.liveness matches Some(at)
        &&& at <= time::after(seen, timeout)
    } by {
        if i != idx || !view.has(idx) {
            assert(source::watched(view.slots[i], seen));
        }
    }
}

/// What is received later moves the end of the silence back, so the deadline that
/// stands covers it.
pub proof fn law_hearing_keeps_covered<D>(
    view: CoreView<D>,
    idx: u32,
    now: Instant,
    timeout: Duration,
)
    requires
        view.wf(),
        covered(view, timeout),
        view.liveness matches Some(at) ==> at <= time::after(now, timeout),
        view.has(idx) && view.at(idx).last_recv is None ==> view.liveness is Some,
    ensures
        covered(view.heard(idx, now), timeout),
        view.heard(idx, now).liveness == view.liveness,
{
    let after = view.heard(idx, now);
    assert forall|i: int, seen: Instant|
        0 <= i < after.slots.len() && #[trigger] source::watched(after.slots[i], seen) implies {
        &&& after.liveness matches Some(at)
        &&& at <= time::after(seen, timeout)
    } by {
        if i == idx && view.has(idx) {
            if view.at(idx).last_recv is Some {
                assert(source::watched(view.slots[i], view.at(idx).last_recv->0));
            }
        } else {
            assert(source::watched(view.slots[i], seen));
        }
    }
}

/// Without a bound on silence no connection is closed for it.
pub proof fn law_unbounded_is_not_watched<D>(
    view: CoreView<D>,
    idx: u32,
    key: DialKey,
    now: Instant,
    later: Instant,
)
    requires
        view.wf(),
        view.liveness is None,
    ensures
        ({
            let after = view.connected(idx, key, now).watch(now, None);
            &&& after.liveness is None
            &&& after.poll_liveness(later, None) == after
        }),
{
}

/// After a search for silent connections the next deadline covers all that are
/// left.
pub proof fn law_rearmed_is_covered<D>(
    view: CoreView<D>,
    timeout: Duration,
    armed: Option<Instant>,
)
    requires
        view.first_silence(timeout, armed),
        view.liveness is None,
    ensures
        covered(CoreView { liveness: armed, ..view }, timeout),
{
    let after = CoreView { liveness: armed, ..view };
    assert forall|i: int, seen: Instant|
        0 <= i < after.slots.len() && #[trigger] source::watched(after.slots[i], seen) implies {
        &&& after.liveness matches Some(at)
        &&& at <= time::after(seen, timeout)
    } by {
        assert(source::watched(view.slots[i], seen));
    }
}

/// Only a connection that came up changes: it stands from then on and counts as heard
/// from. One whose socket is there is being connected. The first deadline for silence
/// is set when a connection comes up, and not moved by later ones.
pub proof fn law_coming_up_changes_one_connection<D>(
    view: CoreView<D>,
    step: ConnectStep,
    idx: u32,
    now: Instant,
    timeout: Duration,
)
    requires
        now + timeout <= u128::MAX,
    ensures
        ({
            let after = view.connect(step, now);
            match step {
                ConnectStep::Connected { idx, .. } => {
                    &&& super::same_elsewhere(view, after, idx)
                    &&& after.dirty == view.dirty
                    &&& if idx < view.slots.len() && view.slots[idx as int] is Some {
                        let was = view.slots[idx as int]->0;
                        let cur = after.slots[idx as int]->0;
                        &&& after.slots[idx as int] is Some
                        &&& cur.establish == Establish::Done
                        &&& cur.last_recv == Some(now)
                        &&& cur.pending == was.pending
                        &&& super::same_but_marks(
                            State { establish: cur.establish, last_recv: cur.last_recv, ..was },
                            cur,
                        )
                    } else {
                        after.slots == view.slots
                    }
                },
                _ => (CoreView { work: view.work, ..after }) == view,
            }
        }),
        ({
            let after = view.connecting(idx);
            &&& super::same_elsewhere(view, after, idx)
            &&& after.dirty == view.dirty
            &&& after.work == view.work
            &&& idx < view.slots.len() && view.slots[idx as int] is Some ==> {
                let was = view.slots[idx as int]->0;
                let cur = after.slots[idx as int]->0;
                &&& after.slots[idx as int] is Some
                &&& cur.establish == Establish::Connecting
                &&& cur.pending == was.pending
                &&& super::same_but_marks(State { establish: cur.establish, ..was }, cur)
            }
        }),
        view.watch(now, None) == view,
        view.watch(now, Some(timeout)) == (CoreView {
            liveness: match view.liveness {
                Some(at) => Some(at),
                None => Some((now + timeout) as u128),
            },
            ..view
        }),
{
}

impl<A, C, D, S: Dialer<A, C>> Core<A, C, D, S> {
    /// The address that is dialed under `key`.
    pub fn sock_addr(&self, key: DialKey) -> (addr: Option<&A>)
        requires
            self.wf(),
        ensures
            match addr {
                Some(a) => self.dialer().addr(key) == Some(*a),
                None => self.dialer().addr(key) is None,
            },
    {
        self.upstreams.sock_addr(key)
    }

    /// What the socket in a slot is to be connected to: what it was dialed under,
    /// the address, and what its stream is set up with if that is not the default.
    pub fn socket_target(&self, idx: u32) -> (target: Option<(DialKey, Option<&A>, Option<C>)>)
        requires
            self.wf(),
        ensures
            match target {
                Some((key, addr, config)) => {
                    &&& self@.has(idx)
                    &&& key == self@.at(idx).dial
                    &&& match addr {
                        Some(a) => self.dialer().addr(key) == Some(*a),
                        None => self.dialer().addr(key) is None,
                    }
                    &&& config == self.dialer().config(key)
                },
                None => !self@.has(idx),
            },
    {
        if idx as usize >= self.slots.len() {
            return None;
        }
        match &self.slots[idx as usize] {
            Some(state) => {
                let key = state.dial;
                Some((key, self.upstreams.sock_addr(key), self.upstreams.stream_config(key)))
            },
            None => None,
        }
    }

    /// The socket in a slot is there and is being connected.
    pub fn connecting(&mut self, idx: u32)
        requires
            old(self).wf(),
        ensures
            final(self).wf(),
            final(self)@ == old(self)@.connecting(idx),
            final(self).dialer() == old(self).dialer(),
    {
        if let Some(state) = self.slot_mut(idx) {
            state.establish = Establish::Connecting;
            proof {
                super::lemma_with_wf(old(self)@, idx, old(self)@.connecting(idx).at(idx));
            }
        }
    }

    /// The socket that was asked for under `key` could not be had.
    pub fn socket(&mut self, failed: Option<DialKey>, now: Instant)
        requires
            old(self).wf(),
        ensures
            final(self).wf(),
            final(self)@ == old(self)@,
            match failed {
                Some(key) => old(self).dialer().settles(key, false, now, final(self).dialer()),
                None => final(self).dialer() == old(self).dialer(),
            },
    {
        if let Some(key) = failed {
            self.upstreams.connect_outcome(key, false, now);
        }
    }

    /// Takes the end of an attempt to connect.
    pub fn connect(&mut self, step: ConnectStep, now: Instant)
        requires
            old(self).wf(),
        ensures
            final(self).wf(),
            final(self)@ == old(self)@.connect(step, now),
            final(self).dialer() == old(self).dialer(),
    {
        match step {
            ConnectStep::Connected { idx, key } => {
                let mut there = false;
                if let Some(state) = self.slot_mut(idx) {
                    state.establish = Establish::Done;
                    state.last_recv = Some(now);
                    there = true;
                    proof {
                        super::lemma_with_wf(
                            old(self)@,
                            idx,
                            old(self)@.connected(idx, key, now).at(idx),
                        );
                    }
                }
                self.schedule(Task::Established { key });
                self.schedule(Task::Egress { idx });
                if there {
                    self.schedule(Task::Connected { idx, key });
                }
            },
            ConnectStep::Failed { key } => {
                self.schedule(Task::Unsettle { key });
                self.schedule(Task::ConnectFailed { key });
            },
            ConnectStep::Dropped(key) => {
                if let Some(key) = key {
                    self.schedule(Task::Unsettle { key });
                    self.schedule(Task::ConnectFailed { key });
                }
            },
        }
    }

    /// Tells the dialer that an attempt to connect has failed.
    pub fn unsettle(&mut self, key: DialKey, now: Instant)
        requires
            old(self).wf(),
        ensures
            final(self).wf(),
            final(self)@ == old(self)@,
            old(self).dialer().settles(key, false, now, final(self).dialer()),
    {
        self.upstreams.connect_outcome(key, false, now);
    }

    /// Tells the dialer that a connection stands, and sets the deadline for silent
    /// connections if there is none. `timeout` is how long a connection may be
    /// silent. The connector is to be woken at the deadline that is returned.
    pub fn established(&mut self, key: DialKey, now: Instant, timeout: Option<Duration>) -> (armed:
        Option<Instant>)
        requires
            old(self).wf(),
            timeout matches Some(timeout) ==> now + timeout <= u128::MAX,
        ensures
            final(self).wf(),
            final(self)@ == old(self)@.watch(now, timeout),
            armed == if old(self)@.liveness is None {
                final(self)@.liveness
            } else {
                None
            },
            old(self).dialer().settles(key, true, now, final(self).dialer()),
    {
        let mut armed: Option<Instant> = None;
        if self.liveness.is_none() {
            if let Some(timeout) = timeout {
                self.liveness = Some(now + timeout);
                armed = self.liveness;
            }
        }
        self.upstreams.connect_outcome(key, true, now);
        armed
    }
}

} // verus!
