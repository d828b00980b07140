//! Accepting connections, with a cap on how many one peer may have.
use std::collections::HashMap;

use vstd::prelude::*;
use vstd::std_specs::hash::*;

verus! {

broadcast use vstd::std_specs::hash::group_hash_axioms;

/// The address of a peer.
#[derive(Clone, Copy, PartialEq, Eq, Structural, Debug)]
pub enum PeerIp {
    V4(u32),
    V6(u128),
}

/// How an accept has ended.
#[derive(Clone, Copy, PartialEq, Eq, Structural, Debug)]
pub enum AcceptEvent {
    Failed,
    /// The connection has the descriptor with this number.
    Accepted(u32),
}

/// What becomes of an accept.
#[derive(Clone, Copy, PartialEq, Eq, Structural, Debug)]
pub enum Outcome {
    Accepted { fd: u32, peer: Option<PeerIp> },
    /// The peer has as many connections as it may.
    Capped(PeerIp),
    Rejected,
}

/// How many connections each peer has.
pub type Counts = Map<PeerIp, u32>;

pub open spec fn count_of(counts: Counts, ip: PeerIp) -> u32 {
    if counts.contains_key(ip) {
        counts[ip]
    } else {
        0
    }
}

pub open spec fn released(counts: Counts, ip: PeerIp) -> Counts {
    if count_of(counts, ip) > 1 {
        counts.insert(ip, (counts[ip] - 1) as u32)
    } else {
        counts.remove(ip)
    }
}

pub open spec fn acquired(counts: Counts, ip: PeerIp) -> Counts {
    counts.insert(ip, (count_of(counts, ip) + 1) as u32)
}

/// A peer that gives a connection back has one less, and may have another.
pub proof fn law_released_can_be_acquired(counts: Counts, ip: PeerIp, cap: u32)
    requires
        cap > 0,
        count_of(counts, ip) <= cap,
        counts.contains_key(ip) ==> counts[ip] >= 1,
    ensures
        count_of(counts, ip) > 0 ==> count_of(released(counts, ip), ip) == count_of(counts, ip)
            - 1,
        count_of(released(counts, ip), ip) < cap,
{
}

/// What one peer does leaves the counts of all others alone.
pub proof fn law_peers_are_independent(counts: Counts, ip: PeerIp, other: PeerIp)
    requires
        ip != other,
    ensures
        count_of(acquired(counts, ip), other) == count_of(counts, other),
        count_of(released(counts, ip), other) == count_of(counts, other),
{
}

/// A connection that is accepted and released leaves the count as it was.
pub proof fn law_release_undoes_acquire(counts: Counts, ip: PeerIp)
    requires
        count_of(counts, ip) < u32::MAX,
    ensures
        count_of(released(acquired(counts, ip), ip), ip) == count_of(counts, ip),
{
}

/// The accepting side of a listener.
pub struct Accept {
    /// Descriptors from this number on are not connections.
    accept_slot: u32,
    per_ip_cap: u32,
    v4: HashMap<u32, u32>,
    v6: HashMap<u128, u32>,
}

/// The abstract value of an [`Accept`].
#[verifier::ext_equal]
pub struct AcceptView {
    pub accept_slot: u32,
    /// How many connections a peer may have; zero for any number.
    pub per_ip_cap: u32,
    pub counts: Counts,
}

impl AcceptView {
    pub open spec fn wf(self) -> bool {
        forall|ip: PeerIp| #[trigger]
            self.counts.contains_key(ip) ==> 1 <= self.counts[ip] <= self.per_ip_cap
    }

    /// The peer has as many connections as it may.
    pub open spec fn capped(self, peer: Option<PeerIp>) -> bool {
        &&& self.per_ip_cap > 0
        &&& peer matches Some(ip)
        &&& count_of(self.counts, ip) >= self.per_ip_cap
    }

    /// What becomes of an accept; `current` says whether it came for the arming
    /// that stands.
    pub open spec fn outcome(self, current: bool, event: AcceptEvent, peer: Option<PeerIp>) -> Outcome {
        match event {
            AcceptEvent::Accepted(fd) if current && fd < self.accept_slot => if self.capped(peer) {
                Outcome::Capped(peer->0)
            } else {
                Outcome::Accepted { fd, peer }
            },
            _ => Outcome::Rejected,
        }
    }

    pub open spec fn after(self, current: bool, event: AcceptEvent, peer: Option<PeerIp>) -> Self {
        match (self.outcome(current, event, peer), peer) {
            (Outcome::Accepted { .. }, Some(ip)) if self.per_ip_cap > 0 => AcceptView {
                counts: acquired(self.counts, ip),
                ..self
            },
            _ => self,
        }
    }
}

/// A connection is accepted exactly if it came for the arming that stands, its
/// descriptor is one of a connection, and its peer, if it is known and a cap is set,
/// has fewer than that. Exactly then it counts, for its peer alone.
pub proof fn law_accepted_within_the_cap(
    view: AcceptView,
    current: bool,
    event: AcceptEvent,
    peer: Option<PeerIp>,
    other: PeerIp,
)
    requires
        view.wf(),
    ensures
        ({
            let open = match event {
                AcceptEvent::Accepted(fd) => current && fd < view.accept_slot,
                _ => false,
            };
            let full = view.per_ip_cap > 0 && (peer matches Some(ip) && (if view.counts.contains_key(
                ip,
            ) {
                view.counts[ip] >= view.per_ip_cap
            } else {
                false
            }));
            let outcome = view.outcome(current, event, peer);
            let after = view.after(current, event, peer);
            &&& outcome is Accepted <==> open && !full
            &&& outcome is Capped <==> open && full
            &&& outcome is Accepted ==> event == AcceptEvent::Accepted(outcome->fd)
                && outcome->peer == peer
            &&& outcome is Capped ==> peer == Some(outcome->Capped_0)
            &&& after.accept_slot == view.accept_slot
            &&& after.per_ip_cap == view.per_ip_cap
            &&& count_of(after.counts, other) == count_of(view.counts, other) + if open && !full
                && view.per_ip_cap > 0 && peer == Some(other) {
                1int
            } else {
                0int
            }
        }),
{
}

/// A peer's count goes up by one with each connection and down by one with each that
/// it gives back; a count of zero is not kept.
pub proof fn law_counts_go_by_one(counts: Counts, ip: PeerIp)
    requires
        counts.contains_key(ip) ==> counts[ip] >= 1,
    ensures
        count_of(counts, ip) < u32::MAX ==> count_of(acquired(counts, ip), ip) == count_of(
            counts,
            ip,
        ) + 1,
        released(counts, ip).contains_key(ip) <==> count_of(counts, ip) > 1,
        count_of(counts, ip) > 0 <==> counts.contains_key(ip),
{
}

impl View for Accept {
    type V = AcceptView;

    closed spec fn view(&self) -> AcceptView {
        AcceptView {
            accept_slot: self.accept_slot,
            per_ip_cap: self.per_ip_cap,
            counts: Map::new(
                |ip: PeerIp|
                    match ip {
                        PeerIp::V4(bits) => self.v4@.contains_key(bits),
                        PeerIp::V6(bits) => self.v6@.contains_key(bits),
                    },
                |ip: PeerIp|
                    match ip {
                        PeerIp::V4(bits) => self.v4@[bits],
                        PeerIp::V6(bits) => self.v6@[bits],
                    },
            ),
        }
    }
}

impl Accept {
    pub closed spec fn wf(self) -> bool {
        self@.wf()
    }

    pub fn new(max_conn: u32, per_ip_cap: u32) -> (accept: Self)
        ensures
            accept.wf(),
            accept@ == (AcceptView { accept_slot: max_conn, per_ip_cap, counts: Map::empty() }),
    {
        let accept = Accept {
            accept_slot: max_conn,
            per_ip_cap,
            v4: HashMap::new(),
            v6: HashMap::new(),
        };
        assert(accept@.counts =~= Map::empty());
        accept
    }

    fn count(&self, ip: PeerIp) -> (count: u32)
        ensures
            count == count_of(self@.counts, ip),
    {
        let found = match ip {
            PeerIp::V4(bits) => self.v4.get(&bits),
            PeerIp::V6(bits) => self.v6.get(&bits),
        };
        match found {
            Some(count) => *count,
            None => 0,
        }
    }

    fn set(&mut self, ip: PeerIp, count: u32)
        ensures
            final(self)@ == (AcceptView { counts: old(self)@.counts.insert(ip, count), ..old(self)@ }),
    {
        match ip {
            PeerIp::V4(bits) => {
                let _ = self.v4.insert(bits, count);
            },
            PeerIp::V6(bits) => {
                let _ = self.v6.insert(bits, count);
            },
        }
        assert(self@.counts =~= old(self)@.counts.insert(ip, count));
    }

    /// A connection of a peer is gone.
    pub fn release_peer_ip(&mut self, ip: PeerIp)
        requires
            old(self).wf(),
        ensures
            final(self).wf(),
            final(self)@ == (AcceptView { counts: released(old(self)@.counts, ip), ..old(self)@ }),
    {
        let count = self.count(ip);
        if count > 1 {
            self.set(ip, count - 1);
        } else {
            match ip {
                PeerIp::V4(bits) => {
                    let _ = self.v4.remove(&bits);
                },
                PeerIp::V6(bits) => {
                    let _ = self.v6.remove(&bits);
                },
            }
            assert(self@.counts =~= old(self)@.counts.remove(ip));
        }
    }

    /// Decides what becomes of an accept from `peer`.
    pub fn on_completion(&mut self, current: bool, event: AcceptEvent, peer: Option<PeerIp>) -> (outcome:
        Outcome)
        requires
            old(self).wf(),
        ensures
            final(self).wf(),
            outcome == old(self)@.outcome(current, event, peer),
            final(self)@ == old(self)@.after(current, event, peer),
    {
        if !current {
            return Outcome::Rejected;
        }
        match event {
            AcceptEvent::Failed => Outcome::Rejected,
            AcceptEvent::Accepted(fd) => {
                if fd >= self.accept_slot {
                    return Outcome::Rejected;
                }
                if self.per_ip_cap > 0 {
                    if let Some(ip) = peer {
                        let count = self.count(ip);
                        if count >= self.per_ip_cap {
                            return Outcome::Capped(ip);
                        }
                        self.set(ip, count + 1);
                    }
                }
                Outcome::Accepted { fd, peer }
            },
        }
    }
}

} // verus!
