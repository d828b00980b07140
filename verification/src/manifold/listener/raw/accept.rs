//! Accepting connections, with a cap on how many one peer may have.
use vstd::prelude::*;

use crate::collections::table;
use crate::collections::table::{CounterKey, Counters, CountersView};
use crate::manifold::listener::accept::{AcceptEvent, PeerIp};
use crate::token::{Token, ACCEPT, SLOT_MASK};

verus! {

/// A peer, with the hash of its address. The same address must come with the same
/// hash every time.
#[derive(Clone, Copy, PartialEq, Eq, Structural, Debug)]
pub struct Peer {
    pub ip: PeerIp,
    pub hash: u64,
}

impl Peer {
    pub open spec fn spec_key(self) -> CounterKey {
        match self.ip {
            PeerIp::V4(bits) => CounterKey { hash: self.hash, kind: 4, name: bits as u128 },
            PeerIp::V6(bits) => CounterKey { hash: self.hash, kind: 6, name: bits },
        }
    }

    pub fn key(self) -> (key: CounterKey)
        ensures
            key == self.spec_key(),
    {
        match self.ip {
            PeerIp::V4(bits) => CounterKey { hash: self.hash, kind: 4, name: bits as u128 },
            PeerIp::V6(bits) => CounterKey { hash: self.hash, kind: 6, name: bits },
        }
    }
}

/// Different peers have different counters.
pub proof fn law_peers_have_their_own_counters(a: Peer, b: Peer)
    requires
        a.spec_key() == b.spec_key(),
    ensures
        a == b,
{
}

/// What becomes of an accept.
#[derive(Clone, Copy, PartialEq, Eq, Structural, Debug)]
pub enum Outcome {
    Accepted { fd: u32, peer: Option<Peer> },
    /// The peer has as many connections as it may.
    Capped(Peer),
    Rejected,
}

/// The accepting side of a listener.
pub struct Accept {
    accept_slot: u32,
    per_ip_limit: u32,
    per_ip_counts: Option<Counters>,
    canceling: bool,
}

/// The abstract value of an [`Accept`].
pub struct AcceptView {
    /// Descriptors from this number on are not connections.
    pub accept_slot: u32,
    pub per_ip_limit: u32,
    /// The connections of each peer, if there is a limit on them.
    pub counts: Option<CountersView>,
    /// The accept that is armed is being canceled.
    pub canceling: bool,
}

impl AcceptView {
    /// No peer has more connections than it may.
    pub open spec fn wf(self) -> bool {
        self.counts matches Some(counts) ==> {
            &&& counts.wf()
            &&& self.per_ip_limit > 0
            &&& counts.within(self.per_ip_limit)
        }
    }

    pub open spec fn can_acquire(self, peer: Option<Peer>) -> bool {
        match (peer, self.counts) {
            (Some(peer), Some(counts)) => counts.can_acquire(peer.spec_key(), self.per_ip_limit),
            _ => true,
        }
    }

    pub open spec fn acquired(self, peer: Option<Peer>) -> Self {
        match (peer, self.counts) {
            (Some(peer), Some(counts)) => AcceptView {
                counts: Some(counts.acquired(peer.spec_key())),
                ..self
            },
            _ => self,
        }
    }

    pub open spec fn released(self, peer: Peer) -> Self {
        match self.counts {
            Some(counts) => AcceptView { counts: Some(counts.released(peer.spec_key())), ..self },
            None => self,
        }
    }

    /// What becomes of an accept; `current` says whether it came for the arming
    /// that stands.
    pub open spec fn outcome(self, current: bool, event: AcceptEvent, peer: Option<Peer>) -> Outcome {
        match event {
            AcceptEvent::Accepted(fd) if current && !self.canceling && fd < self.accept_slot => {
                if self.can_acquire(peer) {
                    Outcome::Accepted { fd, peer }
                } else {
                    Outcome::Capped(peer->0)
                }
            },
            _ => Outcome::Rejected,
        }
    }

    pub open spec fn completed(
        self,
        current: bool,
        more: bool,
        event: AcceptEvent,
        peer: Option<Peer>,
    ) -> Self {
        let told = AcceptView { canceling: self.canceling && more, ..self };
        if self.outcome(current, event, peer) is Accepted {
            told.acquired(peer)
        } else {
            told
        }
    }
}

/// Nothing is accepted once the accepting has been stopped.
pub proof fn law_stopped_accepts_nothing(
    view: AcceptView,
    current: bool,
    event: AcceptEvent,
    peer: Option<Peer>,
)
    requires
        view.canceling,
    ensures
        view.outcome(current, event, peer) is Rejected,
        view.completed(current, true, event, peer).canceling,
        !view.completed(current, false, event, peer).canceling,
{
}

/// A peer at its limit is turned away, and its count does not change.
pub proof fn law_capped_is_turned_away(view: AcceptView, fd: u32, peer: Peer, counts: CountersView)
    requires
        !view.canceling,
        fd < view.accept_slot,
        view.counts == Some(counts),
        view.per_ip_limit > 0,
        counts.count(peer.spec_key()) >= view.per_ip_limit,
    ensures
        view.outcome(true, AcceptEvent::Accepted(fd), Some(peer)) == Outcome::Capped(peer),
        view.completed(true, false, AcceptEvent::Accepted(fd), Some(peer)).counts == view.counts,
{
}

/// A connection is accepted exactly if it came for the arming that stands, no
/// stopping is under way, its descriptor is one of a connection, and its peer has
/// fewer than it may. One whose peer has as many is capped, and all else is rejected.
pub proof fn law_accepted_within_all_limits(
    view: AcceptView,
    current: bool,
    event: AcceptEvent,
    peer: Option<Peer>,
)
    ensures
        ({
            let open = match event {
                AcceptEvent::Accepted(fd) => current && !view.canceling && fd < view.accept_slot,
                _ => false,
            };
            let free = match (peer, view.counts) {
                (Some(p), Some(counts)) => if counts.counts.contains_key(p.spec_key()) {
                    counts.counts[p.spec_key()] < view.per_ip_limit
                } else {
                    counts.len != counts.room
                },
                _ => true,
            };
            let outcome = view.outcome(current, event, peer);
            &&& outcome is Accepted <==> open && free
            &&& outcome is Capped <==> open && !free
            &&& outcome is Rejected <==> !open
            &&& outcome is Accepted ==> event == AcceptEvent::Accepted(outcome->fd)
                && outcome->peer == peer
            &&& outcome is Capped ==> peer == Some(outcome->Capped_0)
        }),
{
}

/// Exactly an accepted connection counts for its peer, as one more, and for no other;
/// a stopping is over with the last completion. Nothing else changes.
pub proof fn law_accepted_is_counted(
    view: AcceptView,
    current: bool,
    more: bool,
    event: AcceptEvent,
    peer: Option<Peer>,
    other: Peer,
)
    requires
        view.wf(),
    ensures
        ({
            let after = view.completed(current, more, event, peer);
            &&& after.canceling == (view.canceling && more)
            &&& after.accept_slot == view.accept_slot
            &&& after.per_ip_limit == view.per_ip_limit
            &&& after.counts is Some <==> view.counts is Some
            &&& view.counts matches Some(counts) ==> {
                let up = view.outcome(current, event, peer) is Accepted && peer == Some(other);
                &&& after.counts->0.room == counts.room
                &&& after.counts->0.count(other.spec_key()) == counts.count(other.spec_key())
                    + if up {
                    1int
                } else {
                    0int
                }
            }
        }),
{
    if let (Some(counts), Some(p)) = (view.counts, peer) {
        table::law_counting_changes_one_counter(
            counts,
            p.spec_key(),
            other.spec_key(),
            view.per_ip_limit,
        );
        if p.spec_key() == other.spec_key() {
            law_peers_have_their_own_counters(p, other);
        }
    }
}

/// A peer that gives a connection back has one less, if it had any, and nobody else
/// has.
pub proof fn law_released_is_counted_off(view: AcceptView, peer: Peer, other: Peer)
    requires
        view.wf(),
    ensures
        ({
            let after = view.released(peer);
            &&& after.canceling == view.canceling
            &&& after.accept_slot == view.accept_slot
            &&& after.per_ip_limit == view.per_ip_limit
            &&& after.counts is Some <==> view.counts is Some
            &&& view.counts matches Some(counts) ==> {
                let was = counts.count(other.spec_key());
                &&& after.counts->0.room == counts.room
                &&& after.counts->0.count(other.spec_key()) == if peer == other && was > 0 {
                    was - 1
                } else {
                    was as int
                }
            }
        }),
{
    if let Some(counts) = view.counts {
        table::law_counting_changes_one_counter(
            counts,
            peer.spec_key(),
            other.spec_key(),
            view.per_ip_limit,
        );
        if peer.spec_key() == other.spec_key() {
            law_peers_have_their_own_counters(peer, other);
        }
    }
}

proof fn lemma_wf_kept(view: AcceptView, peer: Peer)
    requires
        view.wf(),
    ensures
        view.can_acquire(Some(peer)) ==> view.acquired(Some(peer)).wf(),
        view.released(peer).wf(),
{
    if let Some(counts) = view.counts {
        let key = peer.spec_key();
        table::law_limit_is_kept(counts, key, view.per_ip_limit);
        table::lemma_wf_kept(counts, key, view.per_ip_limit);
    }
}

impl View for Accept {
    type V = AcceptView;

    closed spec fn view(&self) -> AcceptView {
        AcceptView {
            accept_slot: self.accept_slot,
            per_ip_limit: self.per_ip_limit,
            counts: match self.per_ip_counts {
                Some(counts) => Some(counts@),
                None => None,
            },
            canceling: self.canceling,
        }
    }
}

impl Accept {
    pub closed spec fn wf(self) -> bool {
        &&& self@.wf()
        &&& self.per_ip_counts matches Some(counts) ==> counts.wf()
    }

    /// Accepts for a listener of up to `accept_slot` connections, no more than
    /// `per_ip_limit` of them from one peer if that is not zero.
    pub fn new(accept_slot: u32, per_ip_limit: u32) -> (accept: Self)
        requires
            accept_slot <= SLOT_MASK,
        ensures
            accept.wf(),
            accept@.accept_slot == accept_slot,
            accept@.per_ip_limit == per_ip_limit,
            !accept@.canceling,
            match accept@.counts {
                Some(counts) => {
                    &&& per_ip_limit != 0
                    &&& counts.counts == Map::<CounterKey, u32>::empty()
                    &&& counts.room == accept_slot
                    &&& counts.len == 0
                },
                None => per_ip_limit == 0,
            },
    {
        let per_ip_counts = if per_ip_limit != 0 {
            Some(Counters::with_capacity(accept_slot as usize))
        } else {
            None
        };
        Accept { accept_slot, per_ip_limit, per_ip_counts, canceling: false }
    }

    /// Stops the accepting. `armed` says whether an accept is armed: it is then to
    /// be canceled.
    pub fn stop_accept(&mut self, armed: bool)
        requires
            old(self).wf(),
        ensures
            final(self).wf(),
            final(self)@ == (AcceptView {
                canceling: old(self)@.canceling || armed,
                ..old(self)@
            }),
    {
        if armed {
            self.canceling = true;
        }
    }

    /// The accept that has to be over before the listener is.
    pub fn quiesce_target(&self, route: u8, armed: bool, epoch: u32) -> (target: Option<Token>)
        ensures
            target == if armed || self@.canceling {
                Some(Token { route, kind: ACCEPT, slot: self@.accept_slot, epoch })
            } else {
                None
            },
    {
        if armed || self.canceling {
            Some(Token { route, kind: ACCEPT, slot: self.accept_slot, epoch })
        } else {
            None
        }
    }

    /// A connection of a peer is gone.
    pub fn release_peer_ip(&mut self, peer: Peer)
        requires
            old(self).wf(),
        ensures
            final(self).wf(),
            final(self)@ == old(self)@.released(peer),
    {
        proof {
            lemma_wf_kept(self@, peer);
        }
        if let Some(counts) = &mut self.per_ip_counts {
            counts.release(peer.key());
        }
    }

    fn acquire_peer_ip(&mut self, peer: Peer) -> (acquired: bool)
        requires
            old(self).wf(),
        ensures
            final(self).wf(),
            acquired == old(self)@.can_acquire(Some(peer)),
            final(self)@ == if acquired {
                old(self)@.acquired(Some(peer))
            } else {
                old(self)@
            },
    {
        proof {
            lemma_wf_kept(self@, peer);
        }
        let limit = self.per_ip_limit;
        match &mut self.per_ip_counts {
            Some(counts) => counts.acquire(peer.key(), limit),
            None => true,
        }
    }

    /// Decides what becomes of an accept from `peer`. The descriptor of one that is
    /// not accepted is to be closed. `more` says whether the arming still stands.
    pub fn complete(
        &mut self,
        current: bool,
        more: bool,
        event: AcceptEvent,
        peer: Option<Peer>,
    ) -> (outcome: Outcome)
        requires
            old(self).wf(),
        ensures
            final(self).wf(),
            outcome == old(self)@.outcome(current, event, peer),
            final(self)@ == old(self)@.completed(current, more, event, peer),
    {
        let canceling = self.canceling;
        if canceling && !more {
            self.canceling = false;
        }
        match event {
            AcceptEvent::Failed => Outcome::Rejected,
            AcceptEvent::Accepted(fd) => {
                if !current || canceling || fd >= self.accept_slot {
                    return Outcome::Rejected;
                }
                if let Some(peer) = peer {
                    if !self.acquire_peer_ip(peer) {
                        return Outcome::Capped(peer);
                    }
                }
                Outcome::Accepted { fd, peer }
            },
        }
    }
}

} // verus!
