//! Where connections come from: which upstream to dial next, and when.
use vstd::prelude::*;

pub mod explicit;
pub mod health;
pub mod tagged;

use crate::collections::slab::SlabKey;
use crate::time::Instant;

verus! {

/// Names one use of one slot of a dialer: it goes stale when the slot moves on
/// to its next generation.
#[derive(Clone, Copy, PartialEq, Eq, Structural, Debug)]
pub struct DialKey {
    pub index: u32,
    pub generation: u32,
}

impl DialKey {
    pub fn new(index: u32, generation: u32) -> (key: Self)
        ensures
            key == (DialKey { index, generation }),
    {
        DialKey { index, generation }
    }

    pub open spec fn spec_parts(self) -> SlabKey {
        SlabKey { index: self.index, generation: self.generation }
    }

    /// The key of a slab that this key is made of.
    pub fn parts(self) -> (key: SlabKey)
        ensures
            key == self.spec_parts(),
    {
        SlabKey { index: self.index, generation: self.generation }
    }

    pub fn from_slab(key: SlabKey) -> (dial: Self)
        ensures
            dial.spec_parts() == key,
    {
        DialKey { index: key.index, generation: key.generation }
    }

    pub fn index(self) -> (index: u32)
        ensures
            index == self.index,
    {
        self.index
    }

    pub fn generation(self) -> (generation: u32)
        ensures
            generation == self.generation,
    {
        self.generation
    }
}

/// A dial key and the key of the slab that it is made of name each other.
pub proof fn law_dial_key_names_one_slot(key: DialKey, other: DialKey)
    ensures
        key.spec_parts().index == key.index,
        key.spec_parts().generation == key.generation,
        key.spec_parts() == other.spec_parts() <==> key == other,
{
}

/// What a dialer asks for when it is polled.
#[derive(Clone, Copy, PartialEq, Eq, Structural, Debug)]
pub enum Action {
    Connect { key: DialKey },
    Backoff { min_retry_at: Instant },
    Idle,
}

/// A source of addresses to connect to.
///
/// `A` is an address and `C` what a stream to it is set up with. A dialer is told
/// how each connection fares and decides what to dial next. Each spec function
/// says what the method of the same purpose may turn a dialer into.
pub trait Dialer<A, C>: Sized {
    /// What holds of a dialer between any two calls.
    spec fn wf(&self) -> bool;

    spec fn resizes(&self, max_connections: usize, after: Self) -> bool;

    spec fn dials(&self, addr: A, config: C, key: Option<DialKey>, after: Self) -> bool;

    spec fn polls(&self, now: Instant, action: Action, after: Self) -> bool;

    spec fn pending(&self) -> bool;

    spec fn addr(&self, key: DialKey) -> Option<A>;

    spec fn config(&self, key: DialKey) -> Option<C>;

    spec fn settles(&self, key: DialKey, success: bool, now: Instant, after: Self) -> bool;

    spec fn defers(&self, key: DialKey, now: Instant, after: Self) -> bool;

    spec fn drops(&self, key: DialKey, now: Instant, after: Self) -> bool;

    spec fn kills(&self, key: DialKey, after: Self) -> bool;

    spec fn binds(&self, key: DialKey, local: u32, after: Self) -> bool;

    spec fn revives(&self, after: Self) -> bool;

    /// Makes room for `max_connections` connections.
    fn resize(&mut self, max_connections: usize)
        requires
            old(self).wf(),
            max_connections < u32::MAX,
        ensures
            final(self).wf(),
            old(self).resizes(max_connections, *final(self)),
    ;

    /// Asks for a connection to `addr`; `None` when there is no room for it.
    fn dial(&mut self, addr: A, config: C) -> (key: Option<DialKey>)
        requires
            old(self).wf(),
        ensures
            final(self).wf(),
            old(self).dials(addr, config, key, *final(self)),
    ;

    fn poll_connect(&mut self, now: Instant) -> (action: Action)
        requires
            old(self).wf(),
        ensures
            final(self).wf(),
            old(self).polls(now, action, *final(self)),
    ;

    /// Whether polling may yield anything.
    fn has_pending(&self) -> (pending: bool)
        requires
            self.wf(),
        ensures
            pending == self.pending(),
    ;

    /// The address to connect to under `key`.
    fn sock_addr(&self, key: DialKey) -> (addr: Option<&A>)
        requires
            self.wf(),
        ensures
            match addr {
                Some(a) => self.addr(key) == Some(*a),
                None => self.addr(key) is None,
            },
    ;

    /// What the stream under `key` is to be set up with, if that is not the default.
    fn stream_config(&self, key: DialKey) -> (config: Option<C>)
        requires
            self.wf(),
        ensures
            config == self.config(key),
    ;

    fn connect_outcome(&mut self, key: DialKey, success: bool, now: Instant)
        requires
            old(self).wf(),
        ensures
            final(self).wf(),
            old(self).settles(key, success, now, *final(self)),
    ;

    /// The connection under `key` could not be started now and is to be polled again.
    fn connect_deferred(&mut self, key: DialKey, now: Instant)
        requires
            old(self).wf(),
        ensures
            final(self).wf(),
            old(self).defers(key, now, *final(self)),
    ;

    fn disconnect(&mut self, key: DialKey, now: Instant)
        requires
            old(self).wf(),
        ensures
            final(self).wf(),
            old(self).drops(key, now, *final(self)),
    ;

    /// The connection under `key` is not to be dialed again.
    fn kill(&mut self, key: DialKey)
        requires
            old(self).wf(),
        ensures
            final(self).wf(),
            old(self).kills(key, *final(self)),
    ;

    /// The connection under `key` lives in slot `local` of the connector.
    fn bind(&mut self, key: DialKey, local: u32)
        requires
            old(self).wf(),
        ensures
            final(self).wf(),
            old(self).binds(key, local, *final(self)),
    ;

    /// Dials everything again that has failed or been killed.
    fn revive(&mut self)
        requires
            old(self).wf(),
        ensures
            final(self).wf(),
            old(self).revives(*final(self)),
    ;
}

} // verus!
