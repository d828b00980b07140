//! What is to be sent.
use vstd::prelude::*;

verus! {

/// The bytes of a datagram. `B` is a buffer on loan and `K` a received packet that
/// is sent on; both stay with the driver.
pub enum Payload<B, K> {
    Owned(Vec<u8>),
    Buffer { lease: B, len: usize },
    Packet { packet: K, len: usize },
}

impl<B, K> Payload<B, K> {
    pub open spec fn spec_len(self) -> int {
        match self {
            Payload::Owned(payload) => payload@.len() as int,
            Payload::Buffer { len, .. } => len as int,
            Payload::Packet { len, .. } => len as int,
        }
    }

    pub fn len(&self) -> (len: usize)
        ensures
            len == self.spec_len(),
    {
        match self {
            Payload::Owned(payload) => payload.len(),
            Payload::Buffer { len, .. } => *len,
            Payload::Packet { len, .. } => *len,
        }
    }
}

/// A payload counts with all of its bytes: those it owns, or those that its buffer or
/// packet is said to hold.
pub proof fn law_payload_counts_all_bytes<B, K>(payload: Payload<B, K>)
    ensures
        payload matches Payload::Owned(bytes) ==> payload.spec_len() == bytes@.len(),
        payload matches Payload::Buffer { lease, len } ==> payload.spec_len() == len,
        payload matches Payload::Packet { packet, len } ==> payload.spec_len() == len,
        payload.spec_len() >= 0,
{
}

/// A datagram, or several of the same size in one payload.
pub struct Outgoing<A, B, K> {
    pub addr: A,
    pub payload: Payload<B, K>,
    /// The size of each, or zero for a single one.
    pub segment_size: u16,
}

impl<A, B, K> Outgoing<A, B, K> {
    pub fn plain(payload: Payload<B, K>, addr: A) -> (out: Self)
        ensures
            out == (Outgoing { addr, payload, segment_size: 0 }),
    {
        Outgoing { addr, payload, segment_size: 0 }
    }

    pub fn gso(payload: Vec<u8>, segment_size: u16, addr: A) -> (out: Self)
        ensures
            out == (Outgoing::<A, B, K> { addr, payload: Payload::Owned(payload), segment_size }),
    {
        Outgoing { addr, payload: Payload::Owned(payload), segment_size }
    }
}

} // verus!
