//! Bytes that are taken in at one end and used up at the other.
use vstd::prelude::*;

verus! {

/// `o3::buffer::SnapshotBuf`.
#[verifier::external_type_specification]
#[verifier::external_body]
pub struct ExSnapshotBuf<const MAX_CAPACITY: usize>(o3::buffer::SnapshotBuf<MAX_CAPACITY>);

/// `o3::buffer::Shared`.
#[verifier::external_type_specification]
#[verifier::external_body]
pub struct ExShared(o3::buffer::Shared);

/// The bytes in a buffer that have not been used up.
pub uninterp spec fn buffered(buffer: o3::buffer::SnapshotBuf<4294967295>) -> Seq<u8>;

/// The bytes that a snapshot shows.
pub uninterp spec fn shared_bytes(shared: o3::buffer::Shared) -> Seq<u8>;

/// `SnapshotBuf::with_capacity_up_to`: an empty buffer.
#[verifier::external_body]
fn buffer_new(capacity: usize) -> (buffer: o3::buffer::SnapshotBuf<4294967295>)
    ensures
        buffered(buffer).len() == 0,
{
    o3::buffer::SnapshotBuf::with_capacity_up_to(capacity)
}

/// `SnapshotBuf::len`: how many bytes have not been used up.
#[verifier::external_body]
fn buffer_len(buffer: &o3::buffer::SnapshotBuf<4294967295>) -> (len: usize)
    ensures
        len == buffered(*buffer).len(),
{
    buffer.len()
}

/// `SnapshotBuf::try_extend_from_slice`: adds bytes, unless there would be more
/// than the buffer may ever hold.
#[verifier::external_body]
fn buffer_extend(buffer: &mut o3::buffer::SnapshotBuf<4294967295>, src: &[u8]) -> (extended: bool)
    ensures
        extended <==> buffered(*old(buffer)).len() + src@.len() <= 4294967295,
        buffered(*final(buffer)) == if extended {
            buffered(*old(buffer)) + src@
        } else {
            buffered(*old(buffer))
        },
{
    buffer.try_extend_from_slice(src).is_ok()
}

/// `SnapshotBuf::try_reserve_to`: makes room for `target` bytes in all, unless
/// that is more than the buffer may ever hold.
#[verifier::external_body]
fn buffer_reserve_to(
    buffer: &mut o3::buffer::SnapshotBuf<4294967295>,
    target: usize,
) -> (reserved: bool)
    ensures
        reserved <==> target <= 4294967295,
        buffered(*final(buffer)) == buffered(*old(buffer)),
{
    buffer.try_reserve_to(target).is_ok()
}

/// `SnapshotBuf::snapshot`: the bytes that have not been used up, if there are
/// any.
#[verifier::external_body]
fn buffer_snapshot(buffer: &o3::buffer::SnapshotBuf<4294967295>) -> (shared: Option<
    o3::buffer::Shared,
>)
    ensures
        match shared {
            Some(s) => buffered(*buffer).len() > 0 && shared_bytes(s) == buffered(*buffer),
            None => buffered(*buffer).len() == 0,
        },
{
    buffer.snapshot()
}

/// `SnapshotBuf::try_advance`: uses up bytes, unless there are fewer.
#[verifier::external_body]
fn buffer_advance(buffer: &mut o3::buffer::SnapshotBuf<4294967295>, amount: usize) -> (advanced: bool)
    ensures
        advanced <==> amount <= buffered(*old(buffer)).len(),
        buffered(*final(buffer)) == if advanced {
            buffered(*old(buffer)).skip(amount as int)
        } else {
            buffered(*old(buffer))
        },
{
    buffer.try_advance(amount)
}

/// `SnapshotBuf::compact`: gives room back, and keeps the bytes.
#[verifier::external_body]
fn buffer_compact(buffer: &mut o3::buffer::SnapshotBuf<4294967295>)
    ensures
        buffered(*final(buffer)) == buffered(*old(buffer)),
{
    buffer.compact()
}

/// `Shared::default`: a snapshot of no bytes.
#[verifier::external_body]
pub(crate) fn shared_empty() -> (shared: o3::buffer::Shared)
    ensures
        shared_bytes(shared) == Seq::<u8>::empty(),
{
    o3::buffer::Shared::default()
}

/// `Shared::as_slice`: the bytes of a snapshot.
#[verifier::external_body]
pub(crate) fn shared_slice(shared: &o3::buffer::Shared) -> (bytes: &[u8])
    ensures
        bytes@ == shared_bytes(*shared),
{
    shared.as_slice()
}

/// A buffer for at most `CAP` bytes.
pub struct Accumulator<const CAP: usize> {
    buffer: o3::buffer::SnapshotBuf<4294967295>,
}

impl<const CAP: usize> View for Accumulator<CAP> {
    type V = Seq<u8>;

    closed spec fn view(&self) -> Seq<u8> {
        buffered(self.buffer)
    }
}

impl<const CAP: usize> Accumulator<CAP> {
    pub open spec fn wf(self) -> bool {
        self@.len() <= CAP <= u32::MAX
    }

    /// An empty buffer with room for `capacity` bytes at first, or for `CAP`.
    pub fn with_capacity(capacity: usize) -> (accumulator: Self)
        requires
            CAP <= u32::MAX,
        ensures
            accumulator.wf(),
            accumulator@ == Seq::<u8>::empty(),
    {
        let capacity = if capacity < CAP {
            capacity
        } else {
            CAP
        };
        let accumulator = Accumulator { buffer: buffer_new(capacity) };
        assert(accumulator@ =~= Seq::<u8>::empty());
        accumulator
    }

    pub fn len(&self) -> (len: usize)
        ensures
            len == self@.len(),
    {
        buffer_len(&self.buffer)
    }

    /// Adds bytes, unless there would be more than `CAP`.
    pub fn extend(&mut self, src: &[u8]) -> (extended: bool)
        requires
            old(self).wf(),
        ensures
            final(self).wf(),
            extended <==> old(self)@.len() + src@.len() <= CAP,
            final(self)@ == if extended {
                old(self)@ + src@
            } else {
                old(self)@
            },
    {
        if src.len() > CAP - buffer_len(&self.buffer) {
            return false;
        }
        buffer_extend(&mut self.buffer, src)
    }

    /// Makes room for `target` bytes in all, unless that is more than `CAP`.
    pub fn reserve_to(&mut self, target: usize) -> (reserved: bool)
        requires
            old(self).wf(),
        ensures
            final(self).wf(),
            reserved <==> target <= CAP,
            final(self)@ == old(self)@,
    {
        if target > CAP {
            return false;
        }
        buffer_reserve_to(&mut self.buffer, target)
    }

    pub fn snapshot(&self) -> (shared: Option<o3::buffer::Shared>)
        ensures
            match shared {
                Some(s) => self@.len() > 0 && shared_bytes(s) == self@,
                None => self@.len() == 0,
            },
    {
        buffer_snapshot(&self.buffer)
    }

    /// Uses up the first `amount` bytes, unless there are fewer.
    pub fn advance(&mut self, amount: usize) -> (advanced: bool)
        requires
            old(self).wf(),
        ensures
            final(self).wf(),
            advanced <==> amount <= old(self)@.len(),
            final(self)@ == if advanced {
                old(self)@.skip(amount as int)
            } else {
                old(self)@
            },
    {
        buffer_advance(&mut self.buffer, amount)
    }

    pub fn compact(&mut self)
        requires
            old(self).wf(),
        ensures
            final(self).wf(),
            final(self)@ == old(self)@,
    {
        buffer_compact(&mut self.buffer);
    }
}

} // verus!
