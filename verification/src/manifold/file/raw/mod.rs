//! Operations in flight and what they hold on to.
use vstd::prelude::*;

pub mod table;

use crate::manifold::file::FileError;

verus! {

/// A file to be opened; `P` is a path.
pub struct OpenRequest<P> {
    pub path: P,
}

impl<P> OpenRequest<P> {
    pub fn new(path: P) -> (request: Self)
        ensures
            request.path == path,
    {
        OpenRequest { path }
    }
}

/// What to ask about: a path or an open file.
pub enum StatSource<P, F> {
    Path(P),
    Fd(F),
}

pub struct StatRequest<P, F> {
    pub source: StatSource<P, F>,
}

impl<P, F> StatRequest<P, F> {
    pub fn path(path: P) -> (request: Self)
        ensures
            request.source == StatSource::<P, F>::Path(path),
    {
        StatRequest { source: StatSource::Path(path) }
    }

    pub fn fd(source: F) -> (request: Self)
        ensures
            request.source == StatSource::<P, F>::Fd(source),
    {
        StatRequest { source: StatSource::Fd(source) }
    }

    /// The path of a request that was made for one.
    pub fn into_path(self) -> (path: P)
        requires
            self.source is Path,
        ensures
            self.source == StatSource::<P, F>::Path(path),
    {
        match self.source {
            StatSource::Path(path) => path,
            StatSource::Fd(_) => {
                proof {
                    assert(false);
                }
                vstd::pervasive::unreached()
            },
        }
    }

    /// The open file of a request that was made for one.
    pub fn into_source(self) -> (source: F)
        requires
            self.source is Fd,
        ensures
            self.source == StatSource::<P, F>::Fd(source),
    {
        match self.source {
            StatSource::Fd(source) => source,
            StatSource::Path(_) => {
                proof {
                    assert(false);
                }
                vstd::pervasive::unreached()
            },
        }
    }
}

/// `Vec::capacity`: how many bytes a buffer can hold without growing, which is no
/// less than it holds. No more is claimed of it, for an allocator may give more than
/// was asked for.
#[verifier::external_body]
fn buffer_capacity(buffer: &Vec<u8>) -> (capacity: usize)
    ensures
        capacity >= buffer@.len(),
{
    buffer.capacity()
}

/// The room that a buffer of `capacity` bytes has left when it holds `held`.
pub fn room_of(capacity: usize, held: usize) -> (room: usize)
    requires
        held <= capacity,
    ensures
        room == capacity - held,
{
    capacity - held
}

/// The room that a buffer has left without growing, as [`room_of`] tells it from the
/// capacity. How much the allocator gave is not known, so no more than a bound is
/// said here.
pub fn spare_room(buffer: &Vec<u8>) -> (room: usize)
    ensures
        room + buffer@.len() <= usize::MAX,
{
    room_of(buffer_capacity(buffer), buffer.len())
}

/// The end of a buffer that a read of up to `len` bytes is to fill.
pub struct ReadRegion {
    pub buffer: Vec<u8>,
    pub len: u32,
}

impl ReadRegion {
    /// Prepares `buffer` for a read of up to `len` bytes into the room it has
    /// left; gives it back when that is too little or nothing is to be read.
    pub fn new(buffer: Vec<u8>, len: u32) -> (region: Result<Self, Vec<u8>>)
        ensures
            match region {
                Ok(r) => len > 0 && r.buffer == buffer && r.len == len,
                Err(b) => b == buffer,
            },
    {
        let room = spare_room(&buffer);
        Self::with_room(buffer, room, len)
    }

    /// Like [`ReadRegion::new`], for a buffer with `room` bytes left.
    pub fn with_room(buffer: Vec<u8>, room: usize, len: u32) -> (region: Result<Self, Vec<u8>>)
        ensures
            region == if len == 0 || room < len {
                Err::<ReadRegion, Vec<u8>>(buffer)
            } else {
                Ok(ReadRegion { buffer, len })
            },
    {
        if len == 0 || room < len as usize {
            return Err(buffer);
        }
        Ok(ReadRegion { buffer, len })
    }

    /// Takes in the bytes that were read; gives the buffer back as it was when
    /// they are more than the region was prepared for.
    pub fn commit(self, filled: Vec<u8>) -> (buffer: Result<Vec<u8>, (Vec<u8>, FileError)>)
        ensures
            match buffer {
                Ok(b) => filled@.len() <= self.len && b@ == self.buffer@ + filled@,
                Err((b, error)) => {
                    &&& filled@.len() > self.len
                    &&& b == self.buffer
                    &&& error == FileError::RegionExceeded
                },
            },
    {
        if filled.len() > self.len as usize {
            return Err((self.buffer, FileError::RegionExceeded));
        }
        let mut buffer = self.buffer;
        let mut filled = filled;
        buffer.append(&mut filled);
        Ok(buffer)
    }

    pub fn into_buffer(self) -> (buffer: Vec<u8>)
        ensures
            buffer == self.buffer,
    {
        self.buffer
    }
}

} // verus!
