//! What is known of a file.
use vstd::prelude::*;

verus! {

pub const NANOS_PER_SEC: u32 = 1_000_000_000;

/// A point in time, as whole seconds before or after 1970 and nanoseconds into
/// that second.
#[derive(Clone, Copy, PartialEq, Eq, Structural, Debug)]
pub struct SystemTime {
    pub seconds: i64,
    pub nanos: u32,
}

impl SystemTime {
    /// The nanoseconds since 1970.
    pub open spec fn total(self) -> int {
        self.seconds * NANOS_PER_SEC + self.nanos
    }

    pub open spec fn wf(self) -> bool {
        self.nanos < NANOS_PER_SEC
    }
}

/// What the operating system reports of a file. The modification time is a
/// number of seconds and of nanoseconds after them.
#[derive(Clone, Copy, Debug)]
pub struct RawMetadata {
    pub len: u64,
    pub modified: Option<(i64, u32)>,
    pub regular: bool,
}

#[derive(Clone, Copy, PartialEq, Eq, Structural, Debug)]
pub struct Metadata {
    len: u64,
    modified: Option<SystemTime>,
    file: bool,
}

/// The time that many seconds and nanoseconds after 1970, if it can be named.
pub open spec fn time_at(seconds: i64, nanos: u32) -> Option<SystemTime> {
    let second = seconds + nanos as int / NANOS_PER_SEC as int;
    if second > i64::MAX {
        None
    } else {
        Some(SystemTime { seconds: second as i64, nanos: (nanos % NANOS_PER_SEC) as u32 })
    }
}

/// The time named is exactly the one asked for.
pub proof fn law_time_is_exact(seconds: i64, nanos: u32)
    ensures
        time_at(seconds, nanos) matches Some(t) ==> t.wf() && t.total() == seconds * NANOS_PER_SEC
            + nanos,
{
}

/// A time is named unless it lies beyond the last second that can be.
pub proof fn law_time_is_named_if_it_can_be(seconds: i64, nanos: u32)
    ensures
        time_at(seconds, nanos) is Some <==> seconds * NANOS_PER_SEC + nanos < (i64::MAX + 1)
            * NANOS_PER_SEC,
{
}

impl Metadata {
    pub closed spec fn spec_len(self) -> u64 {
        self.len
    }

    pub closed spec fn spec_modified(self) -> Option<SystemTime> {
        self.modified
    }

    pub closed spec fn spec_is_file(self) -> bool {
        self.file
    }

    /// What a report amounts to.
    pub closed spec fn of(meta: RawMetadata) -> Metadata {
        Metadata {
            len: meta.len,
            modified: match meta.modified {
                Some((seconds, nanos)) => time_at(seconds, nanos),
                None => None,
            },
            file: meta.regular,
        }
    }

    pub fn len(self) -> (len: u64)
        ensures
            len == self.spec_len(),
    {
        self.len
    }

    pub fn is_empty(self) -> (empty: bool)
        ensures
            empty == (self.spec_len() == 0),
    {
        self.len == 0
    }

    pub fn modified(self) -> (time: Option<SystemTime>)
        ensures
            time == self.spec_modified(),
    {
        self.modified
    }

    pub fn is_file(self) -> (file: bool)
        ensures
            file == self.spec_is_file(),
    {
        self.file
    }

    pub fn from_raw(meta: RawMetadata) -> (metadata: Self)
        ensures
            metadata.spec_len() == meta.len,
            metadata.spec_is_file() == meta.regular,
            metadata.spec_modified() == match meta.modified {
                Some((seconds, nanos)) => time_at(seconds, nanos),
                None => None,
            },
            metadata == Metadata::of(meta),
    {
        let modified = match meta.modified {
            Some((seconds, nanos)) => Self::modified_time(seconds, nanos),
            None => None,
        };
        Metadata { len: meta.len, modified, file: meta.regular }
    }

    /// The time that many seconds and nanoseconds after 1970; `None` when it lies
    /// beyond the last second that can be named.
    pub fn modified_time(seconds: i64, nanos: u32) -> (time: Option<SystemTime>)
        ensures
            time == time_at(seconds, nanos),
    {
        let carry: u32 = nanos / NANOS_PER_SEC;
        let rest: u32 = nanos % NANOS_PER_SEC;
        match seconds.checked_add(carry as i64) {
            Some(seconds) => Some(SystemTime { seconds, nanos: rest }),
            None => None,
        }
    }
}
/// What is known of a file is what was reported of it.
pub proof fn law_metadata_is_as_reported(meta: RawMetadata)
    ensures
        Metadata::of(meta).spec_len() == meta.len,
        Metadata::of(meta).spec_is_file() == meta.regular,
        meta.modified is None ==> Metadata::of(meta).spec_modified() is None,
        meta.modified matches Some(at) ==> (Metadata::of(meta).spec_modified() matches Some(t)
            ==> t.total() == at.0 * NANOS_PER_SEC + at.1),
        meta.modified matches Some(at) ==> (Metadata::of(meta).spec_modified() is Some <==> at.0
            * NANOS_PER_SEC + at.1 < (i64::MAX + 1) * NANOS_PER_SEC),
{
    if let Some(at) = meta.modified {
        law_time_is_exact(at.0, at.1);
        law_time_is_named_if_it_can_be(at.0, at.1);
    }
}


} // verus!
