//! Clock readings and spans as plain numbers of nanoseconds.
use vstd::prelude::*;

verus! {

/// A reading of the driver's monotonic clock, in nanoseconds since its origin.
pub type Instant = u128;

/// A span of time in nanoseconds.
pub type Duration = u128;

/// The longest span that the clock can name: `u64::MAX` seconds and
/// 999 999 999 nanoseconds.
pub const MAX_DURATION: u128 = 18_446_744_073_709_551_615_999_999_999;

/// The smaller of two optional deadlines, where `None` never comes.
pub open spec fn min_deadline(a: Option<Instant>, b: Option<Instant>) -> Option<Instant> {
    match (a, b) {
        (Some(x), Some(y)) => Some(if y < x { y } else { x }),
        (Some(x), None) => Some(x),
        (None, y) => y,
    }
}

/// Returns the earlier of two optional deadlines.
pub fn earlier(a: Option<Instant>, b: Option<Instant>) -> (r: Option<Instant>)
    ensures
        r == min_deadline(a, b),
{
    match (a, b) {
        (Some(x), Some(y)) => Some(if y < x { y } else { x }),
        (Some(x), None) => Some(x),
        (None, y) => y,
    }
}

/// The instant `span` after `at`, or the last one there is.
pub open spec fn after(at: Instant, span: Duration) -> Instant {
    if at + span <= u128::MAX {
        (at + span) as u128
    } else {
        u128::MAX
    }
}

/// Returns the deadline that lies `span` after `at`.
pub fn deadline_after(at: Instant, span: Duration) -> (deadline: Instant)
    ensures
        deadline == after(at, span),
{
    at.saturating_add(span)
}
/// The earlier of two deadlines is one of them, and neither comes before it; there
/// is one if either is given.
pub proof fn law_earlier_is_the_first(a: Option<Instant>, b: Option<Instant>)
    ensures
        min_deadline(a, b) is Some <==> a is Some || b is Some,
        min_deadline(a, b) == a || min_deadline(a, b) == b,
        a matches Some(x) ==> min_deadline(a, b)->0 <= x,
        b matches Some(y) ==> min_deadline(a, b)->0 <= y,
{
}

/// A deadline lies exactly its span after the start, or at the end of time if that
/// comes first.
pub proof fn law_deadline_lies_a_span_later(at: Instant, span: Duration)
    ensures
        at + span <= u128::MAX ==> after(at, span) == at + span,
        at + span > u128::MAX ==> after(at, span) == u128::MAX,
{
}


} // verus!
