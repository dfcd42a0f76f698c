//! The monotonic clock: when a request arrived, when its first token came.
use std::time::Instant;
use vstd::prelude::*;

verus! {

/// A reading of the standard library's monotonic clock, carried as an opaque
/// value.
#[verifier::external_type_specification]
#[verifier::external_body]
pub struct ExInstant(Instant);

/// The position of a clock reading on the monotonic time line, by which the
/// standard library orders readings.
pub uninterp spec fn instant_position(at: Instant) -> int;

/// Reads the clock with [`Instant::now`]. Nothing is claimed of the reading.
#[verifier::external_body]
pub(crate) fn now() -> (at: Instant) {
    Instant::now()
}

/// Compares two readings with the `<` of [`Instant`], which is a total order:
/// `a` is earlier than `b` iff its position on the time line is smaller.
#[verifier::external_body]
pub(crate) fn is_earlier(a: Instant, b: Instant) -> (earlier: bool)
    ensures
        earlier == (instant_position(a) < instant_position(b)),
{
    a < b
}

} // verus!
