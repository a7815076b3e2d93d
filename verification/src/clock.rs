//! The wall clock, for the time limit of the randomized solver.

use vstd::prelude::*;
use web_time::Instant;

verus! {

/// `Instant`: a moment of the clock, of which the verifier knows nothing.
#[verifier::external_type_specification]
#[verifier::external_body]
pub struct ExInstant(web_time::Instant);

/// `Instant::now`: the present moment.
#[verifier::external_body]
pub(crate) fn now() -> Instant {
    Instant::now()
}

/// `Instant::elapsed`: the whole milliseconds that have passed since
/// `start`.
#[verifier::external_body]
pub(crate) fn elapsed_millis(start: &Instant) -> u128 {
    start.elapsed().as_millis()
}

} // verus!
