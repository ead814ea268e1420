//! The pool's clock: whole milliseconds since the pool was made.
//!
//! Instants are opaque, so the bookkeeping works on plain tick counts. The
//! three items below are believed, not proved; nothing is claimed of a
//! reading of the clock.

use vstd::prelude::*;
use tokio::time::Instant;

verus! {

/// `tokio::time::Instant`, a point on tokio's monotonic clock. Verus sees
/// nothing inside it.
#[verifier::external_type_specification]
#[verifier::external_body]
pub struct ExInstant(tokio::time::Instant);

/// `tokio::time::Instant::now`: the current instant. What it returns
/// depends on the moment of the call, so nothing is stated of it.
#[verifier::external_body]
pub(crate) fn instant_now() -> Instant {
    Instant::now()
}

/// `tokio::time::Instant::elapsed`, in whole milliseconds: the time that
/// has passed since `origin`, zero if `origin` lies in the future. It
/// reads the clock, so nothing is stated of the number.
#[verifier::external_body]
pub(crate) fn millis_since(origin: &Instant) -> u64 {
    origin.elapsed().as_millis() as u64
}

} // verus!
