//! The system clock, behind a trusted boundary.

use vstd::prelude::*;
use crate::error::Error;

verus! {

/// Relies on `std::time::SystemTime::now` followed by `duration_since` from
/// the Unix epoch: whole seconds since the epoch, or a `Time` error when the
/// clock reads before the epoch.  Nothing is assumed about the value itself:
/// the time is not a function of the program's state.
#[verifier::external_body]
pub fn clock_seconds() -> (r: Result<u64, Error>)
    ensures
        r matches Err(e) ==> e == Error::Time,
{
    match std::time::SystemTime::now().duration_since(std::time::UNIX_EPOCH) {
        Ok(d) => Ok(d.as_secs()),
        Err(_) => Err(Error::Time),
    }
}

} // verus!
