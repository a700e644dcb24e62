//! The clock.

use vstd::prelude::*;

verus! {

/// Relies on std::time::SystemTime::now: the wall-clock time in milliseconds
/// since the Unix epoch, or zero for a clock set before it. Nothing is known
/// of the value: two reads may differ in any way.
#[verifier::external_body]
pub fn now() -> u128 {
    std::time::SystemTime::now().duration_since(std::time::UNIX_EPOCH).unwrap_or_default().as_millis()
}

} // verus!
