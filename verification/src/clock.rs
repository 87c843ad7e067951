//! The clock that stamps new versions.

use vstd::prelude::*;

verus! {

/// Relies on std::time::SystemTime::now and SystemTime::duration_since:
/// nanoseconds elapsed since the Unix epoch, truncated to 64 bits, or zero
/// if the system clock reads before the epoch. Nothing is assumed of the
/// value: the clock may stall or run backward, so the write path must treat
/// a colliding timestamp as a detectable failure, never as license to
/// overwrite.
#[verifier::external_body]
pub(crate) fn now_nanos() -> u64 {
    match std::time::SystemTime::now().duration_since(std::time::UNIX_EPOCH) {
        Ok(d) => d.as_nanos() as u64,
        Err(_) => 0,
    }
}

} // verus!
