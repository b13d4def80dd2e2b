//! The clock of the library: times are nanoseconds on a monotonic clock,
//! and the timeouts of the configuration are whole milliseconds.

use vstd::prelude::*;

verus! {

/// The whole milliseconds from `creation` to `time` (both in
/// nanoseconds), or 0 if `time` lies before `creation`.
pub open spec fn elapsed_ms(creation: u64, time: u64) -> u64 {
    if time >= creation {
        ((time - creation) / 1_000_000) as u64
    } else {
        0
    }
}

/// The whole milliseconds in `nanos` nanoseconds.
pub fn whole_millis(nanos: u64) -> (r: u64)
    ensures
        r == nanos / 1_000_000,
{
    nanos / 1_000_000
}

} // verus!
