//! Counters that start over when they are full.
use vstd::prelude::*;

verus! {

/// A count with one more.
pub open spec fn one_more(n: u64) -> u64 {
    if n == u64::MAX {
        0
    } else {
        (n + 1) as u64
    }
}

/// A count with one more.
pub fn up(n: u64) -> (r: u64)
    ensures
        r == one_more(n),
{
    n.wrapping_add(1)
}

} // verus!
