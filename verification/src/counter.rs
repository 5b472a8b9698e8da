//! Statistics counters.
use vstd::prelude::*;

verus! {

/// A counter after `n` more counts. Counters start over past `u64::MAX`.
pub open spec fn counted(counter: u64, n: nat) -> u64 {
    ((counter + n) % 0x1_0000_0000_0000_0000) as u64
}

/// Counts `n` more.
pub fn count(counter: u64, n: u64) -> (r: u64)
    ensures
        r == counted(counter, n as nat),
{
    counter.wrapping_add(n)
}

/// Counting in steps counts their sum.
pub proof fn law_counts_add_up(counter: u64, a: nat, b: nat)
    ensures
        counted(counted(counter, a), b) == counted(counter, a + b),
        counted(counter, 0) == counter,
{
}

} // verus!
