//! Waiting longer after each failure, up to a cap.
use vstd::prelude::*;

verus! {

/// The wait after the next failure: twice as long, but no longer than the cap.
pub open spec fn next_wait(wait_ms: u64, cap_ms: u64) -> u64 {
    if 2 * wait_ms < cap_ms {
        (2 * wait_ms) as u64
    } else {
        cap_ms
    }
}

/// The wait after so many failures in a row.
pub open spec fn wait_after(initial_ms: u64, cap_ms: u64, failures: nat) -> u64
    decreases failures,
{
    if failures == 0 {
        initial_ms
    } else {
        next_wait(wait_after(initial_ms, cap_ms, (failures - 1) as nat), cap_ms)
    }
}

/// Doubles a wait, up to the cap.
pub fn double_wait(wait_ms: u64, cap_ms: u64) -> (r: u64)
    ensures
        r == next_wait(wait_ms, cap_ms),
{
    if wait_ms < cap_ms && wait_ms < cap_ms - wait_ms {
        2 * wait_ms
    } else {
        cap_ms
    }
}

/// Two to a power.
pub open spec fn power_of_two(n: nat) -> nat
    decreases n,
{
    if n == 0 {
        1
    } else {
        2 * power_of_two((n - 1) as nat)
    }
}

/// Powers of two grow.
pub proof fn lemma_powers_grow(a: nat, b: nat)
    requires
        a <= b,
    ensures
        1 <= power_of_two(a) <= power_of_two(b),
    decreases b,
{
    if a < b {
        lemma_powers_grow(a, (b - 1) as nat);
    } else if a > 0 {
        lemma_powers_grow((a - 1) as nat, (a - 1) as nat);
    }
}

/// Waits double with each failure until they reach the cap, and stay there.
pub proof fn law_waits_double_to_the_cap(initial_ms: u64, cap_ms: u64, failures: nat)
    requires
        0 < initial_ms <= cap_ms,
    ensures
        wait_after(initial_ms, cap_ms, failures) == if initial_ms * power_of_two(failures)
            < cap_ms {
            initial_ms * power_of_two(failures)
        } else {
            cap_ms as int
        },
    decreases failures,
{
    if failures > 0 {
        let k = (failures - 1) as nat;
        law_waits_double_to_the_cap(initial_ms, cap_ms, k);
        let p = power_of_two(k);
        assert(initial_ms * (2 * p) == 2 * (initial_ms * p)) by (nonlinear_arith);
    } else {
        assert(initial_ms * power_of_two(failures) == initial_ms) by (nonlinear_arith)
            requires
                power_of_two(failures) == 1,
        ;
    }
}

} // verus!
