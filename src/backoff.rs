use vstd::prelude::*;

verus! {

/// Delay before the first retry of a failed key, in seconds.
pub const BASE_DELAY_SECS: u64 = 5;

/// Longest delay between retries of a failed key, in seconds.
pub const MAX_DELAY_SECS: u64 = 1000;

pub open spec fn pow2(n: nat) -> nat
    decreases n,
{
    if n == 0 {
        1
    } else {
        2 * pow2((n - 1) as nat)
    }
}

/// The delay scheduled after `failures` earlier consecutive failures:
/// `base * 2^failures`, but never more than `cap`.
pub open spec fn backoff_spec(base: nat, cap: nat, failures: nat) -> nat {
    if base * pow2(failures) <= cap {
        base * pow2(failures)
    } else {
        cap
    }
}

proof fn lemma_pow2_monotone(a: nat, b: nat)
    requires
        a <= b,
    ensures
        pow2(a) <= pow2(b),
    decreases b - a,
{
    if a < b {
        lemma_pow2_monotone(a, (b - 1) as nat);
    }
}

/// `min(base * 2^failures, cap)`, computed without overflow.
pub fn backoff_delay(base: u64, cap: u64, failures: u32) -> (r: u64)
    ensures
        r == backoff_spec(base as nat, cap as nat, failures as nat),
{
    let mut d: u64 = if base <= cap { base } else { cap };
    let mut i: u32 = 0;
    proof {
        assert(pow2(0) == 1);
    }
    while i < failures && d < cap
        invariant
            i <= failures,
            d == backoff_spec(base as nat, cap as nat, i as nat),
        decreases failures - i,
    {
        proof {
            assert(base * pow2((i + 1) as nat) == 2 * (base * pow2(i as nat))) by (nonlinear_arith)
                requires
                    pow2((i + 1) as nat) == 2 * pow2(i as nat),
            ;
        }
        if d > cap - d {
            d = cap;
        } else {
            d = d + d;
        }
        i = i + 1;
    }
    proof {
        if i < failures {
            lemma_pow2_monotone(i as nat, failures as nat);
            assert(base * pow2(i as nat) <= base * pow2(failures as nat)) by (nonlinear_arith)
                requires
                    pow2(i as nat) <= pow2(failures as nat),
            ;
        }
    }
    d
}

/// The delay of the production policy: `min(5 * 2^failures, 1000)` seconds.
pub fn retry_delay_secs(failures: u32) -> (r: u64)
    ensures
        r == backoff_spec(BASE_DELAY_SECS as nat, MAX_DELAY_SECS as nat, failures as nat),
{
    backoff_delay(BASE_DELAY_SECS, MAX_DELAY_SECS, failures)
}

} // verus!
