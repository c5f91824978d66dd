//! A primality test over ordinary machine integers, by trial division.

use vstd::prelude::*;

verus! {

/// `n` is prime: at least 2, and no smaller number from 2 on divides it.
pub open spec fn spec_is_prime(n: nat) -> bool {
    n >= 2 && forall|d: nat| 2 <= d < n ==> #[trigger] (n % d) != 0
}

/// Trial division over every candidate divisor below `n`.
pub fn is_prime(n: u64) -> (r: bool)
    ensures
        r == spec_is_prime(n as nat),
{
    if n < 2 {
        return false;
    }
    let mut d: u64 = 2;
    while d < n
        invariant
            2 <= d <= n,
            forall|e: nat| 2 <= e < d ==> #[trigger] ((n as nat) % e) != 0,
        decreases n - d,
    {
        if n % d == 0 {
            proof {
                assert((n as nat) % (d as nat) == 0);
            }
            return false;
        }
        d += 1;
    }
    true
}

} // verus!
