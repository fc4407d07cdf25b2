//! Counting trailing zero bits, and powers of two.

use super::roots::trailing_zeros;
use vstd::arithmetic::power2::*;
use vstd::prelude::*;

verus! {

/// `n` is zero, or a power of two whose exponent is at most `level`.
pub open spec fn transformable(n: nat, level: nat) -> bool {
    n == 0 || (n == pow2(trailing_zeros(n)) && trailing_zeros(n) <= level)
}

/// A power of two has as many trailing zeros as its exponent.
pub proof fn lemma_trailing_zeros_pow2(k: nat)
    ensures
        trailing_zeros(pow2(k)) == k,
    decreases k,
{
    lemma2_to64();
    if k > 0 {
        lemma_pow2_unfold(k);
        lemma_pow2_pos((k - 1) as nat);
        lemma_trailing_zeros_pow2((k - 1) as nat);
        assert(pow2(k) / 2 == pow2((k - 1) as nat));
    }
}

/// Powers of two grow with the exponent.
pub proof fn lemma_pow2_le(a: nat, b: nat)
    requires
        a <= b,
    ensures
        pow2(a) <= pow2(b),
{
    if a < b {
        lemma_pow2_strictly_increases(a, b);
    }
}

/// The number of trailing zero bits of a positive `x`.
pub fn count_trailing_zeros(x: u64) -> (r: u32)
    requires
        x > 0,
    ensures
        r == trailing_zeros(x as nat),
        r < 64,
        pow2(r as nat) <= x,
{
    let mut y = x;
    let mut c: u32 = 0;
    proof {
        lemma2_to64();
    }
    while y % 2 == 0
        invariant
            y > 0,
            c < 64,
            y * pow2(c as nat) == x,
            trailing_zeros(x as nat) == c + trailing_zeros(y as nat),
        decreases y,
    {
        proof {
            lemma_pow2_unfold((c + 1) as nat);
            assert((y / 2) * pow2((c + 1) as nat) == x) by (nonlinear_arith)
                requires
                    y % 2 == 0,
                    y * pow2(c as nat) == x,
                    pow2((c + 1) as nat) == 2 * pow2(c as nat),
            ;
            // the new power still fits below 2^64
            if c + 1 >= 64 {
                lemma_pow2_le(64, (c + 1) as nat);
                lemma2_to64();
                assert((y / 2) * pow2((c + 1) as nat) >= pow2((c + 1) as nat)) by (nonlinear_arith)
                    requires
                        y / 2 >= 1,
                ;
            }
        }
        y = y / 2;
        c = c + 1;
    }
    proof {
        assert(pow2(c as nat) <= x) by (nonlinear_arith)
            requires
                y >= 1,
                y * pow2(c as nat) == x,
        ;
    }
    c
}

} // verus!
