//! What rounding to a floating-point number keeps of a ratio.
use crate::float::{
    binade, lemma_binade_exists, lemma_power_next, lemma_power_one, lemma_power_pos, nearest, power,
};
use crate::float_order::lemma_nearest_bits;
use crate::rounding::{round_half_even, rounding_is_near};
use vstd::arithmetic::power2::{lemma_pow2_pos, lemma_pow2_unfold, pow2};
use vstd::prelude::*;

verus! {

/// Whether the number `x.0 * 2^x.1` stands for `n / d` in `bits` significant bits: its
/// mantissa has just that many, and no other number with that exponent is nearer; of two
/// that are as near, it is the one with the even mantissa. Zero stands for zero.
pub open spec fn stands_for(x: (int, int), n: nat, d: nat, bits: nat) -> bool {
    if n == 0 {
        x == (0int, 0int)
    } else {
        let above = n * power(-x.1);
        let below = d * power(x.1);
        &&& pow2((bits - 1) as nat) <= x.0 < pow2(bits)
        &&& (2 * x.0 - 1) * below <= 2 * above <= (2 * x.0 + 1) * below
        &&& (2 * x.0 - 1) * below == 2 * above || 2 * above == (2 * x.0 + 1) * below ==> x.0 % 2
            == 0
    }
}

/// The number nearest to a ratio is off by at most half a unit of its last bit.
pub proof fn nearest_is_near(n: nat, d: nat, bits: nat)
    requires
        d > 0,
        bits > 1,
    ensures
        stands_for(nearest(n, d, bits), n, d, bits),
{
    if n > 0 {
        lemma_binade_exists(n, d, bits);
        lemma_nearest_bits(n, d, bits);
        let e = binade(n, d, bits);
        lemma_power_pos(e);
        let (num, den) = (n * power(-e), d * power(e));
        assert(den > 0) by (nonlinear_arith)
            requires
                den == d * power(e),
                d > 0,
                power(e) > 0,
        ;
        rounding_is_near(num, den);
        let r = round_half_even(num, den);
        if r == pow2(bits) {
            let half = pow2((bits - 1) as nat);
            lemma_pow2_unfold(bits);
            lemma_pow2_pos((bits - 1) as nat);
            lemma_pow2_unfold((bits - 1) as nat);
            let f = e + 1;
            let (above, below) = (n * power(-f), d * power(f));
            if e >= 0 {
                lemma_power_next(d as int, e);
                lemma_power_one(n as int, -e);
                lemma_power_one(n as int, -f);
                assert(below == 2 * den && above == num);
                assert((2 * half - 1) * (2 * den) <= 2 * num <= (2 * half + 1) * (2 * den))
                    by (nonlinear_arith)
                    requires
                        (2 * r - 1) * den <= 2 * num,
                        num < r * den,
                        r == 2 * half,
                        den > 0,
                ;
            } else {
                lemma_power_next(n as int, -e - 1);
                lemma_power_one(d as int, e);
                lemma_power_one(d as int, f);
                assert(below == den && num == 2 * above);
                assert((2 * half - 1) * den <= 2 * above <= (2 * half + 1) * den)
                    by (nonlinear_arith)
                    requires
                        (2 * r - 1) * den <= 4 * above,
                        2 * above < r * den,
                        r == 2 * half,
                        den > 0,
                ;
            }
        }
    }
}

} // verus!
