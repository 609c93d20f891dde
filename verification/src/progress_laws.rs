//! Progress goes forward.
use crate::float::{
    binade, lemma_binade_exists, lemma_power_at_most, nearest, power, quotient, single_of,
};
use crate::float_order::{
    lemma_multiple_keeps_order, lemma_nearest_bits, lemma_nearest_keeps_order,
    lemma_quotient_keeps_order,
};
use crate::progress::{percent_bits, percent_parts, whole_is_a_hundred_percent, HUNDRED};
use vstd::arithmetic::power2::{lemma2_to64, lemma2_to64_rest, lemma_pow2_adds, pow2};
use vstd::prelude::*;

verus! {

/// How small the exponent of a nearest binary32 number can be.
proof fn lemma_exponent_at_least(n: nat, d: nat, k: nat)
    requires
        n > 0,
        0 < d <= pow2(k),
    ensures
        nearest(n, d, 24).1 >= -24 - k,
{
    lemma_binade_exists(n, d, 24);
    let e = binade(n, d, 24);
    if e < 0 {
        assert(power(-e) <= pow2(24) * pow2(k)) by (nonlinear_arith)
            requires
                n * power(-e) < pow2(24) * d,
                n > 0,
                d <= pow2(k),
        ;
        lemma_pow2_adds(24, k);
        lemma_power_at_most(-e, 24 + k);
    }
}

/// How great the exponent of the binary32 number nearest to an integer can be.
proof fn lemma_exponent_at_most(n: nat)
    requires
        0 < n <= u64::MAX,
    ensures
        nearest(n, 1, 24).1 <= 42,
{
    lemma_binade_exists(n, 1, 24);
    let e = binade(n, 1, 24);
    lemma2_to64();
    lemma2_to64_rest();
    if e > 0 {
        lemma_power_at_most(e, 41);
    }
}

/// Nothing copied is zero percent.
pub proof fn nothing_is_zero_percent(total: nat)
    ensures
        percent_bits(0, total) == 0,
{
}

/// More bytes copied are not less in percent.
pub proof fn percent_goes_forward(copied: nat, more: nat, total: nat)
    requires
        copied <= more,
        total <= u64::MAX,
    ensures
        percent_bits(copied, total) <= percent_bits(more, total),
{
    if total > 0 {
        lemma2_to64();
        lemma_nearest_keeps_order(copied, 1, more, 1, 24);
        if copied > 0 {
            lemma_nearest_bits(copied, 1, 24);
        }
        if more > 0 {
            lemma_nearest_bits(more, 1, 24);
        }
        lemma_nearest_bits(total, 1, 24);
        let (a, b, c) = (single_of(copied), single_of(more), single_of(total));
        lemma_quotient_keeps_order(a, b, c, 24);
        lemma_quotient_keeps_order(b, b, c, 24);
        let (x, y) = (quotient(a, c, 24), quotient(b, c, 24));
        lemma_multiple_keeps_order(x, y, 100, 24);
        lemma_multiple_keeps_order(y, y, 100, 24);
        let (p, q) = (percent_parts(copied, total), percent_parts(more, total));
        if copied == 0 && more > 0 {
            lemma_exponent_at_least(more, 1, 0);
            lemma_exponent_at_most(total);
            lemma_exponent_at_least(b.0 as nat, c.0 as nat, 24);
            lemma_exponent_at_least((y.0 * 100) as nat, 1, 0);
        }
    }
}

/// A part is at most a hundred percent.
pub proof fn percent_is_at_most_a_hundred(copied: nat, total: nat)
    requires
        copied <= total <= u64::MAX,
    ensures
        percent_bits(copied, total) <= HUNDRED,
{
    percent_goes_forward(copied, total, total);
    if total > 0 {
        whole_is_a_hundred_percent(total);
    }
}

} // verus!
