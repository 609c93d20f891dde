//! Decimal numerals of numbers that no machine integer holds.
use crate::text::{decimal, digit, digit_str, power_of_ten};
use vstd::arithmetic::power2::{lemma2_to64, lemma_pow2_unfold, pow2};
use vstd::prelude::*;

verus! {

/// The number that decimal digits stand for, the lowest digit first.
pub open spec fn value(digits: Seq<u8>) -> nat
    decreases digits.len(),
{
    if digits.len() == 0 {
        0
    } else {
        value(digits.drop_last()) + power_of_ten((digits.len() - 1) as nat) * digits.last() as nat
    }
}

/// Decimal digits without a leading zero.
pub open spec fn is_numeral(digits: Seq<u8>) -> bool {
    &&& digits.len() > 0
    &&& forall|i: int| 0 <= i < digits.len() ==> #[trigger] digits[i] < 10
    &&& digits.len() == 1 || digits.last() > 0
}

/// The digits as they are read, the highest first.
spec fn reading(digits: Seq<u8>) -> Seq<char>
    decreases digits.len(),
{
    if digits.len() == 0 {
        seq![]
    } else {
        reading(digits.drop_first()).push(digit(digits[0] as nat))
    }
}

/// The lowest digit counts once, and the others ten times.
proof fn lemma_value_first(digits: Seq<u8>)
    requires
        digits.len() > 0,
    ensures
        value(digits) == digits[0] + 10 * value(digits.drop_first()),
    decreases digits.len(),
{
    let k = (digits.len() - 1) as nat;
    let top = digits.last() as nat;
    if k == 0 {
        assert(digits.drop_last() =~= seq![]);
        assert(digits.drop_first() =~= seq![]);
        assert(power_of_ten(0) * top == top) by (nonlinear_arith)
            requires
                power_of_ten(0) == 1,
        ;
    } else {
        lemma_value_first(digits.drop_last());
        assert(digits.drop_first().drop_last() =~= digits.drop_last().drop_first());
        assert(power_of_ten(k) * top == 10 * (power_of_ten((k - 1) as nat) * top))
            by (nonlinear_arith)
            requires
                power_of_ten(k) == 10 * power_of_ten((k - 1) as nat),
        ;
    }
}

/// A numeral that is not `0` stands for a positive number.
proof fn lemma_value_positive(digits: Seq<u8>)
    requires
        digits.len() > 0,
        digits.last() > 0,
    ensures
        value(digits) > 0,
{
    lemma_power_of_ten_positive((digits.len() - 1) as nat);
    assert(power_of_ten((digits.len() - 1) as nat) * digits.last() > 0) by (nonlinear_arith)
        requires
            power_of_ten((digits.len() - 1) as nat) > 0,
            digits.last() > 0,
    ;
}

proof fn lemma_power_of_ten_positive(places: nat)
    ensures
        power_of_ten(places) > 0,
    decreases places,
{
    if places > 0 {
        lemma_power_of_ten_positive((places - 1) as nat);
    }
}

/// Digits without a leading zero read as the decimal numeral of their number.
proof fn lemma_reading(digits: Seq<u8>)
    requires
        is_numeral(digits),
    ensures
        reading(digits) == decimal(value(digits)),
    decreases digits.len(),
{
    lemma_value_first(digits);
    let rest = digits.drop_first();
    if digits.len() == 1 {
        assert(rest =~= seq![]);
        assert(reading(rest) =~= seq![]);
        assert(reading(digits) =~= seq![digit(digits[0] as nat)]);
    } else {
        assert(forall|i: int| 0 <= i < rest.len() ==> rest[i] == digits[i + 1]);
        assert(rest.last() == digits.last());
        lemma_reading(rest);
        lemma_value_positive(rest);
    }
}

/// The digits of a machine integer.
fn digits_of(n: u64) -> (digits: Vec<u8>)
    ensures
        is_numeral(digits@),
        value(digits@) == n,
{
    let mut digits: Vec<u8> = Vec::new();
    let mut rest: u64 = n;
    let ghost mut scale: nat = 1;
    while rest >= 10
        invariant
            forall|i: int| 0 <= i < digits@.len() ==> #[trigger] digits@[i] < 10,
            scale == power_of_ten(digits@.len()),
            value(digits@) + scale * rest == n,
            rest == 0 ==> n == 0 && digits@.len() == 0,
        decreases rest,
    {
        let low: u8 = (rest % 10) as u8;
        proof {
            assert(digits@.push(low).drop_last() =~= digits@);
            assert(scale * rest == scale * low + (10 * scale) * (rest / 10)) by (nonlinear_arith)
                requires
                    rest == 10 * (rest / 10) + low,
            ;
            scale = 10 * scale;
        }
        digits.push(low);
        rest = rest / 10;
    }
    assert(digits@.push(rest as u8).drop_last() =~= digits@);
    digits.push(rest as u8);
    digits
}

/// The digits of twice a number.
fn doubled(digits: &Vec<u8>) -> (twice: Vec<u8>)
    requires
        is_numeral(digits@),
    ensures
        is_numeral(twice@),
        value(twice@) == 2 * value(digits@),
{
    let mut twice: Vec<u8> = Vec::new();
    let mut carry: u8 = 0;
    let mut i: usize = 0;
    assert(digits@.take(0) =~= seq![]);
    while i < digits.len()
        invariant
            is_numeral(digits@),
            i == twice@.len() <= digits@.len(),
            carry <= 1,
            forall|j: int| 0 <= j < i ==> #[trigger] twice@[j] < 10,
            value(twice@) + power_of_ten(i as nat) * carry == 2 * value(digits@.take(i as int)),
            i > 0 && digits@[i - 1] > 0 ==> twice@[i - 1] > 0 || carry > 0,
        decreases digits@.len() - i,
    {
        let t: u8 = 2 * digits[i] + carry;
        let low: u8 = t % 10;
        let next: u8 = t / 10;
        proof {
            let p = power_of_ten(i as nat);
            let d = digits@[i as int];
            assert(digits@.take(i + 1).drop_last() =~= digits@.take(i as int));
            assert(twice@.push(low).drop_last() =~= twice@);
            assert(p * low + (10 * p) * next == p * carry + 2 * (p * d)) by (nonlinear_arith)
                requires
                    low + 10 * next == 2 * d + carry,
            ;
        }
        twice.push(low);
        carry = next;
        i = i + 1;
    }
    assert(digits@.take(i as int) =~= digits@);
    if carry > 0 {
        assert(twice@.push(carry).drop_last() =~= twice@);
        twice.push(carry);
    } else {
        assert(power_of_ten(i as nat) * carry == 0) by (nonlinear_arith)
            requires
                carry == 0,
        ;
    }
    twice
}

/// Appends the digits from `from` up, the highest first.
fn push_reading(out: &mut String, digits: &Vec<u8>, from: usize)
    requires
        from <= digits@.len(),
        forall|i: int| 0 <= i < digits@.len() ==> #[trigger] digits@[i] < 10,
    ensures
        final(out)@ == old(out)@ + reading(digits@.skip(from as int)),
    decreases digits@.len() - from,
{
    if from < digits.len() {
        push_reading(out, digits, from + 1);
        out.append(digit_str(digits[from]));
        assert(digits@.skip(from as int).drop_first() =~= digits@.skip(from + 1));
    }
    assert(out@ =~= old(out)@ + reading(digits@.skip(from as int)));
}

/// Appends the decimal numeral of `n * 2^doublings`.
pub fn push_decimal_shifted(out: &mut String, n: u64, doublings: u32)
    ensures
        final(out)@ == old(out)@ + decimal(n as nat * pow2(doublings as nat)),
{
    let mut digits = digits_of(n);
    let mut i: u32 = 0;
    proof {
        lemma2_to64();
        assert(n as nat * 1 == n) by (nonlinear_arith);
    }
    while i < doublings
        invariant
            i <= doublings,
            is_numeral(digits@),
            value(digits@) == n as nat * pow2(i as nat),
        decreases doublings - i,
    {
        proof {
            lemma_pow2_unfold((i + 1) as nat);
            assert(n as nat * (2 * pow2(i as nat)) == 2 * (n as nat * pow2(i as nat)))
                by (nonlinear_arith);
        }
        digits = doubled(&digits);
        i = i + 1;
    }
    push_reading(out, &digits, 0);
    proof {
        assert(digits@.skip(0) =~= digits@);
        lemma_reading(digits@);
    }
}

} // verus!
