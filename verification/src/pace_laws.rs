//! What percentages, speeds and remaining times tell of bytes and time.
use crate::float::{double_of, nearest, power, quotient, single_of, whole};
use crate::nearest_laws::{nearest_is_near, stands_for};
use crate::progress::{
    eta_seconds, pace, percent, percent_bits, speed_bits, speed_parts, Seconds,
};
use vstd::arithmetic::power2::{lemma2_to64, lemma2_to64_rest, lemma_pow2_pos, pow2};
use vstd::prelude::*;

verus! {

/// Whether `bits` are those of the binary32 number that a part of a total is in percent:
/// both are rounded to binary32 numbers, then their quotient, then a hundred times that.
pub open spec fn tells_percent(bits: int, copied: nat, total: nat) -> bool {
    if copied == 0 || total == 0 {
        bits == 0
    } else {
        exists|a: (int, int), b: (int, int), q: (int, int), p: (int, int)|
            #![trigger stands_for(a, copied, 1, 24), stands_for(b, total, 1, 24), stands_for(q, a.0 as nat, b.0 as nat, 24), stands_for(p, (q.0 * 100) as nat, 1, 24)]
            {
                &&& stands_for(a, copied, 1, 24)
                &&& stands_for(b, total, 1, 24)
                &&& stands_for(q, a.0 as nat, b.0 as nat, 24)
                &&& stands_for(p, (q.0 * 100) as nat, 1, 24)
                &&& bits == (p.1 + q.1 + a.1 - b.1 + 150) * 0x80_0000 + (p.0 - 0x80_0000)
            }
    }
}

/// Whether `speed` is the binary64 quotient of bytes by a time: the bytes are rounded to
/// a binary64 number, and so is their quotient.
pub open spec fn is_speed(speed: (int, int), copied: nat, elapsed: (int, int)) -> bool {
    if copied == 0 || elapsed.0 <= 0 {
        speed == (0int, 0int)
    } else {
        exists|a: (int, int), q: (int, int)|
            #![trigger stands_for(a, copied, 1, 53), stands_for(q, a.0 as nat, elapsed.0 as nat, 53)]
            {
                &&& stands_for(a, copied, 1, 53)
                &&& stands_for(q, a.0 as nat, elapsed.0 as nat, 53)
                &&& speed == (q.0, q.1 + a.1 - elapsed.1)
            }
    }
}

/// Whether `bits` are those of a binary64 number that is not negative.
pub open spec fn is_coded(bits: int, number: (int, int)) -> bool {
    if number.0 == 0 {
        bits == 0
    } else {
        bits == (number.1 + 1075) * 0x10_0000_0000_0000 + (number.0 - 0x10_0000_0000_0000)
    }
}

/// Whether `seconds` are the whole seconds that bytes take at a speed.
pub open spec fn lasts(seconds: u64, bytes: nat, speed: (int, int)) -> bool {
    if bytes == 0 {
        seconds == 0
    } else {
        exists|a: (int, int), q: (int, int)|
            #![trigger stands_for(a, bytes, 1, 53), stands_for(q, a.0 as nat, speed.0 as nat, 53)]
            {
                &&& stands_for(a, bytes, 1, 53)
                &&& stands_for(q, a.0 as nat, speed.0 as nat, 53)
                &&& is_whole_part(seconds, (q.0, q.1 + a.1 - speed.1))
            }
    }
}

/// Whether an integer is the whole part of a number, or the greatest integer where that
/// is greater.
pub open spec fn is_whole_part(n: u64, x: (int, int)) -> bool {
    if x.1 >= 0 {
        let value = x.0 * pow2(x.1 as nat);
        n == value || (value > u64::MAX && n == u64::MAX)
    } else {
        let unit = pow2((-x.1) as nat) as int;
        ||| n * unit <= x.0 < (n + 1) * unit
        ||| x.0 >= (u64::MAX + 1) * unit && n == u64::MAX
    }
}

/// Whether a message tells the speed and the remaining time of a copy: the quotient of
/// the bytes copied by the time, and the whole part of what is left over that speed.
pub open spec fn tells_pace(
    speed: u64,
    eta: Option<u64>,
    copied: nat,
    left: nat,
    elapsed: (int, int),
) -> bool {
    exists|v: (int, int)| #[trigger]
        is_speed(v, copied, elapsed) && is_coded(speed as int, v) && match eta {
            Some(seconds) => copied > 0 && elapsed.0 > 0 && lasts(seconds, left, v),
            None => copied == 0 || elapsed.0 <= 0,
        }
}

/// The percentage is that of the bytes and the total.
pub proof fn lemma_percent(copied: nat, total: nat)
    ensures
        tells_percent(percent_bits(copied, total), copied, total),
{
    if total > 0 {
        lemma2_to64();
        let (a, b) = (single_of(copied), single_of(total));
        nearest_is_near(copied, 1, 24);
        nearest_is_near(total, 1, 24);
        let q = nearest(a.0 as nat, b.0 as nat, 24);
        nearest_is_near(a.0 as nat, b.0 as nat, 24);
        let p = nearest((q.0 * 100) as nat, 1, 24);
        nearest_is_near((q.0 * 100) as nat, 1, 24);
        if copied > 0 {
            assert(stands_for(a, copied, 1, 24) && stands_for(b, total, 1, 24));
            assert(stands_for(q, a.0 as nat, b.0 as nat, 24));
            assert(stands_for(p, (q.0 * 100) as nat, 1, 24));
        }
    }
}

/// The whole part of a number is just that.
proof fn lemma_whole(x: (int, int))
    requires
        x.0 >= 0,
    ensures
        is_whole_part(whole(x) as u64, x),
{
    let up = power(x.1);
    let down = power(-x.1);
    if x.1 >= 0 {
        lemma2_to64();
        assert(up == pow2(x.1 as nat) && down == 1);
        let value = x.0 * up;
        assert(value >= 0) by (nonlinear_arith)
            requires
                value == x.0 * up,
                x.0 >= 0,
                up >= 0,
        ;
        assert(value as nat / 1 == value);
    } else {
        let unit = pow2((-x.1) as nat);
        lemma_pow2_pos((-x.1) as nat);
        assert(up == 1 && down == unit);
        assert(x.0 * 1 == x.0);
        let n = x.0 as nat / unit;
        assert(n * unit <= x.0 < (n + 1) * unit) by (nonlinear_arith)
            requires
                n == x.0 as nat / unit,
                unit > 0,
                x.0 >= 0,
        ;
        if n > u64::MAX {
            assert(x.0 >= (u64::MAX + 1) * unit) by (nonlinear_arith)
                requires
                    n * unit <= x.0,
                    n >= u64::MAX + 1,
                    unit > 0,
            ;
        }
    }
}

/// The speed is the quotient of the bytes by the time, and the remaining time follows
/// from it.
pub proof fn lemma_pace(copied: nat, left: nat, elapsed: (int, int), speed: u64, eta: Option<u64>)
    requires
        speed as int == speed_bits(copied, elapsed),
        eta == eta_seconds(copied, left, elapsed),
    ensures
        tells_pace(speed, eta, copied, left, elapsed),
{
    lemma2_to64();
    lemma2_to64_rest();
    let v = speed_parts(copied, elapsed);
    if elapsed.0 > 0 {
        let a = double_of(copied);
        nearest_is_near(copied, 1, 53);
        let q = nearest(a.0 as nat, elapsed.0 as nat, 53);
        nearest_is_near(a.0 as nat, elapsed.0 as nat, 53);
        if copied > 0 {
            assert(stands_for(a, copied, 1, 53));
            assert(stands_for(q, a.0 as nat, elapsed.0 as nat, 53));
            let b = double_of(left);
            nearest_is_near(left, 1, 53);
            let t = nearest(b.0 as nat, v.0 as nat, 53);
            nearest_is_near(b.0 as nat, v.0 as nat, 53);
            lemma_whole(quotient(b, v, 53));
            if left > 0 {
                assert(stands_for(b, left, 1, 53) && stands_for(t, b.0 as nat, v.0 as nat, 53));
                assert(is_whole_part(eta->Some_0, (t.0, t.1 + b.1 - v.1)));
            } else {
                assert(eta == Some(0u64)) by {
                    assert(quotient(b, v, 53) == (0int, 0int));
                    assert(0 * power(0) == 0);
                    assert(power(-0) == 1);
                }
            }
        }
    }
    assert(is_speed(v, copied, elapsed));
}

/// A time in seconds is zero or a number from about a nanosecond up to what a clock can
/// tell, as its bits say.
pub proof fn times_are_what_their_bits_say(bits: u64, seconds: Option<Seconds>)
    requires
        call_ensures(Seconds::from_bits, (bits,), seconds),
    ensures
        ({
            let field = (bits / 0x10_0000_0000_0000) as int;
            let fraction = (bits % 0x10_0000_0000_0000) as int;
            &&& bits == 0 ==> seconds is Some && seconds->Some_0@.0 == 0
            &&& 993 <= field <= 1087 ==> seconds is Some && seconds->Some_0@ == (
                0x10_0000_0000_0000 + fraction,
                field - 1075,
            )
            &&& bits > 0 && !(993 <= field <= 1087) ==> seconds is None
        }),
{
}

/// What `percent` gives is the percentage of the bytes.
pub proof fn percent_is_the_part_of_the_total(copied: u64, total: u64, bits: u32)
    requires
        call_ensures(percent, (copied, total), bits),
    ensures
        tells_percent(bits as int, copied as nat, total as nat),
{
    lemma_percent(copied as nat, total as nat);
}

/// What `pace` gives is the speed, and the time that is left at that.
pub proof fn pace_is_bytes_by_time(
    copied: u64,
    remaining: u64,
    elapsed: Seconds,
    r: (u64, Option<u64>),
)
    requires
        call_ensures(pace, (copied, remaining, elapsed), r),
    ensures
        tells_pace(r.0, r.1, copied as nat, remaining as nat, elapsed@),
{
    lemma_pace(copied as nat, remaining as nat, elapsed@, r.0, r.1);
}

} // verus!
