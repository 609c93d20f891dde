//! How far a copy has come, how fast it goes and how long it will take.
use crate::float::{
    decoded, double_code, double_of, lemma_nearest_hundred, lemma_nearest_one,
    lemma_nearest_positive, multiple, quotient, single_code, single_of, whole, Binary64,
    Float,
};
use vstd::arithmetic::power2::{lemma2_to64, lemma2_to64_rest};
use vstd::prelude::*;

verus! {

/// The part of `total` that is copied, in percent: a binary32 number, rounded after
/// each operation.
pub open spec fn percent_parts(copied: nat, total: nat) -> (int, int) {
    if total > 0 {
        multiple(quotient(single_of(copied), single_of(total), 24), 100, 24)
    } else {
        (0, 0)
    }
}

/// The bits of the part of `total` that is copied, in percent.
pub open spec fn percent_bits(copied: nat, total: nat) -> int {
    single_code(percent_parts(copied, total))
}

/// The bits of the binary32 number 100.
pub const HUNDRED: u32 = 0x42c8_0000;

/// The part of `total` that is copied, in percent, by the bits of a binary32 number.
pub fn percent(copied: u64, total: u64) -> (bits: u32)
    ensures
        bits == percent_bits(copied as nat, total as nat),
        bits < 0x7f80_0000,
        bits > 0 <==> copied > 0 && total > 0,
{
    if total > 0 {
        Float::single(copied).single_quotient(
            Float::single(total),
        ).single_hundredfold().single_bits()
    } else {
        0
    }
}

/// Whether a binary32 number, by its bits, is greater than zero.
pub open spec fn is_positive(bits: u32) -> bool {
    0 < bits <= 0x7f80_0000
}

/// A time in seconds: zero, or a binary64 number from a nanosecond up to the longest
/// time that a clock tells.
#[derive(Clone, Copy, Debug)]
pub struct Seconds {
    value: Float,
}

impl View for Seconds {
    type V = (int, int);

    closed spec fn view(&self) -> (int, int) {
        self.value.parts()
    }
}

/// Whether the bits of a binary64 number stand for a time in seconds: zero, or a
/// number from `2^-30` up to, but not including, `2^65`.
pub open spec fn is_seconds(bits: u64) -> bool {
    decoded(bits) matches Binary64::Finite { negative, value } && !negative && (value.mantissa
        == 0 || -82 <= value.exponent <= 12)
}

impl Seconds {
    #[verifier::type_invariant]
    spec fn in_range(self) -> bool {
        self.value.has_bits(53) && -82 <= self.value.exponent <= 12
    }

    /// The time that the bits of a binary64 number stand for, if they stand for one.
    pub fn from_bits(bits: u64) -> (r: Option<Seconds>)
        ensures
            r is Some <==> is_seconds(bits),
            r matches Some(s) ==> decoded(bits) matches Binary64::Finite { value, .. } && s@
                == value.parts(),
    {
        proof {
            lemma2_to64();
            lemma2_to64_rest();
        }
        match Binary64::from_bits(bits) {
            Binary64::Finite { negative, value } => if !negative && (value.mantissa == 0 || (-82
                <= value.exponent && value.exponent <= 12)) {
                Some(Seconds { value })
            } else {
                None
            },
            _ => None,
        }
    }
}

/// The average speed in bytes per second: the binary64 number nearest to the quotient
/// of the two, and zero while no time has passed.
pub open spec fn speed_parts(copied: nat, elapsed: (int, int)) -> (int, int) {
    if elapsed.0 > 0 {
        quotient(double_of(copied), elapsed, 53)
    } else {
        (0, 0)
    }
}

/// The bits of the average speed.
pub open spec fn speed_bits(copied: nat, elapsed: (int, int)) -> int {
    double_code(speed_parts(copied, elapsed))
}

/// The whole seconds that are left for `remaining` bytes at the average speed so far,
/// where that is not zero.
pub open spec fn eta_seconds(copied: nat, remaining: nat, elapsed: (int, int)) -> Option<u64> {
    let speed = speed_parts(copied, elapsed);
    if speed.0 > 0 {
        Some(whole(quotient(double_of(remaining), speed, 53)) as u64)
    } else {
        None
    }
}

/// The average speed, by the bits of a binary64 number, and the seconds that are left.
pub fn pace(copied: u64, remaining: u64, elapsed: Seconds) -> (r: (u64, Option<u64>))
    ensures
        r.0 == speed_bits(copied as nat, elapsed@),
        r.1 == eta_seconds(copied as nat, remaining as nat, elapsed@),
{
    proof {
        use_type_invariant(&elapsed);
    }
    let speed = if elapsed.value.mantissa > 0 {
        Float::double(copied).double_quotient(elapsed.value)
    } else {
        Float::zero()
    };
    let eta = if speed.mantissa > 0 {
        Some(Float::double(remaining).double_quotient(speed).to_u64())
    } else {
        None
    };
    (speed.double_bits(), eta)
}

/// A copy that has come to its total stands at a hundred percent.
pub proof fn whole_is_a_hundred_percent(total: nat)
    requires
        total > 0,
    ensures
        percent_bits(total, total) == HUNDRED,
{
    let part = single_of(total);
    lemma_nearest_positive(total, 1, 24);
    lemma_nearest_one(part.0 as nat);
    lemma_nearest_hundred();
    assert(multiple((0x80_0000int, -23int), 100, 24) == (13_107_200int, -17int));
}

} // verus!
