//! From a channel to its integer sample.
//!
//! A channel is the binary64 encoding of a number. The image format wants an
//! integer from 0 to 255 for it: the number is clamped to the range from zero
//! to one, scaled by 256 and truncated, and the one result that does not fit
//! eight bits, 256, becomes 255.

use vstd::prelude::*;
use vstd::arithmetic::div_mod::{lemma_basic_div, lemma_div_non_zero};
use vstd::arithmetic::power2::{lemma2_to64, lemma2_to64_rest, lemma_pow2_strictly_increases, pow2};
use vstd::bits::lemma_u64_shr_is_div;

verus! {

/// The encoding of one.
pub const ONE: u64 = 0x3FF0_0000_0000_0000;

/// The encoding of positive infinity. Among encodings without the sign bit
/// the larger number has the larger encoding, and those above this one are
/// not numbers.
pub const INFINITY: u64 = 0x7FF0_0000_0000_0000;

/// Bit 63 of an encoding: set for negative numbers and for negative zero.
pub open spec fn sign_bit(bits: u64) -> bool {
    bits >= 0x8000_0000_0000_0000
}

/// Bits 52 to 62 of an encoding.
pub open spec fn biased_exponent(bits: u64) -> nat {
    ((bits as nat) / 0x10_0000_0000_0000) % 0x800
}

/// Bits 0 to 51 of an encoding.
pub open spec fn fraction(bits: u64) -> nat {
    (bits as nat) % 0x10_0000_0000_0000
}

/// Whether the encoding is one of a not-a-number.
pub open spec fn is_nan(bits: u64) -> bool {
    biased_exponent(bits) == 0x7ff && fraction(bits) != 0
}

/// Whether the encoding is that of an infinity.
pub open spec fn is_infinite(bits: u64) -> bool {
    biased_exponent(bits) == 0x7ff && fraction(bits) == 0
}

/// The integer `m` of a finite number's magnitude `m * 2^e`: the fraction,
/// with the implicit leading one unless the number is subnormal.
pub open spec fn significand(bits: u64) -> nat {
    if biased_exponent(bits) == 0 {
        fraction(bits)
    } else {
        0x10_0000_0000_0000 + fraction(bits)
    }
}

/// The power `e` of a finite number's magnitude `m * 2^e`.
pub open spec fn exponent(bits: u64) -> int {
    if biased_exponent(bits) == 0 {
        -1074
    } else {
        biased_exponent(bits) - 1075
    }
}

/// The integer part of `m * 2^e`.
pub open spec fn floor_scaled(m: nat, e: int) -> nat {
    if e >= 0 {
        m * pow2(e as nat)
    } else {
        m / pow2((-e) as nat)
    }
}

/// The sample of a channel. Not-a-number gives 0, as does every encoding with
/// the sign bit, which clamps to zero. A number of at least one clamps to one
/// and gives 255. Any other number `v` gives the integer part of `256 * v`.
pub open spec fn sample(bits: u64) -> nat {
    if is_nan(bits) || sign_bit(bits) {
        0
    } else if is_infinite(bits) || floor_scaled(significand(bits), exponent(bits)) >= 1 {
        255
    } else {
        floor_scaled(significand(bits), exponent(bits) + 8)
    }
}

/// A sample fits eight bits.
pub proof fn lemma_sample_bound(bits: u64)
    ensures
        sample(bits) <= 255,
{
    if !sign_bit(bits) {
        lemma_fields(bits);
        if bits < ONE {
            lemma_below_one(bits);
        } else if bits < INFINITY {
            lemma_at_least_one(bits);
        }
    }
}

/// The fields of an encoding without the sign bit, as shifts and masks give them.
proof fn lemma_fields(bits: u64)
    requires
        bits < 0x8000_0000_0000_0000,
    ensures
        biased_exponent(bits) == bits >> 52,
        fraction(bits) == bits & 0xF_FFFF_FFFF_FFFF,
        bits == (bits >> 52) * 0x10_0000_0000_0000 + (bits & 0xF_FFFF_FFFF_FFFF),
        (bits & 0xF_FFFF_FFFF_FFFF) < 0x10_0000_0000_0000,
        (bits >> 52) < 0x800,
{
    assert(bits >> 52 == bits / 0x10_0000_0000_0000) by (bit_vector);
    assert(bits & 0xF_FFFF_FFFF_FFFF == bits % 0x10_0000_0000_0000) by (bit_vector);
    assert((bits >> 52) < 0x800) by (bit_vector)
        requires
            bits < 0x8000_0000_0000_0000,
    ;
}

/// A finite number without the sign bit whose exponent field is below that
/// of one lies below one, and `256` times it is its significand shifted right.
proof fn lemma_below_one(bits: u64)
    requires
        bits < ONE,
    ensures
        !is_nan(bits),
        !is_infinite(bits),
        floor_scaled(significand(bits), exponent(bits)) == 0,
        biased_exponent(bits) < 1015 ==> floor_scaled(significand(bits), exponent(bits) + 8) == 0,
        biased_exponent(bits) >= 1015 ==> floor_scaled(significand(bits), exponent(bits) + 8)
            == (((bits & 0xF_FFFF_FFFF_FFFF) | 0x10_0000_0000_0000) >> ((1067 - (bits >> 52)) as u64)),
        floor_scaled(significand(bits), exponent(bits) + 8) <= 255,
{
    lemma_fields(bits);
    lemma2_to64();
    lemma2_to64_rest();
    let e = bits >> 52;
    let f = bits & 0xF_FFFF_FFFF_FFFF;
    let m = significand(bits);
    assert(e < 1023);
    assert(m < 0x20_0000_0000_0000);
    // The number itself: its exponent is at most -53.
    let k = (-exponent(bits)) as nat;
    assert(k >= 53);
    if k > 53 {
        lemma_pow2_strictly_increases(53, k);
    }
    lemma_basic_div(m as int, pow2(k) as int);
    // 256 times the number.
    let k8 = (-(exponent(bits) + 8)) as nat;
    if e < 1015 {
        assert(k8 >= 53);
        if k8 > 53 {
            lemma_pow2_strictly_increases(53, k8);
        }
        lemma_basic_div(m as int, pow2(k8) as int);
    } else {
        let full = f | 0x10_0000_0000_0000;
        let shift = (1067 - e) as u64;
        assert(full == f + 0x10_0000_0000_0000) by (bit_vector)
            requires
                full == f | 0x10_0000_0000_0000,
                f < 0x10_0000_0000_0000,
        ;
        assert(k8 == shift);
        lemma_u64_shr_is_div(full, shift);
        assert((full >> shift) <= 255) by (bit_vector)
            requires
                full < 0x20_0000_0000_0000,
                45 <= shift <= 52,
        ;
    }
}

/// A finite number without the sign bit whose exponent field is at least
/// that of one is at least one.
proof fn lemma_at_least_one(bits: u64)
    requires
        ONE <= bits < INFINITY,
    ensures
        !is_nan(bits),
        floor_scaled(significand(bits), exponent(bits)) >= 1,
{
    lemma_fields(bits);
    lemma2_to64_rest();
    let e = bits >> 52;
    let m = significand(bits);
    assert(1023 <= e < 2047);
    assert(m >= 0x10_0000_0000_0000);
    if exponent(bits) >= 0 {
        let k = exponent(bits) as nat;
        vstd::arithmetic::power2::lemma_pow2_pos(k);
        assert(m * pow2(k) >= m) by (nonlinear_arith)
            requires
                pow2(k) >= 1,
        ;
    } else {
        let k = (-exponent(bits)) as nat;
        assert(k <= 52);
        if k < 52 {
            lemma_pow2_strictly_increases(k, 52);
        }
        vstd::arithmetic::power2::lemma_pow2_pos(k);
        lemma_div_non_zero(m as int, pow2(k) as int);
    }
}

/// Where the clamp takes hold: every encoding with the sign bit gives 0, as
/// zero does, and every number from one up to infinity gives 255.
pub proof fn lemma_sample_clamped(bits: u64)
    ensures
        sign_bit(bits) ==> sample(bits) == 0,
        bits == 0 ==> sample(bits) == 0,
        ONE <= bits <= INFINITY ==> sample(bits) == 255,
{
    if bits == 0 {
        lemma_below_one(bits);
        lemma_fields(bits);
    } else if ONE <= bits < INFINITY {
        lemma_at_least_one(bits);
    } else if bits == INFINITY {
        lemma_fields(bits);
    }
}

/// Of two numbers without the sign bit, the larger has no smaller sample.
pub proof fn lemma_sample_monotonic(a: u64, b: u64)
    requires
        a <= b <= INFINITY,
    ensures
        sample(a) <= sample(b),
{
    lemma_sample_bound(a);
    lemma_sample_clamped(b);
    if b < ONE {
        lemma_below_one(a);
        lemma_below_one(b);
        lemma_fields(a);
        lemma_fields(b);
        let ea = a >> 52;
        let eb = b >> 52;
        assert(ea <= eb) by (bit_vector)
            requires
                a <= b,
                ea == a >> 52,
                eb == b >> 52,
        ;
        if ea >= 1015 {
            let sa = ((a & 0xF_FFFF_FFFF_FFFF) | 0x10_0000_0000_0000) >> ((1067 - ea) as u64);
            let sb = ((b & 0xF_FFFF_FFFF_FFFF) | 0x10_0000_0000_0000) >> ((1067 - eb) as u64);
            assert(sa <= sb) by (bit_vector)
                requires
                    a <= b < 0x3FF0_0000_0000_0000,
                    ea == a >> 52,
                    eb == b >> 52,
                    ea >= 1015,
                    sa == ((a & 0xF_FFFF_FFFF_FFFF) | 0x10_0000_0000_0000) >> ((1067 - ea) as u64),
                    sb == ((b & 0xF_FFFF_FFFF_FFFF) | 0x10_0000_0000_0000) >> ((1067 - eb) as u64),
            ;
        }
    }
}

/// Computes the sample of a channel from its encoding.
pub fn channel_sample(bits: u64) -> (s: u8)
    ensures
        s == sample(bits),
{
    if bits > INFINITY {
        // The sign bit is set, or this is not a number.
        proof {
            if !sign_bit(bits) {
                lemma_fields(bits);
            }
        }
        return 0;
    }
    if bits >= ONE {
        proof {
            lemma_sample_clamped(bits);
        }
        return 255;
    }
    proof {
        lemma_fields(bits);
        lemma_below_one(bits);
    }
    let e: u64 = bits >> 52;
    if e < 1015 {
        // Below a 256th.
        return 0;
    }
    let full: u64 = (bits & 0xF_FFFF_FFFF_FFFF) | 0x10_0000_0000_0000;
    (full >> (1067 - e)) as u8
}

} // verus!
