use vstd::prelude::*;
use vstd::arithmetic::div_mod::{
    lemma_div_denominator, lemma_mod_add_multiples_vanish, lemma_small_mod,
};
use vstd::arithmetic::power2::{lemma2_to64, lemma_pow2_pos, lemma_pow2_unfold, pow2};
use vstd::array::array_fill_for_copy_types;

use crate::bitops::{Bit, BitExt, ONE, ZERO};
use crate::softuint::{
    encode_bits, from_softu23, from_softu8, lemma_decode_encode, lemma_encode_value, lemma_value_bound, shift_right24, softu24_add,
    to_softu23, to_softu8, value, SoftU23, SoftU24, SoftU8,
};

verus! {

/// A single-precision number held in soft integers: the sign as a digit
/// (1 for a positive number, 0 for a negative one), the stored exponent field
/// with its bias, and the stored 23 fraction digits without the implicit
/// leading one.
#[derive(Clone, Copy, Debug)]
pub struct SofterF32 {
    pub sign: Bit,
    pub exponent: SoftU8,
    pub fraction: SoftU23,
}

impl SofterF32 {
    /// The stored exponent field.
    pub open spec fn exponent_value(self) -> nat {
        value(self.exponent@)
    }

    /// The stored fraction field.
    pub open spec fn fraction_value(self) -> nat {
        value(self.fraction@)
    }

    /// The 24-digit significand: the fraction with the implicit leading one,
    /// which is 1 when the exponent field is nonzero and 0 otherwise.
    pub open spec fn significand(self) -> nat {
        self.fraction_value() + if self.exponent_value() != 0 {
            0x80_0000nat
        } else {
            0nat
        }
    }

    /// The single-precision bit pattern that the fields spell.
    pub open spec fn packed(self) -> nat {
        (if self.sign@ {
            0nat
        } else {
            0x8000_0000nat
        }) + self.exponent_value() * 0x80_0000 + self.fraction_value()
    }

    /// Whether the fields are those of the single-precision pattern `bits`.
    pub open spec fn unpacks(self, bits: u32) -> bool {
        &&& self.sign@ == (bits < 0x8000_0000)
        &&& self.exponent@ == encode_bits((bits as nat / 0x80_0000) % 0x100, 8)
        &&& self.fraction@ == encode_bits(bits as nat % 0x80_0000, 23)
    }
}

/// Splits a single-precision bit pattern into its sign, exponent and fraction
/// fields, with no adjustment for the implicit bit.
pub fn to_softerf32(bits: u32) -> (r: SofterF32)
    ensures
        r.unpacks(bits),
        r.packed() == bits,
{
    let sign = if (bits >> 31) != 0 {
        ZERO
    } else {
        ONE
    };
    let exp_field = ((bits >> 23) & 0xff) as u8;
    let frac_field = bits & 0x7f_ffff;
    proof {
        assert(((bits >> 31) != 0) == (bits >= 0x8000_0000)) by (bit_vector);
        assert((bits >> 23) & 0xff == (bits / 0x80_0000) % 0x100) by (bit_vector);
        assert(bits & 0x7f_ffff == bits % 0x80_0000) by (bit_vector);
    }
    let exponent = to_softu8(exp_field);
    let fraction = to_softu23(frac_field);
    let r = SofterF32 { sign, exponent, fraction };
    proof {
        lemma_float_round_trip(bits, r);
    }
    r
}

/// Assembles the single-precision bit pattern of the fields: the sign bit is
/// set when the sign digit is 0.
pub fn from_softerf32(s: SofterF32) -> (r: u32)
    ensures
        r == s.packed(),
{
    let mut bits: u32 = if s.sign.sign_bit_is_zero() {
        1u32 << 31
    } else {
        0
    };
    let e = from_softu8(s.exponent) as u32;
    let f = from_softu23(s.fraction);
    proof {
        lemma_value_bound(s.fraction@);
        lemma2_to64();
        assert(1u32 << 31 == 0x8000_0000) by (bit_vector);
        assert((bits == 0 || bits == 0x8000_0000) && e < 0x100 && f < 0x80_0000 ==> bits | (e
            << 23) | f == bits + e * 0x80_0000 + f) by (bit_vector);
    }
    bits = bits | (e << 23);
    bits = bits | f;
    bits
}

/// Decoding the fields of a single-precision pattern gives the pattern back,
/// bit for bit; this holds of every pattern, normal exponents included.
pub proof fn lemma_float_round_trip(bits: u32, s: SofterF32)
    requires
        s.unpacks(bits),
    ensures
        s.packed() == bits,
{
    lemma2_to64();
    lemma_decode_encode((bits as nat / 0x80_0000) % 0x100, 8);
    lemma_decode_encode(bits as nat % 0x80_0000, 23);
    assert(bits == (if bits >= 0x8000_0000 {
        0x8000_0000u32
    } else {
        0u32
    }) + ((bits / 0x80_0000) % 0x100) * 0x80_0000 + bits % 0x80_0000) by (bit_vector);
}

/// The larger of the two exponent fields: the exponent of the sum before
/// renormalisation.
pub open spec fn max_exponent(a: SofterF32, b: SofterF32) -> nat {
    if a.exponent_value() >= b.exponent_value() {
        a.exponent_value()
    } else {
        b.exponent_value()
    }
}

/// The total of the two significands once each is shifted right by the
/// amount its exponent falls short of the larger one.
pub open spec fn aligned_sum(a: SofterF32, b: SofterF32) -> nat {
    let e = max_exponent(a, b);
    a.significand() / pow2((e - a.exponent_value()) as nat) + b.significand() / pow2(
        (e - b.exponent_value()) as nat,
    )
}

/// Whether the aligned total overflows 24 digits.
pub open spec fn sum_overflows(a: SofterF32, b: SofterF32) -> bool {
    aligned_sum(a, b) >= 0x100_0000
}

/// The exponent field of the sum: one more than the larger exponent when the
/// total overflows 24 digits, kept to the 8-digit field.
pub open spec fn sum_exponent(a: SofterF32, b: SofterF32) -> nat {
    (if sum_overflows(a, b) {
        max_exponent(a, b) + 1
    } else {
        max_exponent(a, b)
    }) % 0x100
}

/// The fraction field of the sum: the total, halved when it overflows 24
/// digits, without its top digit.
pub open spec fn sum_fraction(a: SofterF32, b: SofterF32) -> nat {
    (if sum_overflows(a, b) {
        aligned_sum(a, b) / 2
    } else {
        aligned_sum(a, b)
    }) % 0x80_0000
}

/// The 24-digit significand: the fraction in digits 0 to 22 and, in digit 23,
/// the implicit leading one when the exponent field is nonzero.
fn with_implicit(frac: SoftU23, exp: SoftU8) -> (r: SoftU24)
    ensures
        r@ == frac@.push(
            if value(exp@) != 0 {
                ONE
            } else {
                ZERO
            },
        ),
        value(r@) == value(frac@) + if value(exp@) != 0 {
            0x80_0000nat
        } else {
            0nat
        },
{
    let mut sig: SoftU24 = array_fill_for_copy_types(ZERO);
    let mut i: usize = 0;
    while i < 23
        invariant
            i <= 23,
            sig@.len() == 24,
            forall|j: int| 0 <= j < i ==> sig@[j] == frac@[j],
        decreases 23 - i,
    {
        sig[i] = frac[i];
        i += 1;
    }
    sig[23] = if from_softu8(exp) != 0 {
        ONE
    } else {
        ZERO
    };
    proof {
        lemma2_to64();
        assert(sig@.drop_last() =~= frac@);
        assert(sig@ =~= frac@.push(sig@[23]));
    }
    sig
}

/// The stored fraction: digits 0 to 22 of a significand, without its top
/// digit.
fn drop_implicit(sig: SoftU24) -> (r: SoftU23)
    ensures
        r@ == sig@.take(23),
        value(r@) == value(sig@) % 0x80_0000,
{
    let mut f: SoftU23 = array_fill_for_copy_types(ZERO);
    let mut i: usize = 0;
    while i < 23
        invariant
            i <= 23,
            f@.len() == 23,
            sig@.len() == 24,
            forall|j: int| 0 <= j < i ==> f@[j] == sig@[j],
        decreases 23 - i,
    {
        f[i] = sig[i];
        i += 1;
    }
    proof {
        lemma2_to64();
        assert(f@ =~= sig@.take(23));
        assert(sig@.drop_last() =~= f@);
        lemma_value_bound(f@);
        assert(value(sig@) == value(f@) + sig@.last().digit() * pow2(23));
        if sig@.last()@ {
            lemma_mod_add_multiples_vanish(value(f@) as int, 0x80_0000);
        }
        lemma_small_mod(value(f@), 0x80_0000);
    }
    f
}

/// Shifts a significand right by `d` positions, one position at a time.
fn shift_right_by(sig: SoftU24, d: u8) -> (r: SoftU24)
    ensures
        value(r@) == value(sig@) / pow2(d as nat),
{
    let mut r = sig;
    let mut k: u8 = 0;
    proof {
        lemma2_to64();
    }
    while k < d
        invariant
            k <= d,
            value(r@) == value(sig@) / pow2(k as nat),
        decreases d - k,
    {
        r = shift_right24(r);
        proof {
            lemma_pow2_pos(k as nat);
            lemma_pow2_unfold((k + 1) as nat);
            lemma_div_denominator(value(sig@) as int, pow2(k as nat) as int, 2);
        }
        k += 1;
    }
    r
}

/// Adds two numbers of the same sign: the significands are aligned to the
/// larger exponent, added as 24-digit soft integers, and shifted right once
/// with the exponent raised by one when the addition carries out. There is no
/// rounding and no further normalisation; the exponent field wraps past 255.
pub fn softerf32_add(a: SofterF32, b: SofterF32) -> (r: SofterF32)
    requires
        a.sign == b.sign,
    ensures
        r.sign == a.sign,
        r.exponent@ == encode_bits(sum_exponent(a, b), 8),
        r.fraction@ == encode_bits(sum_fraction(a, b), 23),
{
    let a_exp = from_softu8(a.exponent);
    let b_exp = from_softu8(b.exponent);
    let mut a_sig = with_implicit(a.fraction, a.exponent);
    let mut b_sig = with_implicit(b.fraction, b.exponent);
    let mut exp: u32;
    proof {
        lemma2_to64();
        assert(a.significand() / pow2(0) == a.significand());
        assert(b.significand() / pow2(0) == b.significand());
    }
    if a_exp > b_exp {
        b_sig = shift_right_by(b_sig, a_exp - b_exp);
        exp = a_exp as u32;
    } else {
        a_sig = shift_right_by(a_sig, b_exp - a_exp);
        exp = b_exp as u32;
    }
    assert(value(a_sig@) + value(b_sig@) == aligned_sum(a, b));
    let (sum, carry) = softu24_add(a_sig, b_sig);
    let mut sum = sum;
    let ghost v = value(sum@);
    if carry.sign_bit_is_one() {
        sum = shift_right24(sum);
        exp = exp + 1;
        proof {
            assert((v + 0x100_0000) / 2 == v / 2 + 0x80_0000);
            lemma_mod_add_multiples_vanish((v / 2) as int, 0x80_0000);
        }
    }
    let exponent = to_softu8((exp % 0x100) as u8);
    let fraction = drop_implicit(sum);
    proof {
        lemma_encode_value(fraction@);
    }
    SofterF32 { sign: a.sign, exponent, fraction }
}

} // verus!
