use vstd::prelude::*;

verus! {

/// The single-precision pattern of positive zero; it stands for the digit 1.
pub const ONE_PATTERN: u32 = 0x0000_0000;

/// The single-precision pattern of negative zero; it stands for the digit 0.
pub const ZERO_PATTERN: u32 = 0x8000_0000;

/// A binary digit carried as one of the two single-precision zeros.
///
/// Negative zero is the digit 0 and positive zero the digit 1; no other
/// floating-point value is a digit (see `Bit::to_bits`).
#[derive(Clone, Copy, Debug, PartialEq, Eq, Structural)]
pub enum Bit {
    NegativeZero,
    PositiveZero,
}

/// The digit 0 (negative zero).
pub const ZERO: Bit = Bit::NegativeZero;

/// The digit 1 (positive zero).
pub const ONE: Bit = Bit::PositiveZero;

impl View for Bit {
    type V = bool;

    /// The logical value: true for the digit 1.
    open spec fn view(&self) -> bool {
        *self is PositiveZero
    }
}

impl Bit {
    /// The digit as a number, 0 or 1.
    pub open spec fn digit(self) -> nat {
        if self@ {
            1
        } else {
            0
        }
    }

    /// The 32-bit floating-point pattern of this zero.
    pub open spec fn pattern(self) -> u32 {
        if self is NegativeZero {
            ZERO_PATTERN
        } else {
            ONE_PATTERN
        }
    }

    /// The single-precision bit pattern of the zero that carries this digit.
    pub fn to_bits(self) -> (r: u32)
        ensures
            r == self.pattern(),
    {
        match self {
            Bit::NegativeZero => ZERO_PATTERN,
            Bit::PositiveZero => ONE_PATTERN,
        }
    }

    /// Reads a single-precision bit pattern; only the two zeros are digits.
    pub fn from_bits(bits: u32) -> (r: Option<Bit>)
        ensures
            r is Some <==> (bits == ZERO_PATTERN || bits == ONE_PATTERN),
            r matches Some(b) ==> b.pattern() == bits,
    {
        if bits == ZERO_PATTERN {
            Some(ZERO)
        } else if bits == ONE_PATTERN {
            Some(ONE)
        } else {
            None
        }
    }
}

/// Every digit, whichever gate produced it, is one of the two admissible
/// zero patterns, and the two digits have different patterns.
pub proof fn lemma_bit_patterns(b: Bit)
    ensures
        b.pattern() == ZERO_PATTERN || b.pattern() == ONE_PATTERN,
        b.pattern() == ONE_PATTERN <==> b@,
{
}

/// Reading and building digits by the sign bit of their pattern.
pub trait BitExt: Sized {
    /// Whether the value stands for the digit 1.
    spec fn is_one(self) -> bool;

    /// 1 for the digit 1 (positive zero), 0 for the digit 0 (negative zero).
    fn sign_as_bit(self) -> (r: u32)
        ensures
            r == (if self.is_one() {
                1u32
            } else {
                0u32
            }),
    ;

    fn sign_bit_is_one(self) -> (r: bool)
        ensures
            r == self.is_one(),
    {
        self.sign_as_bit() == 1
    }

    fn sign_bit_is_zero(self) -> (r: bool)
        ensures
            r == !self.is_one(),
    {
        self.sign_as_bit() == 0
    }

    /// The digit 1 for `true`, the digit 0 for `false`.
    fn from_bool(b: bool) -> (r: Self)
        ensures
            r.is_one() == b,
    ;
}

impl BitExt for Bit {
    open spec fn is_one(self) -> bool {
        self@
    }

    fn sign_as_bit(self) -> (r: u32) {
        let bits = self.to_bits();
        let r = 1 ^ ((bits >> 31) & 1);
        assert(bits == ZERO_PATTERN ==> 1 ^ ((bits >> 31) & 1) == 0) by (bit_vector);
        assert(bits == ONE_PATTERN ==> 1 ^ ((bits >> 31) & 1) == 1) by (bit_vector);
        r
    }

    fn from_bool(b: bool) -> (r: Self) {
        if b {
            ONE
        } else {
            ZERO
        }
    }
}

/// The difference of two floating-point zeros under IEEE 754 round-to-nearest:
/// it is negative zero exactly when a negative zero has a positive zero taken
/// from it. As digits, `a - b` is `a or not b`.
pub fn sub_zeros(a: Bit, b: Bit) -> (r: Bit)
    ensures
        r == (if a is NegativeZero && b is PositiveZero {
            Bit::NegativeZero
        } else {
            Bit::PositiveZero
        }),
        r@ == (a@ || !b@),
{
    match (a, b) {
        (Bit::NegativeZero, Bit::PositiveZero) => Bit::NegativeZero,
        _ => Bit::PositiveZero,
    }
}

/// Inversion: `ZERO - x`.
pub fn not(x: Bit) -> (r: Bit)
    ensures
        r@ == !x@,
{
    sub_zeros(ZERO, x)
}

/// Disjunction: `a - not(b)`.
pub fn or(a: Bit, b: Bit) -> (r: Bit)
    ensures
        r@ == (a@ || b@),
{
    sub_zeros(a, not(b))
}

/// Conjunction, by De Morgan: `not(or(not(a), not(b)))`.
pub fn and(a: Bit, b: Bit) -> (r: Bit)
    ensures
        r@ == (a@ && b@),
{
    not(or(not(a), not(b)))
}

/// Exclusive or: `or(and(not(a), b), and(a, not(b)))`.
pub fn xor(a: Bit, b: Bit) -> (r: Bit)
    ensures
        r@ == (a@ != b@),
{
    or(and(not(a), b), and(a, not(b)))
}

/// One-bit full adder built from the gates: returns the sum digit and the
/// carry out.
pub fn adder(a: Bit, b: Bit, c: Bit) -> (r: (Bit, Bit))
    ensures
        r.0@ == ((a@ != b@) != c@),
        r.1@ == ((a@ && b@) || (c@ && (a@ != b@))),
        r.0.digit() + 2 * r.1.digit() == a.digit() + b.digit() + c.digit(),
{
    let s = xor(xor(a, b), c);
    let cout = or(and(xor(a, b), c), and(a, b));
    (s, cout)
}

} // verus!
