use vstd::prelude::*;
use vstd::arithmetic::div_mod::{
    lemma_basic_div, lemma_mod_add_multiples_vanish, lemma_mod_breakdown, lemma_mod_pos_bound,
    lemma_small_mod,
};
use vstd::arithmetic::power2::{
    lemma2_to64, lemma_pow2_pos, lemma_pow2_strictly_increases, lemma_pow2_unfold, pow2,
};
use vstd::array::array_fill_for_copy_types;
use vstd::bits::{lemma_u64_pow2_no_overflow, lemma_u64_shl_is_mul, lemma_u64_shr_is_div};

use crate::bitops::{adder, Bit, BitExt, ONE, ZERO};

verus! {

/// An 8-digit soft unsigned integer, least significant digit first.
pub type SoftU8 = [Bit; 8];

/// A 23-digit soft unsigned integer, least significant digit first.
pub type SoftU23 = [Bit; 23];

/// A 24-digit soft unsigned integer, least significant digit first.
pub type SoftU24 = [Bit; 24];

/// A 32-digit soft unsigned integer, least significant digit first.
pub type SoftU32 = [Bit; 32];

/// The number a digit sequence stands for, least significant digit first:
/// the sum of `2^i` over the positions `i` that hold the digit 1.
pub open spec fn value(s: Seq<Bit>) -> nat
    decreases s.len(),
{
    if s.len() == 0 {
        0
    } else {
        value(s.drop_last()) + s.last().digit() * pow2((s.len() - 1) as nat)
    }
}

/// The `n` low binary digits of `x`, least significant first; positions past
/// the digits of `x` hold 0.
pub open spec fn encode_bits(x: nat, n: nat) -> Seq<Bit> {
    Seq::new(n, |i: int| if (x / pow2(i as nat)) % 2 == 1 { ONE } else { ZERO })
}

/// The `n`-digit sum of two digit sequences of length `n`: their total
/// modulo `2^n`.
pub open spec fn sum_bits(a: Seq<Bit>, b: Seq<Bit>) -> Seq<Bit> {
    encode_bits(((value(a) + value(b)) as nat % pow2(a.len())) as nat, a.len())
}

/// Whether the total of two digit sequences of length `n` reaches `2^n`.
pub open spec fn carries_out(a: Seq<Bit>, b: Seq<Bit>) -> bool {
    value(a) + value(b) >= pow2(a.len())
}

/// The sequence moved one position toward the least significant end: the
/// lowest digit is dropped and a 0 enters at the top.
pub open spec fn shifted_right(s: Seq<Bit>) -> Seq<Bit> {
    if s.len() == 0 {
        s
    } else {
        s.drop_first().push(ZERO)
    }
}

proof fn lemma_pow2_zero()
    ensures
        pow2(0) == 1,
{
    lemma2_to64();
}

/// A sequence of `n` digits stands for a number below `2^n`.
pub proof fn lemma_value_bound(s: Seq<Bit>)
    ensures
        value(s) < pow2(s.len()),
    decreases s.len(),
{
    if s.len() == 0 {
        lemma_pow2_zero();
    } else {
        let n = s.len();
        lemma_value_bound(s.drop_last());
        lemma_pow2_unfold(n);
        if s.last()@ {
            assert(value(s) == value(s.drop_last()) + pow2((n - 1) as nat));
        } else {
            assert(value(s) == value(s.drop_last()));
        }
    }
}

proof fn lemma_value_prefix(s: Seq<Bit>, i: int)
    requires
        0 <= i < s.len(),
    ensures
        value(s.take(i + 1)) == value(s.take(i)) + s[i].digit() * pow2(i as nat),
{
    assert(s.take(i + 1).drop_last() =~= s.take(i));
}

proof fn lemma_value_encode(x: nat, n: nat)
    ensures
        value(encode_bits(x, n)) == x % pow2(n),
    decreases n,
{
    let e = encode_bits(x, n);
    if n == 0 {
        lemma_pow2_zero();
    } else {
        let p = pow2((n - 1) as nat);
        assert(e.drop_last() =~= encode_bits(x, (n - 1) as nat));
        lemma_value_encode(x, (n - 1) as nat);
        lemma_pow2_pos((n - 1) as nat);
        lemma_pow2_unfold(n);
        lemma_mod_breakdown(x as int, p as int, 2);
        assert(e.last().digit() == (x / p) % 2);
        assert(value(e) == x % p + ((x / p) % 2) * p);
        assert(pow2(n) == p * 2);
    }
}

proof fn lemma_value_injective(s: Seq<Bit>, t: Seq<Bit>)
    requires
        s.len() == t.len(),
        value(s) == value(t),
    ensures
        s == t,
    decreases s.len(),
{
    if s.len() == 0 {
        assert(s =~= t);
    } else {
        let n = s.len();
        let p = pow2((n - 1) as nat);
        lemma_value_bound(s.drop_last());
        lemma_value_bound(t.drop_last());
        assert(s.last() == t.last()) by {
            if s.last()@ != t.last()@ {
                assert(value(s) != value(t));
            }
        }
        lemma_value_injective(s.drop_last(), t.drop_last());
        assert(s =~= t.drop_last().push(t.last()));
        assert(t =~= t.drop_last().push(t.last()));
    }
}

/// Every digit sequence is the encoding of the number it stands for, in as
/// many digits as it has.
pub proof fn lemma_encode_value(s: Seq<Bit>)
    ensures
        encode_bits(value(s), s.len()) == s,
{
    lemma_value_bound(s);
    lemma_value_encode(value(s), s.len());
    lemma_small_mod(value(s), pow2(s.len()));
    lemma_value_injective(encode_bits(value(s), s.len()), s);
}

proof fn lemma_value_drop_first(s: Seq<Bit>)
    requires
        s.len() > 0,
    ensures
        value(s) == s[0].digit() + 2 * value(s.drop_first()),
    decreases s.len(),
{
    let n = s.len();
    if n == 1 {
        lemma_pow2_zero();
        assert(value(s.drop_last()) == 0);
        assert(value(s.drop_first()) == 0);
    } else {
        let p = s.drop_last();
        let q = s.drop_first();
        lemma_value_drop_first(p);
        assert(p[0] == s[0]);
        assert(q.drop_last() =~= p.drop_first());
        lemma_pow2_unfold((n - 1) as nat);
        let d = s.last().digit();
        let w = pow2((n - 2) as nat);
        assert(value(q) == value(p.drop_first()) + d * w);
        assert(value(s) == value(p) + d * (2 * w));
        assert(d * (2 * w) == 2 * (d * w)) by (nonlinear_arith);
    }
}

proof fn lemma_value_shift(s: Seq<Bit>)
    ensures
        value(shifted_right(s)) == value(s) / 2,
{
    if s.len() > 0 {
        let r = shifted_right(s);
        assert(r.drop_last() =~= s.drop_first());
        assert(value(r) == value(s.drop_first()));
        lemma_value_drop_first(s);
    }
}

/// Decoding the encoding of a number that fits in `n` digits gives the number
/// back.
pub proof fn lemma_decode_encode(x: nat, n: nat)
    requires
        x < pow2(n),
    ensures
        value(encode_bits(x, n)) == x,
{
    lemma_value_encode(x, n);
    lemma_small_mod(x, pow2(n));
}

/// Adding the encodings of two numbers that fit in `n` digits gives the
/// encoding of their total modulo `2^n`, with a carry out exactly when the
/// total reaches `2^n`.
pub proof fn lemma_add_encoded(x: nat, y: nat, n: nat)
    requires
        x < pow2(n),
        y < pow2(n),
    ensures
        value(sum_bits(encode_bits(x, n), encode_bits(y, n))) == (x + y) as nat % pow2(n),
        carries_out(encode_bits(x, n), encode_bits(y, n)) == (x + y >= pow2(n)),
{
    lemma_decode_encode(x, n);
    lemma_decode_encode(y, n);
    let t = ((x + y) as nat % pow2(n)) as nat;
    lemma_pow2_pos(n);
    lemma_mod_pos_bound((x + y) as int, pow2(n) as int);
    lemma_decode_encode(t, n);
}

/// Shifting the encoding of a number that fits in `n` digits right by one
/// gives the encoding of half the number, rounded down.
pub proof fn lemma_shift_encoded(x: nat, n: nat)
    requires
        x < pow2(n),
    ensures
        value(shifted_right(encode_bits(x, n))) == x / 2,
{
    lemma_decode_encode(x, n);
    lemma_value_shift(encode_bits(x, n));
}

/// Encodes the `N` low binary digits of `x`, least significant first;
/// positions past the 64 digits of `x` hold 0, and higher digits of `x` are
/// dropped.
pub fn to_softu_generic<const N: usize>(x: u64) -> (r: [Bit; N])
    ensures
        r@ == encode_bits(x as nat, N as nat),
        value(r@) == x as nat % pow2(N as nat),
{
    let mut out: [Bit; N] = array_fill_for_copy_types(ZERO);
    let mut i: usize = 0;
    while i < N
        invariant
            0 <= i <= N,
            out@.len() == N,
            forall|j: int| 0 <= j < i ==> out@[j] == encode_bits(x as nat, N as nat)[j],
        decreases N - i,
    {
        let one = if i < 64 {
            let sh = i as u64;
            let d = (x >> sh) & 1;
            proof {
                lemma_u64_shr_is_div(x, sh);
                assert(((x >> sh) & 1 != 0) == ((x >> sh) % 2 == 1)) by (bit_vector);
            }
            d != 0
        } else {
            proof {
                lemma2_to64();
                if i > 64 {
                    lemma_pow2_strictly_increases(64, i as nat);
                }
                lemma_basic_div(x as int, pow2(i as nat) as int);
            }
            false
        };
        out[i] = Bit::from_bool(one);
        i += 1;
    }
    proof {
        assert(out@ =~= encode_bits(x as nat, N as nat));
        lemma_value_encode(x as nat, N as nat);
    }
    out
}

/// The number that `N` digits stand for.
pub fn from_softu_generic<const N: usize>(a: [Bit; N]) -> (r: u64)
    requires
        N <= 64,
    ensures
        r == value(a@),
{
    let mut v: u64 = 0;
    let mut i: usize = 0;
    while i < N
        invariant
            0 <= i <= N <= 64,
            a@.len() == N,
            v == value(a@.take(i as int)),
        decreases N - i,
    {
        proof {
            lemma_value_prefix(a@, i as int);
            lemma_value_bound(a@.take(i as int));
        }
        if a[i].sign_bit_is_one() {
            let sh = i as u64;
            proof {
                lemma_u64_pow2_no_overflow(sh as nat);
                lemma_u64_shl_is_mul(1, sh);
                assert(v < (1u64 << sh) ==> v | (1u64 << sh) == v + (1u64 << sh)) by (bit_vector)
                    requires
                        sh < 64,
                ;
            }
            v = v | (1u64 << sh);
            assert(a@[i as int].digit() == 1);
        } else {
            assert(a@[i as int].digit() == 0);
        }
        i += 1;
    }
    proof {
        assert(a@.take(N as int) =~= a@);
    }
    v
}

/// Ripple-carry addition from the least significant digit up; returns the
/// `N`-digit sum and the final carry out, which is not folded into the sum.
pub fn softu_add_generic<const N: usize>(a: [Bit; N], b: [Bit; N]) -> (r: ([Bit; N], Bit))
    ensures
        r.0@ == sum_bits(a@, b@),
        r.1@ == carries_out(a@, b@),
        value(r.0@) + r.1.digit() * pow2(N as nat) == value(a@) + value(b@),
{
    let mut out: [Bit; N] = array_fill_for_copy_types(ZERO);
    let mut carry = ZERO;
    let mut i: usize = 0;
    proof {
        lemma_pow2_zero();
        assert(value(out@.take(0)) == 0);
        assert(value(a@.take(0)) == 0);
        assert(value(b@.take(0)) == 0);
    }
    while i < N
        invariant
            0 <= i <= N,
            out@.len() == N,
            a@.len() == N,
            b@.len() == N,
            value(out@.take(i as int)) + carry.digit() * pow2(i as nat) == value(
                a@.take(i as int),
            ) + value(b@.take(i as int)),
        decreases N - i,
    {
        let (s, c) = adder(a[i], b[i], carry);
        let ghost before = out@;
        out[i] = s;
        proof {
            assert(out@.take(i as int) =~= before.take(i as int));
            lemma_value_prefix(out@, i as int);
            lemma_value_prefix(a@, i as int);
            lemma_value_prefix(b@, i as int);
            lemma_pow2_unfold((i + 1) as nat);
            let p = pow2(i as nat);
            assert(a[i as int] == a@[i as int]);
            assert(out@[i as int] == s);
            assert(s.digit() * p + 2 * c.digit() * p == (a[i as int].digit() + b[i as int].digit()
                + carry.digit()) * p) by (nonlinear_arith)
                requires
                    s.digit() + 2 * c.digit() == a[i as int].digit() + b[i as int].digit()
                        + carry.digit(),
            ;
            assert(c.digit() * pow2((i + 1) as nat) == 2 * c.digit() * p) by (nonlinear_arith)
                requires
                    pow2((i + 1) as nat) == 2 * p,
            ;
        }
        carry = c;
        i += 1;
    }
    proof {
        let n = N as nat;
        let total = value(a@) + value(b@);
        let m = pow2(n);
        assert(out@.take(N as int) =~= out@);
        assert(a@.take(N as int) =~= a@);
        assert(b@.take(N as int) =~= b@);
        lemma_value_bound(out@);
        lemma_encode_value(out@);
        if carry@ {
            lemma_mod_add_multiples_vanish(value(out@) as int, m as int);
        }
        lemma_small_mod(value(out@), m);
        assert(value(out@) == total % m);
    }
    (out, carry)
}

/// Logical shift right by one position: digit 0 is dropped and the top digit
/// becomes 0.
pub fn shift_right_generic<const N: usize>(x: [Bit; N]) -> (r: [Bit; N])
    ensures
        r@ == shifted_right(x@),
        value(r@) == value(x@) / 2,
{
    let mut r: [Bit; N] = array_fill_for_copy_types(ZERO);
    let mut i: usize = 0;
    while i + 1 < N
        invariant
            i == 0 || i < N,
            r@.len() == N,
            x@.len() == N,
            forall|j: int| 0 <= j < i ==> r@[j] == x@[j + 1],
            forall|j: int| i <= j < N ==> r@[j] == ZERO,
        decreases N - i,
    {
        r[i] = x[i + 1];
        i += 1;
    }
    proof {
        if N > 0 {
            assert(r@ =~= x@.drop_first().push(ZERO));
        } else {
            assert(r@ =~= x@);
        }
        lemma_value_shift(x@);
    }
    r
}

/// Encodes `x` as 8 digits.
pub fn to_softu8(x: u8) -> (r: SoftU8)
    ensures
        r@ == encode_bits(x as nat, 8),
        value(r@) == x as nat,
{
    proof {
        lemma2_to64();
    }
    to_softu_generic::<8>(x as u64)
}

/// Encodes `x` as 23 digits, dropping its higher digits.
pub fn to_softu23(x: u32) -> (r: SoftU23)
    ensures
        r@ == encode_bits(x as nat, 23),
        value(r@) == x as nat % 0x80_0000,
{
    proof {
        lemma2_to64();
    }
    to_softu_generic::<23>(x as u64)
}

/// Encodes `x` as 24 digits, dropping its higher digits.
pub fn to_softu24(x: u32) -> (r: SoftU24)
    ensures
        r@ == encode_bits(x as nat, 24),
        value(r@) == x as nat % 0x100_0000,
{
    proof {
        lemma2_to64();
    }
    to_softu_generic::<24>(x as u64)
}

/// Encodes `x` as 32 digits.
pub fn to_softu32(x: u32) -> (r: SoftU32)
    ensures
        r@ == encode_bits(x as nat, 32),
        value(r@) == x as nat,
{
    proof {
        lemma2_to64();
    }
    to_softu_generic::<32>(x as u64)
}

/// The number that 8 digits stand for.
pub fn from_softu8(a: SoftU8) -> (r: u8)
    ensures
        r == value(a@),
{
    proof {
        lemma_value_bound(a@);
        lemma2_to64();
    }
    from_softu_generic(a) as u8
}

/// The number that 23 digits stand for.
pub fn from_softu23(a: SoftU23) -> (r: u32)
    ensures
        r == value(a@),
{
    proof {
        lemma_value_bound(a@);
        lemma2_to64();
    }
    from_softu_generic(a) as u32
}

/// The number that 24 digits stand for.
pub fn from_softu24(a: SoftU24) -> (r: u32)
    ensures
        r == value(a@),
{
    proof {
        lemma_value_bound(a@);
        lemma2_to64();
    }
    from_softu_generic(a) as u32
}

/// The number that 32 digits stand for.
pub fn from_softu32(a: SoftU32) -> (r: u32)
    ensures
        r == value(a@),
{
    proof {
        lemma_value_bound(a@);
        lemma2_to64();
    }
    from_softu_generic(a) as u32
}

/// 8-digit ripple-carry addition: the sum modulo `2^8` and the carry out.
pub fn softu8_add(a: SoftU8, b: SoftU8) -> (r: (SoftU8, Bit))
    ensures
        r.0@ == sum_bits(a@, b@),
        r.1@ == carries_out(a@, b@),
        value(r.0@) + r.1.digit() * pow2(8) == value(a@) + value(b@),
{
    softu_add_generic(a, b)
}

/// 23-digit ripple-carry addition: the sum modulo `2^23` and the carry out.
pub fn softu23_add(a: SoftU23, b: SoftU23) -> (r: (SoftU23, Bit))
    ensures
        r.0@ == sum_bits(a@, b@),
        r.1@ == carries_out(a@, b@),
        value(r.0@) + r.1.digit() * pow2(23) == value(a@) + value(b@),
{
    softu_add_generic(a, b)
}

/// 24-digit ripple-carry addition: the sum modulo `2^24` and the carry out.
pub fn softu24_add(a: SoftU24, b: SoftU24) -> (r: (SoftU24, Bit))
    ensures
        r.0@ == sum_bits(a@, b@),
        r.1@ == carries_out(a@, b@),
        value(r.0@) + r.1.digit() * pow2(24) == value(a@) + value(b@),
{
    softu_add_generic(a, b)
}

/// 32-digit ripple-carry addition: the sum modulo `2^32` and the carry out.
pub fn softu32_add(a: SoftU32, b: SoftU32) -> (r: (SoftU32, Bit))
    ensures
        r.0@ == sum_bits(a@, b@),
        r.1@ == carries_out(a@, b@),
        value(r.0@) + r.1.digit() * pow2(32) == value(a@) + value(b@),
{
    softu_add_generic(a, b)
}

/// Logical shift right by one position of 23 digits.
pub fn shift_right23(x: SoftU23) -> (r: SoftU23)
    ensures
        r@ == shifted_right(x@),
        value(r@) == value(x@) / 2,
{
    shift_right_generic(x)
}

/// Logical shift right by one position of 24 digits.
pub fn shift_right24(x: SoftU24) -> (r: SoftU24)
    ensures
        r@ == shifted_right(x@),
        value(r@) == value(x@) / 2,
{
    shift_right_generic(x)
}

/// Logical shift right by one position of 32 digits.
pub fn shift_right32(x: SoftU32) -> (r: SoftU32)
    ensures
        r@ == shifted_right(x@),
        value(r@) == value(x@) / 2,
{
    shift_right_generic(x)
}

} // verus!
