use sub0bfuscate::bitops::{
    adder, and, not, or, sub_zeros, xor, Bit, BitExt, ONE, ONE_PATTERN, ZERO, ZERO_PATTERN,
};

fn as_float(b: Bit) -> f32 {
    f32::from_bits(b.to_bits())
}

#[test]
fn gate_truth_tables() {
    let z = ZERO; // -0.0 (bit 0)
    let o = ONE; // +0.0 (bit 1)

    // not
    assert!(not(z).sign_bit_is_one());
    assert!(not(o).sign_bit_is_zero());

    // and
    assert!(and(z, z).sign_bit_is_zero());
    assert!(and(z, o).sign_bit_is_zero());
    assert!(and(o, z).sign_bit_is_zero());
    assert!(and(o, o).sign_bit_is_one());

    // or
    assert!(or(z, z).sign_bit_is_zero());
    assert!(or(z, o).sign_bit_is_one());
    assert!(or(o, z).sign_bit_is_one());
    assert!(or(o, o).sign_bit_is_one());

    // xor
    assert!(xor(z, z).sign_bit_is_zero());
    assert!(xor(z, o).sign_bit_is_one());
    assert!(xor(o, z).sign_bit_is_one());
    assert!(xor(o, o).sign_bit_is_zero());
}

#[test]
fn digits_are_the_two_float_zeros() {
    assert_eq!(as_float(ONE), 0.0);
    assert_eq!(as_float(ZERO), 0.0);
    assert!(as_float(ONE).is_sign_positive());
    assert!(as_float(ZERO).is_sign_negative());
    assert_eq!(ONE.to_bits(), ONE_PATTERN);
    assert_eq!(ZERO.to_bits(), ZERO_PATTERN);
    assert_eq!(ZERO.to_bits(), (-0.0f32).to_bits());
    assert_eq!(ONE.to_bits(), 0.0f32.to_bits());
}

#[test]
fn from_bits_accepts_only_zeros() {
    assert_eq!(Bit::from_bits(0.0f32.to_bits()), Some(ONE));
    assert_eq!(Bit::from_bits((-0.0f32).to_bits()), Some(ZERO));
    assert_eq!(Bit::from_bits(1.0f32.to_bits()), None);
    assert_eq!(Bit::from_bits(f32::NAN.to_bits()), None);
    assert_eq!(Bit::from_bits(1), None);
}

#[test]
fn sign_as_bit_and_from_bool() {
    assert_eq!(ONE.sign_as_bit(), 1);
    assert_eq!(ZERO.sign_as_bit(), 0);
    assert_eq!(Bit::from_bool(true), ONE);
    assert_eq!(Bit::from_bool(false), ZERO);
    assert!(Bit::from_bool(true).sign_bit_is_one());
    assert!(Bit::from_bool(false).sign_bit_is_zero());
}

#[test]
fn subtraction_of_zeros_matches_floats() {
    for a in [ZERO, ONE] {
        for b in [ZERO, ONE] {
            let native = as_float(a) - as_float(b);
            assert_eq!(sub_zeros(a, b).to_bits(), native.to_bits());
        }
    }
}

#[test]
fn gate_outputs_stay_in_the_domain() {
    for a in [ZERO, ONE] {
        assert_eq!(not(a), Bit::from_bool(!a.sign_bit_is_one()));
        for b in [ZERO, ONE] {
            let (x, y) = (a.sign_bit_is_one(), b.sign_bit_is_one());
            for r in [and(a, b), or(a, b), xor(a, b)] {
                assert!(r.to_bits() == ZERO_PATTERN || r.to_bits() == ONE_PATTERN);
            }
            assert_eq!(and(a, b), Bit::from_bool(x && y));
            assert_eq!(or(a, b), Bit::from_bool(x || y));
            assert_eq!(xor(a, b), Bit::from_bool(x != y));
        }
    }
    assert_eq!(and(ONE, ONE), ONE);
    assert_eq!(xor(ONE, ZERO), ONE);
    assert_eq!(not(ONE), ZERO);
}

#[test]
fn full_adder_truth_table() {
    let cases: [(u32, u32, u32, u32, u32); 8] = [
        (0, 0, 0, 0, 0),
        (0, 0, 1, 1, 0),
        (0, 1, 0, 1, 0),
        (0, 1, 1, 0, 1),
        (1, 0, 0, 1, 0),
        (1, 0, 1, 0, 1),
        (1, 1, 0, 0, 1),
        (1, 1, 1, 1, 1),
    ];
    for (a, b, c, s, cout) in cases {
        let (rs, rc) = adder(
            Bit::from_bool(a == 1),
            Bit::from_bool(b == 1),
            Bit::from_bool(c == 1),
        );
        assert_eq!(rs.sign_as_bit(), s);
        assert_eq!(rc.sign_as_bit(), cout);
    }
}
