use sub0bfuscate::bitops::{ONE, ZERO};
use sub0bfuscate::softerfloat::{from_softerf32, softerf32_add, to_softerf32};
use sub0bfuscate::softuint::{from_softu23, from_softu8};

fn add_floats(x: f32, y: f32) -> f32 {
    let a = to_softerf32(x.to_bits());
    let b = to_softerf32(y.to_bits());
    f32::from_bits(from_softerf32(softerf32_add(a, b)))
}

#[test]
fn add_softerf32_simple() {
    let a = to_softerf32(17.3f32.to_bits());
    let b = to_softerf32(24.7f32.to_bits());
    let c = softerf32_add(a, b);
    let c_f32 = f32::from_bits(from_softerf32(c));
    assert!((c_f32 - 42.0).abs() < 0.001);
}

#[test]
fn add_two_and_one_point_eight() {
    let sum = add_floats(2.0, 1.8);
    assert!((sum - 3.8).abs() < 0.01);
}

#[test]
fn unpack_fields() {
    let s = to_softerf32(1.0f32.to_bits());
    assert_eq!(s.sign, ONE);
    assert_eq!(from_softu8(s.exponent), 127);
    assert_eq!(from_softu23(s.fraction), 0);
    let s = to_softerf32((-2.5f32).to_bits());
    assert_eq!(s.sign, ZERO);
    assert_eq!(from_softu8(s.exponent), 128);
    assert_eq!(from_softu23(s.fraction), 0x20_0000);
}

#[test]
fn float_round_trip_bit_for_bit() {
    for x in [
        1.0f32,
        -1.0,
        3.14159,
        -2.5e-10,
        6.02e23,
        f32::MAX,
        f32::MIN_POSITIVE,
        -f32::MIN_POSITIVE,
    ] {
        assert_eq!(from_softerf32(to_softerf32(x.to_bits())), x.to_bits());
    }
}

#[test]
fn add_exact_cases() {
    // different exponents, no carry
    assert_eq!(add_floats(1.0, 0.5), 1.5);
    // equal exponents, carry out and renormalisation
    assert_eq!(add_floats(1.5, 1.5), 3.0);
    assert_eq!(add_floats(1.0, 1.0), 2.0);
    // negative operands keep their sign
    assert_eq!(add_floats(-1.0, -0.5), -1.5);
    assert_eq!(add_floats(-4.0, -4.0), -8.0);
    // a large exponent gap shifts the smaller operand out
    assert_eq!(add_floats(1.0e10, 1.0e-10), 1.0e10);
}
