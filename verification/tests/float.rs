use unigram::double::Double;
use unigram::single::Single;

/// A plain linear congruential generator, for reproducible patterns.
fn next(state: &mut u64) -> u64 {
    *state = state.wrapping_mul(6364136223846793005).wrapping_add(1442695040888963407);
    (*state >> 11) ^ (*state << 21)
}

fn special_singles() -> Vec<u32> {
    vec![
        0, 0x8000_0000, 1, 0x8000_0001, 0x007f_ffff, 0x0080_0000, 0x0080_0001, 0x3f80_0000,
        0xbf80_0000, 0x3f80_0001, 0x7f7f_ffff, 0xff7f_ffff, 0x7f80_0000, 0xff80_0000, 0x7fc0_0000,
        0x3300_0000, 0x3380_0000, 0x4b80_0000, 0xcb80_0000, 0x4b7f_ffff,
    ]
}

fn same_single(bits: u32, expected: f32) -> bool {
    bits == expected.to_bits() || (f32::from_bits(bits).is_nan() && expected.is_nan())
}

fn same_double(bits: u64, expected: f64) -> bool {
    bits == expected.to_bits() || (f64::from_bits(bits).is_nan() && expected.is_nan())
}

fn check_singles(a: u32, b: u32) {
    let (x, y) = (f32::from_bits(a), f32::from_bits(b));
    let (u, v) = (Single { bits: a }, Single { bits: b });
    assert!(same_single(u.add(&v).bits, x + y), "{x} + {y}");
    assert!(same_single(u.div(&v).bits, x / y), "{x} / {y}");
    assert_eq!(u.gt(&v), x > y, "{x} > {y}");
    assert!(same_double(u.to_double().bits, x as f64), "{x}");
    assert!(same_single(u.neg().bits, -x) || x.is_nan());
    assert!(same_single(Single::from_u32(a).bits, a as f32));
}

fn check_doubles(a: u64, b: u64) {
    let (x, y) = (f64::from_bits(a), f64::from_bits(b));
    let (u, v) = (Double { bits: a }, Double { bits: b });
    assert!(same_double(u.add(&v).bits, x + y), "{x} + {y}");
    assert_eq!(u.gt(&v), x > y, "{x} > {y}");
    assert_eq!(u.equals(&v), x == y, "{x} == {y}");
    assert!(same_single(u.to_single().bits, x as f32), "{x}");
}

#[test]
fn single_arithmetic_agrees_on_special_values() {
    for a in special_singles() {
        for b in special_singles() {
            check_singles(a, b);
        }
    }
}

#[test]
fn single_arithmetic_agrees_on_random_patterns() {
    let mut state = 1;
    for _ in 0..200_000 {
        let (a, b) = (next(&mut state) as u32, next(&mut state) as u32);
        check_singles(a, b);
        // Operands of like exponent, so that digits cancel.
        check_singles(a, (a & 0xff80_0000) ^ 0x8000_0000 | (b & 0x007f_ffff));
        check_singles(a, a.wrapping_add((b % 0x1000_0000) << 2));
    }
}

#[test]
fn double_arithmetic_agrees_on_special_values() {
    let specials = [
        0.0, -0.0, 1.0, -1.0, 0.1, 0.2, 0.3, 10.0, -10.0, 1e300, -1e300, f64::MAX, f64::MIN,
        f64::MIN_POSITIVE, 5e-324, -5e-324, f64::INFINITY, f64::NEG_INFINITY, f64::NAN,
        9007199254740992.0, 9007199254740993.0, 1.0 + f64::EPSILON, 3.4028235677973366e38,
        1.401298464324817e-45, 7.006492321624085e-46, 7.0064923216240864e-46,
    ];
    for x in specials {
        for y in specials {
            check_doubles(x.to_bits(), y.to_bits());
        }
    }
}

#[test]
fn double_arithmetic_agrees_on_random_patterns() {
    let mut state = 7;
    for _ in 0..200_000 {
        let (a, b) = (next(&mut state), next(&mut state));
        check_doubles(a, b);
        check_doubles(a, (a & 0xfff0_0000_0000_0000) ^ (1 << 63) | (b & 0x000f_ffff_ffff_ffff));
        check_doubles(a, a.wrapping_add((b % 0x1000_0000_0000_0000) << 2));
        // Doubles in the range of singles, so that conversion rounds.
        let near = (b & 0x800f_ffff_ffff_ffff) | ((1023 - 160 + a % 300) << 52);
        check_doubles(near, a);
    }
}
