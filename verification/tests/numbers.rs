use glance::double::{
    divided_by, less, nearest_double, nearest_to_whole, root_of, rounded, rounded_to_even,
    scale_side, scaled_by, times, whole_root, Double,
};
use glance::floating::{
    add_up, floor, from_bits, from_whole, multiply, negated, to_bits, to_shade,
};
use glance::single::{complement, part_of_255, to_byte, Single};
use glance::wording::{in_decimal, is_among, same, same_bytes, to_lower};

fn value(a: Double) -> f64 {
    a.numerator as f64 / 2f64.powi(a.places as i32)
}

#[test]
fn quotients_are_the_nearest_doubles() {
    for n in [1u64, 2, 3, 5, 7, 10, 160, 999, 4000, 65_537, 4_294_967_295] {
        for d in [1u64, 2, 3, 6, 7, 49, 1000, 6000, 4_294_967_291] {
            let ratio = nearest_double(u128::from(n), u128::from(d));
            assert_eq!(value(ratio), n as f64 / d as f64, "{n} / {d}");
        }
    }
}

#[test]
fn products_and_roots_are_the_nearest_doubles() {
    for n in [1u64, 3, 7, 160, 999, 4000] {
        for d in [7u64, 49, 1000, 6000] {
            let (a, b) = (n as f64 / d as f64, d as f64 / (n as f64 + 1.0));
            let (x, y) = (
                nearest_double(u128::from(n), u128::from(d)),
                nearest_double(u128::from(d), u128::from(n + 1)),
            );
            assert_eq!(value(times(x, y)), a * b);
            assert_eq!(value(root_of(x)), a.sqrt());
            assert_eq!(less(x, y), a < b);
            assert_eq!(rounded(y), b.round() as u128);
            assert_eq!(format!("{}", rounded_to_even(y)), format!("{b:.0}"));
            assert_eq!(value(scaled_by(1234, x)), 1234.0 * a);
            assert_eq!(value(divided_by(1234, x)), 1234.0 / a);
            if a <= 1.0 {
                assert_eq!(scale_side(777, x), ((777.0 * a).round() as u32).max(1));
            }
        }
    }
    assert_eq!(whole_root(0), 0);
    assert_eq!(whole_root(99), 9);
    assert_eq!(whole_root(100), 10);
}

#[test]
fn large_whole_numbers_lose_their_last_bits() {
    for n in [0u64, 1, 1 << 53, (1 << 53) + 1, (1 << 53) + 3, u64::MAX, u64::MAX - 1024] {
        assert_eq!(nearest_to_whole(n), n as f64 as u128, "{n}");
    }
}

fn single(a: Single) -> f32 {
    (a.numerator as f64 / 2f64.powi(a.places as i32)) as f32
}

#[test]
fn bytes_as_parts_of_one_are_the_nearest_singles() {
    for byte in 0..=255u8 {
        let part = part_of_255(byte);
        assert_eq!(single(part), f32::from(byte) / 255.0);
        assert_eq!(to_byte(part), (f32::from(byte) / 255.0).round() as u8);
        assert_eq!(single(complement(part, byte)), 1.0 - f32::from(byte) / 255.0);
    }
}

#[test]
fn numbers_are_written_out() {
    for n in [0u64, 7, 10, 100, 999, 1234567890, u64::MAX] {
        assert_eq!(in_decimal(n), n.to_string());
    }
    assert!(same("é", "é") && !same("a", "A"));
    assert!(same_bytes(b"ab", b"ab") && !same_bytes(b"ab", b"abc"));
    assert_eq!(to_lower(&b"AbZ[\xc4".to_vec()), b"abz[\xc4");
    assert!(is_among(b"b", &vec!["a", "b"]) && !is_among(b"c", &vec!["a", "b"]));
}

/// A double out of the middle of the range, with a sign.
fn ordinary(state: &mut u64) -> f64 {
    *state = state.wrapping_mul(6_364_136_223_846_793_005).wrapping_add(1_442_695_040_888_963_407);
    let fraction = *state >> 12;
    let exponent = 1023 - 40 + (*state >> 3) % 80;
    let sign = (*state >> 2) & 1;
    f64::from_bits(sign << 63 | exponent << 52 | fraction)
}

#[test]
fn signed_arithmetic_rounds_as_doubles_do() {
    let mut state: u64 = 2024;
    let mut numbers: Vec<f64> = (0..300).map(|_| ordinary(&mut state)).collect();
    numbers.extend([0.0, 1.0, -1.0, 0.5, 3.0, -3.0, 1.0 + f64::EPSILON, 1.0 - f64::EPSILON / 2.0]);
    let bits = |number| f64::from_bits(to_bits(number).unwrap());
    for a in &numbers {
        let x = from_bits(a.to_bits()).unwrap();
        assert_eq!(bits(x), *a);
        assert_eq!(bits(negated(x)), -*a);
        assert_eq!(to_shade(x), a.round().clamp(0.0, 255.0) as u8);
        if a.abs() < 1e12 {
            assert_eq!(floor(x), a.floor() as i64, "{a}");
        }
        for b in &numbers {
            let y = from_bits(b.to_bits()).unwrap();
            assert_eq!(bits(multiply(x, y)), a * b, "{a} * {b}");
            assert_eq!(bits(add_up(x, y)), a + b, "{a} + {b}");
        }
        if *a != 0.0 {
            let near = f64::from_bits(a.to_bits() ^ 5);
            let z = from_bits(near.to_bits()).unwrap();
            assert_eq!(bits(add_up(x, negated(z))), a - near, "{a} - {near}");
        }
    }
    assert!(from_bits(f64::NAN.to_bits()).is_none());
    assert!(from_bits(f64::INFINITY.to_bits()).is_none());
    assert!(from_bits(1).is_none());
    for n in [0i64, 1, -1, 255, -4096, 0xF_FFFF_FFFF_FFFF] {
        assert_eq!(bits(from_whole(n)), n as f64);
    }
}
