use vector_beam::binary32::{share, whole_product, Binary32};
use vector_beam::decimal;

fn b(x: f32) -> Binary32 {
    Binary32 { bits: x.to_bits() }
}

fn f(x: Binary32) -> f32 {
    f32::from_bits(x.bits)
}

/// Numbers of all kinds: ends of ranges, neighbours of powers of two, and others
/// from all over.
fn numbers() -> Vec<f32> {
    let mut list = vec![
        0.0,
        -0.0,
        1.0,
        -1.0,
        0.5,
        1.5,
        2.5,
        3.5,
        0.1,
        4.0,
        -4.0,
        16777215.0,
        16777216.0,
        f32::MAX,
        f32::MIN,
        f32::MIN_POSITIVE,
        f32::EPSILON,
        f32::INFINITY,
        f32::NEG_INFINITY,
        f32::NAN,
    ];
    for bits in [1u32, 2, 0x7f_ffff, 0x80_0000, 0x80_0001, 0x3f7f_ffff, 0x3f80_0001, 0x7f7f_fffe] {
        list.push(f32::from_bits(bits));
        list.push(-f32::from_bits(bits));
    }
    let mut seed = 2024u32;
    for _ in 0..60 {
        seed = seed.wrapping_mul(1664525).wrapping_add(1013904223);
        list.push(f32::from_bits(seed));
        list.push((seed >> 9) as f32 / 1024.0 - 2000.0);
    }
    list
}

fn same(ours: Binary32, native: f32, what: &str, x: f32, y: f32) {
    let agree = if native.is_nan() { f(ours).is_nan() } else { ours.bits == native.to_bits() };
    assert!(agree, "{what} of {x:?} and {y:?}: {:?} instead of {native:?}", f(ours));
}

#[test]
fn operators_agree_with_the_machine() {
    for &x in &numbers() {
        for &y in &numbers() {
            same(b(x) + b(y), x + y, "sum", x, y);
            same(b(x) - b(y), x - y, "difference", x, y);
            same(b(x) * b(y), x * y, "product", x, y);
            same(b(x) / b(y), x / y, "quotient", x, y);
            assert_eq!(b(x).is_below(b(y)), x < y);
            assert_eq!(b(x).is_at_most(b(y)), x <= y);
            if !(x == 0.0 && y == 0.0) {
                same(b(x).max(b(y)), x.max(y), "larger", x, y);
                same(b(x).min(b(y)), x.min(y), "smaller", x, y);
            }
        }
    }
}

#[test]
fn roots_and_remainders_agree_with_the_machine() {
    for &x in &numbers() {
        same(b(x).sqrt(), x.sqrt(), "root", x, x);
        same(b(x).rem_four(), x % 4.0, "remainder", x, x);
        same(b(x).opposite(), -x, "opposite", x, x);
        assert_eq!(b(x).is_nan(), x.is_nan());
    }
}

#[test]
fn whole_numbers_agree_with_the_machine() {
    for &x in &numbers() {
        assert_eq!(b(x).to_u64(), x as u64, "{x:?}");
        assert_eq!(b(x).ceil_to_u64(), x.ceil() as u64, "{x:?}");
        assert_eq!(b(x).round_to_u64(), x.round() as u64, "{x:?}");
    }
    for n in [0u64, 1, 16777217, 16777219, 33554433, u32::MAX as u64, u64::MAX, 1 << 63] {
        assert_eq!(f(Binary32::from_u64(n)), n as f32);
    }
}

#[test]
fn ratios_are_the_nearest_numbers() {
    assert_eq!(f(Binary32::ratio(1, 3)), 1.0 / 3.0);
    assert_eq!(f(Binary32::ratio(7, 10)), 0.7);
    assert_eq!(f(Binary32::ratio(25, 100_000)), 0.000_25);
    assert_eq!(f(Binary32::ratio(1, 1_000_000)), 1e-6);
    assert_eq!(f(Binary32::ratio(0, 5)), 0.0);
    assert_eq!(f(Binary32::ratio(1, u32::MAX)), 1.0 / u32::MAX as f32);
    assert_eq!(f(Binary32::ratio(u32::MAX, 1)), u32::MAX as f32);
}

#[test]
fn products_of_three_agree_with_the_machine() {
    for &x in &numbers() {
        for &y in &numbers() {
            for n in [1u32, 4, 7, u32::MAX] {
                let native = (x.max(0.0) as f64 * y as f64 * n as f64) as u64;
                assert_eq!(whole_product(b(x), b(y), n), native, "{x:?} {y:?} {n}");
            }
        }
    }
}

#[test]
fn shares_agree_with_the_machine() {
    for &p in &numbers() {
        for count in [1u64, 2, 3, 100, 12345, 1 << 40, (1 << 53) + 1, u64::MAX] {
            let native = (p.clamp(0.0, 1.0) as f64 * count as f64).ceil() as u64;
            assert_eq!(share(b(p), count), native, "{p:?} {count}");
        }
    }
}

#[test]
fn decimals_agree_with_the_standard_library() {
    for s in [
        "0", "-0", "1", "+1", "0.25", "-1", ".5", "5.", ".", "", "+", "-", "e5", "1e", "1e+", "1e5",
        "1E-5", "1e400", "1e-400", "-1e-400", "inf", "-INF", "Infinity", "infinit", "nan", "-NaN",
        "NAN", "fast", "1.5.2", "1_000", " 1", "1 ", "0x10", "16777217", "16777219", "3.4028236e38",
        "3.4028235e38", "1.1754944e-38", "1.4e-45", "7e-46", "0.1", "0.7", "3.14159265358979",
        "123456789012345678901234567890", "0.000000000000000000000000000000000000000000001",
        "8388608.5", "8388609.5", "1e99999999999999999999", "0e99999999999999999999",
        "1e-99999999999999999999", "٣", "1e٣",
    ] {
        match s.parse::<f32>() {
            Ok(x) if x.is_nan() => assert!(f(decimal::parse(s).unwrap()).is_nan(), "{s:?}"),
            Ok(x) => assert_eq!(decimal::parse(s), Some(b(x)), "{s:?}"),
            Err(_) => assert_eq!(decimal::parse(s), None, "{s:?}"),
        }
    }
}

#[test]
fn printed_numbers_are_read_back() {
    for x in numbers() {
        if !x.is_nan() {
            assert_eq!(decimal::parse(&format!("{x}")), Some(b(x)));
            assert_eq!(decimal::parse(&format!("{x:e}")), Some(b(x)));
        }
    }
}

#[test]
fn rounding_keeps_the_order() {
    let list: Vec<f32> = numbers().into_iter().filter(|x| x.is_finite()).collect();
    for &x in &list {
        for &y in &list {
            if x <= y {
                for &z in &[0.1f32, 3.5, 1e20, 1e-20] {
                    assert!((b(x) + b(z)).is_at_most(b(y) + b(z)));
                    assert!((b(x) * b(z)).is_at_most(b(y) * b(z)));
                    assert!((b(x) / b(z)).is_at_most(b(y) / b(z)));
                }
            }
        }
    }
}

#[test]
fn short_numbers_are_exact() {
    for i in -200i32..200 {
        for j in -200i32..200 {
            let (x, y) = (i as f32 * 0.5, j as f32 * 0.5);
            assert_eq!(f(b(x) + b(y)), (i + j) as f32 * 0.5);
            assert_eq!(f(b(x) * b(y)), (i * j) as f32 * 0.25);
        }
    }
}
