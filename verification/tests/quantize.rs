use pentagon_garden::bucket::{CircleKey, PointKey};
use pentagon_garden::quantize::{circle_key, point_key, quantize};

/// `x` times two to the power of `k`, in floating point; exact, because
/// scaling up by a power of two loses nothing.
fn scaled(x: f64, k: u32) -> f64 {
    let mut v = x;
    let mut left = k;
    while left > 0 {
        let step = left.min(512);
        v *= 2f64.powi(step as i32);
        left -= step;
    }
    v
}

/// The bucket as floating-point arithmetic finds it.
fn reference(x: f64, k: u32) -> i64 {
    scaled(x, k).round() as i64
}

fn check(x: f64, k: u32) {
    assert_eq!(quantize(x.to_bits(), k), reference(x, k), "x = {:e} ({:#018x}), k = {}", x, x.to_bits(), k);
}

const GRIDS: [u32; 14] = [0, 1, 2, 10, 20, 30, 52, 53, 62, 63, 64, 200, 1074, 3000];

#[test]
fn zero_has_bucket_zero_whatever_its_sign() {
    for k in GRIDS {
        assert_eq!(quantize(0f64.to_bits(), k), 0);
        assert_eq!(quantize((-0f64).to_bits(), k), 0);
    }
}

#[test]
fn what_is_not_a_number_has_bucket_zero() {
    for k in GRIDS {
        assert_eq!(quantize(f64::NAN.to_bits(), k), 0);
        assert_eq!(quantize((-f64::NAN).to_bits(), k), 0);
        assert_eq!(quantize(0x7ff0_0000_0000_0001, k), 0);
        assert_eq!(quantize(0xffff_ffff_ffff_ffff, k), 0);
    }
}

#[test]
fn infinities_have_the_outermost_buckets() {
    for k in GRIDS {
        assert_eq!(quantize(f64::INFINITY.to_bits(), k), i64::MAX);
        assert_eq!(quantize(f64::NEG_INFINITY.to_bits(), k), i64::MIN);
    }
}

#[test]
fn unit_grid_rounds_to_the_nearest_integer() {
    let cases: [(f64, i64); 16] = [
        (0.0, 0),
        (0.25, 0),
        (0.49999999999999994, 0),
        (0.5, 1),
        (0.75, 1),
        (1.0, 1),
        (1.5, 2),
        (2.5, 3),
        (-0.25, 0),
        (-0.5, -1),
        (-1.5, -2),
        (-2.5, -3),
        (1e15, 1_000_000_000_000_000),
        (-123456.7, -123457),
        (4503599627370496.0, 4503599627370496),
        (9007199254740993.0, 9007199254740992),
    ];
    for (x, bucket) in cases {
        assert_eq!(quantize(x.to_bits(), 0), bucket, "x = {}", x);
    }
}

#[test]
fn finer_grid_counts_in_smaller_steps() {
    assert_eq!(quantize(0.1f64.to_bits(), 20), 104858);
    assert_eq!(quantize((-0.5f64).to_bits(), 20), -524288);
    assert_eq!(quantize(1.0f64.to_bits(), 10), 1024);
    assert_eq!(quantize(0.00048828125f64.to_bits(), 10), 1);
    assert_eq!(quantize(0.000244140625f64.to_bits(), 10), 0);
    assert_eq!(quantize(0.000732421875f64.to_bits(), 10), 1);
    assert_eq!(quantize(3.0f64.to_bits(), 1), 6);
    assert_eq!(quantize(0.75f64.to_bits(), 1), 2);
    assert_eq!(quantize(0.74f64.to_bits(), 1), 1);
}

#[test]
fn large_numbers_keep_within_range() {
    assert_eq!(quantize(9.3e18f64.to_bits(), 0), i64::MAX);
    assert_eq!(quantize((-9.3e18f64).to_bits(), 0), i64::MIN);
    assert_eq!(quantize(9223372036854775808.0f64.to_bits(), 0), i64::MAX);
    assert_eq!(quantize((-9223372036854775808.0f64).to_bits(), 0), i64::MIN);
    assert_eq!(quantize(9223372036854774784.0f64.to_bits(), 0), 9223372036854774784);
    assert_eq!(quantize((-9223372036854774784.0f64).to_bits(), 0), -9223372036854774784);
    assert_eq!(quantize(f64::MAX.to_bits(), 0), i64::MAX);
    assert_eq!(quantize(f64::MIN.to_bits(), 20), i64::MIN);
    assert_eq!(quantize(1.0f64.to_bits(), 63), i64::MAX);
    assert_eq!(quantize((-1.0f64).to_bits(), 63), i64::MIN);
    assert_eq!(quantize(1.0f64.to_bits(), 62), 1 << 62);
    assert_eq!(quantize(1.0f64.to_bits(), 4_000_000_000), i64::MAX);
}

#[test]
fn small_numbers_fall_into_bucket_zero_or_next_to_it() {
    let tiny = f64::from_bits(1);
    assert_eq!(quantize(tiny.to_bits(), 20), 0);
    assert_eq!(quantize(tiny.to_bits(), 1073), 1);
    assert_eq!(quantize(tiny.to_bits(), 1072), 0);
    assert_eq!(quantize(tiny.to_bits(), 1074), 1);
    assert_eq!(quantize(tiny.to_bits(), 1075), 2);
    assert_eq!(quantize((-tiny).to_bits(), 1075), -2);
    assert_eq!(quantize(f64::MIN_POSITIVE.to_bits(), 1022), 1);
    assert_eq!(quantize(f64::MIN_POSITIVE.to_bits(), 1021), 1);
    assert_eq!(quantize(f64::MIN_POSITIVE.to_bits(), 1020), 0);
    assert_eq!(quantize(1e-7f64.to_bits(), 20), 0);
    assert_eq!(quantize(4.7e-7f64.to_bits(), 20), 0);
    assert_eq!(quantize(4.8e-7f64.to_bits(), 20), 1);
}

#[test]
fn agrees_with_floating_point_rounding_on_chosen_numbers() {
    let mut numbers = vec![
        0.0,
        1.0,
        0.1,
        0.5,
        1.5,
        2.5,
        1e-9,
        1e-6,
        0.3333333333333333,
        std::f64::consts::PI,
        1e10,
        1e18,
        9.2e18,
        9.3e18,
        1e300,
        f64::MAX,
        f64::MIN_POSITIVE,
        f64::EPSILON,
        f64::INFINITY,
        f64::NAN,
    ];
    for bits in [1u64, 2, 3, 0x000f_ffff_ffff_ffff, 0x0010_0000_0000_0000, 0x0010_0000_0000_0001, 0x7fef_ffff_ffff_ffff] {
        numbers.push(f64::from_bits(bits));
    }
    for k in GRIDS {
        for x in numbers.iter() {
            check(*x, k);
            check(-*x, k);
        }
    }
}

#[test]
fn agrees_with_floating_point_rounding_next_to_the_bucket_borders() {
    for k in [0u32, 1, 7, 20, 40] {
        let width = 2f64.powi(-(k as i32));
        for n in [-1000i64, -3, -2, -1, 0, 1, 2, 3, 17, 1000, 123_456_789] {
            let border = (n as f64 + 0.5) * width;
            let mut x = border;
            for _ in 0..4 {
                check(x, k);
                x = f64::from_bits(x.to_bits() + 1);
            }
            let mut x = border;
            for _ in 0..4 {
                check(x, k);
                x = f64::from_bits(x.to_bits().wrapping_sub(1));
            }
            assert_eq!(quantize((n as f64 * width).to_bits(), k), n);
        }
    }
}

#[test]
fn agrees_with_floating_point_rounding_on_many_bit_patterns() {
    let mut state: u64 = 0x9e37_79b9_7f4a_7c15;
    for _ in 0..20_000 {
        state = state.wrapping_mul(6364136223846793005).wrapping_add(1442695040888963407);
        let bits = state ^ (state >> 29);
        let x = f64::from_bits(bits);
        for k in [0u32, 20, 64, 1074] {
            check(x, k);
        }
        // numbers of moderate size, where most buckets are neither zero nor
        // the outermost ones
        let exponent = 1023 - 30 + (bits >> 52) % 60;
        let y = f64::from_bits((bits & 0x800f_ffff_ffff_ffff) | (exponent << 52));
        for k in [0u32, 10, 20, 30] {
            check(y, k);
        }
    }
}

#[test]
fn neighbours_within_a_bucket_share_it_and_those_a_width_apart_do_not() {
    let k = 20;
    let width = 2f64.powi(-20);
    for n in [-5i64, 0, 3, 1000] {
        let centre = n as f64 * width;
        assert_eq!(quantize(centre.to_bits(), k), n);
        assert_eq!(quantize((centre + 0.49 * width).to_bits(), k), n);
        assert_eq!(quantize((centre - 0.49 * width).to_bits(), k), n);
        assert_ne!(quantize((centre + width).to_bits(), k), n);
        assert_ne!(quantize((centre - width).to_bits(), k), n);
        assert_eq!(quantize((centre + width).to_bits(), k), n + 1);
    }
    // a whole turn of rounding errors stays in the bucket
    assert_eq!(quantize(0.1f64.to_bits(), k), quantize((0.1f64 + 3e-16).to_bits(), k));
}

#[test]
fn keys_are_the_buckets_of_the_coordinates() {
    let key = point_key(0.1f64.to_bits(), (-0.5f64).to_bits(), 20);
    assert_eq!(key, PointKey::new(104858, -524288));
    let key = circle_key(0.5f64.to_bits(), 0f64.to_bits(), 0.5f64.to_bits(), 20);
    assert_eq!(key, CircleKey::new(PointKey::new(524288, 0), 524288));
}
