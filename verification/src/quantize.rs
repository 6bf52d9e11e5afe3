use vstd::arithmetic::div_mod::*;
use vstd::arithmetic::mul::*;
use vstd::arithmetic::power2::*;
use vstd::bits::*;
use vstd::prelude::*;
use crate::bucket::{CircleKey, PointKey};

verus! {

/// Two to the power of the width of the fraction field of a binary64 number.
pub const FRACTION_RANGE: u64 = 0x0010_0000_0000_0000;

/// The sign bit of a binary64 number.
pub const SIGN_BIT: u64 = 0x8000_0000_0000_0000;

/// The fraction field of the binary64 number with the bit pattern `bits`.
pub open spec fn fraction(bits: u64) -> nat {
    (bits % FRACTION_RANGE) as nat
}

/// Its exponent field.
pub open spec fn exponent(bits: u64) -> nat {
    ((bits / FRACTION_RANGE) % 0x800) as nat
}

/// Whether its sign bit is set.
pub open spec fn negative(bits: u64) -> bool {
    bits >= SIGN_BIT
}

/// Whether it is not a number.
pub open spec fn is_nan(bits: u64) -> bool {
    exponent(bits) == 0x7ff && fraction(bits) != 0
}

/// Whether it is neither infinite nor not a number.
pub open spec fn is_finite(bits: u64) -> bool {
    exponent(bits) != 0x7ff
}

/// The significand of a finite number, with the hidden bit of a normal one.
pub open spec fn significand(bits: u64) -> nat {
    if exponent(bits) == 0 {
        fraction(bits)
    } else {
        (fraction(bits) + FRACTION_RANGE) as nat
    }
}

/// The power of two by which the significand of a finite number is scaled,
/// counted from that of the smallest subnormal number.
pub open spec fn power(bits: u64) -> nat {
    if exponent(bits) == 0 {
        0
    } else {
        (exponent(bits) - 1) as nat
    }
}

/// The magnitude of a finite number as a multiple of the smallest subnormal
/// number, two to the power of -1074.  Every finite binary64 number is such a
/// multiple, so this is its exact magnitude.
pub open spec fn units(bits: u64) -> nat {
    significand(bits) * pow2(power(bits))
}

/// The exact value of a finite number in the same unit.
pub open spec fn signed_units(bits: u64) -> int {
    if negative(bits) {
        -(units(bits) as int)
    } else {
        units(bits) as int
    }
}

/// The multiple of two to the power of `-frac_bits` that is nearest to a
/// magnitude of `units` times two to the power of -1074; halfway between two
/// multiples, the one farther from zero.
pub open spec fn nearest_multiple(units: nat, frac_bits: nat) -> nat {
    (units * pow2(frac_bits + 1) + pow2(1074)) / pow2(1075)
}

/// The bucket of the binary64 number with the bit pattern `bits` on a grid of
/// width two to the power of `-frac_bits`: the number of the nearest grid
/// point, halfway cases away from zero, kept within the range of `i64`.
/// What is not a number falls into bucket 0.
pub open spec fn quantized(bits: u64, frac_bits: nat) -> int {
    let nearest = nearest_multiple(units(bits), frac_bits);
    if is_nan(bits) {
        0
    } else if negative(bits) {
        if !is_finite(bits) || nearest >= SIGN_BIT {
            i64::MIN as int
        } else {
            -(nearest as int)
        }
    } else {
        if !is_finite(bits) || nearest > i64::MAX {
            i64::MAX as int
        } else {
            nearest as int
        }
    }
}

/// Where the grid is coarser than the unit of the significand, the nearest
/// grid point is found by a division of the significand alone.
proof fn lemma_nearest_coarse(m: nat, p: nat, k: nat)
    requires
        p + k < 1074,
    ensures
        nearest_multiple(m * pow2(p), k) == (m + pow2((1073 - p - k) as nat)) / pow2(
            (1074 - p - k) as nat,
        ),
{
    let t = (1074 - p - k) as nat;
    let c = pow2(p + k + 1);
    lemma_pow2_pos(p + k + 1);
    lemma_pow2_pos(t);
    lemma_pow2_adds(p, k + 1);
    lemma_pow2_adds(p + k + 1, (t - 1) as nat);
    lemma_pow2_adds(p + k + 1, t);
    assert(m * pow2(p) * pow2(k + 1) == c * m) by {
        lemma_mul_is_associative(m as int, pow2(p) as int, pow2(k + 1) as int);
        lemma_mul_is_commutative(m as int, c as int);
    }
    assert(c * m + c * pow2((t - 1) as nat) == c * (m + pow2((t - 1) as nat))) by {
        lemma_mul_is_distributive_add(c as int, m as int, pow2((t - 1) as nat) as int);
    }
    lemma_div_multiples_vanish_quotient(c as int, (m + pow2((t - 1) as nat)) as int, pow2(t) as int);
}

/// Where the grid is at least as fine as the unit of the significand, every
/// number lies on the grid.
proof fn lemma_nearest_fine(m: nat, p: nat, k: nat)
    requires
        p + k >= 1074,
    ensures
        nearest_multiple(m * pow2(p), k) == m * pow2((p + k - 1074) as nat),
{
    let s = (p + k - 1074) as nat;
    lemma_pow2_pos(1075);
    lemma_pow2_adds(p, k + 1);
    lemma_pow2_adds(s, 1075);
    lemma_pow2_strictly_increases(1074, 1075);
    assert(m * pow2(p) * pow2(k + 1) == pow2(1075) * (m * pow2(s))) by {
        lemma_mul_is_associative(m as int, pow2(p) as int, pow2(k + 1) as int);
        lemma_mul_is_associative(m as int, pow2(s) as int, pow2(1075) as int);
        lemma_mul_is_commutative((m * pow2(s)) as int, pow2(1075) as int);
    }
    lemma_div_multiples_vanish_fancy((m * pow2(s)) as int, pow2(1074) as int, pow2(1075) as int);
}

/// The nearest grid point to a magnitude of `m` times two to the power of
/// `p - 1074`, capped at two to the power of 63.
fn nearest(m: u64, p: u64, frac_bits: u32) -> (found: u64)
    requires
        m < 2 * FRACTION_RANGE,
        p <= 2045,
    ensures
        found == if nearest_multiple(m as nat * pow2(p as nat), frac_bits as nat) >= SIGN_BIT {
            SIGN_BIT as nat
        } else {
            nearest_multiple(m as nat * pow2(p as nat), frac_bits as nat)
        },
{
    let total: u64 = p + frac_bits as u64;
    proof {
        lemma2_to64();
        lemma2_to64_rest();
    }
    if m == 0 {
        proof {
            if total >= 1074 {
                lemma_nearest_fine(0, p as nat, frac_bits as nat);
            } else {
                lemma_nearest_coarse(0, p as nat, frac_bits as nat);
                let t = (1074 - total) as nat;
                lemma_pow2_strictly_increases((t - 1) as nat, t);
                lemma_basic_div(pow2((t - 1) as nat) as int, pow2(t) as int);
            }
        }
        0
    } else if total >= 1074 {
        let s: u64 = total - 1074;
        proof {
            lemma_nearest_fine(m as nat, p as nat, frac_bits as nat);
        }
        if s >= 63 {
            proof {
                if s > 63 {
                    lemma_pow2_strictly_increases(63, s as nat);
                }
                lemma_mul_inequality(1, m as int, pow2(s as nat) as int);
            }
            SIGN_BIT
        } else {
            let most: u64 = 0x7fff_ffff_ffff_ffff;
            proof {
                lemma_u64_mul_pow2_le_max_iff_max_shr(m, s, most);
            }
            if m <= (most >> s) {
                proof {
                    lemma_u64_shl_is_mul(m, s);
                }
                m << s
            } else {
                SIGN_BIT
            }
        }
    } else {
        let t: u64 = 1074 - total;
        proof {
            lemma_nearest_coarse(m as nat, p as nat, frac_bits as nat);
        }
        if t >= 54 {
            proof {
                lemma_pow2_strictly_increases((t - 1) as nat, t as nat);
                if t > 54 {
                    lemma_pow2_strictly_increases(53, (t - 1) as nat);
                }
                lemma_pow2_unfold(t as nat);
                lemma_basic_div((m + pow2((t - 1) as nat)) as int, pow2(t as nat) as int);
            }
            0
        } else {
            proof {
                if t < 53 {
                    lemma_pow2_strictly_increases((t - 1) as nat, 52);
                }
                lemma_u64_shl_is_mul(1, (t - 1) as u64);
                lemma_u64_shr_is_div((m + pow2((t - 1) as nat)) as u64, t);
                lemma_pow2_pos(t as nat);
                lemma_div_is_ordered_by_denominator((m + pow2((t - 1) as nat)) as int, 1, pow2(t as nat) as int);
            }
            let half: u64 = 1u64 << (t - 1);
            (m + half) >> t
        }
    }
}

/// The bucket of the binary64 number with the bit pattern `bits` on a grid of
/// width two to the power of `-frac_bits`.  Numbers that round to the same
/// grid point are one state.
pub fn quantize(bits: u64, frac_bits: u32) -> (bucket: i64)
    ensures
        bucket == quantized(bits, frac_bits as nat),
{
    let fraction = bits % FRACTION_RANGE;
    let exponent = (bits / FRACTION_RANGE) % 0x800;
    let negative = bits >= SIGN_BIT;
    if exponent == 0x7ff {
        if fraction != 0 {
            0
        } else if negative {
            i64::MIN
        } else {
            i64::MAX
        }
    } else {
        let m = if exponent == 0 {
            fraction
        } else {
            fraction + FRACTION_RANGE
        };
        let p = if exponent == 0 {
            0
        } else {
            exponent - 1
        };
        let found = nearest(m, p, frac_bits);
        if negative {
            if found >= SIGN_BIT {
                i64::MIN
            } else {
                -(found as i64)
            }
        } else {
            if found >= SIGN_BIT {
                i64::MAX
            } else {
                found as i64
            }
        }
    }
}

/// The key that [`point_key`] gives to the point with the coordinates `x` and
/// `y`.
pub open spec fn point_key_of(x: u64, y: u64, frac_bits: nat) -> PointKey {
    PointKey { x: quantized(x, frac_bits) as i64, y: quantized(y, frac_bits) as i64 }
}

/// The bucket of the point with the coordinates `x` and `y`, given as bit
/// patterns.
pub fn point_key(x: u64, y: u64, frac_bits: u32) -> (key: PointKey)
    ensures
        key == point_key_of(x, y, frac_bits as nat),
{
    PointKey { x: quantize(x, frac_bits), y: quantize(y, frac_bits) }
}

/// The bucket of the circle with the centre (`x`, `y`) and the radius `rad`,
/// given as bit patterns.
pub fn circle_key(x: u64, y: u64, rad: u64, frac_bits: u32) -> (key: CircleKey)
    ensures
        key.centre == point_key_of(x, y, frac_bits as nat),
        key.radius == quantized(rad, frac_bits as nat),
{
    CircleKey { centre: point_key(x, y, frac_bits), radius: quantize(rad, frac_bits) }
}

/// The exact value of a finite number times two to the power of `frac_bits`,
/// in units of two to the power of -1074.  In this unit the grid has the width
/// `pow2(1074)`, and grid point `n` lies at `n * pow2(1074)`.
pub open spec fn scaled(bits: u64, frac_bits: nat) -> int {
    signed_units(bits) * pow2(frac_bits)
}

/// Whether a bucket is one of the two outermost ones, which take in all that
/// lies beyond them.
pub open spec fn outermost(bucket: int) -> bool {
    bucket == i64::MIN || bucket == i64::MAX
}

/// The nearest grid point is the one within half a width: `2 * width * n <=
/// 2 * magnitude + width < 2 * width * (n + 1)`.
proof fn lemma_nearest_bounds(units: nat, frac_bits: nat)
    ensures
        2 * pow2(1074) * nearest_multiple(units, frac_bits) <= 2 * (units * pow2(frac_bits)) + pow2(1074),
        2 * (units * pow2(frac_bits)) + pow2(1074) < 2 * pow2(1074) * (nearest_multiple(units, frac_bits)
            + 1),
{
    let width = pow2(1074) as int;
    let whole = units * pow2(frac_bits + 1) + pow2(1074);
    lemma_pow2_pos(1074);
    lemma_pow2_unfold(1075);
    lemma_pow2_unfold(frac_bits + 1);
    assert(units * pow2(frac_bits + 1) == 2 * (units * pow2(frac_bits))) by {
        lemma_mul_is_associative(units as int, 2, pow2(frac_bits) as int);
        lemma_mul_is_commutative(units as int, 2);
        lemma_mul_is_associative(2, units as int, pow2(frac_bits) as int);
    }
    lemma_fundamental_div_mod(whole as int, 2 * width);
    lemma_mod_pos_bound(whole as int, 2 * width);
    let n = nearest_multiple(units, frac_bits) as int;
    assert(2 * width * (n + 1) == 2 * width * n + 2 * width) by (nonlinear_arith);
}

/// A larger magnitude has no smaller nearest grid point, and a magnitude that
/// is larger by a width of the grid has a larger one.
proof fn lemma_nearest_ordered(a: nat, b: nat, frac_bits: nat)
    requires
        a <= b,
    ensures
        nearest_multiple(a, frac_bits) <= nearest_multiple(b, frac_bits),
        b * pow2(frac_bits) - a * pow2(frac_bits) >= pow2(1074) ==> nearest_multiple(a, frac_bits)
            < nearest_multiple(b, frac_bits),
{
    let width = pow2(1074) as int;
    let na = nearest_multiple(a, frac_bits) as int;
    let nb = nearest_multiple(b, frac_bits) as int;
    let sa = (a * pow2(frac_bits)) as int;
    let sb = (b * pow2(frac_bits)) as int;
    lemma_pow2_pos(1074);
    lemma_nearest_bounds(a, frac_bits);
    lemma_nearest_bounds(b, frac_bits);
    lemma_mul_inequality(a as int, b as int, pow2(frac_bits) as int);
    assert(na <= nb) by (nonlinear_arith)
        requires
            width > 0,
            sa <= sb,
            2 * width * na <= 2 * sa + width,
            2 * sb + width < 2 * width * (nb + 1),
    ;
    if sb - sa >= width {
        assert(na < nb) by (nonlinear_arith)
            requires
                width > 0,
                sb - sa >= width,
                2 * width * na <= 2 * sa + width,
                2 * sb + width < 2 * width * (nb + 1),
        ;
    }
}

/// The nearest grid point to nothing is grid point 0.
proof fn lemma_nearest_to_zero(frac_bits: nat)
    ensures
        nearest_multiple(0, frac_bits) == 0,
{
    lemma_pow2_pos(1074);
    lemma_nearest_bounds(0, frac_bits);
    let n = nearest_multiple(0, frac_bits) as int;
    let width = pow2(1074) as int;
    assert(0 * pow2(frac_bits) == 0);
    assert(n == 0) by (nonlinear_arith)
        requires
            width > 0,
            n >= 0,
            2 * width * n <= 2 * 0 + width,
    ;
}

/// Zero falls into bucket 0 whatever its sign.
pub proof fn lemma_zero_bucket(frac_bits: nat)
    ensures
        quantized(0, frac_bits) == 0,
        quantized(SIGN_BIT, frac_bits) == 0,
{
    lemma_nearest_to_zero(frac_bits);
    assert(0 * pow2(power(0)) == 0);
    assert(0 * pow2(power(SIGN_BIT)) == 0);
}

/// The buckets follow the order of the numbers: of two finite numbers, the
/// larger one falls into no smaller bucket.
pub proof fn lemma_buckets_ordered(a: u64, b: u64, frac_bits: nat)
    requires
        is_finite(a),
        is_finite(b),
        signed_units(a) <= signed_units(b),
    ensures
        quantized(a, frac_bits) <= quantized(b, frac_bits),
{
    let na = nearest_multiple(units(a), frac_bits);
    let nb = nearest_multiple(units(b), frac_bits);
    if negative(a) && negative(b) {
        lemma_nearest_ordered(units(b), units(a), frac_bits);
    } else if !negative(a) && !negative(b) {
        lemma_nearest_ordered(units(a), units(b), frac_bits);
    } else if !negative(a) && negative(b) {
        lemma_nearest_to_zero(frac_bits);
    }
}

/// Numbers that lie a width of the grid or more apart fall into different
/// buckets, unless they lie beyond the range of the buckets: two states that
/// differ by the tolerance or more are never taken for one.
pub proof fn lemma_apart_by_a_width(a: u64, b: u64, frac_bits: nat)
    requires
        is_finite(a),
        is_finite(b),
        scaled(b, frac_bits) - scaled(a, frac_bits) >= pow2(1074),
        !outermost(quantized(a, frac_bits)),
        !outermost(quantized(b, frac_bits)),
    ensures
        quantized(a, frac_bits) < quantized(b, frac_bits),
{
    let width = pow2(1074) as int;
    let scale = pow2(frac_bits) as int;
    let na = nearest_multiple(units(a), frac_bits) as int;
    let nb = nearest_multiple(units(b), frac_bits) as int;
    let ua = units(a) as int;
    let ub = units(b) as int;
    lemma_pow2_pos(1074);
    lemma_pow2_pos(frac_bits);
    lemma_nearest_bounds(units(a), frac_bits);
    lemma_nearest_bounds(units(b), frac_bits);
    assert((-ua) * scale == -(ua * scale)) by (nonlinear_arith);
    assert((-ub) * scale == -(ub * scale)) by (nonlinear_arith);
    assert(ua * scale >= 0 && ub * scale >= 0) by (nonlinear_arith)
        requires
            ua >= 0,
            ub >= 0,
            scale > 0,
    ;
    if negative(a) && negative(b) {
        assert(ub <= ua) by (nonlinear_arith)
            requires
                ua * scale - ub * scale >= width,
                width > 0,
                scale > 0,
        ;
        lemma_nearest_ordered(units(b), units(a), frac_bits);
    } else if !negative(a) && !negative(b) {
        assert(ua <= ub) by (nonlinear_arith)
            requires
                ub * scale - ua * scale >= width,
                width > 0,
                scale > 0,
        ;
        lemma_nearest_ordered(units(a), units(b), frac_bits);
    } else if negative(a) && !negative(b) {
        assert(na + nb >= 1) by (nonlinear_arith)
            requires
                width > 0,
                ua * scale + ub * scale >= width,
                2 * (ua * scale) + width < 2 * width * (na + 1),
                2 * (ub * scale) + width < 2 * width * (nb + 1),
        ;
    }
}

/// A finite number within half a width of grid point `n` falls into bucket
/// `n`: numbers are taken apart only where a border of the grid runs between
/// them.
pub proof fn lemma_within_half_a_width(bits: u64, frac_bits: nat, n: int)
    requires
        is_finite(bits),
        i64::MIN < n < i64::MAX,
        2 * (scaled(bits, frac_bits) - n * pow2(1074)) < pow2(1074),
        2 * (n * pow2(1074) - scaled(bits, frac_bits)) < pow2(1074),
    ensures
        quantized(bits, frac_bits) == n,
{
    let width = pow2(1074) as int;
    let scale = pow2(frac_bits) as int;
    let u = units(bits) as int;
    let found = nearest_multiple(units(bits), frac_bits) as int;
    lemma_pow2_pos(1074);
    lemma_pow2_pos(frac_bits);
    lemma_nearest_bounds(units(bits), frac_bits);
    assert((-u) * scale == -(u * scale)) by (nonlinear_arith);
    assert(u * scale >= 0) by (nonlinear_arith)
        requires
            u >= 0,
            scale > 0,
    ;
    if negative(bits) {
        assert(found == -n) by (nonlinear_arith)
            requires
                width > 0,
                2 * (-(u * scale) - n * width) < width,
                2 * (n * width + u * scale) < width,
                2 * width * found <= 2 * (u * scale) + width,
                2 * (u * scale) + width < 2 * width * (found + 1),
        ;
    } else {
        assert(found == n) by (nonlinear_arith)
            requires
                width > 0,
                2 * (u * scale - n * width) < width,
                2 * (n * width - u * scale) < width,
                2 * width * found <= 2 * (u * scale) + width,
                2 * (u * scale) + width < 2 * width * (found + 1),
        ;
    }
}

/// Two points whose coordinates lie within half a width of the same grid
/// point have the same key: they are one state.
pub proof fn lemma_near_points_share_a_key(a: (u64, u64), b: (u64, u64), frac_bits: nat, grid: (int, int))
    requires
        is_finite(a.0) && is_finite(a.1) && is_finite(b.0) && is_finite(b.1),
        i64::MIN < grid.0 < i64::MAX,
        i64::MIN < grid.1 < i64::MAX,
        2 * (scaled(a.0, frac_bits) - grid.0 * pow2(1074)) < pow2(1074),
        2 * (grid.0 * pow2(1074) - scaled(a.0, frac_bits)) < pow2(1074),
        2 * (scaled(a.1, frac_bits) - grid.1 * pow2(1074)) < pow2(1074),
        2 * (grid.1 * pow2(1074) - scaled(a.1, frac_bits)) < pow2(1074),
        2 * (scaled(b.0, frac_bits) - grid.0 * pow2(1074)) < pow2(1074),
        2 * (grid.0 * pow2(1074) - scaled(b.0, frac_bits)) < pow2(1074),
        2 * (scaled(b.1, frac_bits) - grid.1 * pow2(1074)) < pow2(1074),
        2 * (grid.1 * pow2(1074) - scaled(b.1, frac_bits)) < pow2(1074),
    ensures
        point_key_of(a.0, a.1, frac_bits) == point_key_of(b.0, b.1, frac_bits),
        point_key_of(a.0, a.1, frac_bits) == (PointKey { x: grid.0 as i64, y: grid.1 as i64 }),
{
    lemma_within_half_a_width(a.0, frac_bits, grid.0);
    lemma_within_half_a_width(a.1, frac_bits, grid.1);
    lemma_within_half_a_width(b.0, frac_bits, grid.0);
    lemma_within_half_a_width(b.1, frac_bits, grid.1);
}

/// Two points of which one coordinate differs by a width of the grid or more
/// have different keys, unless that coordinate lies beyond the range of the
/// buckets: a state that differs from another by the tolerance is never
/// dropped for it.
pub proof fn lemma_far_points_differ(a: (u64, u64), b: (u64, u64), frac_bits: nat)
    requires
        is_finite(a.0) && is_finite(a.1) && is_finite(b.0) && is_finite(b.1),
        ({
            ||| {
                &&& scaled(b.0, frac_bits) - scaled(a.0, frac_bits) >= pow2(1074) || scaled(a.0, frac_bits)
                    - scaled(b.0, frac_bits) >= pow2(1074)
                &&& !outermost(quantized(a.0, frac_bits))
                &&& !outermost(quantized(b.0, frac_bits))
            }
            ||| {
                &&& scaled(b.1, frac_bits) - scaled(a.1, frac_bits) >= pow2(1074) || scaled(a.1, frac_bits)
                    - scaled(b.1, frac_bits) >= pow2(1074)
                &&& !outermost(quantized(a.1, frac_bits))
                &&& !outermost(quantized(b.1, frac_bits))
            }
        }),
    ensures
        point_key_of(a.0, a.1, frac_bits) != point_key_of(b.0, b.1, frac_bits),
{
    if !outermost(quantized(a.0, frac_bits)) && !outermost(quantized(b.0, frac_bits)) {
        if scaled(b.0, frac_bits) - scaled(a.0, frac_bits) >= pow2(1074) {
            lemma_apart_by_a_width(a.0, b.0, frac_bits);
        } else if scaled(a.0, frac_bits) - scaled(b.0, frac_bits) >= pow2(1074) {
            lemma_apart_by_a_width(b.0, a.0, frac_bits);
        }
    }
    if !outermost(quantized(a.1, frac_bits)) && !outermost(quantized(b.1, frac_bits)) {
        if scaled(b.1, frac_bits) - scaled(a.1, frac_bits) >= pow2(1074) {
            lemma_apart_by_a_width(a.1, b.1, frac_bits);
        } else if scaled(a.1, frac_bits) - scaled(b.1, frac_bits) >= pow2(1074) {
            lemma_apart_by_a_width(b.1, a.1, frac_bits);
        }
    }
}

} // verus!
