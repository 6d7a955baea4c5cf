//! Points and directions on the integer lattice, and the exact arithmetic
//! that the slicer, the welder and the union engine share.
//!
//! Coordinates are `i32` lattice units. Every product is taken in `i128`, so
//! no operation here can overflow, and every predicate is decided exactly.
//! Where a point falls off the lattice, each coordinate is rounded to the
//! nearest lattice unit, a half upwards, so that the rounded point depends on
//! the point alone and not on the way that led to it.

use vstd::arithmetic::div_mod::{
    lemma_div_is_ordered, lemma_div_multiples_vanish_fancy, lemma_fundamental_div_mod,
    lemma_fundamental_div_mod_converse,
};
use vstd::prelude::*;

verus! {

/// A point of the slicing plane, in lattice units.
#[derive(Clone, Copy, Debug, PartialEq, Eq, Structural)]
pub struct Vertex {
    pub x: i32,
    pub y: i32,
}

/// The outward direction of an edge, projected into the slicing plane.
/// A normal of full length has magnitude [`NORMAL_UNIT`].
#[derive(Clone, Copy, Debug, PartialEq, Eq, Structural)]
pub struct Normal {
    pub x: i32,
    pub y: i32,
}

/// The length that stands for one in the components of a [`Normal`].
pub const NORMAL_UNIT: i32 = 1_000_000;

/// The z component of the cross product of `(ax, ay)` and `(bx, by)`.
pub open spec fn cross(ax: int, ay: int, bx: int, by: int) -> int {
    ax * by - ay * bx
}

/// The dot product of `(ax, ay)` and `(bx, by)`.
pub open spec fn dot(ax: int, ay: int, bx: int, by: int) -> int {
    ax * bx + ay * by
}

/// The squared Euclidean distance between two points.
pub open spec fn dist2(a: Vertex, b: Vertex) -> int {
    (a.x - b.x) * (a.x - b.x) + (a.y - b.y) * (a.y - b.y)
}

/// The fraction `n / d` rounded to the nearest integer, a half rounded up.
pub open spec fn rounded(n: int, d: int) -> int {
    if d > 0 {
        (2 * n + d) / (2 * d)
    } else {
        (-(2 * n) - d) / (-(2 * d))
    }
}

/// The coordinate at the fraction `num / den` of the way from `a` to `b`,
/// rounded to the nearest lattice unit, a half rounded up.
pub open spec fn lerp(a: int, b: int, num: int, den: int) -> int {
    rounded(a * den + (b - a) * num, den)
}

/// Whether the fraction `num / den` lies in the closed interval from 0 to 1.
pub open spec fn in_unit_interval(num: int, den: int) -> bool {
    ||| den > 0 && 0 <= num <= den
    ||| den < 0 && den <= num <= 0
}

/// Whether `r` is the largest number whose square is not above `n`.
pub open spec fn is_isqrt(n: nat, r: nat) -> bool {
    r * r <= n < (r + 1) * (r + 1)
}

/// The largest number whose square is not above `n`.
pub open spec fn isqrt(n: nat) -> nat {
    choose|r: nat| is_isqrt(n, r)
}

/// The square of [`NORMAL_UNIT`], four times.
pub open spec fn four_units() -> int {
    4 * (NORMAL_UNIT * NORMAL_UNIT)
}

/// The size of a component of a unit direction: `m * NORMAL_UNIT / √s` for
/// a component of size `m` of a direction whose squared length is `s`,
/// rounded to the nearest integer, a half rounded up.
///
/// Twice that fraction is the square root of `4 * m² * NORMAL_UNIT² / s`;
/// its whole part, and one more, halved, is the fraction rounded.
pub open spec fn unit_size(m: int, s: int) -> int {
    (isqrt(((m * m) * four_units() / s) as nat) as int + 1) / 2
}

/// Whether `c` is the integer nearest to `m * NORMAL_UNIT / √s`: the
/// fraction lies no more than a half below `c` and less than a half above
/// it, stated over the squares.
pub open spec fn is_unit_size(m: int, s: int, c: int) -> bool {
    &&& 0 <= c <= NORMAL_UNIT
    &&& c == 0 || (2 * c - 1) * (2 * c - 1) * s <= (m * m) * four_units()
    &&& (m * m) * four_units() < (2 * c + 1) * (2 * c + 1) * s
}

/// The direction `(x, y)` brought to the length [`NORMAL_UNIT`]: each
/// component is `NORMAL_UNIT` times the component over the length
/// `√(x² + y²)`, rounded to the nearest integer, with its sign. The zero
/// direction stays zero.
pub open spec fn unit_normal(x: int, y: int) -> Normal {
    let s = x * x + y * y;
    if s == 0 {
        Normal { x: 0, y: 0 }
    } else {
        Normal {
            x: (if x < 0 {
                -unit_size(-x, s)
            } else {
                unit_size(x, s)
            }) as i32,
            y: (if y < 0 {
                -unit_size(-y, s)
            } else {
                unit_size(y, s)
            }) as i32,
        }
    }
}

/// A fraction is rounded to the same integer whichever of its two terms
/// carries the sign.
pub proof fn lemma_rounded_negated(n: int, d: int)
    requires
        d != 0,
    ensures
        rounded(-n, -d) == rounded(n, d),
{
}

/// A fraction between two integers is rounded to an integer between them,
/// and a whole fraction to itself.
pub proof fn lemma_rounded_between(n: int, d: int, lo: int, hi: int)
    requires
        d > 0,
        lo * d <= n <= hi * d,
    ensures
        lo <= rounded(n, d) <= hi,
{
    let m = 2 * d;
    assert(m * lo + d <= 2 * n + d <= m * hi + d) by (nonlinear_arith)
        requires
            m == 2 * d,
            lo * d <= n <= hi * d,
    ;
    lemma_div_multiples_vanish_fancy(lo, d, m);
    lemma_div_multiples_vanish_fancy(hi, d, m);
    lemma_div_is_ordered(m * lo + d, 2 * n + d, m);
    lemma_div_is_ordered(2 * n + d, m * hi + d, m);
}

/// For a fraction between 0 and 1, `lerp` stays between its two ends, and
/// it reaches them at 0 and at 1.
pub proof fn lemma_lerp_bounds(a: int, b: int, num: int, den: int)
    requires
        in_unit_interval(num, den),
    ensures
        a <= b ==> a <= lerp(a, b, num, den) <= b,
        b <= a ==> b <= lerp(a, b, num, den) <= a,
        num == 0 ==> lerp(a, b, num, den) == a,
        num == den ==> lerp(a, b, num, den) == b,
{
    let n = a * den + (b - a) * num;
    // the same fraction with a denominator above zero
    let d = if den > 0 {
        den
    } else {
        -den
    };
    let t = if den > 0 {
        num
    } else {
        -num
    };
    let m = a * d + (b - a) * t;
    assert(m == if den > 0 {
        n
    } else {
        -n
    }) by (nonlinear_arith)
        requires
            n == a * den + (b - a) * num,
            m == a * d + (b - a) * t,
            d == if den > 0 {
                den
            } else {
                -den
            },
            t == if den > 0 {
                num
            } else {
                -num
            },
    ;
    assert(lerp(a, b, num, den) == rounded(m, d));
    if a <= b {
        assert(a * d <= m <= b * d) by (nonlinear_arith)
            requires
                m == a * d + (b - a) * t,
                0 <= t <= d,
                a <= b,
        ;
        lemma_rounded_between(m, d, a, b);
    }
    if b <= a {
        assert(b * d <= m <= a * d) by (nonlinear_arith)
            requires
                m == a * d + (b - a) * t,
                0 <= t <= d,
                b <= a,
        ;
        lemma_rounded_between(m, d, b, a);
    }
    if num == 0 {
        assert(m == a * d) by (nonlinear_arith)
            requires
                m == a * d + (b - a) * t,
                t == 0,
        ;
        lemma_rounded_between(m, d, a, a);
    }
    if num == den {
        assert(m == b * d) by (nonlinear_arith)
            requires
                m == a * d + (b - a) * t,
                t == d,
        ;
        lemma_rounded_between(m, d, b, b);
    }
}

/// The point at a fraction of the way from `a` to `b` is the point at the
/// rest of the way from `b` to `a`.
pub proof fn lemma_lerp_reversed(a: int, b: int, num: int, den: int)
    ensures
        lerp(b, a, den - num, den) == lerp(a, b, num, den),
{
    assert(b * den + (a - b) * (den - num) == a * den + (b - a) * num) by (nonlinear_arith);
}

/// The product of two coordinate differences.
pub(crate) fn mul_wide(a: i64, b: i64) -> (r: i128)
    requires
        -0x1_0000_0000 <= a <= 0x1_0000_0000,
        -0x1_0000_0000 <= b <= 0x1_0000_0000,
    ensures
        r == a * b,
        -0x1_0000_0000_0000_0000 <= r <= 0x1_0000_0000_0000_0000,
{
    assert(-0x1_0000_0000_0000_0000 <= a * b <= 0x1_0000_0000_0000_0000) by (nonlinear_arith)
        requires
            -0x1_0000_0000 <= a <= 0x1_0000_0000,
            -0x1_0000_0000 <= b <= 0x1_0000_0000,
    ;
    (a as i128) * (b as i128)
}

/// The product of a coordinate difference and a numerator.
fn mul_long(a: i64, b: i128) -> (r: i128)
    requires
        -0x1_0000_0000 <= a <= 0x1_0000_0000,
        -0x8_0000_0000_0000_0000 <= b <= 0x8_0000_0000_0000_0000,
    ensures
        r == a * b,
        -0x8_0000_0000_0000_0000_0000_0000 <= r <= 0x8_0000_0000_0000_0000_0000_0000,
{
    assert(-0x8_0000_0000_0000_0000_0000_0000 <= a * b <= 0x8_0000_0000_0000_0000_0000_0000)
        by (nonlinear_arith)
        requires
            -0x1_0000_0000 <= a <= 0x1_0000_0000,
            -0x8_0000_0000_0000_0000 <= b <= 0x8_0000_0000_0000_0000,
    ;
    (a as i128) * b
}

/// The squared distance between two points, computed exactly.
pub fn distance_squared(a: Vertex, b: Vertex) -> (r: u128)
    ensures
        r == dist2(a, b),
{
    let dx: i64 = a.x as i64 - b.x as i64;
    let dy: i64 = a.y as i64 - b.y as i64;
    let xx: i128 = mul_wide(dx, dx);
    let yy: i128 = mul_wide(dy, dy);
    assert(0 <= dx * dx && 0 <= dy * dy) by (nonlinear_arith);
    (xx + yy) as u128
}

/// The fraction `n / d` rounded to the nearest integer: see [`rounded`].
pub fn round_ratio(n: i128, d: i128) -> (r: i128)
    requires
        d != 0,
        -0x1000_0000_0000_0000_0000_0000_0000 <= n <= 0x1000_0000_0000_0000_0000_0000_0000,
        -0x1000_0000_0000_0000_0000_0000_0000 <= d <= 0x1000_0000_0000_0000_0000_0000_0000,
    ensures
        r == rounded(n as int, d as int),
{
    // the same fraction, doubled, over a denominator above zero
    let top: i128 = if d > 0 {
        2 * n + d
    } else {
        -(2 * n) - d
    };
    let bottom: i128 = if d > 0 {
        2 * d
    } else {
        -(2 * d)
    };
    if top >= 0 {
        top / bottom
    } else {
        // rounding down below zero is rounding up above it
        let up: i128 = (bottom - 1 - top) / bottom;
        proof {
            let rest = (bottom - 1 - top) % (bottom as int);
            lemma_fundamental_div_mod(bottom - 1 - top, bottom as int);
            assert(top == (-up) * bottom + (bottom - 1 - rest)) by (nonlinear_arith)
                requires
                    bottom - 1 - top == bottom * up + rest,
            ;
            lemma_fundamental_div_mod_converse(
                top as int,
                bottom as int,
                -(up as int),
                bottom - 1 - rest,
            );
        }
        -up
    }
}

/// Computes [`lerp`] for a fraction between 0 and 1.
pub fn interpolate(a: i32, b: i32, num: i128, den: i128) -> (r: i32)
    requires
        in_unit_interval(num as int, den as int),
        -0x8_0000_0000_0000_0000 <= den <= 0x8_0000_0000_0000_0000,
    ensures
        r == lerp(a as int, b as int, num as int, den as int),
{
    proof {
        lemma_lerp_bounds(a as int, b as int, num as int, den as int);
    }
    let n: i128 = mul_long(a as i64, den) + mul_long(b as i64 - a as i64, num);
    round_ratio(n, den) as i32
}

/// At most one number is the integer square root of `n`.
pub proof fn lemma_isqrt_unique(n: nat, r: nat)
    requires
        is_isqrt(n, r),
    ensures
        isqrt(n) == r,
{
    let s = isqrt(n);
    assert(is_isqrt(n, s));
    if s < r {
        assert((s + 1) * (s + 1) <= r * r) by (nonlinear_arith)
            requires
                s + 1 <= r,
        ;
    }
    if r < s {
        assert((r + 1) * (r + 1) <= s * s) by (nonlinear_arith)
            requires
                r + 1 <= s,
        ;
    }
}

/// The integer square root: see [`isqrt`].
pub fn integer_sqrt(n: u64) -> (r: u64)
    ensures
        r == isqrt(n as nat),
        r * r <= n < (r + 1) * (r + 1),
        r <= 0xffff_ffff,
{
    let mut lo: u64 = 0;
    let mut hi: u64 = 0x1_0000_0000;
    assert(0x1_0000_0000u64 * 0x1_0000_0000u64 > n) by (nonlinear_arith)
        requires
            n <= 0xffff_ffff_ffff_ffff,
    ;
    while hi - lo > 1
        invariant
            lo < hi <= 0x1_0000_0000,
            lo * lo <= n < hi * hi,
        decreases hi - lo,
    {
        let mid: u64 = lo + (hi - lo) / 2;
        assert(mid * mid <= 0xffff_ffff * 0xffff_ffff) by (nonlinear_arith)
            requires
                0 <= mid <= 0xffff_ffff,
        ;
        if mid * mid <= n {
            lo = mid;
        } else {
            hi = mid;
        }
    }
    proof {
        assert(is_isqrt(n as nat, lo as nat));
        lemma_isqrt_unique(n as nat, lo as nat);
    }
    lo
}

/// The square of a coordinate.
fn square(v: i32) -> (r: u64)
    ensures
        r == v * v,
        r <= 0x4000_0000_0000_0000,
{
    let m: u64 = if v < 0 {
        (-(v as i64)) as u64
    } else {
        v as u64
    };
    assert(m * m == v * v && m * m <= 0x4000_0000_0000_0000) by (nonlinear_arith)
        requires
            m == v || m == -v,
            0 <= m <= 0x8000_0000,
    ;
    m * m
}

/// Every number has an integer square root.
pub proof fn lemma_isqrt(n: nat)
    ensures
        is_isqrt(n, isqrt(n)),
    decreases n,
{
    if n == 0 {
        assert(0nat * 0nat == 0 && (0nat + 1) * (0nat + 1) == 1) by (nonlinear_arith);
        assert(is_isqrt(0, 0));
    } else {
        lemma_isqrt((n - 1) as nat);
        let r = isqrt((n - 1) as nat);
        if n < (r + 1) * (r + 1) {
            assert(is_isqrt(n, r));
        } else {
            assert((r + 1) * (r + 1) <= n < (r + 2) * (r + 2)) by (nonlinear_arith)
                requires
                    r * r <= n - 1 < (r + 1) * (r + 1),
                    n >= (r + 1) * (r + 1),
            ;
            assert(is_isqrt(n, r + 1));
        }
    }
}

/// `unit_size` is the integer nearest to `m * NORMAL_UNIT / √s`.
pub proof fn lemma_unit_size(m: int, s: int)
    requires
        0 <= m,
        0 < s,
        m * m <= s,
    ensures
        is_unit_size(m, s, unit_size(m, s)),
{
    let f = four_units();
    let top = (m * m) * f;
    let q = top / s;
    assert(0 <= m * m) by (nonlinear_arith);
    assert(0 <= top <= s * f) by (nonlinear_arith)
        requires
            top == (m * m) * f,
            0 <= m * m <= s,
            f == 4_000_000_000_000,
    ;
    lemma_fundamental_div_mod(top, s);
    lemma_div_is_ordered(0, top, s);
    lemma_div_is_ordered(top, s * f, s);
    lemma_div_multiples_vanish_fancy(f, 0, s);
    assert(0 <= q <= f);
    lemma_isqrt(q as nat);
    let r = isqrt(q as nat) as int;
    let c = (r + 1) / 2;
    assert(unit_size(m, s) == c);
    assert(r * r <= q < (r + 1) * (r + 1));
    // the square of twice the unit is four units
    if r > 2 * NORMAL_UNIT {
        assert(r * r > f) by (nonlinear_arith)
            requires
                r >= 2_000_001,
                f == 4_000_000_000_000,
        ;
    }
    assert(q * s <= top < (q + 1) * s) by (nonlinear_arith)
        requires
            top == s * q + top % s,
            0 <= top % s < s,
    ;
    if c > 0 {
        let low = 2 * c - 1;
        assert(low * low <= r * r) by (nonlinear_arith)
            requires
                0 <= low <= r,
        ;
        assert(low * low * s <= q * s) by (nonlinear_arith)
            requires
                low * low <= q,
                0 < s,
        ;
    }
    let high = 2 * c + 1;
    assert(high * high >= (r + 1) * (r + 1)) by (nonlinear_arith)
        requires
            high >= r + 1,
            r >= 0,
    ;
    assert(high * high * s >= (q + 1) * s) by (nonlinear_arith)
        requires
            high * high >= q + 1,
            0 < s,
    ;
}

/// A direction brought to unit length is of length [`NORMAL_UNIT`] within
/// one, whatever its length was.
pub proof fn lemma_unit_normal_length(x: int, y: int)
    requires
        x != 0 || y != 0,
    ensures
        ({
            let n = unit_normal(x, y);
            (NORMAL_UNIT - 1) * (NORMAL_UNIT - 1) <= n.x * n.x + n.y * n.y <= (NORMAL_UNIT + 1) * (
            NORMAL_UNIT + 1)
        }),
        x >= 0 ==> unit_normal(x, y).x >= 0,
        x <= 0 ==> unit_normal(x, y).x <= 0,
        y >= 0 ==> unit_normal(x, y).y >= 0,
        y <= 0 ==> unit_normal(x, y).y <= 0,
{
    let s = x * x + y * y;
    let mx = if x < 0 {
        -x
    } else {
        x
    };
    let my = if y < 0 {
        -y
    } else {
        y
    };
    assert(mx * mx == x * x && my * my == y * y && mx * mx >= 0 && my * my >= 0)
        by (nonlinear_arith)
        requires
            mx == x || mx == -x,
            my == y || my == -y,
    ;
    assert(s > 0) by (nonlinear_arith)
        requires
            s == x * x + y * y,
            x != 0 || y != 0,
    ;
    lemma_unit_size(mx, s);
    lemma_unit_size(my, s);
    let cx = unit_size(mx, s);
    let cy = unit_size(my, s);
    let n = unit_normal(x, y);
    assert(n.x == cx || n.x == -cx);
    assert(n.y == cy || n.y == -cy);
    let len2 = cx * cx + cy * cy;
    assert(n.x * n.x + n.y * n.y == len2) by (nonlinear_arith)
        requires
            n.x == cx || n.x == -cx,
            n.y == cy || n.y == -cy,
            len2 == cx * cx + cy * cy,
    ;
    let f = four_units();
    let tx = (mx * mx) * f;
    let ty = (my * my) * f;
    assert(tx + ty == s * f) by (nonlinear_arith)
        requires
            tx == (mx * mx) * f,
            ty == (my * my) * f,
            s == mx * mx + my * my,
    ;
    // a component of no size stays so
    if cx > 0 && mx == 0 {
        assert(false) by (nonlinear_arith)
            requires
                (2 * cx - 1) * (2 * cx - 1) * s <= tx,
                tx == (mx * mx) * f,
                mx == 0,
                cx > 0,
                s > 0,
        ;
    }
    if cy > 0 && my == 0 {
        assert(false) by (nonlinear_arith)
            requires
                (2 * cy - 1) * (2 * cy - 1) * s <= ty,
                ty == (my * my) * f,
                my == 0,
                cy > 0,
                s > 0,
        ;
    }
    let u = NORMAL_UNIT as int;
    // no longer than one above the unit
    if cx == 0 || cy == 0 {
        assert(len2 <= u * u) by (nonlinear_arith)
            requires
                len2 == cx * cx + cy * cy,
                cx == 0 || cy == 0,
                0 <= cx <= u,
                0 <= cy <= u,
        ;
    } else {
        let below = (2 * cx - 1) * (2 * cx - 1) + (2 * cy - 1) * (2 * cy - 1);
        assert(below * s <= s * f) by (nonlinear_arith)
            requires
                below == (2 * cx - 1) * (2 * cx - 1) + (2 * cy - 1) * (2 * cy - 1),
                (2 * cx - 1) * (2 * cx - 1) * s <= tx,
                (2 * cy - 1) * (2 * cy - 1) * s <= ty,
                tx + ty == s * f,
        ;
        assert(below <= f) by (nonlinear_arith)
            requires
                below * s <= s * f,
                s > 0,
        ;
        assert(below == 4 * len2 - 4 * (cx + cy) + 2) by (nonlinear_arith)
            requires
                below == (2 * cx - 1) * (2 * cx - 1) + (2 * cy - 1) * (2 * cy - 1),
                len2 == cx * cx + cy * cy,
        ;
    }
    assert((u + 1) * (u + 1) == 1_000_002_000_001 && (u - 1) * (u - 1) == 999_998_000_001 && f
        == 4_000_000_000_000) by (nonlinear_arith)
        requires
            u == 1_000_000,
            f == 4 * (u * u),
    ;
    assert(len2 <= (u + 1) * (u + 1));
    // no shorter than one below the unit
    let above = (2 * cx + 1) * (2 * cx + 1) + (2 * cy + 1) * (2 * cy + 1);
    assert(above * s > s * f) by (nonlinear_arith)
        requires
            above == (2 * cx + 1) * (2 * cx + 1) + (2 * cy + 1) * (2 * cy + 1),
            tx < (2 * cx + 1) * (2 * cx + 1) * s,
            ty < (2 * cy + 1) * (2 * cy + 1) * s,
            tx + ty == s * f,
    ;
    assert(above > f) by (nonlinear_arith)
        requires
            above * s > s * f,
            s > 0,
    ;
    assert(above == 4 * len2 + 4 * (cx + cy) + 2) by (nonlinear_arith)
        requires
            above == (2 * cx + 1) * (2 * cx + 1) + (2 * cy + 1) * (2 * cy + 1),
            len2 == cx * cx + cy * cy,
    ;
    let sum = cx + cy;
    assert(sum * sum <= 2 * len2) by (nonlinear_arith)
        requires
            sum == cx + cy,
            len2 == cx * cx + cy * cy,
    ;
    if len2 < (u - 1) * (u - 1) {
        assert(sum <= 1_414_213) by (nonlinear_arith)
            requires
                sum * sum <= 2 * len2,
                len2 < 999_998_000_001,
                sum >= 0,
        ;
    }
}

/// The size of a coordinate.
fn magnitude(v: i32) -> (r: u64)
    ensures
        r == if v < 0 {
            -v
        } else {
            v as int
        },
        r <= 0x8000_0000,
{
    if v < 0 {
        (-(v as i64)) as u64
    } else {
        v as u64
    }
}

/// One component of a unit direction: see [`unit_size`].
fn unit_component(m: u64, s: u64) -> (c: i32)
    requires
        0 < s,
        m * m <= s,
        m <= 0x8000_0000,
    ensures
        c == unit_size(m as int, s as int),
        0 <= c <= NORMAL_UNIT,
{
    let f: u128 = 4_000_000_000_000;
    proof {
        lemma_unit_size(m as int, s as int);
        assert(f == four_units()) by (nonlinear_arith)
            requires
                f == 4_000_000_000_000,
                four_units() == 4 * (1_000_000 * 1_000_000int),
        ;
        assert(0 <= m * m <= 0x4000_0000_0000_0000) by (nonlinear_arith)
            requires
                0 <= m <= 0x8000_0000,
        ;
        assert((m * m) * f <= 0x4000_0000_0000_0000 * 4_000_000_000_000) by (nonlinear_arith)
            requires
                0 <= m * m <= 0x4000_0000_0000_0000,
                f == 4_000_000_000_000,
        ;
        assert((m * m) * f <= s * f) by (nonlinear_arith)
            requires
                m * m <= s,
                f == 4_000_000_000_000,
        ;
        lemma_div_is_ordered((m * m) * f, s * f, s as int);
        lemma_div_multiples_vanish_fancy(f as int, 0, s as int);
    }
    let square: u128 = (m as u128) * (m as u128);
    let q: u128 = (square * f) / (s as u128);
    let twice: u64 = integer_sqrt(q as u64);
    proof {
        if twice > 2_000_000 {
            assert(twice * twice > 4_000_000_000_000) by (nonlinear_arith)
                requires
                    twice >= 2_000_001,
            ;
        }
    }
    ((twice + 1) / 2) as i32
}

/// A direction brought to the length [`NORMAL_UNIT`]: see [`unit_normal`].
pub fn renormalize(x: i32, y: i32) -> (n: Normal)
    ensures
        n == unit_normal(x as int, y as int),
{
    let mx: u64 = magnitude(x);
    let my: u64 = magnitude(y);
    let xx: u64 = square(x);
    let yy: u64 = square(y);
    let s: u64 = xx + yy;
    if s == 0 {
        return Normal { x: 0, y: 0 };
    }
    proof {
        assert(mx * mx == x * x && my * my == y * y) by (nonlinear_arith)
            requires
                mx == x || mx == -x,
                my == y || my == -y,
        ;
    }
    let cx: i32 = unit_component(mx, s);
    let cy: i32 = unit_component(my, s);
    Normal {
        x: if x < 0 {
            -cx
        } else {
            cx
        },
        y: if y < 0 {
            -cy
        } else {
            cy
        },
    }
}

} // verus!
