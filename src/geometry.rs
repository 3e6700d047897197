use vstd::prelude::*;

verus! {

/// Number of fixed-point steps in one world unit of length.
pub const UNIT: i64 = 256;

/// Largest absolute value of a position coordinate (fixed-point units).
pub const MAX_COORD: i64 = 1073741824;

/// A point or displacement in the plane, in fixed-point units.
#[derive(Clone, Copy, Debug, PartialEq, Eq, Structural)]
pub struct Vec2 {
    pub x: i64,
    pub y: i64,
}

impl Vec2 {
    pub open spec fn in_box(self, bound: int) -> bool {
        -bound <= self.x <= bound && -bound <= self.y <= bound
    }

    /// Squared Euclidean length.
    pub open spec fn norm2(self) -> int {
        self.x * self.x + self.y * self.y
    }

    pub fn zero() -> (r: Vec2)
        ensures
            r.x == 0 && r.y == 0,
    {
        Vec2 { x: 0, y: 0 }
    }
}

/// Integer division rounding toward zero, as Rust's `/` does.
pub open spec fn div_trunc(a: int, b: int) -> int {
    if a >= 0 {
        a / b
    } else {
        -((-a) / b)
    }
}

/// Integer division rounding away from zero, so that only a zero dividend
/// gives a zero quotient.
pub open spec fn div_away(a: int, b: int) -> int {
    if a >= 0 {
        (a + b - 1) / b
    } else {
        -(((-a) + b - 1) / b)
    }
}

/// `s` is the integer square root of `m`, rounded down.
pub open spec fn is_floor_sqrt(s: int, m: int) -> bool {
    0 <= s && s * s <= m < (s + 1) * (s + 1)
}

/// The integer square root of a non-negative `m`, rounded down.
pub open spec fn floor_sqrt(m: int) -> int {
    choose|s: int| is_floor_sqrt(s, m)
}

/// Clamps a value into `[-bound, bound]`.
pub open spec fn clamp_spec(v: int, bound: int) -> int {
    if v > bound {
        bound
    } else if v < -bound {
        -bound
    } else {
        v
    }
}

/// A non-zero vector rescaled to length `len`, direction kept; the division
/// rounds toward zero, so no component exceeds `len`.
pub open spec fn scaled_spec(x: int, y: int, len: int) -> (int, int) {
    let s = floor_sqrt(x * x + y * y);
    (div_trunc(x * len, s), div_trunc(y * len, s))
}

/// A vector shortened to length `cap` when it is longer.
pub open spec fn limit_spec(x: int, y: int, cap: int) -> (int, int) {
    if x * x + y * y <= cap * cap {
        (x, y)
    } else {
        scaled_spec(x, y, cap)
    }
}

pub proof fn lemma_div_trunc_bounds(a: int, b: int, k: int)
    requires
        b > 0,
        k >= 0,
        -k * b <= a <= k * b,
    ensures
        -k <= div_trunc(a, b) <= k,
        a >= 0 ==> div_trunc(a, b) >= 0,
        a <= 0 ==> div_trunc(a, b) <= 0,
{
    let u = if a >= 0 { a } else { -a };
    assert(0 <= u <= k * b) by (nonlinear_arith)
        requires
            -k * b <= a <= k * b,
            u == (if a >= 0 { a } else { -a }),
    ;
    vstd::arithmetic::div_mod::lemma_fundamental_div_mod(u, b);
    let q = u / b;
    let r = u % b;
    assert(0 <= q <= k) by (nonlinear_arith)
        requires
            u == b * q + r,
            0 <= r < b,
            0 <= u <= k * b,
    ;
}

pub proof fn lemma_div_away_bounds(a: int, b: int, k: int)
    requires
        b > 0,
        k >= 0,
        -k * b <= a <= k * b,
    ensures
        -k <= div_away(a, b) <= k,
        a > 0 ==> div_away(a, b) >= 1,
        a < 0 ==> div_away(a, b) <= -1,
        a == 0 ==> div_away(a, b) == 0,
{
    let u = if a >= 0 { a } else { -a };
    assert(0 <= u <= k * b) by (nonlinear_arith)
        requires
            -k * b <= a <= k * b,
            u == (if a >= 0 { a } else { -a }),
    ;
    vstd::arithmetic::div_mod::lemma_fundamental_div_mod(u + b - 1, b);
    let q = (u + b - 1) / b;
    let r = (u + b - 1) % b;
    assert(0 <= q <= k) by (nonlinear_arith)
        requires
            u + b - 1 == b * q + r,
            0 <= r < b,
            0 <= u <= k * b,
            b > 0,
    ;
    assert(u >= 1 ==> q >= 1) by (nonlinear_arith)
        requires
            u + b - 1 == b * q + r,
            0 <= r < b,
            b > 0,
    ;
    assert(u == 0 ==> q == 0) by (nonlinear_arith)
        requires
            u + b - 1 == b * q + r,
            0 <= r < b,
            b > 0,
    ;
}

/// Squares of values bounded by `b` are bounded by `b * b`.
pub proof fn lemma_square_bound(x: int, b: int)
    requires
        -b <= x <= b,
    ensures
        0 <= x * x <= b * b,
{
    assert(0 <= x * x <= b * b) by (nonlinear_arith)
        requires
            -b <= x <= b,
    ;
}

pub proof fn lemma_floor_sqrt_unique(s: int, m: int)
    requires
        is_floor_sqrt(s, m),
    ensures
        floor_sqrt(m) == s,
{
    let t = floor_sqrt(m);
    assert(is_floor_sqrt(t, m));
    if t < s {
        assert((t + 1) * (t + 1) <= s * s) by (nonlinear_arith)
            requires
                0 <= t < s,
        ;
    } else if s < t {
        assert((s + 1) * (s + 1) <= t * t) by (nonlinear_arith)
            requires
                0 <= s < t,
        ;
    }
}

/// Divides rounding toward zero by a positive divisor.
pub fn div_toward_zero(a: i128, b: i128) -> (r: i128)
    requires
        b > 0,
        a > i128::MIN,
    ensures
        r == div_trunc(a as int, b as int),
{
    if a >= 0 {
        a / b
    } else {
        -((-a) / b)
    }
}

/// Divides rounding away from zero by a positive divisor.
pub fn div_away_from_zero(a: i128, b: i128) -> (r: i128)
    requires
        b > 0,
        -0x1000_0000_0000_0000_0000_0000 <= a <= 0x1000_0000_0000_0000_0000_0000,
        b <= 0x1000_0000_0000_0000_0000_0000,
    ensures
        r == div_away(a as int, b as int),
{
    if a >= 0 {
        (a + b - 1) / b
    } else {
        -(((-a) + b - 1) / b)
    }
}

/// Integer square root rounded down, by bisection.
pub fn isqrt(m: u128) -> (s: u128)
    requires
        m < 0x1_0000_0000_0000_0000_0000_0000,
    ensures
        is_floor_sqrt(s as int, m as int),
        s as int == floor_sqrt(m as int),
        s <= 0x1_0000_0000_0000,
{
    let mut lo: u128 = 0;
    let mut hi: u128 = 0x1_0000_0000_0000;
    assert(hi * hi > m) by (nonlinear_arith)
        requires
            hi == 0x1_0000_0000_0000,
            m < 0x1_0000_0000_0000_0000_0000_0000,
    ;
    while lo + 1 < hi
        invariant
            lo < hi <= 0x1_0000_0000_0000,
            lo * lo <= m < hi * hi,
        decreases hi - lo,
    {
        let mid = lo + (hi - lo) / 2;
        assert(mid * mid <= 0x1_0000_0000_0000_0000_0000_0000) by (nonlinear_arith)
            requires
                mid <= 0x1_0000_0000_0000,
        ;
        if mid * mid <= m {
            lo = mid;
        } else {
            hi = mid;
        }
    }
    assert(hi == lo + 1);
    proof {
        lemma_floor_sqrt_unique(lo as int, m as int);
    }
    lo
}

/// Clamps a value into `[-bound, bound]`.
pub fn clamp(v: i128, bound: i128) -> (r: i128)
    requires
        bound >= 0,
    ensures
        r == clamp_spec(v as int, bound as int),
        -bound <= r <= bound,
{
    if v > bound {
        bound
    } else if v < -bound {
        -bound
    } else {
        v
    }
}

/// When a vector is rescaled to a length of at least 2, its longer axis
/// keeps a non-zero component.
proof fn lemma_long_axis_survives(x: int, y: int, len: int, s: int)
    requires
        x * x >= y * y,
        len >= 2,
        s >= 1,
        s * s <= x * x + y * y,
    ensures
        div_trunc(x * len, s) != 0,
{
    let u = if x >= 0 { x * len } else { -(x * len) };
    assert(u * u == (x * len) * (x * len)) by (nonlinear_arith)
        requires
            u == (if x >= 0 { x * len } else { -(x * len) }),
    ;
    assert((x * len) * (x * len) >= s * s) by (nonlinear_arith)
        requires
            x * x >= y * y,
            len >= 2,
            s * s <= x * x + y * y,
    ;
    assert(u >= 0) by (nonlinear_arith)
        requires
            u == (if x >= 0 { x * len } else { -(x * len) }),
            len >= 2,
    ;
    assert(u >= s) by (nonlinear_arith)
        requires
            u * u >= s * s,
            u >= 0,
            s >= 1,
    ;
    vstd::arithmetic::div_mod::lemma_fundamental_div_mod(u, s);
    let q = u / s;
    let r = u % s;
    assert(q >= 1) by (nonlinear_arith)
        requires
            u == s * q + r,
            0 <= r < s,
            u >= s,
    ;
}

/// Rescales the non-zero vector `(x, y)` to length `len`.
pub fn scale_to_length(x: i128, y: i128, len: i128) -> (r: (i128, i128))
    requires
        -0x1000_0000_0000 <= x <= 0x1000_0000_0000,
        -0x1000_0000_0000 <= y <= 0x1000_0000_0000,
        x != 0 || y != 0,
        0 < len <= 0x4000_0000,
    ensures
        (r.0 as int, r.1 as int) == scaled_spec(x as int, y as int, len as int),
        -len <= r.0 <= len,
        -len <= r.1 <= len,
        len >= 2 ==> r.0 != 0 || r.1 != 0,
{
    proof {
        lemma_square_bound(x as int, 0x1000_0000_0000);
        lemma_square_bound(y as int, 0x1000_0000_0000);
        assert(x * x + y * y > 0) by (nonlinear_arith)
            requires
                x != 0 || y != 0,
        ;
    }
    let m: i128 = x * x + y * y;
    let s = isqrt(m as u128) as i128;
    proof {
        assert(s >= 1) by (nonlinear_arith)
            requires
                m < (s + 1) * (s + 1),
                m > 0,
                s >= 0,
        ;
        assert(-s <= x <= s) by (nonlinear_arith)
            requires
                x * x + y * y < (s + 1) * (s + 1),
                s >= 0,
        ;
        assert(-s <= y <= s) by (nonlinear_arith)
            requires
                x * x + y * y < (s + 1) * (s + 1),
                s >= 0,
        ;
        assert(-len * s <= x * len <= len * s) by (nonlinear_arith)
            requires
                -s <= x <= s,
                len > 0,
        ;
        assert(-len * s <= y * len <= len * s) by (nonlinear_arith)
            requires
                -s <= y <= s,
                len > 0,
        ;
        assert(-0x1000_0000_0000 * 0x4000_0000 <= x * len <= 0x1000_0000_0000 * 0x4000_0000)
            by (nonlinear_arith)
            requires
                -0x1000_0000_0000 <= x <= 0x1000_0000_0000,
                0 < len <= 0x4000_0000,
        ;
        assert(-0x1000_0000_0000 * 0x4000_0000 <= y * len <= 0x1000_0000_0000 * 0x4000_0000)
            by (nonlinear_arith)
            requires
                -0x1000_0000_0000 <= y <= 0x1000_0000_0000,
                0 < len <= 0x4000_0000,
        ;
        lemma_div_trunc_bounds(x * len, s as int, len as int);
        lemma_div_trunc_bounds(y * len, s as int, len as int);
        if len >= 2 {
            if x * x >= y * y {
                lemma_long_axis_survives(x as int, y as int, len as int, s as int);
            } else {
                lemma_long_axis_survives(y as int, x as int, len as int, s as int);
            }
        }
    }
    (div_toward_zero(x * len, s), div_toward_zero(y * len, s))
}

/// Shortens `(x, y)` to length `cap` when it is longer, keeping its direction.
pub fn limit_magnitude(x: i128, y: i128, cap: i128) -> (r: (i128, i128))
    requires
        -0x1000_0000_0000 <= x <= 0x1000_0000_0000,
        -0x1000_0000_0000 <= y <= 0x1000_0000_0000,
        0 < cap <= 0x4000_0000,
    ensures
        (r.0 as int, r.1 as int) == limit_spec(x as int, y as int, cap as int),
        -cap <= r.0 <= cap,
        -cap <= r.1 <= cap,
        cap >= 2 && (x != 0 || y != 0) ==> r.0 != 0 || r.1 != 0,
{
    proof {
        lemma_square_bound(x as int, 0x1000_0000_0000);
        lemma_square_bound(y as int, 0x1000_0000_0000);
        lemma_square_bound(cap as int, 0x4000_0000);
    }
    if x * x + y * y <= cap * cap {
        proof {
            assert(-cap <= x <= cap) by (nonlinear_arith)
                requires
                    x * x + y * y <= cap * cap,
                    cap > 0,
            ;
            assert(-cap <= y <= cap) by (nonlinear_arith)
                requires
                    x * x + y * y <= cap * cap,
                    cap > 0,
            ;
        }
        (x, y)
    } else {
        scale_to_length(x, y, cap)
    }
}

} // verus!
