//! Fixed-point points and vectors, and the integer arithmetic behind them.

use crate::timer::{clamp_delta, TICKS_PER_SECOND};
use vstd::arithmetic::div_mod::{
    lemma_div_multiples_vanish_quotient, lemma_fundamental_div_mod, lemma_mod_bound,
};
use vstd::prelude::*;

verus! {

/// The length that an aimed direction is brought to. Rounding each
/// coordinate to a whole number leaves the length within 2 of it.
pub const UNIT: i32 = 1_000_000;

/// A point or a vector with three fixed-point coordinates.
#[derive(Clone, Copy, Debug, PartialEq, Eq, Structural)]
pub struct Vec3 {
    pub x: i32,
    pub y: i32,
    pub z: i32,
}

/// The coordinate nearest to `v` that a `Vec3` can hold.
pub open spec fn clamp_i32(v: int) -> i32 {
    if v < i32::MIN {
        i32::MIN
    } else if v > i32::MAX {
        i32::MAX
    } else {
        v as i32
    }
}

/// The quotient of `n` by a positive `d`, rounded toward zero.
pub open spec fn trunc_div(n: int, d: int) -> int {
    if n >= 0 {
        n / d
    } else {
        -((-n) / d)
    }
}

/// Rounding toward zero loses less than one: the quotient times the divisor
/// lies between the number and zero, less than one divisor away from the
/// number.
pub proof fn lemma_trunc_div_error(n: int, d: int)
    requires
        d > 0,
    ensures
        n >= 0 ==> trunc_div(n, d) * d <= n < (trunc_div(n, d) + 1) * d,
        n < 0 ==> (trunc_div(n, d) - 1) * d < n <= trunc_div(n, d) * d,
{
    let m = if n >= 0 {
        n
    } else {
        -n
    };
    lemma_fundamental_div_mod(m, d);
    lemma_mod_bound(m, d);
    assert((m / d) * d <= m < (m / d + 1) * d) by (nonlinear_arith)
        requires
            m == d * (m / d) + m % d,
            0 <= m % d < d,
    ;
    if n < 0 {
        assert((-(m / d) - 1) * d == -((m / d + 1) * d) && (-(m / d)) * d == -((m / d) * d))
            by (nonlinear_arith);
    }
}

/// The length of a vector whose squared length is `squared`, counted in
/// parts of `UNIT` to a coordinate unit and rounded down. Lengths are
/// measured on this finer scale so that a short vector has a length worth
/// dividing by: that of (1, 1, 0) is 1414213, not 1.
pub open spec fn fine_root(squared: nat) -> nat {
    isqrt((squared * UNIT * UNIT) as nat)
}

/// How far a body moves along one coordinate in `delta` microseconds, when
/// it travels at `speed` in a direction whose part along that coordinate is
/// `component` and whose length on the finer scale is `fine`: the part of
/// speed times time that falls to the coordinate, rounded toward zero. A
/// direction without length moves nothing.
pub open spec fn displacement(component: i32, fine: nat, speed: i32, delta: int) -> int {
    if fine == 0 {
        0
    } else {
        trunc_div(component * speed * clamp_delta(delta) * UNIT, fine * TICKS_PER_SECOND)
    }
}

/// The integer square root: the largest `r` with `r * r <= n`.
pub open spec fn isqrt(n: nat) -> nat
    decreases n,
{
    if n == 0 {
        0
    } else {
        let r = isqrt((n - 1) as nat);
        if (r + 1) * (r + 1) <= n {
            r + 1
        } else {
            r
        }
    }
}

/// The integer square root lies at or below the true root, and the next
/// integer lies above it.
pub proof fn lemma_isqrt_bounds(n: nat)
    ensures
        isqrt(n) * isqrt(n) <= n < (isqrt(n) + 1) * (isqrt(n) + 1),
    decreases n,
{
    if n > 0 {
        lemma_isqrt_bounds((n - 1) as nat);
        let r = isqrt((n - 1) as nat);
        if (r + 1) * (r + 1) <= n {
            assert(isqrt(n) == r + 1);
            assert((r + 1 + 1) * (r + 1 + 1) > (r + 1) * (r + 1)) by (nonlinear_arith);
        } else {
            assert(isqrt(n) == r);
        }
    } else {
        assert(isqrt(n) == 0);
        assert(0 * 0 == 0 && (0 + 1) * (0 + 1) == 1) by (nonlinear_arith);
    }
}

/// Only one number has its square at or below `n` and its successor's square
/// above `n`.
pub proof fn lemma_isqrt_unique(n: nat, r: nat)
    requires
        r * r <= n < (r + 1) * (r + 1),
    ensures
        r == isqrt(n),
{
    lemma_isqrt_bounds(n);
    let s = isqrt(n);
    if r < s {
        assert((r + 1) * (r + 1) <= s * s) by (nonlinear_arith)
            requires
                r + 1 <= s,
        ;
    } else if s < r {
        assert((s + 1) * (s + 1) <= r * r) by (nonlinear_arith)
            requires
                s + 1 <= r,
        ;
    }
}

/// Computes the integer square root by bisection.
pub fn integer_sqrt(n: u128) -> (root: u64)
    ensures
        root == isqrt(n as nat),
{
    let top: u128 = 0xFFFF_FFFF_FFFF_FFFF;
    if n >= top * top {
        proof {
            assert(n < (top + 1) * (top + 1)) by (nonlinear_arith)
                requires
                    n <= 0xFFFF_FFFF_FFFF_FFFF_FFFF_FFFF_FFFF_FFFF,
                    top == 0xFFFF_FFFF_FFFF_FFFF,
            ;
            lemma_isqrt_unique(n as nat, top as nat);
        }
        return 0xFFFF_FFFF_FFFF_FFFF;
    }
    let mut low: u128 = 0;
    let mut high: u128 = top;
    while high - low > 1
        invariant
            low < high <= top,
            top == 0xFFFF_FFFF_FFFF_FFFF,
            low * low <= n < high * high,
        decreases high - low,
    {
        let mid: u128 = low + (high - low) / 2;
        assert(mid * mid <= top * top) by (nonlinear_arith)
            requires
                mid <= top,
        ;
        if mid * mid <= n {
            low = mid;
        } else {
            high = mid;
        }
    }
    proof {
        lemma_isqrt_unique(n as nat, low as nat);
    }
    low as u64
}

/// The coordinate nearest to `v`.
pub(crate) fn clamp_to_i32(v: i128) -> (clamped: i32)
    ensures
        clamped == clamp_i32(v as int),
{
    if v < -2147483648 {
        -2147483648
    } else if v > 2147483647 {
        2147483647
    } else {
        v as i32
    }
}

/// Division that rounds toward zero, whatever the sign of `n`.
pub(crate) fn div_toward_zero(n: i128, d: i128) -> (quotient: i128)
    requires
        d > 0,
        n > i128::MIN,
    ensures
        quotient == trunc_div(n as int, d as int),
        n >= 0 ==> 0 <= quotient <= n,
        n < 0 ==> n <= quotient <= 0,
{
    if n >= 0 {
        assert(0 <= n / d <= n) by (nonlinear_arith)
            requires
                n >= 0,
                d > 0,
        ;
        n / d
    } else {
        let m: i128 = -n;
        assert(0 <= m / d <= m) by (nonlinear_arith)
            requires
                m >= 0,
                d > 0,
        ;
        let q: i128 = m / d;
        -q
    }
}

/// A number at or above the square of `low` and below that of `high` has
/// its integer square root from `low` up to, but not including, `high`.
pub proof fn lemma_isqrt_between(n: nat, low: nat, high: nat)
    requires
        low * low <= n < high * high,
    ensures
        low <= isqrt(n) < high,
{
    lemma_isqrt_bounds(n);
    let r = isqrt(n);
    if r < low {
        assert((r + 1) * (r + 1) <= low * low) by (nonlinear_arith)
            requires
                r + 1 <= low,
        ;
    }
    if r >= high {
        assert(high * high <= r * r) by (nonlinear_arith)
            requires
                high <= r,
        ;
    }
}

/// The scale of lengths and the scale of time are the same number, so the
/// one cancels against the other.
proof fn lemma_scales_cancel(n: int, d: int)
    requires
        d > 0,
    ensures
        trunc_div(n * UNIT, d * TICKS_PER_SECOND) == trunc_div(n, d),
{
    let m = if n >= 0 {
        n
    } else {
        -n
    };
    lemma_div_multiples_vanish_quotient(1_000_000, m, d);
    assert(m * UNIT == 1_000_000 * m && d * TICKS_PER_SECOND == 1_000_000 * d
        && -(n * UNIT) == (-n) * UNIT) by (nonlinear_arith);
    assert(m * UNIT >= 0) by (nonlinear_arith)
        requires
            m >= 0,
    ;
    if n < 0 {
        assert(n * UNIT < 0) by (nonlinear_arith)
            requires
                n < 0,
        ;
    }
}

/// The length on the finer scale of a vector whose squared length is
/// `squared`.
fn fine_root_of(squared: u128) -> (fine: u64)
    requires
        squared <= 0x3_0000_0000_0000_0000,
    ensures
        fine == fine_root(squared as nat),
        fine == 0 <==> squared == 0,
{
    assert(squared * 1_000_000_000_000 <= 0x3_0000_0000_0000_0000 * 1_000_000_000_000)
        by (nonlinear_arith)
        requires
            squared <= 0x3_0000_0000_0000_0000,
    ;
    assert(squared * UNIT * UNIT == squared * 1_000_000_000_000) by (nonlinear_arith);
    proof {
        let scaled = (squared * 1_000_000_000_000) as nat;
        let r = isqrt(scaled);
        lemma_isqrt_bounds(scaled);
        assert(r == 0 <==> scaled == 0) by (nonlinear_arith)
            requires
                r * r <= scaled < (r + 1) * (r + 1),
        ;
    }
    integer_sqrt(squared * 1_000_000_000_000)
}

/// How far a body moves along one coordinate: see `displacement`.
fn displace(component: i32, fine: u64, speed: i32, delta: i64) -> (moved: i128)
    ensures
        moved == displacement(component, fine as nat, speed, delta as int),
        -0x2000_0000_0000_0000_0000_0000_0000_0000 <= moved
            <= 0x2000_0000_0000_0000_0000_0000_0000_0000,
{
    if fine == 0 {
        return 0;
    }
    let step: i128 = if delta > 0 {
        delta as i128
    } else {
        0
    };
    assert(-0x4000_0000_0000_0000 <= component * speed <= 0x4000_0000_0000_0000)
        by (nonlinear_arith)
        requires
            -0x8000_0000 <= component <= 0x8000_0000,
            -0x8000_0000 <= speed <= 0x8000_0000,
    ;
    let rate: i128 = component as i128 * speed as i128;
    assert(-0x2000_0000_0000_0000_0000_0000_0000_0000 <= rate * step
        <= 0x2000_0000_0000_0000_0000_0000_0000_0000) by (nonlinear_arith)
        requires
            -0x4000_0000_0000_0000 <= rate <= 0x4000_0000_0000_0000,
            0 <= step <= 0x8000_0000_0000_0000,
    ;
    let travelled: i128 = rate * step;
    proof {
        lemma_scales_cancel(travelled as int, fine as int);
    }
    div_toward_zero(travelled, fine as i128)
}

/// A number whose square is at most `q` lies within the integer square root
/// of `q` on either side of zero.
pub proof fn lemma_component_within_length(c: int, q: nat)
    requires
        c * c <= q,
    ensures
        -isqrt(q) <= c <= isqrt(q),
{
    lemma_isqrt_bounds(q);
    let r = isqrt(q) as int;
    if c > r {
        assert(c * c >= (r + 1) * (r + 1)) by (nonlinear_arith)
            requires
                c >= r + 1,
                r >= 0,
        ;
    } else if c < -r {
        assert(c * c >= (r + 1) * (r + 1)) by (nonlinear_arith)
            requires
                c <= -(r + 1),
                r >= 0,
        ;
    }
}

/// Scaling a part of a vector by `scale` over the vector's length gives at
/// most `scale` on either side of zero.
pub proof fn lemma_scaled_within_scale(c: int, length: int, scale: int)
    requires
        length > 0,
        scale >= 0,
        -length <= c <= length,
    ensures
        -scale <= trunc_div(c * scale, length) <= scale,
{
    let m = if c >= 0 {
        c
    } else {
        -c
    };
    assert(0 <= (m * scale) / length <= scale) by (nonlinear_arith)
        requires
            0 <= m <= length,
            length > 0,
            scale >= 0,
    ;
    assert(m * scale >= 0) by (nonlinear_arith)
        requires
            m >= 0,
            scale >= 0,
    ;
    if c < 0 {
        assert(-(c * scale) == m * scale) by (nonlinear_arith)
            requires
                m == -c,
        ;
        if c * scale == 0 {
        }
    }
}

/// One part of a vector after scaling: with `x` the quotient of `a * u * u`
/// by `f`, the square of `x * f` is at most that of `a * u * u`, and the
/// square of `(x + 1) * f` is above it.
proof fn lemma_part_bounds(a: int, u: int, f: int, x: int)
    requires
        a >= 0,
        u > 0,
        f > 0,
        x == (a * u * u) / f,
    ensures
        x >= 0,
        x * x * (f * f) <= a * a * (u * u * u * u),
        (x + 1) * (x + 1) * (f * f) > a * a * (u * u * u * u),
{
    let n = a * u * u;
    assert(n >= 0) by (nonlinear_arith)
        requires
            n == a * u * u,
            a >= 0,
            u > 0,
    ;
    lemma_quotient_bounds(n, f, x);
    assert(n * n == a * a * (u * u * u * u)) by (nonlinear_arith)
        requires
            n == a * u * u,
    ;
}

/// A vector brought to the length `u` keeps that length within 2 when its
/// parts are rounded down to whole numbers. Here `a`, `b`, `c` are the sizes
/// of the parts of a vector that is not zero, `f` is its length on the scale
/// of `u` rounded down, and `x`, `y`, `z` are the parts times `u * u` over
/// `f`, rounded down.
pub proof fn lemma_scaled_to_unit(a: int, b: int, c: int, u: int, f: int, x: int, y: int, z: int)
    requires
        a >= 0,
        b >= 0,
        c >= 0,
        a * a + b * b + c * c >= 1,
        u >= 2,
        f >= 0,
        f * f <= (a * a + b * b + c * c) * u * u < (f + 1) * (f + 1),
        x == (a * u * u) / f,
        y == (b * u * u) / f,
        z == (c * u * u) / f,
    ensures
        f >= u,
        (u - 2) * (u - 2) <= x * x + y * y + z * z < (u + 2) * (u + 2),
{
    let q = a * a + b * b + c * c;
    let s = x * x + y * y + z * z;
    let w = u * u * u * u;
    let g = f * f;
    assert(f >= u) by (nonlinear_arith)
        requires
            q >= 1,
            q * u * u < (f + 1) * (f + 1),
            u >= 2,
            f >= 0,
    ;
    lemma_part_bounds(a, u, f, x);
    lemma_part_bounds(b, u, f, y);
    lemma_part_bounds(c, u, f, z);
    assert(s * g == x * x * g + y * y * g + z * z * g) by (nonlinear_arith)
        requires
            s == x * x + y * y + z * z,
    ;
    assert(q * w == a * a * w + b * b * w + c * c * w) by (nonlinear_arith)
        requires
            q == a * a + b * b + c * c,
    ;
    assert(q * w == (u * u) * (q * u * u)) by (nonlinear_arith)
        requires
            w == u * u * u * u,
    ;
    assert((u * u) * g <= q * w < (u * u) * ((f + 1) * (f + 1))) by (nonlinear_arith)
        requires
            q * w == (u * u) * (q * u * u),
            g <= q * u * u < (f + 1) * (f + 1),
            u >= 2,
    ;
    // Not too long: u * (f + 1) is less than (u + 2) * f.
    if s >= (u + 2) * (u + 2) {
        let p = u * (f + 1);
        let r = (u + 2) * f;
        assert(0 <= p < r) by (nonlinear_arith)
            requires
                p == u * (f + 1),
                r == (u + 2) * f,
                2 <= u <= f,
        ;
        assert(p * p < r * r) by (nonlinear_arith)
            requires
                0 <= p < r,
        ;
        assert(p * p == (u * u) * ((f + 1) * (f + 1)) && r * r == (u + 2) * (u + 2) * g)
            by (nonlinear_arith)
            requires
                p == u * (f + 1),
                r == (u + 2) * f,
                g == f * f,
        ;
        assert(s * g >= (u + 2) * (u + 2) * g) by (nonlinear_arith)
            requires
                s >= (u + 2) * (u + 2),
                g >= 0,
        ;
        assert(false);
    }
    // Not too short: the parts, each one more, reach beyond u.
    let t = x + y + z;
    let more = (x + 1) * (x + 1) + (y + 1) * (y + 1) + (z + 1) * (z + 1);
    assert(more * g == (x + 1) * (x + 1) * g + (y + 1) * (y + 1) * g + (z + 1) * (z + 1) * g)
        by (nonlinear_arith)
        requires
            more == (x + 1) * (x + 1) + (y + 1) * (y + 1) + (z + 1) * (z + 1),
    ;
    assert(more * g > (u * u) * g);
    assert(more > u * u) by (nonlinear_arith)
        requires
            more * g > (u * u) * g,
            g >= 0,
    ;
    assert(more == s + 2 * t + 3) by (nonlinear_arith)
        requires
            more == (x + 1) * (x + 1) + (y + 1) * (y + 1) + (z + 1) * (z + 1),
            s == x * x + y * y + z * z,
            t == x + y + z,
    ;
    if s < (u - 2) * (u - 2) {
        assert(t * t <= 3 * s) by (nonlinear_arith)
            requires
                t == x + y + z,
                s == x * x + y * y + z * z,
        ;
        let h = 2 * (u - 2);
        assert(h * h == 4 * ((u - 2) * (u - 2))) by (nonlinear_arith)
            requires
                h == 2 * (u - 2),
        ;
        assert(t < h) by (nonlinear_arith)
            requires
                t * t < h * h,
                h >= 0,
                t >= 0,
        ;
        assert((u - 2) * (u - 2) == u * u - 4 * u + 4) by (nonlinear_arith);
        assert(false);
    }
}

/// A part `d` of a vector of squared length `q`, brought to the length
/// `UNIT` over the vector's length `fine` on the finer scale, lies within
/// `UNIT` on either side of zero.
proof fn lemma_part_within_unit(d: int, q: int, fine: int)
    requires
        0 <= d * d <= q,
        fine > 0,
        fine == fine_root(q as nat),
    ensures
        -UNIT <= trunc_div(d * UNIT * UNIT, fine) <= UNIT,
{
    assert((d * UNIT) * (d * UNIT) <= q * UNIT * UNIT) by (nonlinear_arith)
        requires
            d * d <= q,
    ;
    lemma_component_within_length(d * UNIT, (q * UNIT * UNIT) as nat);
    lemma_scaled_within_scale(d * UNIT, fine, UNIT as int);
}

/// The direction that `heading` gives has a squared length from that of
/// `UNIT - 2` up to, but not including, that of `UNIT + 2`.
proof fn lemma_heading_length(dx: int, dy: int, dz: int, fine: int, x: int, y: int, z: int)
    requires
        dx * dx + dy * dy + dz * dz >= 1,
        fine == fine_root((dx * dx + dy * dy + dz * dz) as nat),
        fine > 0,
        x == trunc_div(dx * UNIT * UNIT, fine),
        y == trunc_div(dy * UNIT * UNIT, fine),
        z == trunc_div(dz * UNIT * UNIT, fine),
    ensures
        (UNIT - 2) * (UNIT - 2) <= x * x + y * y + z * z < (UNIT + 2) * (UNIT + 2),
{
    let u = UNIT as int;
    let q = dx * dx + dy * dy + dz * dz;
    lemma_isqrt_bounds((q * UNIT * UNIT) as nat);
    let a = lemma_part_size(dx, fine, x);
    let b = lemma_part_size(dy, fine, y);
    let c = lemma_part_size(dz, fine, z);
    let xa = (a * u * u) / fine;
    let yb = (b * u * u) / fine;
    let zc = (c * u * u) / fine;
    assert(a * a + b * b + c * c == q);
    lemma_scaled_to_unit(a, b, c, u, fine, xa, yb, zc);
}

/// The size `a` of a part `d`, with what the rounding of the scaled part
/// comes to: the square of the rounded part `x` is that of `a * UNIT * UNIT`
/// over `fine`.
proof fn lemma_part_size(d: int, fine: int, x: int) -> (a: int)
    requires
        fine > 0,
        x == trunc_div(d * UNIT * UNIT, fine),
    ensures
        a >= 0,
        a * a == d * d,
        x * x == ((a * UNIT * UNIT) / fine) * ((a * UNIT * UNIT) / fine),
{
    let a = if d >= 0 {
        d
    } else {
        -d
    };
    assert(a * a == d * d) by (nonlinear_arith)
        requires
            a == d || a == -d,
    ;
    assert(-(d * UNIT * UNIT) == (-d) * UNIT * UNIT) by (nonlinear_arith);
    assert(d >= 0 ==> d * UNIT * UNIT >= 0) by (nonlinear_arith);
    assert(d < 0 ==> d * UNIT * UNIT < 0) by (nonlinear_arith);
    let m = (a * UNIT * UNIT) / fine;
    assert(x == m || x == -m);
    assert(x * x == m * m) by (nonlinear_arith)
        requires
            x == m || x == -m,
    ;
    a
}

/// The size of a number, whatever its sign.
pub open spec fn magnitude(v: int) -> int {
    if v >= 0 {
        v
    } else {
        -v
    }
}

/// The quotient `x` of `m` by `f`, squared: the square of `x * f` is at
/// most that of `m`, and the square of `(x + 1) * f` is above it.
proof fn lemma_quotient_bounds(m: int, f: int, x: int)
    requires
        m >= 0,
        f > 0,
        x == m / f,
    ensures
        x >= 0,
        x * x * (f * f) <= m * m < (x + 1) * (x + 1) * (f * f),
{
    lemma_fundamental_div_mod(m, f);
    lemma_mod_bound(m, f);
    assert(x >= 0 && x * f <= m < (x + 1) * f) by (nonlinear_arith)
        requires
            m == f * x + m % f,
            0 <= m % f < f,
            f > 0,
            m >= 0,
    ;
    assert(x * x * (f * f) <= m * m) by (nonlinear_arith)
        requires
            0 <= x * f <= m,
    ;
    assert((x + 1) * (x + 1) * (f * f) > m * m) by (nonlinear_arith)
        requires
            0 <= m < (x + 1) * f,
    ;
}

/// The size of a displacement is the size of the direction's part times
/// that of speed times time, over the direction's length.
proof fn lemma_displacement_size(component: i32, fine: nat, speed: i32, delta: int)
    requires
        fine > 0,
    ensures
        magnitude(displacement(component, fine, speed, delta)) == (magnitude(component as int)
            * (magnitude(speed as int) * clamp_delta(delta))) / (fine as int),
{
    let way = component * speed * clamp_delta(delta);
    let a = magnitude(component as int);
    let n = magnitude(speed as int) * clamp_delta(delta);
    lemma_scales_cancel(way, fine as int);
    assert(way == a * n || way == -(a * n)) by (nonlinear_arith)
        requires
            way == component * speed * clamp_delta(delta),
            a == component || a == -component,
            n == speed * clamp_delta(delta) || n == -speed * clamp_delta(delta),
    ;
    assert(a * n >= 0) by (nonlinear_arith)
        requires
            a >= 0,
            n == magnitude(speed as int) * clamp_delta(delta),
            magnitude(speed as int) >= 0,
            clamp_delta(delta) >= 0,
    ;
    assert(0 <= (a * n) / (fine as int)) by (nonlinear_arith)
        requires
            a * n >= 0,
            fine > 0,
    ;
}

/// The way that a body makes in one call is speed times time, whatever the
/// length of its direction. With `n` the size of speed times time, which is
/// the way in thousandths times `TICKS_PER_SECOND`: the way made is no
/// longer than the exact way by more than one part in `UNIT`, and it
/// falls short of it by less than one thousandth in each coordinate.
pub proof fn lemma_way_made(direction: Vec3, speed: i32, delta: int)
    requires
        direction.norm_sq() > 0,
    ensures
        ({
            let fine = fine_root(direction.norm_sq());
            let ex = magnitude(displacement(direction.x, fine, speed, delta));
            let ey = magnitude(displacement(direction.y, fine, speed, delta));
            let ez = magnitude(displacement(direction.z, fine, speed, delta));
            let n = magnitude(speed as int) * clamp_delta(delta);
            &&& fine >= UNIT
            &&& (ex * ex + ey * ey + ez * ez) * (TICKS_PER_SECOND * TICKS_PER_SECOND) * (UNIT
                * UNIT) <= n * n * ((UNIT + 1) * (UNIT + 1))
            &&& ((ex + 1) * (ex + 1) + (ey + 1) * (ey + 1) + (ez + 1) * (ez + 1)) * (
            TICKS_PER_SECOND * TICKS_PER_SECOND) > n * n
        }),
{
    let q = direction.norm_sq() as int;
    let f = fine_root(direction.norm_sq()) as int;
    let u = UNIT as int;
    let a = magnitude(direction.x as int);
    let b = magnitude(direction.y as int);
    let c = magnitude(direction.z as int);
    let n = magnitude(speed as int) * clamp_delta(delta);
    assert(n >= 0) by (nonlinear_arith)
        requires
            n == magnitude(speed as int) * clamp_delta(delta),
            magnitude(speed as int) >= 0,
            clamp_delta(delta) >= 0,
    ;
    assert(a * a == direction.x * direction.x && b * b == direction.y * direction.y && c * c
        == direction.z * direction.z) by (nonlinear_arith)
        requires
            a == direction.x || a == -direction.x,
            b == direction.y || b == -direction.y,
            c == direction.z || c == -direction.z,
    ;
    assert(a * a >= 0 && b * b >= 0 && c * c >= 0) by (nonlinear_arith);
    assert(q == a * a + b * b + c * c);
    lemma_isqrt_bounds((q * UNIT * UNIT) as nat);
    assert(q * UNIT * UNIT == q * (u * u)) by (nonlinear_arith)
        requires
            u == UNIT,
    ;
    assert(f >= u) by (nonlinear_arith)
        requires
            q >= 1,
            q * (u * u) < (f + 1) * (f + 1),
            u >= 2,
            f >= 0,
    ;
    lemma_displacement_size(direction.x, f as nat, speed, delta);
    lemma_displacement_size(direction.y, f as nat, speed, delta);
    lemma_displacement_size(direction.z, f as nat, speed, delta);
    let ex = (a * n) / f;
    let ey = (b * n) / f;
    let ez = (c * n) / f;
    assert(a * n >= 0 && b * n >= 0 && c * n >= 0) by (nonlinear_arith)
        requires
            a >= 0,
            b >= 0,
            c >= 0,
            n >= 0,
    ;
    lemma_quotient_bounds(a * n, f, ex);
    lemma_quotient_bounds(b * n, f, ey);
    lemma_quotient_bounds(c * n, f, ez);
    let g = f * f;
    assert(g > 0) by (nonlinear_arith)
        requires
            g == f * f,
            f >= 2,
    ;
    let s = ex * ex + ey * ey + ez * ez;
    let more = (ex + 1) * (ex + 1) + (ey + 1) * (ey + 1) + (ez + 1) * (ez + 1);
    let exact = n * n * q;
    let nn = n * n;
    assert((a * n) * (a * n) == nn * (a * a)) by (nonlinear_arith)
        requires
            nn == n * n,
    ;
    assert((b * n) * (b * n) == nn * (b * b)) by (nonlinear_arith)
        requires
            nn == n * n,
    ;
    assert((c * n) * (c * n) == nn * (c * c)) by (nonlinear_arith)
        requires
            nn == n * n,
    ;
    assert(exact == nn * (a * a) + nn * (b * b) + nn * (c * c)) by (nonlinear_arith)
        requires
            exact == nn * q,
            q == a * a + b * b + c * c,
    ;
    assert(s * g == ex * ex * g + ey * ey * g + ez * ez * g) by (nonlinear_arith)
        requires
            s == ex * ex + ey * ey + ez * ez,
    ;
    assert(more * g == (ex + 1) * (ex + 1) * g + (ey + 1) * (ey + 1) * g + (ez + 1) * (ez + 1)
        * g) by (nonlinear_arith)
        requires
            more == (ex + 1) * (ex + 1) + (ey + 1) * (ey + 1) + (ez + 1) * (ez + 1),
    ;
    assert(s * g <= exact < more * g);
    // Not longer: s * g <= n * n * q, and q * u * u < (f + 1) * (f + 1).
    let uu = u * u;
    assert(s * uu * g <= nn * ((f + 1) * (f + 1))) by (nonlinear_arith)
        requires
            s * g <= nn * q,
            q * uu < (f + 1) * (f + 1),
            nn >= 0,
            uu >= 0,
    ;
    assert((f + 1) * (f + 1) * uu <= (u + 1) * (u + 1) * g) by (nonlinear_arith)
        requires
            2 <= u <= f,
            uu == u * u,
            g == f * f,
    ;
    assert(s * uu * uu * g <= nn * ((u + 1) * (u + 1)) * g) by (nonlinear_arith)
        requires
            s * uu * g <= nn * ((f + 1) * (f + 1)),
            (f + 1) * (f + 1) * uu <= (u + 1) * (u + 1) * g,
            nn >= 0,
            uu >= 0,
    ;
    assert(s * uu * uu <= nn * ((u + 1) * (u + 1))) by (nonlinear_arith)
        requires
            s * uu * uu * g <= nn * ((u + 1) * (u + 1)) * g,
            g > 0,
    ;
    // Not shorter: n * n * q < more * g, and g <= q * u * u.
    assert(nn * g < more * uu * g) by (nonlinear_arith)
        requires
            nn * q < more * g,
            g <= q * uu,
            nn >= 0,
            more >= 0,
            uu > 0,
            g > 0,
            q >= 1,
    ;
    assert(nn < more * uu) by (nonlinear_arith)
        requires
            nn * g < more * uu * g,
            g > 0,
    ;
    assert(TICKS_PER_SECOND * TICKS_PER_SECOND == uu && UNIT * UNIT == uu) by (nonlinear_arith)
        requires
            uu == u * u,
            u == 1_000_000,
    ;
}

impl Vec3 {
    /// The squared length of this vector.
    pub open spec fn norm_sq(self) -> nat {
        (self.x * self.x + self.y * self.y + self.z * self.z) as nat
    }

    /// The length of this vector, rounded down.
    pub open spec fn norm(self) -> nat {
        isqrt(self.norm_sq())
    }

    /// The squared Euclidean distance between two points.
    pub open spec fn dist_sq(self, other: Vec3) -> nat {
        let dx = self.x - other.x;
        let dy = self.y - other.y;
        let dz = self.z - other.z;
        (dx * dx + dy * dy + dz * dz) as nat
    }

    /// Whether `other` lies at most `radius` away.
    pub open spec fn near(self, other: Vec3, radius: u32) -> bool {
        self.dist_sq(other) <= radius * radius
    }

    /// This point moved by `offset`, each coordinate kept within range.
    pub open spec fn shifted(self, offset: Vec3) -> Vec3 {
        Vec3 {
            x: clamp_i32(self.x + offset.x),
            y: clamp_i32(self.y + offset.y),
            z: clamp_i32(self.z + offset.z),
        }
    }

    /// This point after travelling for `delta` microseconds at `speed` along
    /// `direction`, each coordinate kept within range. The way made is
    /// speed times time whatever the length of the direction, but for the
    /// rounding: each coordinate moves by a whole number of thousandths, and
    /// what is cut off, less than one thousandth a call, is lost. A body
    /// that would move less than one thousandth in a call does not move in
    /// that call.
    pub open spec fn travelled(self, direction: Vec3, speed: i32, delta: int) -> Vec3 {
        let fine = fine_root(direction.norm_sq());
        Vec3 {
            x: clamp_i32(self.x + displacement(direction.x, fine, speed, delta)),
            y: clamp_i32(self.y + displacement(direction.y, fine, speed, delta)),
            z: clamp_i32(self.z + displacement(direction.z, fine, speed, delta)),
        }
    }

    /// The direction from this point towards `target`, brought to the
    /// length `UNIT` and rounded toward zero in each coordinate, or nothing
    /// where the two are the same point.
    pub open spec fn heading(self, target: Vec3) -> Option<Vec3> {
        let fine = fine_root(target.dist_sq(self)) as int;
        if fine == 0 {
            None
        } else {
            Some(
                Vec3 {
                    x: trunc_div((target.x - self.x) * UNIT * UNIT, fine) as i32,
                    y: trunc_div((target.y - self.y) * UNIT * UNIT, fine) as i32,
                    z: trunc_div((target.z - self.z) * UNIT * UNIT, fine) as i32,
                },
            )
        }
    }

    /// The point with the given coordinates.
    pub fn new(x: i32, y: i32, z: i32) -> (point: Vec3)
        ensures
            point == (Vec3 { x, y, z }),
    {
        Vec3 { x, y, z }
    }

    /// The squared Euclidean distance to `other`.
    pub fn distance_squared(&self, other: &Vec3) -> (d: u128)
        ensures
            d == self.dist_sq(*other),
            d <= 0x3_0000_0000_0000_0000,
    {
        let dx: i128 = self.x as i128 - other.x as i128;
        let dy: i128 = self.y as i128 - other.y as i128;
        let dz: i128 = self.z as i128 - other.z as i128;
        assert(0 <= dx * dx <= 0x1_0000_0000_0000_0000) by (nonlinear_arith)
            requires
                -0x1_0000_0000 <= dx <= 0x1_0000_0000,
        ;
        assert(0 <= dy * dy <= 0x1_0000_0000_0000_0000) by (nonlinear_arith)
            requires
                -0x1_0000_0000 <= dy <= 0x1_0000_0000,
        ;
        assert(0 <= dz * dz <= 0x1_0000_0000_0000_0000) by (nonlinear_arith)
            requires
                -0x1_0000_0000 <= dz <= 0x1_0000_0000,
        ;
        (dx * dx + dy * dy + dz * dz) as u128
    }

    /// The length of this vector, rounded down.
    pub fn length(&self) -> (l: u64)
        ensures
            l == self.norm(),
    {
        let origin = Vec3 { x: 0, y: 0, z: 0 };
        integer_sqrt(self.distance_squared(&origin))
    }

    /// Whether `other` lies at most `radius` away. The radius itself counts.
    pub fn within(&self, other: &Vec3, radius: u32) -> (hit: bool)
        ensures
            hit == self.near(*other, radius),
    {
        let reach: u128 = radius as u128;
        assert(reach * reach <= 0x1_0000_0000_0000_0000) by (nonlinear_arith)
            requires
                0 <= reach <= 0x1_0000_0000,
        ;
        self.distance_squared(other) <= reach * reach
    }

    /// This point moved by `offset`; a coordinate that would leave the range
    /// stops at its end.
    pub fn saturating_add(&self, offset: &Vec3) -> (sum: Vec3)
        ensures
            sum == self.shifted(*offset),
    {
        Vec3 {
            x: clamp_to_i32(self.x as i128 + offset.x as i128),
            y: clamp_to_i32(self.y as i128 + offset.y as i128),
            z: clamp_to_i32(self.z as i128 + offset.z as i128),
        }
    }

    /// Where a body at this point arrives after `delta` microseconds at
    /// `speed` along `direction`. The direction may have any length; none at all
    /// means no movement, and so does a sample that is not positive. Each
    /// coordinate moves by a whole number of thousandths, rounded toward
    /// zero.
    pub fn travel(&self, direction: &Vec3, speed: i32, delta: i64) -> (arrived: Vec3)
        ensures
            arrived == self.travelled(*direction, speed, delta as int),
    {
        let origin = Vec3 { x: 0, y: 0, z: 0 };
        let fine: u64 = fine_root_of(direction.distance_squared(&origin));
        let dx: i128 = displace(direction.x, fine, speed, delta);
        let dy: i128 = displace(direction.y, fine, speed, delta);
        let dz: i128 = displace(direction.z, fine, speed, delta);
        Vec3 {
            x: clamp_to_i32(self.x as i128 + dx),
            y: clamp_to_i32(self.y as i128 + dy),
            z: clamp_to_i32(self.z as i128 + dz),
        }
    }

    /// The direction from this point towards `target`, or nothing if the two
    /// are the same point. The direction is brought to the length `UNIT`;
    /// after the rounding of its coordinates its length, rounded down, is
    /// within 2 of `UNIT`.
    pub fn direction_to(&self, target: &Vec3) -> (direction: Option<Vec3>)
        ensures
            direction == self.heading(*target),
            direction is None <==> *target == *self,
            direction matches Some(d) ==> -UNIT <= d.x <= UNIT && -UNIT <= d.y <= UNIT && -UNIT
                <= d.z <= UNIT,
            direction matches Some(d) ==> UNIT - 2 <= d.norm() <= UNIT + 1,
    {
        let squared: u128 = target.distance_squared(self);
        let fine: u64 = fine_root_of(squared);
        let dx: i128 = target.x as i128 - self.x as i128;
        let dy: i128 = target.y as i128 - self.y as i128;
        let dz: i128 = target.z as i128 - self.z as i128;
        proof {
            assert(dx * dx >= 0 && dy * dy >= 0 && dz * dz >= 0) by (nonlinear_arith);
            assert(dx != 0 ==> dx * dx > 0) by (nonlinear_arith);
            assert(dy != 0 ==> dy * dy > 0) by (nonlinear_arith);
            assert(dz != 0 ==> dz * dz > 0) by (nonlinear_arith);
        }
        if fine == 0 {
            return None;
        }
        proof {
            lemma_part_within_unit(dx as int, squared as int, fine as int);
            lemma_part_within_unit(dy as int, squared as int, fine as int);
            lemma_part_within_unit(dz as int, squared as int, fine as int);
        }
        assert(dx * 1_000_000_000_000 == dx * UNIT * UNIT && dy * 1_000_000_000_000 == dy * UNIT
            * UNIT && dz * 1_000_000_000_000 == dz * UNIT * UNIT) by (nonlinear_arith);
        let x: i128 = div_toward_zero(dx * 1_000_000_000_000, fine as i128);
        let y: i128 = div_toward_zero(dy * 1_000_000_000_000, fine as i128);
        let z: i128 = div_toward_zero(dz * 1_000_000_000_000, fine as i128);
        let found = Vec3 { x: x as i32, y: y as i32, z: z as i32 };
        proof {
            lemma_heading_length(dx as int, dy as int, dz as int, fine as int, x as int, y as int, z as int);
            lemma_isqrt_between(found.norm_sq(), (UNIT - 2) as nat, (UNIT + 2) as nat);
        }
        Some(found)
    }
}

} // verus!
