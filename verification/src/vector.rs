//! Points and displacements of the plane, in whole length units.
//!
//! A coordinate is an `i32`. Sums and differences are taken in wider
//! integers and brought back by saturation, so the plane ends at the
//! bounds of `i32` and nothing wraps round.

use vstd::prelude::*;
use crate::sqrt::{
    isqrt, lemma_sqrt_floor_bounds, lemma_sqrt_floor_monotone, lemma_sqrt_floor_of_square,
    sqrt_floor,
};

verus! {

/// A point of the plane, or a displacement between two points.
#[derive(Clone, Copy, Debug, PartialEq, Eq, Structural)]
pub struct Vec2 {
    pub x: i32,
    pub y: i32,
}

/// The coordinate nearest to `v` that an `i32` can hold.
pub open spec fn clamp_coord(v: int) -> int {
    if v < i32::MIN {
        i32::MIN as int
    } else if v > i32::MAX {
        i32::MAX as int
    } else {
        v
    }
}

/// The point nearest to `(x, y)` that lies in the plane.
pub open spec fn clamped(x: int, y: int) -> Vec2 {
    Vec2 { x: clamp_coord(x) as i32, y: clamp_coord(y) as i32 }
}

/// Whether `(x, y)` lies in the plane, so that `clamped` leaves it alone.
pub open spec fn in_plane(x: int, y: int) -> bool {
    i32::MIN <= x <= i32::MAX && i32::MIN <= y <= i32::MAX
}

/// The square of the length of `(dx, dy)`.
pub open spec fn norm_sq(dx: int, dy: int) -> int {
    dx * dx + dy * dy
}

/// The square of the distance between `a` and `b`.
pub open spec fn dist_sq(a: Vec2, b: Vec2) -> int {
    norm_sq(a.x - b.x, a.y - b.y)
}

/// The component `d` of the vector `(d, e)` once the vector has been
/// rescaled to length `len`, rounded toward zero: `d * len / |(d, e)|`.
/// The zero vector has no direction and stays zero.
pub open spec fn scaled_axis(d: int, e: int, len: int) -> int {
    if d == 0 {
        0
    } else {
        let k = sqrt_floor((((d * d) * (len * len)) / norm_sq(d, e)) as nat) as int;
        if d > 0 {
            k
        } else {
            -k
        }
    }
}

/// The displacement of length `len` that points from `from` toward `to`,
/// each component rounded toward zero; zero where the two coincide.
pub open spec fn stretched(from: Vec2, to: Vec2, len: int) -> (int, int) {
    (
        scaled_axis(to.x - from.x, to.y - from.y, len),
        scaled_axis(to.y - from.y, to.x - from.x, len),
    )
}

/// The point at distance `len` from `from` on the ray through `to`, before
/// it is brought back into the plane.
pub open spec fn target(from: Vec2, to: Vec2, len: int) -> (int, int) {
    (from.x + stretched(from, to, len).0, from.y + stretched(from, to, len).1)
}

/// The point at distance `len` from `from` on the ray through `to`.
pub open spec fn placed(from: Vec2, to: Vec2, len: int) -> Vec2 {
    clamped(target(from, to, len).0, target(from, to, len).1)
}

/// The absolute value of `v`.
pub open spec fn magnitude(v: int) -> int {
    if v < 0 {
        -v
    } else {
        v
    }
}

/// A rescaled component keeps its sign and is no longer than the length
/// asked for.
pub proof fn lemma_scaled_axis_range(d: int, e: int, len: int)
    requires
        0 <= len,
    ensures
        magnitude(scaled_axis(d, e, len)) <= len,
        d >= 0 ==> scaled_axis(d, e, len) >= 0,
        d <= 0 ==> scaled_axis(d, e, len) <= 0,
{
    if d != 0 {
        let n = norm_sq(d, e);
        let a = (d * d) * (len * len);
        let l2 = len * len;
        assert(0 < d * d <= n && 0 <= l2 && 0 <= a && a <= n * l2) by (nonlinear_arith)
            requires
                d != 0,
                n == d * d + e * e,
                a == (d * d) * (len * len),
                l2 == len * len,
        ;
        assert(a / n <= l2) by (nonlinear_arith)
            requires
                0 < n,
                0 <= a <= n * l2,
        ;
        assert(0 <= a / n) by (nonlinear_arith)
            requires
                0 < n,
                0 <= a,
        ;
        lemma_sqrt_floor_monotone((a / n) as nat, l2 as nat);
        lemma_sqrt_floor_of_square(len as nat);
    }
}

/// The magnitude `k` of a rescaled component is the largest whole number
/// with `k * |(d, e)| <= |d| * len`, stated in squares.
pub proof fn lemma_scaled_axis_bounds(d: int, e: int, len: int)
    requires
        0 <= len,
        d != 0 || e != 0,
    ensures
        ({
            let k = magnitude(scaled_axis(d, e, len));
            (k * k) * norm_sq(d, e) <= (d * d) * (len * len) < ((k + 1) * (k + 1)) * norm_sq(d, e)
        }),
{
    let n = norm_sq(d, e);
    let a = (d * d) * (len * len);
    let k = magnitude(scaled_axis(d, e, len));
    assert(0 < n && 0 <= a) by (nonlinear_arith)
        requires
            d != 0 || e != 0,
            n == d * d + e * e,
            a == (d * d) * (len * len),
    ;
    if d == 0 {
        assert(k == 0);
        assert(a == 0) by (nonlinear_arith)
            requires
                d == 0,
                a == (d * d) * (len * len),
        ;
        assert((k * k) * n == 0 && ((k + 1) * (k + 1)) * n == n) by (nonlinear_arith)
            requires
                k == 0,
        ;
    } else {
        let q = a / n;
        assert(0 <= q && q * n <= a < (q + 1) * n) by (nonlinear_arith)
            requires
                0 < n,
                0 <= a,
                q == a / n,
        ;
        lemma_sqrt_floor_bounds(q as nat);
        assert(k == sqrt_floor(q as nat));
        assert((k * k) * n <= a) by (nonlinear_arith)
            requires
                k * k <= q,
                q * n <= a,
                0 < n,
        ;
        assert(a < ((k + 1) * (k + 1)) * n) by (nonlinear_arith)
            requires
                q + 1 <= (k + 1) * (k + 1),
                a < (q + 1) * n,
                0 < n,
        ;
    }
}

/// The zero vector has no direction: rescaled, it stays zero.
pub proof fn lemma_stretched_zero(p: Vec2, len: int)
    ensures
        stretched(p, p, len) == (0int, 0int),
        placed(p, p, len) == p,
{
}

/// Along an axis nothing is rounded: the rescaled vector has exactly the
/// length asked for.
pub proof fn lemma_scaled_axis_aligned(d: int, len: int)
    requires
        0 <= len,
        d != 0,
    ensures
        scaled_axis(d, 0, len) == if d > 0 {
            len
        } else {
            -len
        },
        scaled_axis(0, d, len) == 0,
{
    let a = (d * d) * (len * len);
    let n = norm_sq(d, 0);
    assert(n == d * d && n > 0 && a == (len * len) * n) by (nonlinear_arith)
        requires
            d != 0,
            n == d * d + 0 * 0,
            a == (d * d) * (len * len),
    ;
    assert(a / n == len * len) by (nonlinear_arith)
        requires
            n > 0,
            a == (len * len) * n,
    ;
    assert(len * len >= 0) by (nonlinear_arith);
    lemma_sqrt_floor_of_square(len as nat);
}

/// The magnitude of a rescaled component is the only whole number within
/// the bounds of `lemma_scaled_axis_bounds`: a number `k` that meets them
/// is that magnitude.
pub proof fn lemma_scaled_axis_unique(d: int, e: int, len: int, k: int)
    requires
        0 <= len,
        0 <= k,
        d != 0 || e != 0,
        (k * k) * norm_sq(d, e) <= (d * d) * (len * len) < ((k + 1) * (k + 1)) * norm_sq(d, e),
    ensures
        scaled_axis(d, e, len) == if d >= 0 {
            k
        } else {
            -k
        },
{
    let n = norm_sq(d, e);
    let a = (d * d) * (len * len);
    let m = magnitude(scaled_axis(d, e, len));
    lemma_scaled_axis_bounds(d, e, len);
    lemma_scaled_axis_range(d, e, len);
    assert(0 < n) by (nonlinear_arith)
        requires
            d != 0 || e != 0,
            n == d * d + e * e,
    ;
    if k < m {
        assert(((k + 1) * (k + 1)) * n <= (m * m) * n) by (nonlinear_arith)
            requires
                0 <= k,
                k + 1 <= m,
                0 < n,
        ;
    } else if m < k {
        assert(((m + 1) * (m + 1)) * n <= (k * k) * n) by (nonlinear_arith)
            requires
                0 <= m,
                m + 1 <= k,
                0 < n,
        ;
    }
}

/// From `k <= p * sqrt(m / n)` and `q * sqrt(m / n) < j + 1`, all in
/// squares, follows `k * q <= p * (j + 1)`.
proof fn lemma_ratio_order(k: int, j: int, p: int, q: int, n: int, m: int)
    requires
        0 <= k,
        0 <= j,
        0 <= p,
        0 <= q,
        0 < n,
        0 <= m,
        (k * k) * n <= (p * p) * m,
        (q * q) * m < ((j + 1) * (j + 1)) * n,
    ensures
        k * q <= p * (j + 1),
{
    let x = k * k;
    let a = p * p;
    let b = q * q;
    let y = (j + 1) * (j + 1);
    assert(0 <= x && 0 <= a && 0 <= b && 0 <= y) by (nonlinear_arith)
        requires
            x == k * k,
            a == p * p,
            b == q * q,
            y == (j + 1) * (j + 1),
    ;
    assert((x * b) * n <= (a * m) * b) by (nonlinear_arith)
        requires
            x * n <= a * m,
            0 <= b,
    ;
    assert((a * m) * b <= (a * y) * n) by (nonlinear_arith)
        requires
            b * m < y * n,
            0 <= a,
    ;
    assert(x * b <= a * y) by (nonlinear_arith)
        requires
            (x * b) * n <= (a * y) * n,
            0 < n,
    ;
    let lhs = k * q;
    let rhs = p * (j + 1);
    assert(lhs * lhs == x * b && rhs * rhs == a * y && 0 <= lhs && 0 <= rhs) by (nonlinear_arith)
        requires
            lhs == k * q,
            rhs == p * (j + 1),
            x == k * k,
            b == q * q,
            a == p * p,
            y == (j + 1) * (j + 1),
            0 <= k,
            0 <= q,
            0 <= p,
            0 <= j,
    ;
    assert(lhs <= rhs) by (nonlinear_arith)
        requires
            lhs * lhs <= rhs * rhs,
            0 <= lhs,
            0 <= rhs,
    ;
}

/// A vector rescaled to length `len` is no longer than `len`, and is
/// longer once one unit is added to each component: rounding takes less
/// than one unit from either.
pub proof fn lemma_rescaled_length(d: int, e: int, len: int)
    requires
        0 <= len,
        d != 0 || e != 0,
    ensures
        ({
            let wx = scaled_axis(d, e, len);
            let wy = scaled_axis(e, d, len);
            norm_sq(wx, wy) <= len * len < norm_sq(magnitude(wx) + 1, magnitude(wy) + 1)
        }),
{
    let wx = scaled_axis(d, e, len);
    let wy = scaled_axis(e, d, len);
    let kx = magnitude(wx);
    let ky = magnitude(wy);
    let n = norm_sq(d, e);
    lemma_scaled_axis_bounds(d, e, len);
    lemma_scaled_axis_bounds(e, d, len);
    assert(norm_sq(e, d) == n);
    let m = len * len;
    let a = d * d;
    let b = e * e;
    let x = kx * kx;
    let y = ky * ky;
    let x1 = (kx + 1) * (kx + 1);
    let y1 = (ky + 1) * (ky + 1);
    assert(n > 0) by (nonlinear_arith)
        requires
            d != 0 || e != 0,
            n == d * d + e * e,
    ;
    assert(x + y <= m) by (nonlinear_arith)
        requires
            x * n <= a * m,
            y * n <= b * m,
            n == a + b,
            0 < n,
    ;
    assert(m < x1 + y1) by (nonlinear_arith)
        requires
            a * m < x1 * n,
            b * m < y1 * n,
            n == a + b,
            0 < n,
    ;
    assert(wx * wx == x && wy * wy == y) by (nonlinear_arith)
        requires
            kx == magnitude(wx),
            ky == magnitude(wy),
            x == kx * kx,
            y == ky * ky,
    ;
}

/// Rescaling keeps the direction of a vector: each component keeps its
/// sign, and the cross product of the vector and its rescaled form is at
/// most the larger component of the vector, so that the rescaled form lies
/// within one unit of the vector's ray.
pub proof fn lemma_rescaled_direction(d: int, e: int, len: int)
    requires
        0 <= len,
        d != 0 || e != 0,
    ensures
        ({
            let wx = scaled_axis(d, e, len);
            let wy = scaled_axis(e, d, len);
            &&& (d >= 0 ==> wx >= 0) && (d <= 0 ==> wx <= 0)
            &&& (e >= 0 ==> wy >= 0) && (e <= 0 ==> wy <= 0)
            &&& -magnitude(e) <= magnitude(wx) * magnitude(e) - magnitude(wy) * magnitude(d)
                <= magnitude(d)
        }),
{
    let wx = scaled_axis(d, e, len);
    let wy = scaled_axis(e, d, len);
    let kx = magnitude(wx);
    let ky = magnitude(wy);
    let p = magnitude(d);
    let q = magnitude(e);
    let n = norm_sq(d, e);
    let m = len * len;
    lemma_scaled_axis_range(d, e, len);
    lemma_scaled_axis_range(e, d, len);
    lemma_scaled_axis_bounds(d, e, len);
    lemma_scaled_axis_bounds(e, d, len);
    assert(norm_sq(e, d) == n);
    assert(n > 0 && m >= 0 && p * p == d * d && q * q == e * e) by (nonlinear_arith)
        requires
            d != 0 || e != 0,
            n == d * d + e * e,
            m == len * len,
            p == magnitude(d),
            q == magnitude(e),
    ;
    lemma_ratio_order(kx, ky, p, q, n, m);
    lemma_ratio_order(ky, kx, q, p, n, m);
    assert(p * (ky + 1) == ky * p + p && q * (kx + 1) == kx * q + q && ky * q == q * ky
        && kx * q == q * kx && ky * p == p * ky) by (nonlinear_arith);
    assert(magnitude(wx) * magnitude(e) == kx * q);
    assert(magnitude(wy) * magnitude(d) == ky * p);
}

/// A point placed at distance `len` from `from` toward `to` lies at that
/// distance, less the rounding of one unit on each axis, wherever the
/// plane has room for it.
pub proof fn lemma_placed_distance(from: Vec2, to: Vec2, len: int)
    requires
        0 <= len,
        from != to,
        in_plane(target(from, to, len).0, target(from, to, len).1),
    ensures
        ({
            let r = placed(from, to, len);
            dist_sq(r, from) <= len * len < norm_sq(
                magnitude(r.x - from.x) + 1,
                magnitude(r.y - from.y) + 1,
            )
        }),
{
    lemma_rescaled_length(to.x - from.x, to.y - from.y, len);
}

/// A point placed toward `to` lies on the ray from `from` through `to`,
/// within the rounding of one unit, wherever the plane has room for it.
pub proof fn lemma_placed_on_ray(from: Vec2, to: Vec2, len: int)
    requires
        0 <= len,
        from != to,
        in_plane(target(from, to, len).0, target(from, to, len).1),
    ensures
        ({
            let r = placed(from, to, len);
            let dx = to.x - from.x;
            let dy = to.y - from.y;
            let wx = r.x - from.x;
            let wy = r.y - from.y;
            &&& (dx >= 0 ==> wx >= 0) && (dx <= 0 ==> wx <= 0)
            &&& (dy >= 0 ==> wy >= 0) && (dy <= 0 ==> wy <= 0)
            &&& -magnitude(dy) <= magnitude(wx) * magnitude(dy) - magnitude(wy) * magnitude(dx)
                <= magnitude(dx)
        }),
{
    lemma_rescaled_direction(to.x - from.x, to.y - from.y, len);
}

/// The coordinate nearest to `v` that the plane holds.
pub fn saturate(v: i128) -> (r: i32)
    ensures
        r == clamp_coord(v as int),
{
    if v < i32::MIN as i128 {
        i32::MIN
    } else if v > i32::MAX as i128 {
        i32::MAX
    } else {
        v as i32
    }
}

/// The absolute value of a coordinate difference.
fn abs_diff(d: i64) -> (m: u128)
    requires
        -0x1_0000_0000 < d < 0x1_0000_0000,
    ensures
        m == magnitude(d as int),
        m < 0x1_0000_0000,
{
    if d < 0 {
        (-d) as u128
    } else {
        d as u128
    }
}

/// The square of the length of `(dx, dy)`.
pub(crate) fn length_squared(dx: i64, dy: i64) -> (r: u128)
    requires
        -0x1_0000_0000 < dx < 0x1_0000_0000,
        -0x1_0000_0000 < dy < 0x1_0000_0000,
    ensures
        r == norm_sq(dx as int, dy as int),
        r < 0x2_0000_0000_0000_0000,
{
    let mx: u128 = abs_diff(dx);
    let my: u128 = abs_diff(dy);
    assert(mx * mx == dx * dx && mx * mx < 0x1_0000_0000_0000_0000) by (nonlinear_arith)
        requires
            mx == magnitude(dx as int),
            mx < 0x1_0000_0000,
    ;
    assert(my * my == dy * dy && my * my < 0x1_0000_0000_0000_0000) by (nonlinear_arith)
        requires
            my == magnitude(dy as int),
            my < 0x1_0000_0000,
    ;
    mx * mx + my * my
}

/// One component of `(d, e)` rescaled to length `len`.
fn scale_axis(d: i64, e: i64, len: u32) -> (r: i64)
    requires
        -0x1_0000_0000 < d < 0x1_0000_0000,
        -0x1_0000_0000 < e < 0x1_0000_0000,
    ensures
        r == scaled_axis(d as int, e as int, len as int),
        -len <= r <= len,
{
    proof {
        lemma_scaled_axis_range(d as int, e as int, len as int);
    }
    if d == 0 {
        return 0;
    }
    let m: u128 = abs_diff(d);
    let n: u128 = length_squared(d, e);
    let l: u128 = len as u128;
    assert(m * m == d * d && 0 < m * m < 0x1_0000_0000_0000_0000) by (nonlinear_arith)
        requires
            m == magnitude(d as int),
            m < 0x1_0000_0000,
            d != 0,
    ;
    assert(l * l < 0x1_0000_0000_0000_0000) by (nonlinear_arith)
        requires
            l < 0x1_0000_0000,
    ;
    assert((m * m) * (l * l) < 0x1_0000_0000_0000_0000_0000_0000_0000_0000) by (nonlinear_arith)
        requires
            m * m < 0x1_0000_0000_0000_0000,
            l * l < 0x1_0000_0000_0000_0000,
    ;
    assert(n > 0) by (nonlinear_arith)
        requires
            n == d * d + e * e,
            d != 0,
    ;
    let q: u128 = ((m * m) * (l * l)) / n;
    let k: u64 = isqrt(q);
    if d > 0 {
        k as i64
    } else {
        -(k as i64)
    }
}

impl Vec2 {
    /// The point `(x, y)`.
    pub fn new(x: i32, y: i32) -> (r: Vec2)
        ensures
            r.x == x,
            r.y == y,
    {
        Vec2 { x, y }
    }

    /// The square of the distance to `other`.
    pub fn distance_squared(self, other: Vec2) -> (r: u128)
        ensures
            r == dist_sq(self, other),
    {
        length_squared(self.x as i64 - other.x as i64, self.y as i64 - other.y as i64)
    }

    /// Whether `other` is at most `radius` away.
    pub fn is_within(self, other: Vec2, radius: u32) -> (r: bool)
        ensures
            r == (dist_sq(self, other) <= radius * radius),
    {
        let limit: u128 = radius as u128;
        assert(limit * limit < 0x1_0000_0000_0000_0000) by (nonlinear_arith)
            requires
                limit < 0x1_0000_0000,
        ;
        self.distance_squared(other) <= limit * limit
    }

    /// The displacement of length `len` that points from `self` toward `to`.
    pub fn offset_toward(self, to: Vec2, len: u32) -> (r: (i64, i64))
        ensures
            r.0 == stretched(self, to, len as int).0,
            r.1 == stretched(self, to, len as int).1,
    {
        let dx: i64 = to.x as i64 - self.x as i64;
        let dy: i64 = to.y as i64 - self.y as i64;
        (scale_axis(dx, dy, len), scale_axis(dy, dx, len))
    }

    /// The point at distance `len` from `self` on the ray through `to`;
    /// `self` where the two coincide.
    pub fn point_toward(self, to: Vec2, len: u32) -> (r: Vec2)
        ensures
            r == placed(self, to, len as int),
    {
        let w = self.offset_toward(to, len);
        Vec2 {
            x: saturate(self.x as i128 + w.0 as i128),
            y: saturate(self.y as i128 + w.1 as i128),
        }
    }
}

} // verus!
