//! The shared distance predicate and small arithmetic facts used by the
//! structures' geometric proofs.

use vstd::prelude::*;

verus! {

use crate::{in_radius, pos_bounded, COORD_LIMIT, RADIUS_LIMIT};

/// Whether `pos1` lies within `radius` of `pos2`, by exact integer arithmetic.
pub(crate) fn in_range(pos1: (i64, i64), pos2: (i64, i64), radius: i64) -> (r: bool)
    requires
        pos_bounded(pos1),
        pos_bounded(pos2),
        0 <= radius <= RADIUS_LIMIT,
    ensures
        r == in_radius(pos1, pos2, radius),
{
    let dx = pos1.0 - pos2.0;
    let dy = pos1.1 - pos2.1;
    proof {
        lemma_square_bound(dx as int, 2 * COORD_LIMIT as int);
        lemma_square_bound(dy as int, 2 * COORD_LIMIT as int);
        lemma_square_bound(radius as int, RADIUS_LIMIT as int);
    }
    dx * dx + dy * dy <= radius * radius
}

/// For `|x| <= b`, the square `x * x` lies in `[0, b * b]`.
pub(crate) proof fn lemma_square_bound(x: int, b: int)
    by (nonlinear_arith)
    requires
        -b <= x <= b,
    ensures
        0 <= x * x <= b * b,
{
}

/// A square is monotone in the magnitude of its argument.
pub(crate) proof fn lemma_square_le(x: int, y: int)
    by (nonlinear_arith)
    requires
        -y <= x <= y,
    ensures
        x * x <= y * y,
{
}

/// On an interval `[lo, hi]`, the squared distance to a fixed point `q` is
/// largest at one of the two endpoints.
pub(crate) proof fn lemma_interval_square_max(q: int, lo: int, hi: int, u: int)
    requires
        lo <= u <= hi,
    ensures
        (q - u) * (q - u) <= (q - lo) * (q - lo) || (q - u) * (q - u) <= (q - hi) * (q - hi),
{
    if u <= q {
        lemma_square_le(q - u, q - lo);
    } else {
        lemma_square_le(q - u, -(q - hi));
        assert((-(q - hi)) * (-(q - hi)) == (q - hi) * (q - hi)) by (nonlinear_arith);
    }
}

/// From a bounded squared distance, each coordinate difference is bounded.
pub(crate) proof fn lemma_dist_component_bound(dx: int, dy: int, r: int)
    by (nonlinear_arith)
    requires
        r >= 0,
        dx * dx + dy * dy <= r * r,
    ensures
        -r <= dx <= r,
        -r <= dy <= r,
{
}

/// Multiplying both sides of an inequality by a positive factor, and back.
pub(crate) proof fn lemma_mul_pos_le(a: int, b: int, p: int)
    by (nonlinear_arith)
    requires
        p > 0,
        a * p <= b * p,
    ensures
        a <= b,
{
}

/// Euclidean division by a positive divisor brackets its argument.
pub(crate) proof fn lemma_floor_bounds(x: int, d: int)
    requires
        d >= 1,
    ensures
        d * (x / d) <= x < d * (x / d) + d,
{
    vstd::arithmetic::div_mod::lemma_fundamental_div_mod(x, d);
    vstd::arithmetic::div_mod::lemma_mod_bound(x, d);
}

/// `|x| <= bx` and `|y| <= by` bound the product: `|x * y| <= bx * by`.
pub(crate) proof fn lemma_abs_mul_bound(x: int, y: int, bx: int, by: int)
    by (nonlinear_arith)
    requires
        -bx <= x <= bx,
        -by <= y <= by,
        0 <= bx,
        0 <= by,
    ensures
        -(bx * by) <= x * y <= bx * by,
{
}

/// Shifting the dividend by at most `s` shifts the quotient by at most
/// `ceil(s / d)`, written `(s + d - 1) / d`.
pub(crate) proof fn lemma_div_diff_bound(u: int, v: int, d: int, s: int)
    requires
        d >= 1,
        s >= 0,
        v - s <= u <= v + s,
    ensures
        v / d - (s + d - 1) / d <= u / d <= v / d + (s + d - 1) / d,
{
    let c = (s + d - 1) / d;
    lemma_floor_bounds(s + d - 1, d);
    assert(s <= c * d) by {
        assert(d * c == c * d) by (nonlinear_arith);
    }
    lemma_floor_bounds(u, d);
    lemma_floor_bounds(v, d);
    let qu = u / d;
    let qv = v / d;
    // upper: u <= v + s <= d*qv + (d-1) + c*d < d*(qv + c + 1)
    if qu > qv + c {
        assert(d * qu >= d * (qv + c + 1)) by (nonlinear_arith)
            requires
                d >= 1,
                qu >= qv + c + 1,
        ;
        assert(d * (qv + c + 1) == d * qv + c * d + d) by (nonlinear_arith);
    }
    // lower: u >= v - s >= d*qv - c*d >= d*(qv - c)
    if qu < qv - c {
        assert(d * qu + d <= d * (qv - c)) by (nonlinear_arith)
            requires
                d >= 1,
                qu <= qv - c - 1,
        ;
        assert(d * (qv - c) == d * qv - c * d) by (nonlinear_arith);
    }
}

/// A non-negative dividend has a non-negative quotient for a positive divisor.
pub(crate) proof fn lemma_floor_nonneg(x: int, d: int)
    requires
        d >= 1,
        x >= 0,
    ensures
        x / d >= 0,
{
    lemma_floor_bounds(x, d);
    if x / d < 0 {
        assert(d * (x / d) + d <= 0) by (nonlinear_arith)
            requires
                d >= 1,
                x / d <= -1,
        ;
    }
}

/// A negative dividend has a negative Euclidean quotient for a positive divisor.
pub(crate) proof fn lemma_floor_neg(x: int, d: int)
    requires
        d >= 1,
        x < 0,
    ensures
        x / d < 0,
{
    lemma_floor_bounds(x, d);
    if x / d >= 0 {
        assert(d * (x / d) >= 0) by (nonlinear_arith)
            requires
                d >= 1,
                x / d >= 0,
        ;
    }
}

/// Multiplying both sides of an inequality by a non-negative factor.
pub(crate) proof fn lemma_mul_le(a: int, b: int, s: int)
    by (nonlinear_arith)
    requires
        a <= b,
        s >= 0,
    ensures
        a * s <= b * s,
{
}

/// Doubling the scale doubles the scaled coordinate.
pub(crate) proof fn lemma_mul_two(p: int, s: int)
    by (nonlinear_arith)
    ensures
        p * (2 * s) == 2 * (p * s),
{
}

/// Row-major pairing is injective on cell coordinates.
pub(crate) proof fn lemma_row_major_unique(a1: int, b1: int, a2: int, b2: int, nx: int)
    by (nonlinear_arith)
    requires
        nx >= 1,
        0 <= a1 < nx,
        0 <= a2 < nx,
        a1 + b1 * nx == a2 + b2 * nx,
    ensures
        a1 == a2,
        b1 == b2,
{
}

} // verus!
