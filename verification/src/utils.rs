//! Distance tests on quantized coordinates, for the eraser. Geometry is
//! quantized to 1/256-pixel fixed point (see [`crate::frac::fixed_of`]),
//! where squared-distance comparisons are exact integer arithmetic.

use vstd::prelude::*;

verus! {

/// The squared distance between two quantized points.
pub open spec fn dist_sq(px: int, py: int, qx: int, qy: int) -> int {
    (px - qx) * (px - qx) + (py - qy) * (py - qy)
}

/// The quantized point `(px, py)` lies within radius `r` of `(cx, cy)`.
pub open spec fn point_within_spec(px: int, py: int, cx: int, cy: int, r: int) -> bool {
    dist_sq(px, py, cx, cy) <= r * r
}

/// The quantized point `(px, py)` lies within radius `r` of the segment
/// from `(vx, vy)` to `(wx, wy)`: its distance to the nearest point of
/// the segment (an endpoint, or the orthogonal projection when that falls
/// inside) is at most `r`. Stated squared and cross-multiplied, so no
/// division occurs.
pub open spec fn segment_within_spec(
    px: int,
    py: int,
    vx: int,
    vy: int,
    wx: int,
    wy: int,
    r: int,
) -> bool {
    let l2 = dist_sq(wx, wy, vx, vy);
    let dot = (px - vx) * (wx - vx) + (py - vy) * (wy - vy);
    if l2 == 0 {
        point_within_spec(px, py, vx, vy, r)
    } else if dot <= 0 {
        point_within_spec(px, py, vx, vy, r)
    } else if dot >= l2 {
        point_within_spec(px, py, wx, wy, r)
    } else {
        dist_sq(px, py, vx, vy) * l2 - dot * dot <= r * r * l2
    }
}

/// The coordinate bound within which the quantized tests cannot overflow;
/// matches the saturation bound of the fixed-point form.
pub open spec fn fixed_bounded(v: int) -> bool {
    -0x40000000 <= v <= 0x40000000
}

/// Squares and cross products of bounded quantized values fit `i128`.
proof fn lemma_quant_products(a: int, b: int)
    by (nonlinear_arith)
    requires
        -0x80000000 <= a <= 0x80000000,
        -0x80000000 <= b <= 0x80000000,
    ensures
        -0x4000000000000000 <= a * b <= 0x4000000000000000,
{
}

/// Products of two squared-scale quantities fit `i128`.
proof fn lemma_quant_products_wide(a: int, b: int)
    by (nonlinear_arith)
    requires
        -0x8000000000000000 <= a <= 0x8000000000000000,
        -0x8000000000000000 <= b <= 0x8000000000000000,
    ensures
        -0x40000000000000000000000000000000 <= a * b <= 0x40000000000000000000000000000000,
{
}

/// Whether a quantized point lies within radius `r` of another; exact.
pub fn point_within(px: i64, py: i64, cx: i64, cy: i64, r: i64) -> (b: bool)
    requires
        fixed_bounded(px as int),
        fixed_bounded(py as int),
        fixed_bounded(cx as int),
        fixed_bounded(cy as int),
        0 <= r <= 0x40000000,
    ensures
        b == point_within_spec(px as int, py as int, cx as int, cy as int, r as int),
{
    let dx: i128 = px as i128 - cx as i128;
    let dy: i128 = py as i128 - cy as i128;
    proof {
        lemma_quant_products(dx as int, dx as int);
        lemma_quant_products(dy as int, dy as int);
        lemma_quant_products(r as int, r as int);
    }
    dx * dx + dy * dy <= r as i128 * r as i128
}

/// Whether a quantized point lies within radius `r` of a segment; exact.
pub fn segment_within(px: i64, py: i64, vx: i64, vy: i64, wx: i64, wy: i64, r: i64) -> (b:
    bool)
    requires
        fixed_bounded(px as int),
        fixed_bounded(py as int),
        fixed_bounded(vx as int),
        fixed_bounded(vy as int),
        fixed_bounded(wx as int),
        fixed_bounded(wy as int),
        0 <= r <= 0x40000000,
    ensures
        b == segment_within_spec(
            px as int,
            py as int,
            vx as int,
            vy as int,
            wx as int,
            wy as int,
            r as int,
        ),
{
    let sx: i128 = wx as i128 - vx as i128;
    let sy: i128 = wy as i128 - vy as i128;
    let ex: i128 = px as i128 - vx as i128;
    let ey: i128 = py as i128 - vy as i128;
    proof {
        lemma_quant_products(sx as int, sx as int);
        lemma_quant_products(sy as int, sy as int);
        lemma_quant_products(ex as int, sx as int);
        lemma_quant_products(ey as int, sy as int);
        lemma_quant_products(ex as int, ex as int);
        lemma_quant_products(ey as int, ey as int);
    }
    let l2: i128 = sx * sx + sy * sy;
    let dot: i128 = ex * sx + ey * sy;
    if l2 == 0 {
        point_within(px, py, vx, vy, r)
    } else if dot <= 0 {
        point_within(px, py, vx, vy, r)
    } else if dot >= l2 {
        point_within(px, py, wx, wy, r)
    } else {
        let pv2: i128 = ex * ex + ey * ey;
        proof {
            lemma_quant_products(r as int, r as int);
            lemma_quant_products_wide(pv2 as int, l2 as int);
            lemma_quant_products_wide(dot as int, dot as int);
            lemma_quant_products_wide((r as int) * (r as int), l2 as int);
        }
        pv2 * l2 - dot * dot <= (r as i128 * r as i128) * l2
    }
}

} // verus!
