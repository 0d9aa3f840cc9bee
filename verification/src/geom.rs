//! Points and rectangles with exact rational coordinates, and the affine
//! remap that rebases a point from one basis rectangle to another.

use crate::frac::{
    frac_add, frac_div, frac_eq, frac_le, frac_lt, frac_mul, frac_sub, frac_to_fixed,
    lemma_pos_product, lemma_rat_add_congr, lemma_rat_add_sub_inverse, lemma_rat_eq_trans,
    fixed_of, lemma_rat_mul_congr, lemma_rat_mul_div_cancel,
    lemma_rat_mul_cancel, lemma_rat_sub_cancel, lemma_rat_sub_congr, rat_add, rat_eq, rat_fits,
    rat_le, rat_mul, rat_sub, Frac,
};
use vstd::prelude::*;

verus! {

/// A 2-D point with exact rational coordinates.
#[derive(Clone, Copy, Debug)]
pub struct PointQ {
    pub x: Frac,
    pub y: Frac,
}

impl PointQ {
    /// Both coordinates are well-formed rationals.
    pub open spec fn wf(self) -> bool {
        self.x.wf() && self.y.wf()
    }

    /// The two points denote the same pair of rational values.
    pub open spec fn same_value(self, o: PointQ) -> bool {
        rat_eq(self.x.rv(), o.x.rv()) && rat_eq(self.y.rv(), o.y.rv())
    }

    /// The point with integer coordinates `(x, y)`.
    pub fn from_ints(x: i64, y: i64) -> (r: PointQ)
        ensures
            r.wf(),
            r.x.rv() == (x as int, 1int),
            r.y.rv() == (y as int, 1int),
    {
        PointQ { x: Frac::from_int(x), y: Frac::from_int(y) }
    }

    /// The coordinates in saturated fixed-point form, for quantized
    /// geometry tests.
    pub fn to_fixed(&self) -> (r: (i64, i64))
        requires
            self.wf(),
        ensures
            r.0 == fixed_of(self.x.rv()),
            r.1 == fixed_of(self.y.rv()),
    {
        (frac_to_fixed(&self.x), frac_to_fixed(&self.y))
    }

    /// Whether the two points hold the same values; total.
    pub fn eq_value(&self, o: &PointQ) -> (r: bool)
        requires
            self.wf(),
            o.wf(),
        ensures
            r == self.same_value(*o),
    {
        frac_eq(&self.x, &o.x) && frac_eq(&self.y, &o.y)
    }
}

/// An axis-aligned rectangle, stored as its minimum and maximum corners.
#[derive(Clone, Copy, Debug)]
pub struct RectQ {
    pub min: PointQ,
    pub max: PointQ,
}

impl RectQ {
    /// All four coordinates are well-formed rationals.
    pub open spec fn wf(self) -> bool {
        self.min.wf() && self.max.wf()
    }

    /// The exact width `max.x - min.x`, as a rational pair.
    pub open spec fn width_rv(self) -> (int, int) {
        rat_sub(self.max.x.rv(), self.min.x.rv())
    }

    /// The exact height `max.y - min.y`, as a rational pair.
    pub open spec fn height_rv(self) -> (int, int) {
        rat_sub(self.max.y.rv(), self.min.y.rv())
    }

    /// Both width and height are strictly positive; a rectangle that fails
    /// this is degenerate and never used as a rebasing basis.
    pub open spec fn positive(self) -> bool {
        self.width_rv().0 > 0 && self.height_rv().0 > 0
    }

    /// The point lies inside the rectangle, bounds included.
    pub open spec fn contains_value(self, p: PointQ) -> bool {
        &&& rat_le(self.min.x.rv(), p.x.rv())
        &&& rat_le(p.x.rv(), self.max.x.rv())
        &&& rat_le(self.min.y.rv(), p.y.rv())
        &&& rat_le(p.y.rv(), self.max.y.rv())
    }

    /// The two rectangles denote the same four rational values.
    pub open spec fn same_value(self, o: RectQ) -> bool {
        self.min.same_value(o.min) && self.max.same_value(o.max)
    }

    /// The rectangle with integer corners `(x0, y0)` and `(x1, y1)`.
    pub fn from_ints(x0: i64, y0: i64, x1: i64, y1: i64) -> (r: RectQ)
        ensures
            r.wf(),
            r.min.x.rv() == (x0 as int, 1int),
            r.min.y.rv() == (y0 as int, 1int),
            r.max.x.rv() == (x1 as int, 1int),
            r.max.y.rv() == (y1 as int, 1int),
    {
        RectQ { min: PointQ::from_ints(x0, y0), max: PointQ::from_ints(x1, y1) }
    }

    /// Whether the point lies inside the rectangle; total.
    pub fn contains(&self, p: &PointQ) -> (r: bool)
        requires
            self.wf(),
            p.wf(),
        ensures
            r == self.contains_value(*p),
    {
        frac_le(&self.min.x, &p.x) && frac_le(&p.x, &self.max.x) && frac_le(&self.min.y, &p.y)
            && frac_le(&p.y, &self.max.y)
    }

    /// Whether the two rectangles hold the same values; total.
    pub fn eq_value(&self, o: &RectQ) -> (r: bool)
        requires
            self.wf(),
            o.wf(),
        ensures
            r == self.same_value(*o),
    {
        self.min.eq_value(&o.min) && self.max.eq_value(&o.max)
    }

    /// Whether width and height are both strictly positive; total.
    pub fn is_positive(&self) -> (r: bool)
        requires
            self.wf(),
        ensures
            r == self.positive(),
    {
        frac_lt(&self.min.x, &self.max.x) && frac_lt(&self.min.y, &self.max.y)
    }
}

/// A rational is a whole number of small magnitude: denominator one and
/// numerator within plus or minus `0x10000`. Geometry built from integer
/// pixel coordinates in this range is always exactly representable through
/// a rebase, which gives the remap an unconditional success case.
pub open spec fn small_int(f: Frac) -> bool {
    f.den == 1 && -0x10000 <= f.num <= 0x10000
}

/// Every coordinate of the point is a small whole number.
pub open spec fn small_int_point(p: PointQ) -> bool {
    small_int(p.x) && small_int(p.y)
}

/// Every coordinate of the rectangle is a small whole number.
pub open spec fn small_int_rect(r: RectQ) -> bool {
    small_int_point(r.min) && small_int_point(r.max)
}

/// The defining relation of the affine remap along one axis: `q`, measured
/// from `nmin` and scaled by the old extent, equals `x`, measured from
/// `omin` and scaled by the new extent — the two coordinates sit at the
/// same relative position of their extents.
pub open spec fn remapped_coord(
    x: (int, int),
    q: (int, int),
    omin: (int, int),
    osize: (int, int),
    nmin: (int, int),
    nsize: (int, int),
) -> bool {
    rat_eq(rat_mul(rat_sub(q, nmin), osize), rat_mul(rat_sub(x, omin), nsize))
}

/// `q` is `p` rebased from rectangle `from` to rectangle `to`: on each
/// axis it sits at the same relative position of `to` that `p` has in
/// `from`.
pub open spec fn rebased_point(p: PointQ, q: PointQ, from: RectQ, to: RectQ) -> bool {
    &&& remapped_coord(
        p.x.rv(),
        q.x.rv(),
        from.min.x.rv(),
        from.width_rv(),
        to.min.x.rv(),
        to.width_rv(),
    )
    &&& remapped_coord(
        p.y.rv(),
        q.y.rv(),
        from.min.y.rv(),
        from.height_rv(),
        to.min.y.rv(),
        to.height_rv(),
    )
}

/// Remaps one coordinate: `nmin + (x - omin) * nsize / osize`, exactly.
fn rebase_coord(x: &Frac, omin: &Frac, osize: &Frac, nmin: &Frac, nsize: &Frac) -> (r: Option<
    Frac,
>)
    requires
        x.wf(),
        omin.wf(),
        osize.wf(),
        nmin.wf(),
        nsize.wf(),
        osize.num > 0,
    ensures
        r matches Some(q) ==> q.wf() && remapped_coord(
            x.rv(),
            q.rv(),
            omin.rv(),
            osize.rv(),
            nmin.rv(),
            nsize.rv(),
        ),
        small_int(*x) && small_int(*omin) && small_int(*nmin) && osize.den == 1 && 0 < osize.num
            <= 0x20000 && nsize.den == 1 && -0x20000 <= nsize.num <= 0x20000 ==> r is Some,
{
    let ghost small = small_int(*x) && small_int(*omin) && small_int(*nmin) && osize.den == 1
        && 0 < osize.num <= 0x20000 && nsize.den == 1 && -0x20000 <= nsize.num <= 0x20000;
    proof {
        if small {
            assert(-0x20000 <= (x.num as int) * (omin.den as int) - (omin.num as int) * (x.den
                as int) <= 0x20000 && (x.den as int) * (omin.den as int) == 1)
                by (nonlinear_arith)
                requires
                    x.den == 1,
                    omin.den == 1,
                    -0x10000 <= x.num <= 0x10000,
                    -0x10000 <= omin.num <= 0x10000,
            ;
        }
    }
    let s = match frac_sub(x, omin) {
        Some(v) => v,
        None => {
            return None;
        },
    };
    proof {
        if small {
            assert(-0x400000000 <= (s.num as int) * (nsize.num as int) <= 0x400000000 && (s.den
                as int) * (nsize.den as int) == 1) by (nonlinear_arith)
                requires
                    s.den == 1,
                    nsize.den == 1,
                    -0x20000 <= s.num <= 0x20000,
                    -0x20000 <= nsize.num <= 0x20000,
            ;
        }
    }
    let m = match frac_mul(&s, nsize) {
        Some(v) => v,
        None => {
            return None;
        },
    };
    proof {
        if small {
            assert(-0x400000000 <= (m.num as int) * (osize.den as int) <= 0x400000000 && 0 < (
            m.den as int) * (osize.num as int) <= 0x20000) by (nonlinear_arith)
                requires
                    m.den == 1,
                    osize.den == 1,
                    -0x400000000 <= m.num <= 0x400000000,
                    0 < osize.num <= 0x20000,
            ;
        }
    }
    let dd = match frac_div(&m, osize) {
        Some(v) => v,
        None => {
            return None;
        },
    };
    proof {
        if small {
            assert(-0x600000000 <= (nmin.num as int) * (dd.den as int) + (dd.num as int)
                * (nmin.den as int) <= 0x600000000 && 0 < (nmin.den as int) * (dd.den as int)
                <= 0x20000) by (nonlinear_arith)
                requires
                    nmin.den == 1,
                    -0x10000 <= nmin.num <= 0x10000,
                    -0x400000000 <= dd.num <= 0x400000000,
                    0 < dd.den <= 0x20000,
            ;
        }
    }
    let q = match frac_add(nmin, &dd) {
        Some(v) => v,
        None => {
            return None;
        },
    };
    proof {
        let gx = x.rv();
        let ga = omin.rv();
        let gw = osize.rv();
        let gb = nmin.rv();
        let gn = nsize.rv();
        // q - nmin has the value of dd.
        lemma_rat_sub_congr(q.rv(), rat_add(gb, dd.rv()), gb);
        lemma_rat_add_sub_inverse(dd.rv(), gb);
        lemma_pos_product(gb.1 * dd.rv().1, gb.1);
        lemma_rat_eq_trans(rat_sub(q.rv(), gb), rat_sub(rat_add(gb, dd.rv()), gb), dd.rv());
        // Multiplied by the old extent, it has the value of m.
        lemma_rat_mul_congr(rat_sub(q.rv(), gb), dd.rv(), gw);
        lemma_rat_mul_div_cancel(dd.rv(), m.rv(), gw);
        lemma_pos_product(dd.rv().1, gw.1);
        lemma_rat_eq_trans(rat_mul(rat_sub(q.rv(), gb), gw), rat_mul(dd.rv(), gw), m.rv());
        // And m has the value of (x - omin) * nsize.
        lemma_rat_mul_congr(s.rv(), rat_sub(gx, ga), gn);
        lemma_pos_product(s.rv().1, gn.1);
        lemma_rat_eq_trans(rat_mul(rat_sub(q.rv(), gb), gw), m.rv(), rat_mul(s.rv(), gn));
        lemma_rat_eq_trans(
            rat_mul(rat_sub(q.rv(), gb), gw),
            rat_mul(s.rv(), gn),
            rat_mul(rat_sub(gx, ga), gn),
        );
    }
    Some(q)
}

/// Rebases `p` from basis rectangle `from` to basis rectangle `to`: the
/// result sits at the same relative position of `to` that `p` has in
/// `from`. Both rectangles must be non-degenerate. `None` only when a
/// coordinate of the result has no `i64` rational representation; for
/// small integer geometry the remap always succeeds.
pub fn rebase_point(p: &PointQ, from: &RectQ, to: &RectQ) -> (r: Option<PointQ>)
    requires
        p.wf(),
        from.wf(),
        to.wf(),
        from.positive(),
        to.positive(),
    ensures
        r matches Some(q) ==> q.wf() && rebased_point(*p, q, *from, *to),
        small_int_point(*p) && small_int_rect(*from) && small_int_rect(*to) ==> r is Some,
{
    let ghost small = small_int_point(*p) && small_int_rect(*from) && small_int_rect(*to);
    proof {
        if small {
            lemma_small_width_bounds(from.max.x, from.min.x);
            lemma_small_width_bounds(from.max.y, from.min.y);
            lemma_small_width_bounds(to.max.x, to.min.x);
            lemma_small_width_bounds(to.max.y, to.min.y);
        }
    }
    let ow = match frac_sub(&from.max.x, &from.min.x) {
        Some(v) => v,
        None => {
            return None;
        },
    };
    let oh = match frac_sub(&from.max.y, &from.min.y) {
        Some(v) => v,
        None => {
            return None;
        },
    };
    let nw = match frac_sub(&to.max.x, &to.min.x) {
        Some(v) => v,
        None => {
            return None;
        },
    };
    let nh = match frac_sub(&to.max.y, &to.min.y) {
        Some(v) => v,
        None => {
            return None;
        },
    };
    proof {
        lemma_pos_product(from.max.x.den as int, from.min.x.den as int);
        lemma_pos_product(from.max.y.den as int, from.min.y.den as int);
        lemma_eq_pos_num(ow, from.width_rv());
        lemma_eq_pos_num(oh, from.height_rv());
    }
    let qx = match rebase_coord(&p.x, &from.min.x, &ow, &to.min.x, &nw) {
        Some(v) => v,
        None => {
            return None;
        },
    };
    let qy = match rebase_coord(&p.y, &from.min.y, &oh, &to.min.y, &nh) {
        Some(v) => v,
        None => {
            return None;
        },
    };
    let q = PointQ { x: qx, y: qy };
    proof {
        lemma_pos_product(to.max.x.den as int, to.min.x.den as int);
        lemma_pos_product(to.max.y.den as int, to.min.y.den as int);
        lemma_remap_size_congr(
            p.x.rv(),
            qx.rv(),
            from.min.x.rv(),
            ow.rv(),
            from.width_rv(),
            to.min.x.rv(),
            nw.rv(),
            to.width_rv(),
        );
        lemma_remap_size_congr(
            p.y.rv(),
            qy.rv(),
            from.min.y.rv(),
            oh.rv(),
            from.height_rv(),
            to.min.y.rv(),
            nh.rv(),
            to.height_rv(),
        );
    }
    Some(q)
}

/// A well-formed rational equal in value to a positive rational pair has a
/// positive numerator.
proof fn lemma_eq_pos_num(f: Frac, p: (int, int))
    requires
        f.wf(),
        rat_eq(f.rv(), p),
        p.0 > 0,
        p.1 > 0,
    ensures
        f.num > 0,
{
    assert(f.num > 0) by (nonlinear_arith)
        requires
            (f.num as int) * p.1 == p.0 * (f.den as int),
            p.0 > 0,
            p.1 > 0,
            f.den > 0,
    ;
}

/// The remap relation is kept when the computed extents are replaced by
/// the exact extents they equal in value.
proof fn lemma_remap_size_congr(
    x: (int, int),
    q: (int, int),
    omin: (int, int),
    osc: (int, int),
    os: (int, int),
    nmin: (int, int),
    nsc: (int, int),
    ns: (int, int),
)
    requires
        remapped_coord(x, q, omin, osc, nmin, nsc),
        rat_eq(osc, os),
        rat_eq(nsc, ns),
        osc.1 > 0,
        nsc.1 > 0,
        x.1 > 0,
        q.1 > 0,
        omin.1 > 0,
        nmin.1 > 0,
    ensures
        remapped_coord(x, q, omin, os, nmin, ns),
{
    let subq = rat_sub(q, nmin);
    let subx = rat_sub(x, omin);
    lemma_rat_mul_congr(os, osc, subq);
    lemma_pos_product(q.1, nmin.1);
    lemma_pos_product(q.1 * nmin.1, osc.1);
    lemma_rat_eq_trans(rat_mul(subq, os), rat_mul(subq, osc), rat_mul(subx, nsc));
    lemma_rat_mul_congr(nsc, ns, subx);
    lemma_pos_product(x.1, omin.1);
    lemma_pos_product(x.1 * omin.1, nsc.1);
    lemma_rat_eq_trans(rat_mul(subq, os), rat_mul(subx, nsc), rat_mul(subx, ns));
}

/// The range of a normalized touch coordinate as the decoder produces it:
/// numerator within the 32-bit device range, positive denominator within
/// the same range.
pub open spec fn norm_range(f: Frac) -> bool {
    -0x100000000 <= f.num <= 0x100000000 && 0 < f.den <= 0x100000000
}

/// The slightly wider range that the screen mapping accepts without
/// overflow: normalized coordinates, possibly complemented once.
pub open spec fn map_range(f: Frac) -> bool {
    -0x200000000 <= f.num <= 0x200000000 && 0 < f.den <= 0x100000000
}

/// The complement `1 - x`, used when the touch surface is mounted
/// rotated; exact. Never `None` for a normalized coordinate.
pub fn frac_one_minus(x: &Frac) -> (r: Option<Frac>)
    requires
        x.wf(),
    ensures
        r matches Some(q) ==> q.wf() && rat_eq(q.rv(), rat_sub((1int, 1int), x.rv())),
        norm_range(*x) ==> r is Some && map_range(r.unwrap()),
{
    let one = Frac::from_int(1);
    let r = frac_sub(&one, x);
    proof {
        if norm_range(*x) {
            assert(rat_sub(one.rv(), x.rv()).0 == (x.den as int) - (x.num as int) && rat_sub(
                one.rv(),
                x.rv(),
            ).1 == x.den as int) by (nonlinear_arith)
                requires
                    one.num == 1,
                    one.den == 1,
            ;
        }
    }
    r
}

/// Maps a normalized coordinate into screen space: `smin + n * ssize`,
/// exactly. Never `None` for a normalized coordinate and a small integer
/// screen rectangle.
pub fn map_norm_coord(n: &Frac, smin: &Frac, ssize: &Frac) -> (r: Option<Frac>)
    requires
        n.wf(),
        smin.wf(),
        ssize.wf(),
    ensures
        r matches Some(q) ==> q.wf() && rat_eq(
            q.rv(),
            rat_add(smin.rv(), rat_mul(n.rv(), ssize.rv())),
        ),
        map_range(*n) && small_int(*smin) && ssize.den == 1 && -0x20000 <= ssize.num <= 0x20000
            ==> r is Some,
{
    let ghost small = map_range(*n) && small_int(*smin) && ssize.den == 1 && -0x20000
        <= ssize.num <= 0x20000;
    proof {
        if small {
            assert(-0x4000000000000 <= (n.num as int) * (ssize.num as int) <= 0x4000000000000
                && 0 < (n.den as int) * (ssize.den as int) <= 0x100000000) by (nonlinear_arith)
                requires
                    -0x200000000 <= n.num <= 0x200000000,
                    0 < n.den <= 0x100000000,
                    -0x20000 <= ssize.num <= 0x20000,
                    ssize.den == 1,
            ;
        }
    }
    let m = match frac_mul(n, ssize) {
        Some(v) => v,
        None => {
            return None;
        },
    };
    proof {
        if small {
            assert(-0x5000000000000 <= (smin.num as int) * (m.den as int) + (m.num as int) * (
            smin.den as int) <= 0x5000000000000 && 0 < (smin.den as int) * (m.den as int)
                <= 0x100000000) by (nonlinear_arith)
                requires
                    -0x10000 <= smin.num <= 0x10000,
                    smin.den == 1,
                    -0x4000000000000 <= m.num <= 0x4000000000000,
                    0 < m.den <= 0x100000000,
            ;
        }
    }
    let q = match frac_add(smin, &m) {
        Some(v) => v,
        None => {
            return None;
        },
    };
    proof {
        lemma_rat_add_congr(m.rv(), rat_mul(n.rv(), ssize.rv()), smin.rv());
        lemma_pos_product(smin.den as int, m.den as int);
        lemma_rat_eq_trans(
            q.rv(),
            rat_add(smin.rv(), m.rv()),
            rat_add(smin.rv(), rat_mul(n.rv(), ssize.rv())),
        );
    }
    Some(q)
}

/// Rebasing between equal-valued rectangles is a no-op: along one axis,
/// when old and new origin and extent coincide in value and the extent is
/// nonzero, the remapped coordinate equals the original.
proof fn lemma_remap_identity_coord(
    x: (int, int),
    q: (int, int),
    omin: (int, int),
    osize: (int, int),
    nmin: (int, int),
    nsize: (int, int),
)
    requires
        remapped_coord(x, q, omin, osize, nmin, nsize),
        rat_eq(omin, nmin),
        rat_eq(osize, nsize),
        osize.0 != 0,
        osize.1 > 0,
        nsize.1 > 0,
        x.1 > 0,
        q.1 > 0,
        omin.1 > 0,
        nmin.1 > 0,
    ensures
        rat_eq(q, x),
{
    let subq = rat_sub(q, nmin);
    let subx = rat_sub(x, nmin);
    // (x - omin) * nsize has the value of (x - nmin) * osize.
    lemma_rat_sub_congr(omin, nmin, x);
    lemma_rat_mul_congr(rat_sub(x, omin), subx, nsize);
    lemma_rat_mul_congr(nsize, osize, subx);
    lemma_pos_product(x.1, omin.1);
    lemma_pos_product(x.1 * omin.1, nsize.1);
    lemma_pos_product(x.1, nmin.1);
    lemma_pos_product(x.1 * nmin.1, nsize.1);
    lemma_pos_product(x.1 * nmin.1, osize.1);
    lemma_rat_eq_trans(
        rat_mul(rat_sub(x, omin), nsize),
        rat_mul(subx, nsize),
        rat_mul(subx, osize),
    );
    // Chain through the remap relation and cancel.
    lemma_rat_eq_trans(
        rat_mul(subq, osize),
        rat_mul(rat_sub(x, omin), nsize),
        rat_mul(subx, osize),
    );
    lemma_rat_mul_cancel(subq, subx, osize);
    lemma_rat_sub_cancel(q, x, nmin);
}

/// Rebasing from `osize` at `omin` to `nsize` at `nmin` and back restores
/// the original coordinate value, exactly.
proof fn lemma_remap_round_trip_coord(
    x: (int, int),
    q: (int, int),
    z: (int, int),
    omin: (int, int),
    osize: (int, int),
    nmin: (int, int),
    nsize: (int, int),
)
    requires
        remapped_coord(x, q, omin, osize, nmin, nsize),
        remapped_coord(q, z, nmin, nsize, omin, osize),
        nsize.0 != 0,
        osize.1 > 0,
        nsize.1 > 0,
        x.1 > 0,
        q.1 > 0,
        z.1 > 0,
        omin.1 > 0,
        nmin.1 > 0,
    ensures
        rat_eq(z, x),
{
    lemma_pos_product(q.1, nmin.1);
    lemma_pos_product(q.1 * nmin.1, osize.1);
    lemma_rat_eq_trans(
        rat_mul(rat_sub(z, omin), nsize),
        rat_mul(rat_sub(q, nmin), osize),
        rat_mul(rat_sub(x, omin), nsize),
    );
    lemma_rat_mul_cancel(rat_sub(z, omin), rat_sub(x, omin), nsize);
    lemma_rat_sub_cancel(z, x, omin);
}

/// Rebasing between two rectangles that hold the same values leaves every
/// point's value unchanged: the remap between equal bases is the identity.
pub proof fn lemma_rebase_identity(p: PointQ, q: PointQ, a: RectQ, b: RectQ)
    requires
        p.wf(),
        q.wf(),
        a.wf(),
        b.wf(),
        a.positive(),
        a.same_value(b),
        rebased_point(p, q, a, b),
    ensures
        q.same_value(p),
{
    lemma_rect_same_value_sizes(a, b);
    lemma_remap_identity_coord(
        p.x.rv(),
        q.x.rv(),
        a.min.x.rv(),
        a.width_rv(),
        b.min.x.rv(),
        b.width_rv(),
    );
    lemma_remap_identity_coord(
        p.y.rv(),
        q.y.rv(),
        a.min.y.rv(),
        a.height_rv(),
        b.min.y.rv(),
        b.height_rv(),
    );
}

/// Rebasing a point from `a` to `b` and then from `b` back to `a` restores
/// the original point's value exactly, for any non-degenerate rectangles.
pub proof fn lemma_rebase_round_trip(p: PointQ, q: PointQ, z: PointQ, a: RectQ, b: RectQ)
    requires
        p.wf(),
        q.wf(),
        z.wf(),
        a.wf(),
        b.wf(),
        a.positive(),
        b.positive(),
        rebased_point(p, q, a, b),
        rebased_point(q, z, b, a),
    ensures
        z.same_value(p),
{
    lemma_pos_product(a.max.x.den as int, a.min.x.den as int);
    lemma_pos_product(a.max.y.den as int, a.min.y.den as int);
    lemma_pos_product(b.max.x.den as int, b.min.x.den as int);
    lemma_pos_product(b.max.y.den as int, b.min.y.den as int);
    lemma_remap_round_trip_coord(
        p.x.rv(),
        q.x.rv(),
        z.x.rv(),
        a.min.x.rv(),
        a.width_rv(),
        b.min.x.rv(),
        b.width_rv(),
    );
    lemma_remap_round_trip_coord(
        p.y.rv(),
        q.y.rv(),
        z.y.rv(),
        a.min.y.rv(),
        a.height_rv(),
        b.min.y.rv(),
        b.height_rv(),
    );
}

/// Rectangles with equal corner values have equal widths and heights, and
/// the denominators of those extents are positive.
proof fn lemma_rect_same_value_sizes(a: RectQ, b: RectQ)
    requires
        a.wf(),
        b.wf(),
        a.same_value(b),
    ensures
        rat_eq(a.width_rv(), b.width_rv()),
        rat_eq(a.height_rv(), b.height_rv()),
        a.width_rv().1 > 0,
        a.height_rv().1 > 0,
        b.width_rv().1 > 0,
        b.height_rv().1 > 0,
{
    lemma_pos_product(a.max.x.den as int, a.min.x.den as int);
    lemma_pos_product(a.max.y.den as int, a.min.y.den as int);
    lemma_pos_product(b.max.x.den as int, b.min.x.den as int);
    lemma_pos_product(b.max.y.den as int, b.min.y.den as int);
    lemma_pos_product(b.max.x.den as int, a.min.x.den as int);
    lemma_pos_product(b.max.y.den as int, a.min.y.den as int);
    lemma_rat_sub_congr(a.max.x.rv(), b.max.x.rv(), a.min.x.rv());
    lemma_rat_sub_congr(a.min.x.rv(), b.min.x.rv(), b.max.x.rv());
    lemma_rat_eq_trans(
        a.width_rv(),
        rat_sub(b.max.x.rv(), a.min.x.rv()),
        b.width_rv(),
    );
    lemma_rat_sub_congr(a.max.y.rv(), b.max.y.rv(), a.min.y.rv());
    lemma_rat_sub_congr(a.min.y.rv(), b.min.y.rv(), b.max.y.rv());
    lemma_rat_eq_trans(
        a.height_rv(),
        rat_sub(b.max.y.rv(), a.min.y.rv()),
        b.height_rv(),
    );
}

/// The width of a rectangle with small integer corners is itself a small
/// whole number in unreduced form.
pub proof fn lemma_small_width_bounds(hi: Frac, lo: Frac)
    requires
        small_int(hi),
        small_int(lo),
    ensures
        -0x20000 <= rat_sub(hi.rv(), lo.rv()).0 <= 0x20000,
        rat_sub(hi.rv(), lo.rv()).1 == 1,
{
    assert(-0x20000 <= (hi.num as int) * (lo.den as int) - (lo.num as int) * (hi.den as int)
        <= 0x20000 && (hi.den as int) * (lo.den as int) == 1) by (nonlinear_arith)
        requires
            hi.den == 1,
            lo.den == 1,
            -0x10000 <= hi.num <= 0x10000,
            -0x10000 <= lo.num <= 0x10000,
    ;
}

} // verus!
