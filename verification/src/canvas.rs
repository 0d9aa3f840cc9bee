//! The drawing surface's view of touch input: the per-id container of
//! in-progress strokes, the mapping from normalized touch positions to
//! screen space, and the canvas basis manager that recomputes the canvas
//! rectangle each frame and triggers rebasing when it changes.

use crate::app::{
    erase_applied, frames_points_small, frames_rebased, lemma_frame_model_push, recorded,
    PaintingApp, ToolMode,
};
use crate::frac::{
    fixed_of, frac_add, frac_div, frac_le, frac_mul, frac_sub, frac_to_fixed, lemma_pos_product,
    lemma_rat_add_both, lemma_rat_div_congr, lemma_rat_eq_pos, lemma_rat_eq_trans,
    lemma_rat_halves, lemma_rat_le_congr, lemma_rat_mul_both, lemma_rat_mul_congr,
    lemma_rat_sub_both, rat_add, rat_div, rat_eq, rat_le, rat_mul, rat_sub, Frac,
};
use crate::input::{TouchInput, TouchState};
use crate::stroke::{copy_frame, frame_model, StrokeType};
use crate::geom::{
    frac_one_minus, lemma_small_width_bounds, map_norm_coord, norm_range, small_int,
    small_int_rect, PointQ, RectQ,
};
use crate::stroke::Stroke;
use vstd::prelude::*;

verus! {

/// The in-progress stroke for a touch id, looked up by first match.
pub open spec fn map_lookup(s: Seq<(u32, Stroke)>, id: u32) -> Option<Stroke>
    decreases s.len(),
{
    if s.len() == 0 {
        None
    } else if s[0].0 == id {
        Some(s[0].1)
    } else {
        map_lookup(s.skip(1), id)
    }
}

/// A keyed container of in-progress strokes, one per live touch id; a
/// plain association list with unique keys, owned by the drawing surface
/// alone.
#[derive(Debug)]
pub struct TouchMap {
    pub entries: Vec<(u32, Stroke)>,
}

impl TouchMap {
    /// Keys are unique and every stroke is well-formed.
    pub open spec fn wf(self) -> bool {
        &&& forall|i: int, j: int|
            0 <= i < j < self.entries@.len() ==> (#[trigger] self.entries@[i]).0 != (
            #[trigger] self.entries@[j]).0
        &&& forall|i: int|
            0 <= i < self.entries@.len() ==> (#[trigger] self.entries@[i]).1.wf()
    }

    /// The stroke stored for `id`, if any.
    pub open spec fn get(self, id: u32) -> Option<Stroke> {
        map_lookup(self.entries@, id)
    }

    /// An empty container.
    pub fn new() -> (r: TouchMap)
        ensures
            r.wf(),
            r.entries@.len() == 0,
            forall|id: u32| r.get(id) is None,
    {
        TouchMap { entries: Vec::new() }
    }

    /// The number of live touches.
    pub fn len(&self) -> (n: usize)
        ensures
            n == self.entries@.len(),
    {
        self.entries.len()
    }

    /// The index holding `id`, if any.
    fn find(&self, id: u32) -> (r: Option<usize>)
        ensures
            r matches Some(i) ==> i < self.entries@.len() && self.entries@[i as int].0 == id,
            r is None ==> forall|i: int|
                0 <= i < self.entries@.len() ==> (#[trigger] self.entries@[i]).0 != id,
    {
        let n = self.entries.len();
        for i in 0..n
            invariant
                n == self.entries@.len(),
                forall|j: int| 0 <= j < i ==> (#[trigger] self.entries@[j]).0 != id,
        {
            if self.entries[i].0 == id {
                return Some(i);
            }
        }
        None
    }

    /// Stores `stroke` for `id`, replacing any stroke already stored for
    /// it; other ids keep their strokes.
    pub fn insert(&mut self, id: u32, stroke: Stroke)
        requires
            old(self).wf(),
            stroke.wf(),
        ensures
            final(self).wf(),
            final(self).get(id) == Some(stroke),
            forall|k: u32| k != id ==> #[trigger] final(self).get(k) == old(self).get(k),
            final(self).entries@.len() <= old(self).entries@.len() + 1,
    {
        let found = self.find(id);
        match found {
            Some(i) => {
                self.entries.set(i, (id, stroke));
                proof {
                    lemma_lookup_update(old(self).entries@, self.entries@, i as int, id);
                }
            },
            None => {
                self.entries.push((id, stroke));
                proof {
                    lemma_lookup_push(old(self).entries@, id, stroke);
                }
            },
        }
    }

    /// Removes and returns the stroke stored for `id`; other ids keep
    /// their strokes.
    pub fn take(&mut self, id: u32) -> (r: Option<Stroke>)
        requires
            old(self).wf(),
        ensures
            final(self).wf(),
            r == old(self).get(id),
            final(self).get(id) is None,
            forall|k: u32| k != id ==> #[trigger] final(self).get(k) == old(self).get(k),
            r matches Some(s) ==> s.wf(),
            final(self).entries@.len() <= old(self).entries@.len(),
            old(self).get(id) is None ==> *final(self) == *old(self),
    {
        let found = self.find(id);
        match found {
            Some(i) => {
                let e = self.entries.remove(i);
                proof {
                    lemma_lookup_remove(old(self).entries@, i as int, id);
                    lemma_lookup_present(old(self).entries@, i as int);
                }
                Some(e.1)
            },
            None => {
                proof {
                    lemma_lookup_absent(self.entries@, id);
                }
                None
            },
        }
    }
}

/// Looking up any key in a list without it gives nothing.
proof fn lemma_lookup_absent(s: Seq<(u32, Stroke)>, id: u32)
    requires
        forall|i: int| 0 <= i < s.len() ==> (#[trigger] s[i]).0 != id,
    ensures
        map_lookup(s, id) is None,
    decreases s.len(),
{
    if s.len() > 0 {
        assert(forall|i: int| 0 <= i < s.skip(1).len() ==> s.skip(1)[i] == s[i + 1]);
        lemma_lookup_absent(s.skip(1), id);
    }
}

/// With unique keys, the entry at an index is what lookup finds for its
/// key.
proof fn lemma_lookup_present(s: Seq<(u32, Stroke)>, i: int)
    requires
        0 <= i < s.len(),
        forall|a: int, b: int| 0 <= a < b < s.len() ==> (#[trigger] s[a]).0 != (#[trigger] s[b]).0,
    ensures
        map_lookup(s, s[i].0) == Some(s[i].1),
    decreases i,
{
    if i > 0 {
        assert(s[0].0 != s[i].0);
        assert(forall|j: int| 0 <= j < s.skip(1).len() ==> s.skip(1)[j] == s[j + 1]);
        lemma_lookup_present(s.skip(1), i - 1);
    }
}

/// Replacing the entry at an index rewrites lookup for its key and
/// nothing else.
proof fn lemma_lookup_update(s: Seq<(u32, Stroke)>, t: Seq<(u32, Stroke)>, i: int, id: u32)
    requires
        0 <= i < s.len(),
        s[i].0 == id,
        t == s.update(i, (id, t[i].1)),
        forall|a: int, b: int| 0 <= a < b < s.len() ==> (#[trigger] s[a]).0 != (#[trigger] s[b]).0,
    ensures
        map_lookup(t, id) == Some(t[i].1),
        forall|k: u32| k != id ==> #[trigger] map_lookup(t, k) == map_lookup(s, k),
    decreases i,
{
    if i == 0 {
        assert(t[0] == (id, t[0].1));
        assert forall|k: u32| k != id implies #[trigger] map_lookup(t, k) == map_lookup(
            s,
            k,
        ) by {
            assert(t.skip(1) =~= s.skip(1));
        }
    } else {
        assert(t[0] == s[0]);
        assert(s[0].0 != id);
        assert(forall|j: int| 0 <= j < s.skip(1).len() ==> s.skip(1)[j] == s[j + 1]);
        assert(forall|j: int| 0 <= j < t.skip(1).len() ==> t.skip(1)[j] == t[j + 1]);
        assert(t.skip(1) =~= s.skip(1).update(i - 1, (id, t[i].1)));
        lemma_lookup_update(s.skip(1), t.skip(1), i - 1, id);
        assert(t.skip(1)[i - 1].1 == t[i].1);
        assert(map_lookup(t, id) == map_lookup(t.skip(1), id));
        assert forall|k: u32| k != id implies #[trigger] map_lookup(t, k) == map_lookup(
            s,
            k,
        ) by {
            assert(map_lookup(t.skip(1), k) == map_lookup(s.skip(1), k));
            assert(map_lookup(t, k) == if t[0].0 == k {
                Some(t[0].1)
            } else {
                map_lookup(t.skip(1), k)
            });
            assert(map_lookup(s, k) == if s[0].0 == k {
                Some(s[0].1)
            } else {
                map_lookup(s.skip(1), k)
            });
        }
    }
}

/// Appending a fresh entry adds its key and keeps every other lookup.
proof fn lemma_lookup_push(s: Seq<(u32, Stroke)>, id: u32, stroke: Stroke)
    requires
        forall|i: int| 0 <= i < s.len() ==> (#[trigger] s[i]).0 != id,
    ensures
        map_lookup(s.push((id, stroke)), id) == Some(stroke),
        forall|k: u32|
            k != id ==> #[trigger] map_lookup(s.push((id, stroke)), k) == map_lookup(s, k),
    decreases s.len(),
{
    let t = s.push((id, stroke));
    if s.len() == 0 {
        assert(t[0] == (id, stroke));
        assert forall|k: u32| k != id implies #[trigger] map_lookup(t, k) == map_lookup(
            s,
            k,
        ) by {
            assert(t.skip(1) =~= Seq::<(u32, Stroke)>::empty());
            assert(map_lookup(Seq::<(u32, Stroke)>::empty(), k) is None);
            assert(map_lookup(s, k) is None);
        }
    } else {
        assert(t[0] == s[0]);
        assert(forall|i: int| 0 <= i < s.skip(1).len() ==> s.skip(1)[i] == s[i + 1]);
        lemma_lookup_push(s.skip(1), id, stroke);
        assert(t.skip(1) =~= s.skip(1).push((id, stroke)));
        assert(map_lookup(t, id) == map_lookup(t.skip(1), id));
        assert forall|k: u32| k != id implies #[trigger] map_lookup(t, k) == map_lookup(
            s,
            k,
        ) by {
            assert(map_lookup(t.skip(1), k) == map_lookup(s.skip(1), k));
            assert(map_lookup(t, k) == if t[0].0 == k {
                Some(t[0].1)
            } else {
                map_lookup(t.skip(1), k)
            });
            assert(map_lookup(s, k) == if s[0].0 == k {
                Some(s[0].1)
            } else {
                map_lookup(s.skip(1), k)
            });
        }
    }
}

/// Removing the entry at an index erases lookup for its key and keeps
/// every other lookup.
proof fn lemma_lookup_remove(s: Seq<(u32, Stroke)>, i: int, id: u32)
    requires
        0 <= i < s.len(),
        s[i].0 == id,
        forall|a: int, b: int| 0 <= a < b < s.len() ==> (#[trigger] s[a]).0 != (#[trigger] s[b]).0,
    ensures
        map_lookup(s.remove(i), id) is None,
        forall|k: u32| k != id ==> #[trigger] map_lookup(s.remove(i), k) == map_lookup(s, k),
    decreases i,
{
    let t = s.remove(i);
    if i == 0 {
        assert(t =~= s.skip(1));
        assert forall|j: int| 0 <= j < t.len() implies (#[trigger] t[j]).0 != id by {
            assert(t[j] == s[j + 1]);
        }
        lemma_lookup_absent(t, id);
        assert forall|k: u32| k != id implies #[trigger] map_lookup(t, k) == map_lookup(
            s,
            k,
        ) by {
            assert(map_lookup(s, k) == map_lookup(s.skip(1), k));
        }
    } else {
        assert(t[0] == s[0]);
        assert(s[0].0 != id);
        assert(forall|j: int| 0 <= j < s.skip(1).len() ==> s.skip(1)[j] == s[j + 1]);
        assert(t.skip(1) =~= s.skip(1).remove(i - 1));
        lemma_lookup_remove(s.skip(1), i - 1, id);
        assert(map_lookup(t, id) == map_lookup(t.skip(1), id));
        assert forall|k: u32| k != id implies #[trigger] map_lookup(t, k) == map_lookup(
            s,
            k,
        ) by {
            assert(map_lookup(t.skip(1), k) == map_lookup(s.skip(1), k));
            assert(map_lookup(t, k) == if t[0].0 == k {
                Some(t[0].1)
            } else {
                map_lookup(t.skip(1), k)
            });
            assert(map_lookup(s, k) == if s[0].0 == k {
                Some(s[0].1)
            } else {
                map_lookup(s.skip(1), k)
            });
        }
    }
}

/// `q` is the touch position `pos` mapped into `screen` space: the
/// optional quarter-turn remap `(x, y) -> (y, 1 - x)` for a rotated touch
/// surface, then scaling into the screen rectangle.
pub open spec fn touch_mapped(pos: PointQ, q: PointQ, screen: RectQ, invert: bool) -> bool {
    let ex = if invert {
        pos.y.rv()
    } else {
        pos.x.rv()
    };
    let ey = if invert {
        rat_sub((1int, 1int), pos.x.rv())
    } else {
        pos.y.rv()
    };
    &&& rat_eq(q.x.rv(), rat_add(screen.min.x.rv(), rat_mul(ex, screen.width_rv())))
    &&& rat_eq(q.y.rv(), rat_add(screen.min.y.rv(), rat_mul(ey, screen.height_rv())))
}

/// The inputs on which the mapping is guaranteed to produce a point:
/// normalized touch coordinates over an integer-pixel screen rectangle.
pub open spec fn touch_mappable(pos: PointQ, screen: RectQ) -> bool {
    norm_range(pos.x) && norm_range(pos.y) && small_int_rect(screen)
}

/// Maps a decoded touch position into screen space, per [`touch_mapped`].
/// `None` only when a mapped coordinate has no `i64` representation,
/// which normalized positions over an integer-pixel screen never trigger.
pub fn map_touch(pos: &PointQ, screen: &RectQ, invert: bool) -> (r: Option<PointQ>)
    requires
        pos.wf(),
        screen.wf(),
    ensures
        r matches Some(q) ==> q.wf() && touch_mapped(*pos, q, *screen, invert),
        touch_mappable(*pos, *screen) ==> r is Some,
{
    proof {
        if small_int_rect(*screen) {
            lemma_small_width_bounds(screen.max.x, screen.min.x);
            lemma_small_width_bounds(screen.max.y, screen.min.y);
        }
    }
    let sw = match frac_sub(&screen.max.x, &screen.min.x) {
        Some(v) => v,
        None => {
            return None;
        },
    };
    let sh = match frac_sub(&screen.max.y, &screen.min.y) {
        Some(v) => v,
        None => {
            return None;
        },
    };
    let ex: Frac = if invert {
        pos.y
    } else {
        pos.x
    };
    let ey: Frac = if invert {
        match frac_one_minus(&pos.x) {
            Some(v) => v,
            None => {
                return None;
            },
        }
    } else {
        pos.y
    };
    let qx = match map_norm_coord(&ex, &screen.min.x, &sw) {
        Some(v) => v,
        None => {
            return None;
        },
    };
    let qy = match map_norm_coord(&ey, &screen.min.y, &sh) {
        Some(v) => v,
        None => {
            return None;
        },
    };
    proof {
        let gex = if invert {
            pos.y.rv()
        } else {
            pos.x.rv()
        };
        let gey = if invert {
            rat_sub((1int, 1int), pos.x.rv())
        } else {
            pos.y.rv()
        };
        lemma_pos_product(screen.max.x.den as int, screen.min.x.den as int);
        lemma_pos_product(screen.max.y.den as int, screen.min.y.den as int);
        lemma_pos_product(ex.den as int, sw.den as int);
        lemma_pos_product(ey.den as int, sh.den as int);
        lemma_pos_product(screen.min.x.den as int, (ex.den as int) * (sw.den as int));
        lemma_pos_product(screen.min.y.den as int, (ey.den as int) * (sh.den as int));
        lemma_rat_mul_both(ex.rv(), gex, sw.rv(), screen.width_rv());
        lemma_rat_add_both(
            screen.min.x.rv(),
            screen.min.x.rv(),
            rat_mul(ex.rv(), sw.rv()),
            rat_mul(gex, screen.width_rv()),
        );
        lemma_rat_eq_trans(
            qx.rv(),
            rat_add(screen.min.x.rv(), rat_mul(ex.rv(), sw.rv())),
            rat_add(screen.min.x.rv(), rat_mul(gex, screen.width_rv())),
        );
        lemma_rat_mul_both(ey.rv(), gey, sh.rv(), screen.height_rv());
        lemma_rat_add_both(
            screen.min.y.rv(),
            screen.min.y.rv(),
            rat_mul(ey.rv(), sh.rv()),
            rat_mul(gey, screen.height_rv()),
        );
        lemma_rat_eq_trans(
            qy.rv(),
            rat_add(screen.min.y.rv(), rat_mul(ey.rv(), sh.rv())),
            rat_add(screen.min.y.rv(), rat_mul(gey, screen.height_rv())),
        );
    }
    Some(PointQ { x: qx, y: qy })
}

impl PaintingApp {
    /// The canvas basis manager, run once per drawing-surface pass with
    /// the freshly computed canvas rectangle. The first computation
    /// establishes both the live rectangle and the basis. Later, a
    /// rectangle that differs in value from the stored basis triggers the
    /// rebasing engine (old basis to new rectangle) and the new rectangle
    /// becomes the basis; an equal rectangle changes nothing but the live
    /// rectangle.
    pub fn update_canvas_rect(&mut self, computed: &RectQ)
        requires
            old(self).wf(),
            computed.wf(),
        ensures
            final(self).wf(),
            final(self).canvas_rect == Some(*computed),
            *final(self) == (PaintingApp {
                frames: final(self).frames,
                canvas_rect: Some(*computed),
                original_canvas_rect: final(self).original_canvas_rect,
                ..*old(self)
            }),
            old(self).canvas_rect is None || old(self).original_canvas_rect is None ==> final(self).original_canvas_rect == Some(*computed) && final(self).frames == old(self).frames,
            old(self).canvas_rect is Some ==> (old(self).original_canvas_rect matches Some(basis)
                ==> ({
                &&& basis.same_value(*computed) ==> final(self).original_canvas_rect == Some(
                    basis,
                ) && final(self).frames == old(self).frames
                &&& !basis.same_value(*computed) ==> ({
                    &&& final(self).original_canvas_rect == Some(*computed)
                    &&& !(basis.positive() && computed.positive()) ==> final(self).frames == old(
                        self,
                    ).frames
                    &&& basis.positive() && computed.positive() ==> frames_rebased(
                        old(self).frames@,
                        final(self).frames@,
                        basis,
                        *computed,
                        false,
                    )
                    &&& basis.positive() && computed.positive() && small_int_rect(basis)
                        && small_int_rect(*computed) && frames_points_small(old(self).frames@)
                        ==> frames_rebased(
                        old(self).frames@,
                        final(self).frames@,
                        basis,
                        *computed,
                        true,
                    )
                })
            })),
    {
        let first = match (&self.canvas_rect, &self.original_canvas_rect) {
            (Some(_), Some(_)) => false,
            _ => true,
        };
        if first {
            self.canvas_rect = Some(*computed);
            self.original_canvas_rect = Some(*computed);
            return;
        }
        let basis = match &self.original_canvas_rect {
            Some(b) => *b,
            None => {
                return;
            },
        };
        if !basis.eq_value(computed) {
            self.recalculate_strokes_relative_to(&basis, computed);
            self.original_canvas_rect = Some(*computed);
        }
        self.canvas_rect = Some(*computed);
    }
}

/// The fitting rule limits by width: the available width, divided by the
/// aspect ratio, does not exceed the available height.
pub open spec fn fit_uses_width(available: RectQ, aspect: Frac) -> bool {
    rat_le(rat_div(available.width_rv(), aspect.rv()), available.height_rv())
}

/// The exact width of a rectangle fitted into `available` with the given
/// aspect ratio, scaled by `scale` of the limiting dimension.
pub open spec fn fit_width_rv(available: RectQ, aspect: Frac, scale: (int, int)) -> (int, int) {
    if fit_uses_width(available, aspect) {
        rat_mul(available.width_rv(), scale)
    } else {
        rat_mul(rat_mul(available.height_rv(), scale), aspect.rv())
    }
}

/// The exact height of a rectangle fitted into `available` with the
/// given aspect ratio, scaled by `scale` of the limiting dimension.
pub open spec fn fit_height_rv(available: RectQ, aspect: Frac, scale: (int, int)) -> (int, int) {
    if fit_uses_width(available, aspect) {
        rat_div(rat_mul(available.width_rv(), scale), aspect.rv())
    } else {
        rat_mul(available.height_rv(), scale)
    }
}

/// Fits a rectangle of the given aspect ratio into `available`, scaled
/// to `scale` of the limiting dimension and centered. The result's width
/// and height equal the fitted extents exactly, its corner sums equal
/// the available rectangle's corner sums (same center), and it is
/// non-degenerate whenever `available` is. `None` only when a coordinate
/// has no `i64` representation; small integer geometry always succeeds.
fn fitted_rect(available: &RectQ, aspect: &Frac, scale: &Frac) -> (r: Option<RectQ>)
    requires
        available.wf(),
        aspect.wf(),
        aspect.num > 0,
        scale.wf(),
        scale.num > 0,
    ensures
        r matches Some(rect) ==> ({
            &&& rect.wf()
            &&& rat_eq(rect.width_rv(), fit_width_rv(*available, *aspect, scale.rv()))
            &&& rat_eq(rect.height_rv(), fit_height_rv(*available, *aspect, scale.rv()))
            &&& rat_eq(
                rat_add(rect.min.x.rv(), rect.max.x.rv()),
                rat_add(available.min.x.rv(), available.max.x.rv()),
            )
            &&& rat_eq(
                rat_add(rect.min.y.rv(), rect.max.y.rv()),
                rat_add(available.min.y.rv(), available.max.y.rv()),
            )
            &&& available.positive() ==> rect.positive()
        }),
        small_int_rect(*available) && 0 < aspect.num <= 0x100 && 0 < aspect.den <= 0x100 && 0
            < scale.num <= 0x40 && 0 < scale.den <= 0x40 ==> r is Some,
{
    let ghost small = small_int_rect(*available) && 0 < aspect.num <= 0x100 && 0 < aspect.den
        <= 0x100 && 0 < scale.num <= 0x40 && 0 < scale.den <= 0x40;
    proof {
        if small {
            lemma_small_width_bounds(available.max.x, available.min.x);
            lemma_small_width_bounds(available.max.y, available.min.y);
        }
        lemma_pos_product(available.max.x.den as int, available.min.x.den as int);
        lemma_pos_product(available.max.y.den as int, available.min.y.den as int);
    }
    let aw = match frac_sub(&available.max.x, &available.min.x) {
        Some(v) => v,
        None => {
            return None;
        },
    };
    let ah = match frac_sub(&available.max.y, &available.min.y) {
        Some(v) => v,
        None => {
            return None;
        },
    };
    proof {
        if small {
            assert(-0x2000000 <= (aw.num as int) * (aspect.den as int) <= 0x2000000 && 0 < (
            aw.den as int) * (aspect.num as int) <= 0x100) by (nonlinear_arith)
                requires
                    -0x20000 <= aw.num <= 0x20000,
                    aw.den == 1,
                    0 < aspect.num <= 0x100,
                    0 < aspect.den <= 0x100,
            ;
        }
    }
    let q = match frac_div(&aw, aspect) {
        Some(v) => v,
        None => {
            return None;
        },
    };
    let cond = frac_le(&q, &ah);
    proof {
        // The executable test agrees with the specification's rule.
        lemma_rat_div_congr(aw.rv(), available.width_rv(), aspect.rv());
        lemma_pos_product(aw.den as int, aspect.num as int);
        lemma_pos_product(available.width_rv().1, aspect.num as int);
        lemma_rat_eq_trans(
            q.rv(),
            rat_div(aw.rv(), aspect.rv()),
            rat_div(available.width_rv(), aspect.rv()),
        );
        lemma_rat_le_congr(
            q.rv(),
            rat_div(available.width_rv(), aspect.rv()),
            ah.rv(),
            available.height_rv(),
        );
        assert(cond == fit_uses_width(*available, *aspect));
    }
    let wh = if cond {
        proof {
            if small {
                assert(-0x800000 <= (aw.num as int) * (scale.num as int) <= 0x800000 && 0 < (
                aw.den as int) * (scale.den as int) <= 0x40) by (nonlinear_arith)
                    requires
                        -0x20000 <= aw.num <= 0x20000,
                        aw.den == 1,
                        0 < scale.num <= 0x40,
                        0 < scale.den <= 0x40,
                ;
            }
        }
        let w = match frac_mul(&aw, scale) {
            Some(v) => v,
            None => {
                return None;
            },
        };
        proof {
            if small {
                assert(-0x80000000 <= (w.num as int) * (aspect.den as int) <= 0x80000000 && 0
                    < (w.den as int) * (aspect.num as int) <= 0x4000) by (nonlinear_arith)
                    requires
                        -0x800000 <= w.num <= 0x800000,
                        0 < w.den <= 0x40,
                        0 < aspect.num <= 0x100,
                        0 < aspect.den <= 0x100,
                ;
            }
        }
        let h = match frac_div(&w, aspect) {
            Some(v) => v,
            None => {
                return None;
            },
        };
        proof {
            lemma_rat_mul_congr(aw.rv(), available.width_rv(), scale.rv());
            lemma_pos_product(aw.den as int, scale.den as int);
            lemma_rat_eq_trans(
                w.rv(),
                rat_mul(aw.rv(), scale.rv()),
                rat_mul(available.width_rv(), scale.rv()),
            );
            lemma_rat_div_congr(
                w.rv(),
                rat_mul(available.width_rv(), scale.rv()),
                aspect.rv(),
            );
            lemma_pos_product(w.den as int, aspect.num as int);
            lemma_rat_eq_trans(
                h.rv(),
                rat_div(w.rv(), aspect.rv()),
                rat_div(rat_mul(available.width_rv(), scale.rv()), aspect.rv()),
            );
        }
        (w, h)
    } else {
        proof {
            if small {
                assert(-0x800000 <= (ah.num as int) * (scale.num as int) <= 0x800000 && 0 < (
                ah.den as int) * (scale.den as int) <= 0x40) by (nonlinear_arith)
                    requires
                        -0x20000 <= ah.num <= 0x20000,
                        ah.den == 1,
                        0 < scale.num <= 0x40,
                        0 < scale.den <= 0x40,
                ;
            }
        }
        let h = match frac_mul(&ah, scale) {
            Some(v) => v,
            None => {
                return None;
            },
        };
        proof {
            if small {
                assert(-0x80000000 <= (h.num as int) * (aspect.num as int) <= 0x80000000 && 0
                    < (h.den as int) * (aspect.den as int) <= 0x4000) by (nonlinear_arith)
                    requires
                        -0x800000 <= h.num <= 0x800000,
                        0 < h.den <= 0x40,
                        0 < aspect.num <= 0x100,
                        0 < aspect.den <= 0x100,
                ;
            }
        }
        let w = match frac_mul(&h, aspect) {
            Some(v) => v,
            None => {
                return None;
            },
        };
        proof {
            lemma_rat_mul_congr(ah.rv(), available.height_rv(), scale.rv());
            lemma_pos_product(ah.den as int, scale.den as int);
            lemma_rat_eq_trans(
                h.rv(),
                rat_mul(ah.rv(), scale.rv()),
                rat_mul(available.height_rv(), scale.rv()),
            );
            lemma_rat_mul_congr(
                h.rv(),
                rat_mul(available.height_rv(), scale.rv()),
                aspect.rv(),
            );
            lemma_pos_product(h.den as int, aspect.den as int);
            lemma_rat_eq_trans(
                w.rv(),
                rat_mul(h.rv(), aspect.rv()),
                rat_mul(rat_mul(available.height_rv(), scale.rv()), aspect.rv()),
            );
        }
        (w, h)
    };
    let w = wh.0;
    let h = wh.1;
    let rx = match centered_span(&available.min.x, &available.max.x, &w, Ghost(small)) {
        Some(v) => v,
        None => {
            return None;
        },
    };
    let ry = match centered_span(&available.min.y, &available.max.y, &h, Ghost(small)) {
        Some(v) => v,
        None => {
            return None;
        },
    };
    let rect = RectQ {
        min: PointQ { x: rx.0, y: ry.0 },
        max: PointQ { x: rx.1, y: ry.1 },
    };
    proof {
        let fw = fit_width_rv(*available, *aspect, scale.rv());
        let fh = fit_height_rv(*available, *aspect, scale.rv());
        lemma_pos_product(rx.1.den as int, rx.0.den as int);
        lemma_pos_product(ry.1.den as int, ry.0.den as int);
        lemma_rat_eq_trans(rect.width_rv(), w.rv(), fw);
        lemma_rat_eq_trans(rect.height_rv(), h.rv(), fh);
        if available.positive() {
            assert(fw.0 > 0 && fw.1 > 0 && fh.0 > 0 && fh.1 > 0) by {
                lemma_fit_sizes_positive(*available, *aspect, *scale);
            }
            lemma_rat_eq_pos(rect.width_rv(), fw);
            lemma_rat_eq_pos(rect.height_rv(), fh);
        }
    }
    Some(rect)
}

/// Positive inputs give positive fitted extents.
proof fn lemma_fit_sizes_positive(available: RectQ, aspect: Frac, scale: Frac)
    requires
        available.wf(),
        available.positive(),
        aspect.wf(),
        aspect.num > 0,
        scale.wf(),
        scale.num > 0,
    ensures
        fit_width_rv(available, aspect, scale.rv()).0 > 0,
        fit_width_rv(available, aspect, scale.rv()).1 > 0,
        fit_height_rv(available, aspect, scale.rv()).0 > 0,
        fit_height_rv(available, aspect, scale.rv()).1 > 0,
{
    let wv = available.width_rv();
    let hv = available.height_rv();
    lemma_pos_product(available.max.x.den as int, available.min.x.den as int);
    lemma_pos_product(available.max.y.den as int, available.min.y.den as int);
    lemma_pos_product(wv.0, scale.num as int);
    lemma_pos_product(wv.1, scale.den as int);
    lemma_pos_product(hv.0, scale.num as int);
    lemma_pos_product(hv.1, scale.den as int);
    lemma_pos_product(wv.0 * scale.num, aspect.den as int);
    lemma_pos_product(wv.1 * scale.den, aspect.num as int);
    lemma_pos_product(hv.0 * scale.num, aspect.num as int);
    lemma_pos_product(hv.1 * scale.den, aspect.den as int);
}

/// The pair `((s - size) / 2, (s + size) / 2)` around the center of
/// `[lo, hi]`: two coordinates whose sum is `lo + hi` and whose
/// difference is exactly `size`.
fn centered_span(lo: &Frac, hi: &Frac, size: &Frac, small_in: Ghost<bool>) -> (r: Option<
    (Frac, Frac),
>)
    requires
        lo.wf(),
        hi.wf(),
        size.wf(),
        small_in@ ==> small_int(*lo) && small_int(*hi) && -0x80000000 <= size.num <= 0x80000000
            && 0 < size.den <= 0x4000,
    ensures
        r matches Some(p) ==> ({
            &&& p.0.wf() && p.1.wf()
            &&& rat_eq(rat_sub(p.1.rv(), p.0.rv()), size.rv())
            &&& rat_eq(rat_add(p.0.rv(), p.1.rv()), rat_add(lo.rv(), hi.rv()))
        }),
        small_in@ ==> r is Some,
{
    let ghost small = small_in@;
    let two = Frac::new(2, 1);
    let s = match frac_add(lo, hi) {
        Some(v) => v,
        None => {
            return None;
        },
    };
    proof {
        if small {
            assert((s.num as int) * (size.den as int) - (size.num as int) * (s.den as int)
                >= -0x100000000 - 0x80000000 && (s.num as int) * (size.den as int) - (size.num
                as int) * (s.den as int) <= 0x100000000 + 0x80000000 && (s.num as int) * (
            size.den as int) + (size.num as int) * (s.den as int) >= -0x100000000 - 0x80000000
                && (s.num as int) * (size.den as int) + (size.num as int) * (s.den as int)
                <= 0x100000000 + 0x80000000 && 0 < (s.den as int) * (size.den as int)
                <= 0x4000) by (nonlinear_arith)
                requires
                    -0x20000 <= s.num <= 0x20000,
                    s.den == 1,
                    -0x80000000 <= size.num <= 0x80000000,
                    0 < size.den <= 0x4000,
            ;
        }
    }
    let d0 = match frac_sub(&s, size) {
        Some(v) => v,
        None => {
            return None;
        },
    };
    let d1 = match frac_add(&s, size) {
        Some(v) => v,
        None => {
            return None;
        },
    };
    proof {
        if small {
            assert(-0x200000000 <= (d0.num as int) * (two.den as int) <= 0x200000000 && 0 < (
            d0.den as int) * (two.num as int) <= 0x8000 && -0x200000000 <= (d1.num as int) * (
            two.den as int) <= 0x200000000 && 0 < (d1.den as int) * (two.num as int) <= 0x8000)
                by (nonlinear_arith)
                requires
                    two.num == 2,
                    two.den == 1,
                    -0x180000000 <= d0.num <= 0x180000000,
                    0 < d0.den <= 0x4000,
                    -0x180000000 <= d1.num <= 0x180000000,
                    0 < d1.den <= 0x4000,
            ;
        }
    }
    let pmin = match frac_div(&d0, &two) {
        Some(v) => v,
        None => {
            return None;
        },
    };
    let pmax = match frac_div(&d1, &two) {
        Some(v) => v,
        None => {
            return None;
        },
    };
    proof {
        let gs = s.rv();
        let gz = size.rv();
        let gtwo = (2int, 1int);
        lemma_rat_halves(gs, gz);
        // pmin and pmax carry the values of the two halves.
        lemma_pos_product(s.den as int, size.den as int);
        lemma_rat_div_congr(d0.rv(), rat_sub(gs, gz), gtwo);
        lemma_rat_div_congr(d1.rv(), rat_add(gs, gz), gtwo);
        lemma_rat_eq_trans(pmin.rv(), rat_div(d0.rv(), gtwo), rat_div(rat_sub(gs, gz), gtwo));
        lemma_rat_eq_trans(pmax.rv(), rat_div(d1.rv(), gtwo), rat_div(rat_add(gs, gz), gtwo));
        // Their difference is the size and their sum is lo + hi.
        lemma_pos_product(s.den as int, size.den as int);
        lemma_pos_product((s.den as int) * (size.den as int), 2);
        lemma_pos_product(
            ((s.den as int) * (size.den as int)) * 2,
            ((s.den as int) * (size.den as int)) * 2,
        );
        lemma_rat_sub_both(
            pmax.rv(),
            rat_div(rat_add(gs, gz), gtwo),
            pmin.rv(),
            rat_div(rat_sub(gs, gz), gtwo),
        );
        lemma_rat_eq_trans(
            rat_sub(pmax.rv(), pmin.rv()),
            rat_sub(rat_div(rat_add(gs, gz), gtwo), rat_div(rat_sub(gs, gz), gtwo)),
            gz,
        );
        lemma_rat_add_both(
            pmin.rv(),
            rat_div(rat_sub(gs, gz), gtwo),
            pmax.rv(),
            rat_div(rat_add(gs, gz), gtwo),
        );
        lemma_rat_eq_trans(
            rat_add(pmin.rv(), pmax.rv()),
            rat_add(rat_div(rat_sub(gs, gz), gtwo), rat_div(rat_add(gs, gz), gtwo)),
            gs,
        );
        lemma_pos_product(lo.den as int, hi.den as int);
        lemma_rat_eq_trans(rat_add(pmin.rv(), pmax.rv()), gs, rat_add(lo.rv(), hi.rv()));
    }
    Some((pmin, pmax))
}

impl PaintingApp {
    /// The canvas target rectangle: the application's aspect ratio fitted
    /// into the available space, scaled to 95% of the limiting dimension
    /// and centered.
    pub fn calculate_aspect_ratio_rect(&self, available: &RectQ) -> (r: Option<RectQ>)
        requires
            self.wf(),
            available.wf(),
        ensures
            r matches Some(rect) ==> ({
                let scale = (19int, 20int);
                &&& rect.wf()
                &&& rat_eq(
                    rect.width_rv(),
                    fit_width_rv(*available, self.canvas_aspect_ratio, scale),
                )
                &&& rat_eq(
                    rect.height_rv(),
                    fit_height_rv(*available, self.canvas_aspect_ratio, scale),
                )
                &&& rat_eq(
                    rat_add(rect.min.x.rv(), rect.max.x.rv()),
                    rat_add(available.min.x.rv(), available.max.x.rv()),
                )
                &&& rat_eq(
                    rat_add(rect.min.y.rv(), rect.max.y.rv()),
                    rat_add(available.min.y.rv(), available.max.y.rv()),
                )
                &&& available.positive() ==> rect.positive()
            }),
            small_int_rect(*available) && 0 < self.canvas_aspect_ratio.num <= 0x100 && 0
                < self.canvas_aspect_ratio.den <= 0x100 ==> r is Some,
    {
        let scale = Frac::new(19, 20);
        fitted_rect(available, &self.canvas_aspect_ratio, &scale)
    }

    /// A thumbnail rectangle: the aspect ratio fitted into the available
    /// space at full size and centered.
    pub fn calculate_thumbnail_rect(&self, available: &RectQ) -> (r: Option<RectQ>)
        requires
            self.wf(),
            available.wf(),
        ensures
            r matches Some(rect) ==> ({
                let scale = (1int, 1int);
                &&& rect.wf()
                &&& rat_eq(
                    rect.width_rv(),
                    fit_width_rv(*available, self.canvas_aspect_ratio, scale),
                )
                &&& rat_eq(
                    rect.height_rv(),
                    fit_height_rv(*available, self.canvas_aspect_ratio, scale),
                )
                &&& rat_eq(
                    rat_add(rect.min.x.rv(), rect.max.x.rv()),
                    rat_add(available.min.x.rv(), available.max.x.rv()),
                )
                &&& rat_eq(
                    rat_add(rect.min.y.rv(), rect.max.y.rv()),
                    rat_add(available.min.y.rv(), available.max.y.rv()),
                )
                &&& available.positive() ==> rect.positive()
            }),
            small_int_rect(*available) && 0 < self.canvas_aspect_ratio.num <= 0x100 && 0
                < self.canvas_aspect_ratio.den <= 0x100 ==> r is Some,
    {
        let scale = Frac::new(1, 1);
        fitted_rect(available, &self.canvas_aspect_ratio, &scale)
    }
}

/// The eraser radius in quantized units: twice the brush width,
/// saturated at the quantization bound.
pub open spec fn eraser_radius_spec(size: Frac) -> int {
    let f = fixed_of(size.rv());
    if f < 0 {
        0int
    } else if f > 0x20000000 {
        0x40000000int
    } else {
        2 * f
    }
}

/// What one brush-tool touch event, already mapped to screen point `p`,
/// does to the application. A `Began` inside the canvas opens an
/// in-progress stroke with the current brush; positions outside the
/// canvas are ignored. A `Moved` appends the point to the touch's stroke
/// when inside the canvas, and is dropped without ending the stroke
/// otherwise. An `Ended` closes the stroke: the final position is
/// appended once more when it is inside the canvas and differs in value
/// from the last recorded point, and a non-empty stroke is committed to
/// the current frame with the prior state recorded for undo; an empty
/// stroke is discarded without touching history.
pub open spec fn brush_event_applied(
    pre: PaintingApp,
    post: PaintingApp,
    id: u32,
    state: TouchState,
    p: PointQ,
) -> bool {
    let canvas = pre.canvas_rect.unwrap();
    let inside = canvas.contains_value(p);
    match state {
        TouchState::Began => {
            &&& inside ==> ({
                &&& post.active_touches.get(id) matches Some(s) && s.points@ =~= seq![p]
                    && s.color == pre.brush_color && s.size == pre.brush_size && s.stroke_type
                    == StrokeType::Draw
                &&& forall|k: u32|
                    k != id ==> #[trigger] post.active_touches.get(k) == pre.active_touches.get(
                        k,
                    )
                &&& post == (PaintingApp { active_touches: post.active_touches, ..pre })
            })
            &&& !inside ==> post == pre
        },
        TouchState::Moved => {
            &&& pre.active_touches.get(id) is None ==> post == pre
            &&& pre.active_touches.get(id) matches Some(s) ==> ({
                &&& inside ==> ({
                    &&& post.active_touches.get(id) matches Some(s2) && s2.points@
                        =~= s.points@.push(p) && s2.color == s.color && s2.size == s.size
                        && s2.stroke_type == s.stroke_type
                    &&& forall|k: u32|
                        k != id ==> #[trigger] post.active_touches.get(k)
                            == pre.active_touches.get(k)
                    &&& post == (PaintingApp { active_touches: post.active_touches, ..pre })
                })
                &&& !inside ==> post == pre
            })
        },
        TouchState::Ended => {
            &&& pre.active_touches.get(id) is None ==> post == pre
            &&& pre.active_touches.get(id) matches Some(s) ==> ({
                let extend = inside && (s.points@.len() == 0 || !s.points@.last().same_value(
                    p,
                ));
                let pts = if extend {
                    s.points@.push(p)
                } else {
                    s.points@
                };
                &&& post.active_touches.get(id) is None
                &&& forall|k: u32|
                    k != id ==> #[trigger] post.active_touches.get(k) == pre.active_touches.get(
                        k,
                    )
                &&& pts.len() == 0 ==> post == (PaintingApp {
                    active_touches: post.active_touches,
                    ..pre
                })
                &&& pts.len() > 0 ==> ({
                    &&& recorded(pre, post.undo_history@, post.redo_history@)
                    &&& frame_model(post.frames@[pre.current_frame as int]@) == frame_model(
                        pre.frames@[pre.current_frame as int]@,
                    ).push((pts, s.color, s.size, s.stroke_type))
                    &&& post.frames@.len() == pre.frames@.len()
                    &&& forall|i: int|
                        0 <= i < pre.frames@.len() && i != pre.current_frame
                            ==> #[trigger] post.frames@[i] == pre.frames@[i]
                    &&& post == (PaintingApp {
                        frames: post.frames,
                        undo_history: post.undo_history,
                        redo_history: post.redo_history,
                        active_touches: post.active_touches,
                        ..pre
                    })
                })
            })
        },
    }
}

impl PaintingApp {
    /// The eraser radius in quantized units, per [`eraser_radius_spec`].
    pub fn eraser_radius(&self) -> (r: i64)
        requires
            self.brush_size.wf(),
        ensures
            r == eraser_radius_spec(self.brush_size),
            0 <= r <= 0x40000000,
    {
        let f = frac_to_fixed(&self.brush_size);
        if f < 0 {
            0
        } else if f > 0x20000000 {
            0x40000000
        } else {
            2 * f
        }
    }

    /// Applies one brush-tool touch event whose position is already
    /// mapped to screen space, per [`brush_event_applied`].
    pub fn handle_touch_point(&mut self, id: u32, state: TouchState, p: PointQ)
        requires
            old(self).wf(),
            p.wf(),
            old(self).tool_mode == ToolMode::Brush,
            old(self).canvas_rect is Some,
        ensures
            final(self).wf(),
            brush_event_applied(*old(self), *final(self), id, state, p),
    {
        let canvas = match &self.canvas_rect {
            Some(c) => *c,
            None => {
                return;
            },
        };
        let inside = canvas.contains(&p);
        match state {
            TouchState::Began => {
                if inside {
                    let mut points: Vec<PointQ> = Vec::new();
                    points.push(p);
                    let stroke = Stroke {
                        points,
                        color: self.brush_color,
                        size: self.brush_size,
                        stroke_type: StrokeType::Draw,
                    };
                    self.active_touches.insert(id, stroke);
                }
            },
            TouchState::Moved => {
                if inside {
                    let existing = self.active_touches.take(id);
                    match existing {
                        Some(s) => {
                            let mut s2 = s;
                            s2.points.push(p);
                            self.active_touches.insert(id, s2);
                        },
                        None => {},
                    }
                }
            },
            TouchState::Ended => {
                let existing = self.active_touches.take(id);
                match existing {
                    Some(s) => {
                        let mut s2 = s;
                        if inside {
                            let n = s2.points.len();
                            if n == 0 {
                                s2.points.push(p);
                            } else {
                                let last = s2.points[n - 1];
                                if !last.eq_value(&p) {
                                    s2.points.push(p);
                                }
                            }
                        }
                        if s2.points.len() > 0 {
                            self.save_state_for_undo();
                            let ghost pre_frame = self.frames@[self.current_frame as int]@;
                            let mut frame = copy_frame(&self.frames[self.current_frame]);
                            let ghost fm0 = frame@;
                            let ghost s2v = s2;
                            frame.push(s2);
                            proof {
                                lemma_frame_model_push(fm0, s2v);
                                assert(frame_model(frame@) =~= frame_model(pre_frame).push(
                                    s2v.model(),
                                ));
                            }
                            self.frames.set(self.current_frame, frame);
                        }
                    },
                    None => {},
                }
            },
        }
    }

    /// What one decoded touch event does to the application: its
    /// position is mapped to screen space (an event whose position has
    /// no mappable representation — never a normalized position over an
    /// integer-pixel screen — is skipped), and the mapped point is
    /// dispatched by tool. Brush events build strokes per
    /// [`brush_event_applied`]. Eraser `Began` and `Moved` events inside
    /// the canvas erase at the eraser radius per
    /// [`crate::app::erase_applied`]; an eraser `Ended`, or a position
    /// outside the canvas, changes nothing.
    pub open spec fn touch_event_applied(
        pre: PaintingApp,
        post: PaintingApp,
        ev: TouchInput,
        screen: RectQ,
    ) -> bool {
        ||| exists|q: PointQ|
            q.wf() && #[trigger] touch_mapped(ev.pos, q, screen, pre.invert_input)
                && Self::touch_dispatched(pre, post, ev.id, ev.state, q)
        ||| (!touch_mappable(ev.pos, screen) && post == pre)
    }

    /// Dispatches a mapped touch point by the active tool (see
    /// [`Self::touch_event_applied`]).
    pub open spec fn touch_dispatched(
        pre: PaintingApp,
        post: PaintingApp,
        id: u32,
        state: TouchState,
        q: PointQ,
    ) -> bool {
        match pre.tool_mode {
            ToolMode::Brush => brush_event_applied(pre, post, id, state, q),
            ToolMode::Eraser => {
                let canvas = pre.canvas_rect.unwrap();
                let inside = canvas.contains_value(q);
                match state {
                    TouchState::Began | TouchState::Moved => {
                        if inside {
                            erase_applied(pre, post, q, eraser_radius_spec(pre.brush_size))
                        } else {
                            post == pre
                        }
                    },
                    TouchState::Ended => post == pre,
                }
            },
        }
    }

    /// The batch relation: every event applied in order, each from the
    /// state the previous one left.
    pub open spec fn touch_events_applied(
        pre: PaintingApp,
        post: PaintingApp,
        evs: Seq<TouchInput>,
        screen: RectQ,
    ) -> bool
        decreases evs.len(),
    {
        if evs.len() == 0 {
            post == pre
        } else {
            exists|mid: PaintingApp|
                #[trigger] PaintingApp::touch_event_applied(pre, mid, evs[0], screen)
                    && PaintingApp::touch_events_applied(mid, post, evs.skip(1), screen)
        }
    }

    /// Applies one decoded touch event, exactly as
    /// [`Self::touch_event_applied`] says.
    pub fn apply_touch_event(&mut self, ev: &TouchInput, screen: &RectQ)
        requires
            old(self).wf(),
            ev.pos.wf(),
            screen.wf(),
            old(self).canvas_rect is Some,
        ensures
            final(self).wf(),
            PaintingApp::touch_event_applied(*old(self), *final(self), *ev, *screen),
            *final(self) == (PaintingApp {
                frames: final(self).frames,
                undo_history: final(self).undo_history,
                redo_history: final(self).redo_history,
                active_touches: final(self).active_touches,
                ..*old(self)
            }),
    {
        let mapped = map_touch(&ev.pos, screen, self.invert_input);
        match mapped {
            Some(q) => {
                match self.tool_mode {
                    ToolMode::Brush => {
                        self.handle_touch_point(ev.id, ev.state, q);
                        proof {
                            assert(PaintingApp::touch_dispatched(
                                *old(self),
                                *self,
                                ev.id,
                                ev.state,
                                q,
                            ));
                        }
                    },
                    ToolMode::Eraser => {
                        let canvas = match &self.canvas_rect {
                            Some(c) => *c,
                            None => {
                                return;
                            },
                        };
                        match ev.state {
                            TouchState::Began | TouchState::Moved => {
                                if canvas.contains(&q) {
                                    let r = self.eraser_radius();
                                    let _erased = self.erase_strokes_at_position(&q, r);
                                }
                            },
                            TouchState::Ended => {},
                        }
                        proof {
                            assert(PaintingApp::touch_dispatched(
                                *old(self),
                                *self,
                                ev.id,
                                ev.state,
                                q,
                            ));
                        }
                    },
                }
                proof {
                    assert(touch_mapped(ev.pos, q, *screen, old(self).invert_input));
                }
            },
            None => {
                proof {
                    assert(!touch_mappable(ev.pos, *screen));
                }
            },
        }
    }

    /// Drains one batch of decoded touch events, applying each in order
    /// from the state the previous one left, per
    /// [`Self::touch_events_applied`].
    pub fn process_touch_events(&mut self, events: &Vec<TouchInput>, screen: &RectQ)
        requires
            old(self).wf(),
            screen.wf(),
            old(self).canvas_rect is Some,
            forall|i: int| 0 <= i < events@.len() ==> (#[trigger] events@[i]).pos.wf(),
        ensures
            final(self).wf(),
            PaintingApp::touch_events_applied(*old(self), *final(self), events@, *screen),
            *final(self) == (PaintingApp {
                frames: final(self).frames,
                undo_history: final(self).undo_history,
                redo_history: final(self).redo_history,
                active_touches: final(self).active_touches,
                ..*old(self)
            }),
    {
        let ghost s0 = *self;
        proof {
            assert(events@.take(0) =~= Seq::<TouchInput>::empty());
            assert(PaintingApp::touch_events_applied(s0, s0, events@.take(0), *screen));
        }
        let n = events.len();
        for i in 0..n
            invariant
                n == events@.len(),
                self.wf(),
                screen.wf(),
                self.canvas_rect is Some,
                s0 == *old(self),
                forall|j: int| 0 <= j < events@.len() ==> (#[trigger] events@[j]).pos.wf(),
                PaintingApp::touch_events_applied(s0, *self, events@.take(i as int), *screen),
                *self == (PaintingApp {
                    frames: self.frames,
                    undo_history: self.undo_history,
                    redo_history: self.redo_history,
                    active_touches: self.active_touches,
                    ..*old(self)
                }),
        {
            let ghost mid = *self;
            self.apply_touch_event(&events[i], screen);
            proof {
                lemma_touch_events_applied_snoc(
                    s0,
                    mid,
                    *self,
                    events@.take(i as int),
                    events@[i as int],
                    *screen,
                );
                assert(events@.take(i + 1) =~= events@.take(i as int).push(events@[i as int]));
            }
        }
        proof {
            assert(events@.take(n as int) =~= events@);
        }
    }
}

/// Extends the batch relation by one more applied event.
proof fn lemma_touch_events_applied_snoc(
    pre: PaintingApp,
    mid: PaintingApp,
    post: PaintingApp,
    evs: Seq<TouchInput>,
    ev: TouchInput,
    screen: RectQ,
)
    requires
        PaintingApp::touch_events_applied(pre, mid, evs, screen),
        PaintingApp::touch_event_applied(mid, post, ev, screen),
    ensures
        PaintingApp::touch_events_applied(pre, post, evs.push(ev), screen),
    decreases evs.len(),
{
    if evs.len() == 0 {
        assert(mid == pre);
        assert(evs.push(ev)[0] == ev);
        assert(evs.push(ev).skip(1) =~= Seq::<TouchInput>::empty());
        assert(PaintingApp::touch_events_applied(
            post,
            post,
            Seq::<TouchInput>::empty(),
            screen,
        ));
        assert(PaintingApp::touch_event_applied(pre, post, evs.push(ev)[0], screen));
    } else {
        let m1 = choose|m: PaintingApp|
            #[trigger] PaintingApp::touch_event_applied(pre, m, evs[0], screen)
                && PaintingApp::touch_events_applied(m, mid, evs.skip(1), screen);
        lemma_touch_events_applied_snoc(m1, mid, post, evs.skip(1), ev, screen);
        assert(evs.push(ev)[0] == evs[0]);
        assert(evs.push(ev).skip(1) =~= evs.skip(1).push(ev));
        assert(PaintingApp::touch_event_applied(pre, m1, evs.push(ev)[0], screen));
    }
}

} // verus!
