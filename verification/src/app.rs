//! The drawing application's core state: the frame set, the brush, the
//! canvas basis, the stroke rebasing engine, and the bounded undo/redo
//! history.

use crate::canvas::TouchMap;
use crate::frac::Frac;
use crate::frac::fixed_of;
use crate::geom::{rebase_point, rebased_point, small_int_point, small_int_rect, PointQ, RectQ};
use crate::utils::{fixed_bounded, point_within, point_within_spec, segment_within, segment_within_spec};
use crate::stroke::{
    copy_frame, copy_frames, frame_model, frame_wf, frames_model, frames_wf, ColorRgba, Stroke,
    StrokeModel,
};
use vstd::prelude::*;

verus! {

/// The animation holds this many frames.
pub const FRAME_COUNT: usize = 8;

/// The undo stack holds at most this many entries; recording beyond it
/// evicts the oldest entry first.
pub const UNDO_CAP: usize = 30;

/// The active tool.
#[derive(Clone, Copy, Debug, PartialEq, Eq, Structural)]
pub enum ToolMode {
    Brush,
    Eraser,
}

/// One undo/redo entry: a deep snapshot of all frames, together with the
/// canvas basis that was in effect when the snapshot was taken. Restoring
/// the entry rebases its frames from this stored basis — never from an
/// unrelated one — to the then-current basis.
#[derive(Debug)]
pub struct HistoryEntry {
    pub frames: Vec<Vec<Stroke>>,
    pub basis: RectQ,
}

impl HistoryEntry {
    /// A full frame set of well-formed strokes and a well-formed basis.
    pub open spec fn wf(self) -> bool {
        &&& self.frames@.len() == FRAME_COUNT
        &&& frames_wf(self.frames@)
        &&& self.basis.wf()
    }

    /// The entry's content, for deep comparisons.
    pub open spec fn model(self) -> (Seq<Seq<StrokeModel>>, RectQ) {
        (frames_model(self.frames@), self.basis)
    }
}

/// Every entry of a history stack is well-formed.
pub open spec fn history_wf(h: Seq<HistoryEntry>) -> bool {
    forall|i: int| 0 <= i < h.len() ==> (#[trigger] h[i]).wf()
}

/// `q` is `p` rebased from `from` to `to`; when `exact` is not required,
/// a point whose remapped coordinates have no `i64` representation may
/// instead be kept unchanged.
pub open spec fn point_rebased(p: PointQ, q: PointQ, from: RectQ, to: RectQ, exact: bool) -> bool {
    rebased_point(p, q, from, to) || (!exact && q == p)
}

/// `t` is `s` with every point rebased and the style kept.
pub open spec fn stroke_rebased(s: Stroke, t: Stroke, from: RectQ, to: RectQ, exact: bool) -> bool {
    &&& t.color == s.color
    &&& t.size == s.size
    &&& t.stroke_type == s.stroke_type
    &&& t.points@.len() == s.points@.len()
    &&& forall|j: int|
        0 <= j < s.points@.len() ==> point_rebased(
            s.points@[j],
            (#[trigger] t.points@[j]),
            from,
            to,
            exact,
        )
}

/// `g` is `f` with every stroke rebased, in order.
pub open spec fn frame_rebased(
    f: Seq<Stroke>,
    g: Seq<Stroke>,
    from: RectQ,
    to: RectQ,
    exact: bool,
) -> bool {
    &&& g.len() == f.len()
    &&& forall|i: int|
        0 <= i < f.len() ==> stroke_rebased(f[i], (#[trigger] g[i]), from, to, exact)
}

/// `gs` is `fs` with every frame rebased, in order.
pub open spec fn frames_rebased(
    fs: Seq<Vec<Stroke>>,
    gs: Seq<Vec<Stroke>>,
    from: RectQ,
    to: RectQ,
    exact: bool,
) -> bool {
    &&& gs.len() == fs.len()
    &&& forall|i: int|
        0 <= i < fs.len() ==> frame_rebased(fs[i]@, (#[trigger] gs[i])@, from, to, exact)
}

/// Every point of the stroke is a small whole number.
pub open spec fn stroke_points_small(s: Stroke) -> bool {
    forall|j: int| 0 <= j < s.points@.len() ==> small_int_point(#[trigger] s.points@[j])
}

/// Every point of every stroke of every frame is a small whole number.
pub open spec fn frames_points_small(fs: Seq<Vec<Stroke>>) -> bool {
    forall|i: int, j: int|
        0 <= i < fs.len() && 0 <= j < fs[i]@.len() ==> stroke_points_small(
            #[trigger] fs[i]@[j],
        )
}

/// The core state of the drawing application.
#[derive(Debug)]
pub struct PaintingApp {
    pub brush_color: ColorRgba,
    pub brush_size: Frac,
    pub frames: Vec<Vec<Stroke>>,
    pub current_frame: usize,
    pub copied_frame: Option<Vec<Stroke>>,
    pub canvas_aspect_ratio: Frac,
    pub canvas_rect: Option<RectQ>,
    pub original_canvas_rect: Option<RectQ>,
    pub undo_history: Vec<HistoryEntry>,
    pub redo_history: Vec<HistoryEntry>,
    pub tool_mode: ToolMode,
    pub active_touches: TouchMap,
    pub invert_input: bool,
    pub playing_animation: bool,
    pub show_onion_skin: bool,
}

impl PaintingApp {
    /// The structural invariant: a full frame set of well-formed strokes,
    /// a valid current-frame index, a positive brush width and aspect
    /// ratio, well-formed rectangles and history entries, and an undo
    /// stack within its depth cap.
    pub open spec fn wf(self) -> bool {
        &&& self.frames@.len() == FRAME_COUNT
        &&& self.current_frame < FRAME_COUNT
        &&& frames_wf(self.frames@)
        &&& self.brush_size.wf()
        &&& self.brush_size.num > 0
        &&& self.canvas_aspect_ratio.wf()
        &&& self.canvas_aspect_ratio.num > 0
        &&& (self.canvas_rect matches Some(r) ==> r.wf())
        &&& (self.original_canvas_rect matches Some(r) ==> r.wf())
        &&& (self.copied_frame matches Some(f) ==> frame_wf(f@))
        &&& self.undo_history@.len() + self.redo_history@.len() <= UNDO_CAP
        &&& history_wf(self.undo_history@)
        &&& history_wf(self.redo_history@)
        &&& self.active_touches.wf()
    }

    /// A fresh application: eight empty frames, a black brush of width
    /// five, a three-to-four aspect ratio, no canvas rectangle yet, empty
    /// histories, and no live touches.
    pub fn new(invert_input: bool) -> (r: PaintingApp)
        ensures
            r.wf(),
            r.frames@.len() == FRAME_COUNT,
            forall|i: int| 0 <= i < FRAME_COUNT ==> (#[trigger] r.frames@[i])@.len() == 0,
            r.current_frame == 0,
            r.copied_frame is None,
            r.canvas_rect is None,
            r.original_canvas_rect is None,
            r.undo_history@.len() == 0,
            r.redo_history@.len() == 0,
            r.tool_mode == ToolMode::Brush,
            r.active_touches.entries@.len() == 0,
            r.invert_input == invert_input,
            !r.playing_animation,
            r.brush_size.rv() == (5int, 1int),
            r.canvas_aspect_ratio.rv() == (3int, 4int),
    {
        let mut frames: Vec<Vec<Stroke>> = Vec::new();
        for i in 0..FRAME_COUNT
            invariant
                frames@.len() == i,
                forall|j: int| 0 <= j < i ==> (#[trigger] frames@[j])@.len() == 0,
        {
            frames.push(Vec::new());
        }
        PaintingApp {
            brush_color: ColorRgba::black(),
            brush_size: Frac::from_int(5),
            frames,
            current_frame: 0,
            copied_frame: None,
            canvas_aspect_ratio: Frac::new(3, 4),
            canvas_rect: None,
            original_canvas_rect: None,
            undo_history: Vec::new(),
            redo_history: Vec::new(),
            tool_mode: ToolMode::Brush,
            active_touches: TouchMap::new(),
            invert_input,
            playing_animation: false,
            show_onion_skin: true,
        }
    }

    /// Steps the animation to the next frame, wrapping at the end.
    pub fn advance_animation_frame(&mut self)
        requires
            old(self).wf(),
        ensures
            final(self).wf(),
            final(self).current_frame == (old(self).current_frame + 1) % (FRAME_COUNT as int),
            *final(self) == (PaintingApp {
                current_frame: final(self).current_frame,
                ..*old(self)
            }),
    {
        self.current_frame = (self.current_frame + 1) % FRAME_COUNT;
    }
}

/// Rebases every point of a list from basis `from` to basis `to`,
/// keeping a point unchanged only when its remapped coordinates have no
/// `i64` representation (which small integer geometry never triggers).
fn rebase_points(v: &Vec<PointQ>, from: &RectQ, to: &RectQ) -> (r: Vec<PointQ>)
    requires
        forall|j: int| 0 <= j < v@.len() ==> (#[trigger] v@[j]).wf(),
        from.wf(),
        to.wf(),
        from.positive(),
        to.positive(),
    ensures
        r@.len() == v@.len(),
        forall|j: int| 0 <= j < v@.len() ==> (#[trigger] r@[j]).wf(),
        forall|j: int|
            0 <= j < v@.len() ==> point_rebased(v@[j], (#[trigger] r@[j]), *from, *to, false),
        small_int_rect(*from) && small_int_rect(*to) && (forall|j: int|
            0 <= j < v@.len() ==> small_int_point(#[trigger] v@[j])) ==> forall|j: int|
            0 <= j < v@.len() ==> point_rebased(v@[j], (#[trigger] r@[j]), *from, *to, true),
{
    let mut r: Vec<PointQ> = Vec::new();
    let n = v.len();
    for i in 0..n
        invariant
            n == v@.len(),
            r@.len() == i,
            from.wf(),
            to.wf(),
            from.positive(),
            to.positive(),
            forall|j: int| 0 <= j < n ==> (#[trigger] v@[j]).wf(),
            forall|j: int| 0 <= j < i ==> (#[trigger] r@[j]).wf(),
            forall|j: int|
                0 <= j < i ==> point_rebased(v@[j], (#[trigger] r@[j]), *from, *to, false),
            forall|j: int|
                0 <= j < i && small_int_rect(*from) && small_int_rect(*to) && small_int_point(
                    v@[j],
                ) ==> point_rebased(v@[j], (#[trigger] r@[j]), *from, *to, true),
    {
        let p = v[i];
        let q = match rebase_point(&p, from, to) {
            Some(q) => q,
            None => p,
        };
        r.push(q);
    }
    r
}

/// Rebases every point of a stroke, keeping its style.
fn rebase_stroke(s: &Stroke, from: &RectQ, to: &RectQ) -> (t: Stroke)
    requires
        s.wf(),
        from.wf(),
        to.wf(),
        from.positive(),
        to.positive(),
    ensures
        t.wf(),
        stroke_rebased(*s, t, *from, *to, false),
        small_int_rect(*from) && small_int_rect(*to) && stroke_points_small(*s)
            ==> stroke_rebased(*s, t, *from, *to, true),
{
    Stroke {
        points: rebase_points(&s.points, from, to),
        color: s.color,
        size: s.size,
        stroke_type: s.stroke_type,
    }
}

/// Rebases every stroke of a frame, in order.
fn rebase_frame(f: &Vec<Stroke>, from: &RectQ, to: &RectQ) -> (g: Vec<Stroke>)
    requires
        frame_wf(f@),
        from.wf(),
        to.wf(),
        from.positive(),
        to.positive(),
    ensures
        frame_wf(g@),
        frame_rebased(f@, g@, *from, *to, false),
        small_int_rect(*from) && small_int_rect(*to) && (forall|i: int|
            0 <= i < f@.len() ==> stroke_points_small(#[trigger] f@[i])) ==> frame_rebased(
            f@,
            g@,
            *from,
            *to,
            true,
        ),
{
    let mut g: Vec<Stroke> = Vec::new();
    let n = f.len();
    for i in 0..n
        invariant
            n == f@.len(),
            g@.len() == i,
            frame_wf(f@),
            from.wf(),
            to.wf(),
            from.positive(),
            to.positive(),
            forall|j: int| 0 <= j < i ==> (#[trigger] g@[j]).wf(),
            forall|j: int|
                0 <= j < i ==> stroke_rebased(f@[j], (#[trigger] g@[j]), *from, *to, false),
            forall|j: int|
                0 <= j < i && small_int_rect(*from) && small_int_rect(*to)
                    && stroke_points_small(f@[j]) ==> stroke_rebased(
                    f@[j],
                    (#[trigger] g@[j]),
                    *from,
                    *to,
                    true,
                ),
    {
        g.push(rebase_stroke(&f[i], from, to));
    }
    g
}

impl PaintingApp {
    /// The stroke rebasing engine: remaps every stored point from basis
    /// `from` to basis `to`, so that strokes keep their relative position
    /// when the canvas geometry changes. If either rectangle is
    /// degenerate (non-positive width or height) the operation is skipped
    /// entirely and nothing changes. Only the frames are touched. A
    /// point whose remapped coordinates have no `i64` rational
    /// representation is kept unchanged; for small integer geometry the
    /// remap is guaranteed exact for every point (no fixed denominator
    /// bound can cover every remap, since rebased denominators absorb
    /// the numerator of the old basis extent).
    pub fn recalculate_strokes_relative_to(&mut self, from: &RectQ, to: &RectQ)
        requires
            old(self).wf(),
            from.wf(),
            to.wf(),
        ensures
            final(self).wf(),
            *final(self) == (PaintingApp { frames: final(self).frames, ..*old(self) }),
            final(self).frames@.len() == old(self).frames@.len(),
            !(from.positive() && to.positive()) ==> final(self).frames == old(self).frames,
            from.positive() && to.positive() ==> frames_rebased(
                old(self).frames@,
                final(self).frames@,
                *from,
                *to,
                false,
            ),
            from.positive() && to.positive() && small_int_rect(*from) && small_int_rect(*to)
                && frames_points_small(old(self).frames@) ==> frames_rebased(
                old(self).frames@,
                final(self).frames@,
                *from,
                *to,
                true,
            ),
    {
        let from_ok = from.is_positive();
        let to_ok = to.is_positive();
        if !(from_ok && to_ok) {
            return;
        }
        let mut g: Vec<Vec<Stroke>> = Vec::new();
        let n = self.frames.len();
        for i in 0..n
            invariant
                n == self.frames@.len(),
                g@.len() == i,
                frames_wf(self.frames@),
                from.wf(),
                to.wf(),
                from.positive(),
                to.positive(),
                forall|j: int| 0 <= j < i ==> frame_wf((#[trigger] g@[j])@),
                forall|j: int|
                    0 <= j < i ==> frame_rebased(
                        self.frames@[j]@,
                        (#[trigger] g@[j])@,
                        *from,
                        *to,
                        false,
                    ),
                forall|j: int|
                    0 <= j < i && small_int_rect(*from) && small_int_rect(*to) && (forall|k: int|
                        0 <= k < self.frames@[j]@.len() ==> stroke_points_small(
                            #[trigger] self.frames@[j]@[k],
                        )) ==> frame_rebased(
                        self.frames@[j]@,
                        (#[trigger] g@[j])@,
                        *from,
                        *to,
                        true,
                    ),
        {
            g.push(rebase_frame(&self.frames[i], from, to));
        }
        self.frames = g;
    }
}

/// How one recording of state `pre` leaves the two history stacks. With
/// no known basis the operation is deferred and both stacks are
/// untouched. Otherwise the redo stack is cleared entirely, a deep
/// snapshot of the frames with the current basis is pushed onto the undo
/// stack, and when the stack was already at its cap the oldest entry —
/// and no other — is evicted.
pub open spec fn recorded(
    pre: PaintingApp,
    post_undo: Seq<HistoryEntry>,
    post_redo: Seq<HistoryEntry>,
) -> bool {
    match pre.original_canvas_rect {
        None => post_undo == pre.undo_history@ && post_redo == pre.redo_history@,
        Some(basis) => {
            let shift: int = if pre.undo_history@.len() < UNDO_CAP {
                0int
            } else {
                1int
            };
            &&& post_redo.len() == 0
            &&& post_undo.len() == if pre.undo_history@.len() < UNDO_CAP {
                pre.undo_history@.len() + 1 as int
            } else {
                UNDO_CAP as int
            }
            &&& forall|i: int|
                0 <= i < post_undo.len() - 1 ==> #[trigger] post_undo[i]
                    == pre.undo_history@[i + shift]
            &&& post_undo[post_undo.len() - 1].model() == (frames_model(pre.frames@), basis)
        },
    }
}

/// The undo stack never exceeds its cap: a recording from a state within
/// the cap stays within the cap, and a recording from a full stack keeps
/// the depth and shifts out exactly the oldest entry.
pub proof fn lemma_undo_depth_bounded(
    pre: PaintingApp,
    post_undo: Seq<HistoryEntry>,
    post_redo: Seq<HistoryEntry>,
)
    requires
        recorded(pre, post_undo, post_redo),
        pre.undo_history@.len() <= UNDO_CAP,
    ensures
        post_undo.len() <= UNDO_CAP,
        pre.original_canvas_rect is Some && pre.undo_history@.len() == UNDO_CAP ==> forall|
            i: int,
        |
            0 <= i < UNDO_CAP - 1 ==> #[trigger] post_undo[i] == pre.undo_history@[i + 1],
{
}

/// Recording a fresh mutation clears the redo stack entirely, whatever
/// it held: redo history never survives a new edit.
pub proof fn lemma_record_clears_redo(
    pre: PaintingApp,
    post_undo: Seq<HistoryEntry>,
    post_redo: Seq<HistoryEntry>,
)
    requires
        recorded(pre, post_undo, post_redo),
        pre.original_canvas_rect is Some,
    ensures
        post_redo.len() == 0,
{
}

impl PaintingApp {
    /// Records the current state for undo: pushes a deep snapshot of the
    /// frames with the current basis onto the undo stack (evicting the
    /// oldest entry beyond the cap) and clears the redo stack. With no
    /// basis known yet the operation is deferred and nothing changes.
    pub fn save_state_for_undo(&mut self)
        requires
            old(self).wf(),
        ensures
            final(self).wf(),
            recorded(*old(self), final(self).undo_history@, final(self).redo_history@),
            *final(self) == (PaintingApp {
                undo_history: final(self).undo_history,
                redo_history: final(self).redo_history,
                ..*old(self)
            }),
    {
        match self.original_canvas_rect {
            Some(basis) => {
                let snap = copy_frames(&self.frames);
                self.undo_history.push(HistoryEntry { frames: snap, basis });
                self.redo_history = Vec::new();
                if self.undo_history.len() > UNDO_CAP {
                    self.undo_history.remove(0);
                }
            },
            None => {},
        }
    }

    /// Undoes the most recent recorded mutation: pops the newest undo
    /// entry, pushes the present state onto the redo stack, restores the
    /// popped frames, and rebases them from the entry's own stored basis
    /// to the live canvas rectangle so they render correctly at the
    /// present geometry. A no-op when the undo stack is empty or no
    /// basis is known.
    pub fn undo(&mut self)
        requires
            old(self).wf(),
        ensures
            final(self).wf(),
            old(self).undo_history@.len() == 0 ==> *final(self) == *old(self),
            old(self).original_canvas_rect is None ==> *final(self) == *old(self),
            old(self).undo_history@.len() > 0 ==> (old(
                self,
            ).original_canvas_rect matches Some(cur) ==> ({
                let entry = old(self).undo_history@.last();
                &&& final(self).undo_history@ == old(self).undo_history@.drop_last()
                &&& final(self).redo_history@.len() == old(self).redo_history@.len() + 1
                &&& forall|i: int|
                    0 <= i < old(self).redo_history@.len()
                        ==> #[trigger] final(self).redo_history@[i] == old(
                        self,
                    ).redo_history@[i]
                &&& final(self).redo_history@.last().model() == (
                    frames_model(old(self).frames@),
                    cur,
                )
                &&& match old(self).canvas_rect {
                    Some(live) => {
                        &&& final(self).original_canvas_rect == Some(live)
                        &&& entry.basis.positive() && live.positive() ==> frames_rebased(
                            entry.frames@,
                            final(self).frames@,
                            entry.basis,
                            live,
                            false,
                        )
                        &&& !(entry.basis.positive() && live.positive()) ==> final(self).frames
                            == entry.frames
                        &&& entry.basis.positive() && live.positive() && small_int_rect(
                            entry.basis,
                        ) && small_int_rect(live) && frames_points_small(entry.frames@)
                            ==> frames_rebased(
                            entry.frames@,
                            final(self).frames@,
                            entry.basis,
                            live,
                            true,
                        )
                    },
                    None => {
                        &&& final(self).original_canvas_rect == Some(entry.basis)
                        &&& final(self).frames == entry.frames
                    },
                }
                &&& *final(self) == (PaintingApp {
                    frames: final(self).frames,
                    undo_history: final(self).undo_history,
                    redo_history: final(self).redo_history,
                    original_canvas_rect: final(self).original_canvas_rect,
                    ..*old(self)
                })
            })),
    {
        if self.undo_history.len() == 0 {
            return;
        }
        match self.original_canvas_rect {
            None => {
                return;
            },
            Some(cur) => {
                let entry = match self.undo_history.pop() {
                    Some(e) => e,
                    None => {
                        return;
                    },
                };
                let snap = copy_frames(&self.frames);
                self.redo_history.push(HistoryEntry { frames: snap, basis: cur });
                self.frames = entry.frames;
                match self.canvas_rect {
                    Some(live) => {
                        self.recalculate_strokes_relative_to(&entry.basis, &live);
                        self.original_canvas_rect = Some(live);
                    },
                    None => {
                        self.original_canvas_rect = Some(entry.basis);
                    },
                }
            },
        }
    }

    /// Redoes the most recently undone mutation: pops the newest redo
    /// entry, pushes the present state onto the undo stack, restores the
    /// popped frames, and rebases them from the entry's stored basis to
    /// the live canvas rectangle. A no-op when the redo stack is empty
    /// or no basis is known.
    pub fn redo(&mut self)
        requires
            old(self).wf(),
        ensures
            final(self).wf(),
            old(self).redo_history@.len() == 0 ==> *final(self) == *old(self),
            old(self).original_canvas_rect is None ==> *final(self) == *old(self),
            old(self).redo_history@.len() > 0 ==> (old(
                self,
            ).original_canvas_rect matches Some(cur) ==> ({
                let entry = old(self).redo_history@.last();
                &&& final(self).redo_history@ == old(self).redo_history@.drop_last()
                &&& final(self).undo_history@.len() == old(self).undo_history@.len() + 1
                &&& forall|i: int|
                    0 <= i < old(self).undo_history@.len()
                        ==> #[trigger] final(self).undo_history@[i] == old(
                        self,
                    ).undo_history@[i]
                &&& final(self).undo_history@.last().model() == (
                    frames_model(old(self).frames@),
                    cur,
                )
                &&& match old(self).canvas_rect {
                    Some(live) => {
                        &&& final(self).original_canvas_rect == Some(live)
                        &&& entry.basis.positive() && live.positive() ==> frames_rebased(
                            entry.frames@,
                            final(self).frames@,
                            entry.basis,
                            live,
                            false,
                        )
                        &&& !(entry.basis.positive() && live.positive()) ==> final(self).frames
                            == entry.frames
                        &&& entry.basis.positive() && live.positive() && small_int_rect(
                            entry.basis,
                        ) && small_int_rect(live) && frames_points_small(entry.frames@)
                            ==> frames_rebased(
                            entry.frames@,
                            final(self).frames@,
                            entry.basis,
                            live,
                            true,
                        )
                    },
                    None => {
                        &&& final(self).original_canvas_rect == Some(entry.basis)
                        &&& final(self).frames == entry.frames
                    },
                }
                &&& *final(self) == (PaintingApp {
                    frames: final(self).frames,
                    undo_history: final(self).undo_history,
                    redo_history: final(self).redo_history,
                    original_canvas_rect: final(self).original_canvas_rect,
                    ..*old(self)
                })
            })),
    {
        if self.redo_history.len() == 0 {
            return;
        }
        match self.original_canvas_rect {
            None => {
                return;
            },
            Some(cur) => {
                let entry = match self.redo_history.pop() {
                    Some(e) => e,
                    None => {
                        return;
                    },
                };
                let snap = copy_frames(&self.frames);
                self.undo_history.push(HistoryEntry { frames: snap, basis: cur });
                self.frames = entry.frames;
                match self.canvas_rect {
                    Some(live) => {
                        self.recalculate_strokes_relative_to(&entry.basis, &live);
                        self.original_canvas_rect = Some(live);
                    },
                    None => {
                        self.original_canvas_rect = Some(entry.basis);
                    },
                }
            },
        }
    }
}

impl PaintingApp {
    /// Copies the current frame to the clipboard slot.
    pub fn copy_current_frame(&mut self)
        requires
            old(self).wf(),
        ensures
            final(self).wf(),
            final(self).copied_frame matches Some(f) && frame_model(f@) == frame_model(
                old(self).frames@[old(self).current_frame as int]@,
            ),
            *final(self) == (PaintingApp {
                copied_frame: final(self).copied_frame,
                ..*old(self)
            }),
    {
        let snap = copy_frame(&self.frames[self.current_frame]);
        self.copied_frame = Some(snap);
    }

    /// Pastes the clipboard slot over the current frame, recording the
    /// previous state for undo first. A no-op when nothing was copied.
    pub fn paste_to_current_frame(&mut self)
        requires
            old(self).wf(),
        ensures
            final(self).wf(),
            old(self).copied_frame is None ==> *final(self) == *old(self),
            old(self).copied_frame matches Some(c) ==> ({
                &&& recorded(*old(self), final(self).undo_history@, final(self).redo_history@)
                &&& frame_model(final(self).frames@[old(self).current_frame as int]@)
                    == frame_model(c@)
                &&& final(self).frames@.len() == FRAME_COUNT
                &&& forall|i: int|
                    0 <= i < FRAME_COUNT && i != old(self).current_frame
                        ==> #[trigger] final(self).frames@[i] == old(self).frames@[i]
                &&& *final(self) == (PaintingApp {
                    frames: final(self).frames,
                    undo_history: final(self).undo_history,
                    redo_history: final(self).redo_history,
                    ..*old(self)
                })
            }),
    {
        let frame = match &self.copied_frame {
            Some(c) => Some(copy_frame(c)),
            None => None,
        };
        match frame {
            Some(f) => {
                self.save_state_for_undo();
                self.frames.set(self.current_frame, f);
            },
            None => {},
        }
    }

    /// Clears the current frame, recording the previous state for undo
    /// first.
    pub fn clear_current_frame(&mut self)
        requires
            old(self).wf(),
        ensures
            final(self).wf(),
            recorded(*old(self), final(self).undo_history@, final(self).redo_history@),
            final(self).frames@[old(self).current_frame as int]@.len() == 0,
            final(self).frames@.len() == FRAME_COUNT,
            forall|i: int|
                0 <= i < FRAME_COUNT && i != old(self).current_frame ==> #[trigger] final(self).frames@[i] == old(self).frames@[i],
            *final(self) == (PaintingApp {
                frames: final(self).frames,
                undo_history: final(self).undo_history,
                redo_history: final(self).redo_history,
                ..*old(self)
            }),
    {
        self.save_state_for_undo();
        self.frames.set(self.current_frame, Vec::new());
    }

    /// Clears every frame and returns to the first one, recording the
    /// previous state for undo first.
    pub fn reset_all_frames(&mut self)
        requires
            old(self).wf(),
        ensures
            final(self).wf(),
            recorded(*old(self), final(self).undo_history@, final(self).redo_history@),
            final(self).current_frame == 0,
            final(self).frames@.len() == FRAME_COUNT,
            forall|i: int|
                0 <= i < FRAME_COUNT ==> (#[trigger] final(self).frames@[i])@.len() == 0,
            *final(self) == (PaintingApp {
                frames: final(self).frames,
                current_frame: 0,
                undo_history: final(self).undo_history,
                redo_history: final(self).redo_history,
                ..*old(self)
            }),
    {
        self.save_state_for_undo();
        self.current_frame = 0;
        let mut fs: Vec<Vec<Stroke>> = Vec::new();
        for i in 0..FRAME_COUNT
            invariant
                fs@.len() == i,
                forall|j: int| 0 <= j < i ==> (#[trigger] fs@[j])@.len() == 0,
        {
            fs.push(Vec::new());
        }
        self.frames = fs;
    }
}

/// The two strokes hold the same style and pointwise the same coordinate
/// values.
pub open spec fn stroke_same_value(s: Stroke, t: Stroke) -> bool {
    &&& t.color == s.color
    &&& t.size == s.size
    &&& t.stroke_type == s.stroke_type
    &&& t.points@.len() == s.points@.len()
    &&& forall|j: int|
        0 <= j < s.points@.len() ==> (#[trigger] t.points@[j]).same_value(s.points@[j])
}

/// The two frames hold the same strokes, by value, in order.
pub open spec fn frame_same_value(f: Seq<Stroke>, g: Seq<Stroke>) -> bool {
    &&& g.len() == f.len()
    &&& forall|i: int| 0 <= i < f.len() ==> stroke_same_value(f[i], #[trigger] g[i])
}

/// The two frame sets hold the same content, by value, in order.
pub open spec fn frames_same_value(fs: Seq<Vec<Stroke>>, gs: Seq<Vec<Stroke>>) -> bool {
    &&& gs.len() == fs.len()
    &&& forall|i: int| 0 <= i < fs.len() ==> frame_same_value(fs[i]@, (#[trigger] gs[i])@)
}

/// Rebasing between two bases that hold the same rectangle values is a
/// no-op: every rebased frame set holds exactly the values it started
/// with.
pub proof fn lemma_frames_rebase_identity(
    fs: Seq<Vec<Stroke>>,
    gs: Seq<Vec<Stroke>>,
    a: RectQ,
    b: RectQ,
)
    requires
        frames_wf(fs),
        frames_wf(gs),
        a.wf(),
        b.wf(),
        a.positive(),
        a.same_value(b),
        frames_rebased(fs, gs, a, b, true),
    ensures
        frames_same_value(fs, gs),
{
    assert forall|i: int| 0 <= i < fs.len() implies frame_same_value(
        fs[i]@,
        (#[trigger] gs[i])@,
    ) by {
        assert forall|j: int| 0 <= j < fs[i]@.len() implies stroke_same_value(
            fs[i]@[j],
            #[trigger] gs[i]@[j],
        ) by {
            let s = fs[i]@[j];
            let t = gs[i]@[j];
            assert forall|k: int| 0 <= k < s.points@.len() implies (
            #[trigger] t.points@[k]).same_value(s.points@[k]) by {
                assert(s.wf() && t.wf());
                assert(s.points@[k].wf() && t.points@[k].wf());
                crate::geom::lemma_rebase_identity(s.points@[k], t.points@[k], a, b);
            }
        }
    }
}

/// Rebasing a frame set from basis `a` to basis `b` and back to `a`
/// restores every coordinate value exactly, for any non-degenerate
/// rectangles, whenever both remaps are exact — that is, whenever every
/// remapped coordinate is `i64`-representable, which the rebasing
/// engine's contract guarantees for small integer geometry.
pub proof fn lemma_frames_rebase_round_trip(
    fs: Seq<Vec<Stroke>>,
    gs: Seq<Vec<Stroke>>,
    hs: Seq<Vec<Stroke>>,
    a: RectQ,
    b: RectQ,
)
    requires
        frames_wf(fs),
        frames_wf(gs),
        frames_wf(hs),
        a.wf(),
        b.wf(),
        a.positive(),
        b.positive(),
        frames_rebased(fs, gs, a, b, true),
        frames_rebased(gs, hs, b, a, true),
    ensures
        frames_same_value(fs, hs),
{
    assert forall|i: int| 0 <= i < fs.len() implies frame_same_value(
        fs[i]@,
        (#[trigger] hs[i])@,
    ) by {
        assert forall|j: int| 0 <= j < fs[i]@.len() implies stroke_same_value(
            fs[i]@[j],
            #[trigger] hs[i]@[j],
        ) by {
            let s = fs[i]@[j];
            let t = gs[i]@[j];
            let u = hs[i]@[j];
            assert forall|k: int| 0 <= k < s.points@.len() implies (
            #[trigger] u.points@[k]).same_value(s.points@[k]) by {
                assert(s.wf() && t.wf() && u.wf());
                assert(s.points@[k].wf() && t.points@[k].wf() && u.points@[k].wf());
                crate::geom::lemma_rebase_round_trip(
                    s.points@[k],
                    t.points@[k],
                    u.points@[k],
                    a,
                    b,
                );
            }
        }
    }
}

/// The quantized x coordinate of a point.
pub open spec fn qx(p: PointQ) -> int {
    fixed_of(p.x.rv())
}

/// The quantized y coordinate of a point.
pub open spec fn qy(p: PointQ) -> int {
    fixed_of(p.y.rv())
}

/// The eraser hits a stroke when any of its points, or any of its
/// consecutive segments, lies within the eraser radius of the eraser
/// position — all in quantized coordinates.
pub open spec fn stroke_hit(s: Stroke, px: int, py: int, r: int) -> bool {
    ||| exists|j: int|
        0 <= j < s.points@.len() && point_within_spec(
            qx(#[trigger] s.points@[j]),
            qy(s.points@[j]),
            px,
            py,
            r,
        )
    ||| exists|j: int|
        0 <= j && j + 1 < s.points@.len() && segment_within_spec(
            px,
            py,
            qx(#[trigger] s.points@[j]),
            qy(s.points@[j]),
            qx(s.points@[j + 1]),
            qy(s.points@[j + 1]),
            r,
        )
}

/// Whether the eraser at quantized position `(px, py)` with radius `r`
/// hits the stroke; total and exact.
fn stroke_hit_exec(s: &Stroke, px: i64, py: i64, r: i64) -> (b: bool)
    requires
        s.wf(),
        fixed_bounded(px as int),
        fixed_bounded(py as int),
        0 <= r <= 0x40000000,
    ensures
        b == stroke_hit(*s, px as int, py as int, r as int),
{
    let n = s.points.len();
    for j in 0..n
        invariant
            n == s.points@.len(),
            s.wf(),
            fixed_bounded(px as int),
            fixed_bounded(py as int),
            0 <= r <= 0x40000000,
            forall|i: int|
                0 <= i < j ==> !point_within_spec(
                    qx(#[trigger] s.points@[i]),
                    qy(s.points@[i]),
                    px as int,
                    py as int,
                    r as int,
                ),
    {
        let p = s.points[j];
        let f = p.to_fixed();
        if point_within(f.0, f.1, px, py, r) {
            return true;
        }
    }
    if n >= 2 {
        for j in 0..n - 1
            invariant
                n == s.points@.len(),
                n >= 2,
                s.wf(),
                fixed_bounded(px as int),
                fixed_bounded(py as int),
                0 <= r <= 0x40000000,
                forall|i: int|
                    0 <= i < n ==> !point_within_spec(
                        qx(#[trigger] s.points@[i]),
                        qy(s.points@[i]),
                        px as int,
                        py as int,
                        r as int,
                    ),
                forall|i: int|
                    0 <= i < j ==> !segment_within_spec(
                        px as int,
                        py as int,
                        qx(#[trigger] s.points@[i]),
                        qy(s.points@[i]),
                        qx(s.points@[i + 1]),
                        qy(s.points@[i + 1]),
                        r as int,
                    ),
        {
            let v = s.points[j];
            let w = s.points[j + 1];
            let fv = v.to_fixed();
            let fw = w.to_fixed();
            if segment_within(px, py, fv.0, fv.1, fw.0, fw.1, r) {
                return true;
            }
        }
    }
    false
}

/// Filtering a sequence extended by one element keeps the filtered
/// prefix and appends the element exactly when it passes the predicate.
proof fn lemma_filter_snoc<A>(s: Seq<A>, e: A, pred: spec_fn(A) -> bool)
    ensures
        s.push(e).filter(pred) == if pred(e) {
            s.filter(pred).push(e)
        } else {
            s.filter(pred)
        },
{
    reveal(Seq::filter);
    assert(s.push(e).drop_last() =~= s);
    assert(s.push(e).last() == e);
}

/// The content of a frame extended by one stroke is the content of the
/// frame followed by that stroke's content.
pub proof fn lemma_frame_model_push(f: Seq<Stroke>, s: Stroke)
    ensures
        frame_model(f.push(s)) == frame_model(f).push(s.model()),
{
    assert(frame_model(f.push(s)) =~= frame_model(f).push(s.model()));
}

/// The strokes of a frame that survive an eraser touch: exactly those
/// the eraser does not hit, in their original order.
pub open spec fn erase_kept(f: Seq<Stroke>, px: int, py: int, r: int) -> Seq<Stroke> {
    f.filter(|s: Stroke| !stroke_hit(s, px, py, r))
}

/// The eraser at `pos` with quantized radius `radius` hits some stroke of
/// the current frame.
pub open spec fn erase_hits(pre: PaintingApp, pos: PointQ, radius: int) -> bool {
    exists|j: int|
        0 <= j < pre.frames@[pre.current_frame as int]@.len() && stroke_hit(
            #[trigger] pre.frames@[pre.current_frame as int]@[j],
            qx(pos),
            qy(pos),
            radius,
        )
}

/// What one eraser touch at `pos` with quantized radius `radius` does to
/// the application: when nothing is hit, nothing changes and no history
/// is recorded; otherwise the prior state is recorded for undo and the
/// current frame keeps exactly the strokes the eraser does not hit.
pub open spec fn erase_applied(
    pre: PaintingApp,
    post: PaintingApp,
    pos: PointQ,
    radius: int,
) -> bool {
    &&& !erase_hits(pre, pos, radius) ==> post == pre
    &&& erase_hits(pre, pos, radius) ==> ({
        &&& recorded(pre, post.undo_history@, post.redo_history@)
        &&& frame_model(post.frames@[pre.current_frame as int]@) == frame_model(
            erase_kept(pre.frames@[pre.current_frame as int]@, qx(pos), qy(pos), radius),
        )
        &&& post.frames@.len() == FRAME_COUNT
        &&& forall|i: int|
            0 <= i < FRAME_COUNT && i != pre.current_frame ==> #[trigger] post.frames@[i]
                == pre.frames@[i]
        &&& post == (PaintingApp {
            frames: post.frames,
            undo_history: post.undo_history,
            redo_history: post.redo_history,
            ..pre
        })
    })
}

impl PaintingApp {
    /// Removes from the current frame every stroke that the eraser at
    /// `pos` with the given quantized radius hits — by a point or by a
    /// segment — per [`erase_applied`]; returns whether anything was hit.
    pub fn erase_strokes_at_position(&mut self, pos: &PointQ, radius: i64) -> (hit: bool)
        requires
            old(self).wf(),
            pos.wf(),
            0 <= radius <= 0x40000000,
        ensures
            final(self).wf(),
            hit == erase_hits(*old(self), *pos, radius as int),
            erase_applied(*old(self), *final(self), *pos, radius as int),
    {
        let pf = pos.to_fixed();
        let px = pf.0;
        let py = pf.1;
        let ghost f0 = self.frames@[self.current_frame as int]@;
        let mut any = false;
        let n = self.frames[self.current_frame].len();
        for j in 0..n
            invariant
                self.wf(),
                n == self.frames@[self.current_frame as int]@.len(),
                f0 == self.frames@[self.current_frame as int]@,
                fixed_bounded(px as int),
                fixed_bounded(py as int),
                px == qx(*pos),
                py == qy(*pos),
                0 <= radius <= 0x40000000,
                any == exists|i: int|
                    0 <= i < j && stroke_hit(
                        #[trigger] f0[i],
                        px as int,
                        py as int,
                        radius as int,
                    ),
        {
            if !any {
                if stroke_hit_exec(&self.frames[self.current_frame][j], px, py, radius) {
                    any = true;
                }
            }
        }
        if !any {
            return false;
        }
        self.save_state_for_undo();
        let mut kept: Vec<Stroke> = Vec::new();
        let ghost pred = |s: Stroke| !stroke_hit(s, px as int, py as int, radius as int);
        for j in 0..n
            invariant
                self.wf(),
                n == self.frames@[self.current_frame as int]@.len(),
                f0 == self.frames@[self.current_frame as int]@,
                fixed_bounded(px as int),
                fixed_bounded(py as int),
                0 <= radius <= 0x40000000,
                pred == (|s: Stroke| !stroke_hit(s, px as int, py as int, radius as int)),
                frame_model(kept@) == frame_model(f0.take(j as int).filter(pred)),
                frame_wf(kept@),
        {
            proof {
                assert(f0.take(j + 1) =~= f0.take(j as int).push(f0[j as int]));
                lemma_filter_snoc(f0.take(j as int), f0[j as int], pred);
            }
            if !stroke_hit_exec(&self.frames[self.current_frame][j], px, py, radius) {
                let ghost kept0 = kept@;
                let dup = self.frames[self.current_frame][j].duplicate();
                kept.push(dup);
                proof {
                    assert(pred(f0[j as int]));
                    assert(f0.take(j + 1).filter(pred) == f0.take(j as int).filter(pred).push(
                        f0[j as int],
                    ));
                    lemma_frame_model_push(kept0, dup);
                    lemma_frame_model_push(f0.take(j as int).filter(pred), f0[j as int]);
                    assert(frame_model(kept@) == frame_model(f0.take(j + 1).filter(pred)));
                }
            } else {
                proof {
                    assert(!pred(f0[j as int]));
                    assert(frame_model(kept@) =~= frame_model(f0.take(j + 1).filter(pred)));
                }
            }
        }
        proof {
            assert(f0.take(n as int) =~= f0);
        }
        self.frames.set(self.current_frame, kept);
        true
    }
}

} // verus!
