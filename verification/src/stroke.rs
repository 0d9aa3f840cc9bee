//! Strokes: ordered point lists with a color, a width and a kind. A
//! stroke belongs to exactly one frame; once finalized it changes only
//! through rebasing, which rewrites its coordinates in place.

use crate::frac::Frac;
use crate::geom::PointQ;
use vstd::prelude::*;

verus! {

/// A color in 8-bit red, green, blue and alpha channels.
#[derive(Clone, Copy, Debug, PartialEq, Eq, Structural)]
pub struct ColorRgba {
    pub r: u8,
    pub g: u8,
    pub b: u8,
    pub a: u8,
}

impl ColorRgba {
    /// Opaque black, the default brush color.
    pub fn black() -> (c: ColorRgba)
        ensures
            c == (ColorRgba { r: 0, g: 0, b: 0, a: 255 }),
    {
        ColorRgba { r: 0, g: 0, b: 0, a: 255 }
    }
}

/// The kind of a stroke.
#[derive(Clone, Copy, Debug, PartialEq, Eq, Structural)]
pub enum StrokeType {
    Draw,
}

impl Default for StrokeType {
    /// The default stroke kind is a drawn line.
    fn default() -> (r: StrokeType)
        ensures
            r == StrokeType::Draw,
    {
        StrokeType::Draw
    }
}

/// One stroke: its points in canvas-pixel space, in drawing order, with
/// the brush color and width it was drawn with.
#[derive(Debug)]
pub struct Stroke {
    pub points: Vec<PointQ>,
    pub color: ColorRgba,
    pub size: Frac,
    pub stroke_type: StrokeType,
}

/// The mathematical content of a stroke: its point sequence and style.
pub type StrokeModel = (Seq<PointQ>, ColorRgba, Frac, StrokeType);

impl Stroke {
    /// Width and every point are well-formed rationals.
    pub open spec fn wf(self) -> bool {
        &&& self.size.wf()
        &&& forall|i: int| 0 <= i < self.points@.len() ==> (#[trigger] self.points@[i]).wf()
    }

    /// The stroke's content, for deep comparisons.
    pub open spec fn model(self) -> StrokeModel {
        (self.points@, self.color, self.size, self.stroke_type)
    }

    /// An exact copy of the stroke.
    pub fn duplicate(&self) -> (r: Stroke)
        ensures
            r.model() == self.model(),
    {
        Stroke {
            points: copy_points(&self.points),
            color: self.color,
            size: self.size,
            stroke_type: self.stroke_type,
        }
    }
}

impl Default for Stroke {
    /// An empty drawn stroke in black with unit width.
    fn default() -> (r: Stroke)
        ensures
            r.wf(),
            r.points@.len() == 0,
            r.color == (ColorRgba { r: 0, g: 0, b: 0, a: 255 }),
            r.size.rv() == (1int, 1int),
            r.stroke_type == StrokeType::Draw,
    {
        Stroke {
            points: Vec::new(),
            color: ColorRgba::black(),
            size: Frac::from_int(1),
            stroke_type: StrokeType::Draw,
        }
    }
}

/// An exact copy of a point list.
pub fn copy_points(v: &Vec<PointQ>) -> (r: Vec<PointQ>)
    ensures
        r@ == v@,
{
    let mut r: Vec<PointQ> = Vec::new();
    let n = v.len();
    for i in 0..n
        invariant
            n == v@.len(),
            r@ == v@.take(i as int),
    {
        r.push(v[i]);
        proof {
            assert(v@.take(i + 1) =~= v@.take(i as int).push(v@[i as int]));
        }
    }
    proof {
        assert(v@.take(n as int) =~= v@);
    }
    r
}

/// The content of every stroke of a frame, in order.
pub open spec fn frame_model(f: Seq<Stroke>) -> Seq<StrokeModel> {
    f.map(|i: int, s: Stroke| s.model())
}

/// Every stroke of the frame is well-formed.
pub open spec fn frame_wf(f: Seq<Stroke>) -> bool {
    forall|i: int| 0 <= i < f.len() ==> (#[trigger] f[i]).wf()
}

/// The content of every frame of an animation, in order.
pub open spec fn frames_model(fs: Seq<Vec<Stroke>>) -> Seq<Seq<StrokeModel>> {
    fs.map(|i: int, f: Vec<Stroke>| frame_model(f@))
}

/// Every stroke of every frame is well-formed.
pub open spec fn frames_wf(fs: Seq<Vec<Stroke>>) -> bool {
    forall|i: int| 0 <= i < fs.len() ==> frame_wf((#[trigger] fs[i])@)
}

/// An exact copy of a frame.
pub fn copy_frame(f: &Vec<Stroke>) -> (r: Vec<Stroke>)
    ensures
        frame_model(r@) == frame_model(f@),
        r@.len() == f@.len(),
        frame_wf(f@) ==> frame_wf(r@),
{
    let mut r: Vec<Stroke> = Vec::new();
    let n = f.len();
    for i in 0..n
        invariant
            n == f@.len(),
            r@.len() == i,
            frame_model(r@) == frame_model(f@.take(i as int)),
            forall|j: int| 0 <= j < i ==> (#[trigger] r@[j]).model() == f@[j].model(),
            forall|j: int| 0 <= j < i && f@[j].wf() ==> (#[trigger] r@[j]).wf(),
    {
        r.push(f[i].duplicate());
        proof {
            assert(frame_model(r@) =~= frame_model(f@.take(i + 1)));
        }
    }
    proof {
        assert(f@.take(n as int) =~= f@);
        assert(frame_model(r@) =~= frame_model(f@));
    }
    r
}

/// An exact copy of the whole frame set.
pub fn copy_frames(fs: &Vec<Vec<Stroke>>) -> (r: Vec<Vec<Stroke>>)
    ensures
        frames_model(r@) == frames_model(fs@),
        r@.len() == fs@.len(),
        frames_wf(fs@) ==> frames_wf(r@),
{
    let mut r: Vec<Vec<Stroke>> = Vec::new();
    let n = fs.len();
    for i in 0..n
        invariant
            n == fs@.len(),
            r@.len() == i,
            forall|j: int| 0 <= j < i ==> frame_model((#[trigger] r@[j])@) == frame_model(
                fs@[j]@,
            ),
            forall|j: int| 0 <= j < i && frame_wf(fs@[j]@) ==> frame_wf((#[trigger] r@[j])@),
    {
        r.push(copy_frame(&fs[i]));
    }
    proof {
        assert(frames_model(r@) =~= frames_model(fs@));
    }
    r
}

} // verus!
