//! The touch decoder: a pure state machine that turns a raw stream of
//! absolute-position axis events into ordered touch lifecycle events.
//!
//! One decoder serves one device. The surrounding program reads raw events
//! from the device on a background thread, feeds them through
//! [`TouchDecoder::decode_batch`], and forwards the emitted [`TouchInput`]
//! values over a channel to the drawing surface.

use crate::frac::Frac;
use crate::geom::{norm_range, PointQ};
use vstd::prelude::*;

verus! {

/// One raw event from an absolute-position multi-touch device: a tracking
/// id change, a position sample on either axis, or a synchronization
/// marker, each with its device-native integer value.
#[derive(Clone, Copy, Debug)]
pub enum RawAxisEvent {
    TrackingId(i32),
    PositionX(i32),
    PositionY(i32),
    Sync,
}

/// The device value that reports a lifted touch on the tracking channel.
pub const TRACKING_LIFTED: i32 = -1;

/// Calibration of one absolute axis; well-formed when `max > min`.
#[derive(Clone, Copy, Debug)]
pub struct AxisRange {
    pub min: i32,
    pub max: i32,
}

impl AxisRange {
    /// The range is non-degenerate.
    pub open spec fn wf(self) -> bool {
        self.max > self.min
    }

    /// The normalized coordinate `(raw - min) / (max - min)`, as an exact
    /// rational.
    pub open spec fn normalized(self, raw: i32) -> Frac {
        Frac { num: (raw - self.min) as i64, den: (self.max - self.min) as i64 }
    }

    /// A reported calibration with the unit range substituted when the
    /// report is degenerate (`max <= min`).
    pub open spec fn sanitized(min: i32, max: i32) -> AxisRange {
        if max > min {
            AxisRange { min, max }
        } else {
            AxisRange { min: 0, max: 1 }
        }
    }

    /// Accepts a reported calibration, substituting the unit range when
    /// the report is degenerate, so that normalization never divides by
    /// zero.
    pub fn sanitize(min: i32, max: i32) -> (r: AxisRange)
        ensures
            r.wf(),
            r == Self::sanitized(min, max),
    {
        if max > min {
            AxisRange { min, max }
        } else {
            AxisRange { min: 0, max: 1 }
        }
    }

    /// Normalizes a raw sample; the result is exact and within the
    /// decoder's normalized range.
    pub fn normalize(&self, raw: i32) -> (f: Frac)
        requires
            self.wf(),
        ensures
            f == self.normalized(raw),
            f.wf(),
            norm_range(f),
    {
        Frac { num: raw as i64 - self.min as i64, den: self.max as i64 - self.min as i64 }
    }
}

/// The phase of a touch lifecycle event. For every touch-id generation,
/// exactly one `Began` precedes any `Moved`, and one `Ended` terminates
/// it, possibly synthesized when the hardware reuses the tracking slot.
#[derive(Clone, Copy, Debug, PartialEq, Eq, Structural)]
pub enum TouchState {
    Began,
    Moved,
    Ended,
}

/// One decoded touch event: a touch id, a normalized position, and the
/// lifecycle phase. Positions may transiently lie outside the unit square
/// when the device reports out-of-calibration samples.
#[derive(Clone, Copy, Debug)]
pub struct TouchInput {
    pub id: u32,
    pub pos: PointQ,
    pub state: TouchState,
}

impl TouchInput {
    /// The position is a well-formed pair of normalized coordinates.
    pub open spec fn wf(self) -> bool {
        self.pos.wf() && norm_range(self.pos.x) && norm_range(self.pos.y)
    }
}

/// The lifecycle slot of the decoder: either no touch is active, or one
/// touch is active and its `Began` has or has not yet been emitted
/// (`begun` false means a `Began` is pending for the next sync marker).
#[derive(Clone, Copy, Debug, PartialEq, Eq, Structural)]
pub enum ActiveTouch {
    Idle,
    Touching { id: u32, begun: bool },
}

/// The decoder for one device: axis calibration, the lifecycle slot, and
/// the last position assembled from per-axis samples.
#[derive(Clone, Copy, Debug)]
pub struct TouchDecoder {
    pub range_x: AxisRange,
    pub range_y: AxisRange,
    pub active: ActiveTouch,
    pub pos: PointQ,
}

impl TouchDecoder {
    /// Ranges are non-degenerate and the assembled position stays within
    /// the normalized range.
    pub open spec fn wf(self) -> bool {
        &&& self.range_x.wf()
        &&& self.range_y.wf()
        &&& self.pos.wf()
        &&& norm_range(self.pos.x)
        &&& norm_range(self.pos.y)
    }

    /// A decoder with the given (sanitized) calibration, no active touch,
    /// and position at the axis origin.
    pub fn new(min_x: i32, max_x: i32, min_y: i32, max_y: i32) -> (r: TouchDecoder)
        ensures
            r.wf(),
            r.range_x == AxisRange::sanitized(min_x, max_x),
            r.range_y == AxisRange::sanitized(min_y, max_y),
            r.active == ActiveTouch::Idle,
            r.pos.x.rv() == (0int, 1int),
            r.pos.y.rv() == (0int, 1int),
    {
        TouchDecoder {
            range_x: AxisRange::sanitize(min_x, max_x),
            range_y: AxisRange::sanitize(min_y, max_y),
            active: ActiveTouch::Idle,
            pos: PointQ::from_ints(0, 0),
        }
    }
}

/// What one raw event does to the decoder: the successor state and the
/// touch events emitted, in order.
pub open spec fn step_spec(s: TouchDecoder, ev: RawAxisEvent) -> (TouchDecoder, Seq<TouchInput>) {
    match ev {
        RawAxisEvent::TrackingId(v) => {
            if v == TRACKING_LIFTED {
                match s.active {
                    ActiveTouch::Touching { id, begun } => (
                        TouchDecoder { active: ActiveTouch::Idle, ..s },
                        seq![TouchInput { id, pos: s.pos, state: TouchState::Ended }],
                    ),
                    ActiveTouch::Idle => (s, seq![]),
                }
            } else {
                let new_id = v as u32;
                let adopted = TouchDecoder {
                    active: ActiveTouch::Touching { id: new_id, begun: false },
                    ..s
                };
                match s.active {
                    ActiveTouch::Touching { id, begun } => {
                        if id != new_id {
                            (
                                adopted,
                                seq![TouchInput { id, pos: s.pos, state: TouchState::Ended }],
                            )
                        } else {
                            (adopted, seq![])
                        }
                    },
                    ActiveTouch::Idle => (adopted, seq![]),
                }
            }
        },
        RawAxisEvent::PositionX(raw) => (
            TouchDecoder { pos: PointQ { x: s.range_x.normalized(raw), ..s.pos }, ..s },
            seq![],
        ),
        RawAxisEvent::PositionY(raw) => (
            TouchDecoder { pos: PointQ { y: s.range_y.normalized(raw), ..s.pos }, ..s },
            seq![],
        ),
        RawAxisEvent::Sync => {
            match s.active {
                ActiveTouch::Touching { id, begun } => {
                    if begun {
                        (s, seq![TouchInput { id, pos: s.pos, state: TouchState::Moved }])
                    } else {
                        (
                            TouchDecoder {
                                active: ActiveTouch::Touching { id, begun: true },
                                ..s
                            },
                            seq![
                                TouchInput { id, pos: s.pos, state: TouchState::Began },
                                TouchInput { id, pos: s.pos, state: TouchState::Moved },
                            ],
                        )
                    }
                },
                ActiveTouch::Idle => (s, seq![]),
            }
        },
    }
}

/// Folds [`step_spec`] over a sequence of raw events, concatenating the
/// emissions in order.
pub open spec fn decode_seq(s: TouchDecoder, evs: Seq<RawAxisEvent>) -> (
    TouchDecoder,
    Seq<TouchInput>,
)
    decreases evs.len(),
{
    if evs.len() == 0 {
        (s, seq![])
    } else {
        let first = step_spec(s, evs[0]);
        let rest = decode_seq(first.0, evs.skip(1));
        (rest.0, first.1 + rest.1)
    }
}

impl TouchDecoder {
    /// Feeds one raw event through the decoder, returning the touch
    /// events it emits, in order, exactly as [`step_spec`] says.
    pub fn step(&mut self, ev: RawAxisEvent) -> (out: Vec<TouchInput>)
        requires
            old(self).wf(),
        ensures
            final(self).wf(),
            *final(self) == step_spec(*old(self), ev).0,
            out@ == step_spec(*old(self), ev).1,
            forall|i: int| 0 <= i < out@.len() ==> (#[trigger] out@[i]).wf(),
    {
        let mut out: Vec<TouchInput> = Vec::new();
        match ev {
            RawAxisEvent::TrackingId(v) => {
                if v == TRACKING_LIFTED {
                    match self.active {
                        ActiveTouch::Touching { id, begun } => {
                            out.push(
                                TouchInput { id, pos: self.pos, state: TouchState::Ended },
                            );
                            self.active = ActiveTouch::Idle;
                        },
                        ActiveTouch::Idle => {},
                    }
                } else {
                    let new_id = v as u32;
                    match self.active {
                        ActiveTouch::Touching { id, begun } => {
                            if id != new_id {
                                out.push(
                                    TouchInput { id, pos: self.pos, state: TouchState::Ended },
                                );
                            }
                        },
                        ActiveTouch::Idle => {},
                    }
                    self.active = ActiveTouch::Touching { id: new_id, begun: false };
                }
            },
            RawAxisEvent::PositionX(raw) => {
                self.pos.x = self.range_x.normalize(raw);
            },
            RawAxisEvent::PositionY(raw) => {
                self.pos.y = self.range_y.normalize(raw);
            },
            RawAxisEvent::Sync => {
                match self.active {
                    ActiveTouch::Touching { id, begun } => {
                        if !begun {
                            out.push(
                                TouchInput { id, pos: self.pos, state: TouchState::Began },
                            );
                            out.push(
                                TouchInput { id, pos: self.pos, state: TouchState::Moved },
                            );
                            self.active = ActiveTouch::Touching { id, begun: true };
                        } else {
                            out.push(
                                TouchInput { id, pos: self.pos, state: TouchState::Moved },
                            );
                        }
                    },
                    ActiveTouch::Idle => {},
                }
            },
        }
        out
    }

    /// Feeds a whole batch of raw events through the decoder, returning
    /// every touch event emitted, in emission order.
    pub fn decode_batch(&mut self, evs: &Vec<RawAxisEvent>) -> (out: Vec<TouchInput>)
        requires
            old(self).wf(),
        ensures
            final(self).wf(),
            *final(self) == decode_seq(*old(self), evs@).0,
            out@ == decode_seq(*old(self), evs@).1,
            forall|i: int| 0 <= i < out@.len() ==> (#[trigger] out@[i]).wf(),
    {
        let ghost s0 = *self;
        let mut out: Vec<TouchInput> = Vec::new();
        let n = evs.len();
        for i in 0..n
            invariant
                n == evs@.len(),
                self.wf(),
                *self == decode_seq(s0, evs@.take(i as int)).0,
                out@ == decode_seq(s0, evs@.take(i as int)).1,
                forall|j: int| 0 <= j < out@.len() ==> (#[trigger] out@[j]).wf(),
        {
            let step_out = self.step(evs[i]);
            out.append(&mut { step_out });
            proof {
                lemma_decode_seq_snoc(s0, evs@.take(i as int), evs@[i as int]);
                assert(evs@.take(i + 1) =~= evs@.take(i as int).push(evs@[i as int]));
            }
        }
        proof {
            assert(evs@.take(n as int) =~= evs@);
        }
        out
    }
}

/// Unfolds [`decode_seq`] at the tail: decoding `evs` and then one more
/// event is decoding `evs.push(ev)`.
pub proof fn lemma_decode_seq_snoc(s: TouchDecoder, evs: Seq<RawAxisEvent>, ev: RawAxisEvent)
    ensures
        decode_seq(s, evs.push(ev)).0 == step_spec(decode_seq(s, evs).0, ev).0,
        decode_seq(s, evs.push(ev)).1 == decode_seq(s, evs).1 + step_spec(
            decode_seq(s, evs).0,
            ev,
        ).1,
    decreases evs.len(),
{
    if evs.len() == 0 {
        let s1 = step_spec(s, ev).0;
        assert(evs.push(ev)[0] == ev);
        assert(evs.push(ev).skip(1) =~= Seq::<RawAxisEvent>::empty());
        assert(decode_seq(s1, Seq::<RawAxisEvent>::empty()).0 == s1);
        assert(decode_seq(s1, Seq::<RawAxisEvent>::empty()).1 == Seq::<TouchInput>::empty());
        assert(decode_seq(s, evs.push(ev)).0 == s1);
        assert(decode_seq(s, evs.push(ev)).1 =~= decode_seq(s, evs).1 + step_spec(
            decode_seq(s, evs).0,
            ev,
        ).1);
    } else {
        let s1 = step_spec(s, evs[0]).0;
        lemma_decode_seq_snoc(s1, evs.skip(1), ev);
        assert(evs.push(ev)[0] == evs[0]);
        assert(evs.push(ev).skip(1) =~= evs.skip(1).push(ev));
        assert(decode_seq(s, evs.push(ev)).1 =~= decode_seq(s, evs).1 + step_spec(
            decode_seq(s, evs).0,
            ev,
        ).1);
    }
}

/// No tracking-id event occurs in the sequence.
pub open spec fn no_tracking(evs: Seq<RawAxisEvent>) -> bool {
    forall|i: int| 0 <= i < evs.len() ==> !((#[trigger] evs[i]) is TrackingId)
}

/// Decoding a concatenation decodes the first part, then the second from
/// the state the first one left, with the emissions in order.
pub proof fn lemma_decode_seq_append(s: TouchDecoder, a: Seq<RawAxisEvent>, b: Seq<
    RawAxisEvent,
>)
    ensures
        decode_seq(s, a + b).0 == decode_seq(decode_seq(s, a).0, b).0,
        decode_seq(s, a + b).1 == decode_seq(s, a).1 + decode_seq(decode_seq(s, a).0, b).1,
    decreases a.len(),
{
    if a.len() == 0 {
        assert(a + b =~= b);
        assert(decode_seq(s, a).0 == s);
        assert(decode_seq(s, a).1 + decode_seq(s, b).1 =~= decode_seq(s, b).1);
    } else {
        let s1 = step_spec(s, a[0]).0;
        lemma_decode_seq_append(s1, a.skip(1), b);
        assert((a + b)[0] == a[0]);
        assert((a + b).skip(1) =~= a.skip(1) + b);
        assert(decode_seq(s, a + b).1 =~= decode_seq(s, a).1 + decode_seq(
            decode_seq(s, a).0,
            b,
        ).1);
    }
}

/// While a touch is active and begun, raw events without a tracking-id
/// change keep it active and begun, and everything emitted is a `Moved`
/// for that touch.
pub proof fn lemma_moving_phase(s: TouchDecoder, id: u32, evs: Seq<RawAxisEvent>)
    requires
        s.active == (ActiveTouch::Touching { id, begun: true }),
        no_tracking(evs),
    ensures
        decode_seq(s, evs).0.active == (ActiveTouch::Touching { id, begun: true }),
        forall|i: int|
            0 <= i < decode_seq(s, evs).1.len() ==> (#[trigger] decode_seq(s, evs).1[i]).id
                == id && decode_seq(s, evs).1[i].state == TouchState::Moved,
    decreases evs.len(),
{
    if evs.len() > 0 {
        assert(!(evs[0] is TrackingId));
        let s1 = step_spec(s, evs[0]).0;
        assert(no_tracking(evs.skip(1))) by {
            assert(forall|i: int|
                0 <= i < evs.skip(1).len() ==> evs.skip(1)[i] == evs[i + 1]);
        }
        lemma_moving_phase(s1, id, evs.skip(1));
    }
}

/// While a `Began` is pending, position samples emit nothing; the first
/// sync marker emits the `Began` (at the position assembled so far) and
/// an initial `Moved` at the same position, and everything after is a
/// `Moved` for the same touch.
pub proof fn lemma_pending_phase(s: TouchDecoder, id: u32, evs: Seq<RawAxisEvent>, k: int)
    requires
        s.active == (ActiveTouch::Touching { id, begun: false }),
        no_tracking(evs),
        0 <= k < evs.len(),
        evs[k] is Sync,
        forall|j: int| 0 <= j < k ==> !((#[trigger] evs[j]) is Sync),
    ensures
        decode_seq(s, evs).0.active == (ActiveTouch::Touching { id, begun: true }),
        decode_seq(s, evs).1.len() >= 2,
        decode_seq(s, evs).1[0] == (TouchInput {
            id,
            pos: decode_seq(s, evs.take(k)).0.pos,
            state: TouchState::Began,
        }),
        decode_seq(s, evs).1[1] == (TouchInput {
            id,
            pos: decode_seq(s, evs.take(k)).0.pos,
            state: TouchState::Moved,
        }),
        forall|i: int|
            1 <= i < decode_seq(s, evs).1.len() ==> (#[trigger] decode_seq(s, evs).1[i]).id
                == id && decode_seq(s, evs).1[i].state == TouchState::Moved,
    decreases k,
{
    let s1 = step_spec(s, evs[0]).0;
    assert(no_tracking(evs.skip(1))) by {
        assert(forall|i: int| 0 <= i < evs.skip(1).len() ==> evs.skip(1)[i] == evs[i + 1]);
    }
    if k == 0 {
        assert(s1.active == (ActiveTouch::Touching { id, begun: true }));
        lemma_moving_phase(s1, id, evs.skip(1));
        assert(evs.take(0) =~= Seq::<RawAxisEvent>::empty());
        assert(decode_seq(s, evs.take(0)).0.pos == s.pos);
        assert(step_spec(s, evs[0]).1.len() == 2);
    } else {
        assert(!(evs[0] is Sync) && !(evs[0] is TrackingId));
        assert(s1.active == (ActiveTouch::Touching { id, begun: false }));
        assert(step_spec(s, evs[0]).1 =~= Seq::<TouchInput>::empty());
        assert(forall|j: int|
            0 <= j < k - 1 ==> !((#[trigger] evs.skip(1)[j]) is Sync)) by {
            assert(forall|j: int|
                0 <= j < evs.skip(1).len() ==> evs.skip(1)[j] == evs[j + 1]);
        }
        assert(evs.skip(1)[k - 1] == evs[k]);
        lemma_pending_phase(s1, id, evs.skip(1), k - 1);
        assert(decode_seq(s, evs).1 =~= decode_seq(s1, evs.skip(1)).1);
        assert(evs.take(k)[0] == evs[0]);
        assert(evs.take(k).skip(1) =~= evs.skip(1).take(k - 1));
        assert(decode_seq(s, evs.take(k)).0.pos == decode_seq(s1, evs.skip(1).take(k - 1)).0.pos);
    }
}

/// One full lifted-id cycle — a tracking id assigned from idle, any
/// position samples and sync markers (at least one sync), then the id
/// lifted — emits exactly one `Began`, then zero or more `Moved`, then
/// exactly one `Ended`, in that order, all for that id. The `Began`
/// carries the first position synchronized after the assignment (and is
/// followed at once by a `Moved` at the same position); the `Ended`
/// carries the last known position. `k` names the index of the first
/// sync marker.
pub proof fn lemma_single_touch_cycle(s: TouchDecoder, v: i32, mid: Seq<RawAxisEvent>, k: int)
    requires
        s.active == ActiveTouch::Idle,
        v != TRACKING_LIFTED,
        no_tracking(mid),
        0 <= k < mid.len(),
        mid[k] is Sync,
        forall|j: int| 0 <= j < k ==> !((#[trigger] mid[j]) is Sync),
    ensures
        ({
            let evs = seq![RawAxisEvent::TrackingId(v)] + mid + seq![
                RawAxisEvent::TrackingId(TRACKING_LIFTED),
            ];
            let out = decode_seq(s, evs).1;
            let s1 = step_spec(s, RawAxisEvent::TrackingId(v)).0;
            &&& out.len() >= 3
            &&& out[0] == (TouchInput {
                id: v as u32,
                pos: decode_seq(s1, mid.take(k)).0.pos,
                state: TouchState::Began,
            })
            &&& out[1] == (TouchInput {
                id: v as u32,
                pos: decode_seq(s1, mid.take(k)).0.pos,
                state: TouchState::Moved,
            })
            &&& out[out.len() - 1] == (TouchInput {
                id: v as u32,
                pos: decode_seq(s1, mid).0.pos,
                state: TouchState::Ended,
            })
            &&& forall|i: int|
                1 <= i < out.len() - 1 ==> (#[trigger] out[i]).id == v as u32 && out[i].state
                    == TouchState::Moved
        }),
{
    let id = v as u32;
    let t0 = seq![RawAxisEvent::TrackingId(v)];
    let tl = seq![RawAxisEvent::TrackingId(TRACKING_LIFTED)];
    let s1 = step_spec(s, RawAxisEvent::TrackingId(v)).0;
    // Decoding the single adoption event: no emission, id adopted.
    assert(t0.skip(1) =~= Seq::<RawAxisEvent>::empty());
    assert(decode_seq(s1, Seq::<RawAxisEvent>::empty()).0 == s1);
    assert(decode_seq(s, t0).0 == s1);
    assert(decode_seq(s, t0).1 =~= Seq::<TouchInput>::empty());
    assert(s1.active == (ActiveTouch::Touching { id, begun: false }));
    // The middle phase emits Began, Moved, then only Moved events.
    lemma_pending_phase(s1, id, mid, k);
    let smid = decode_seq(s1, mid).0;
    let mid_out = decode_seq(s1, mid).1;
    // The lift: one Ended at the last known position.
    assert(tl.skip(1) =~= Seq::<RawAxisEvent>::empty());
    let send = step_spec(smid, RawAxisEvent::TrackingId(TRACKING_LIFTED)).0;
    assert(decode_seq(send, Seq::<RawAxisEvent>::empty()).0 == send);
    assert(decode_seq(smid, tl).1 =~= seq![
        TouchInput { id, pos: smid.pos, state: TouchState::Ended },
    ]);
    // Assemble the whole cycle.
    lemma_decode_seq_append(s, t0, mid);
    lemma_decode_seq_append(s, t0 + mid, tl);
    let evs = t0 + mid + tl;
    assert(decode_seq(s, evs).1 =~= mid_out + seq![
        TouchInput { id, pos: smid.pos, state: TouchState::Ended },
    ]);
}

/// If a new tracking id arrives while another touch is still active, the
/// decoder ends the old touch at its last known position strictly before
/// any event for the new id: the `Ended` for the old id is the first
/// event emitted, whatever follows.
pub proof fn lemma_touch_reuse_ends_previous(
    s: TouchDecoder,
    old_id: u32,
    begun: bool,
    v: i32,
    rest: Seq<RawAxisEvent>,
)
    requires
        s.active == (ActiveTouch::Touching { id: old_id, begun }),
        v != TRACKING_LIFTED,
        v as u32 != old_id,
    ensures
        ({
            let out = decode_seq(s, seq![RawAxisEvent::TrackingId(v)] + rest).1;
            &&& out.len() >= 1
            &&& out[0] == (TouchInput { id: old_id, pos: s.pos, state: TouchState::Ended })
            &&& forall|i: int|
                0 <= i < out.len() && (#[trigger] out[i]).id == v as u32 ==> i >= 1
        }),
{
    let t0 = seq![RawAxisEvent::TrackingId(v)];
    let s1 = step_spec(s, RawAxisEvent::TrackingId(v)).0;
    assert(t0.skip(1) =~= Seq::<RawAxisEvent>::empty());
    assert(decode_seq(s1, Seq::<RawAxisEvent>::empty()).0 == s1);
    assert(decode_seq(s, t0).1 =~= seq![
        TouchInput { id: old_id, pos: s.pos, state: TouchState::Ended },
    ]);
    lemma_decode_seq_append(s, t0, rest);
    let out = decode_seq(s, t0 + rest).1;
    assert(out[0] == (TouchInput { id: old_id, pos: s.pos, state: TouchState::Ended }));
}

} // verus!
