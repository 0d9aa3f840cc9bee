//! Core of a touchscreen drawing and animation kiosk: a decoder that turns a
//! raw absolute-position multi-touch event stream into ordered touch lifecycle
//! events, a canvas-relative stroke model with an affine rebasing engine that
//! keeps recorded strokes stable across canvas geometry changes, and a bounded
//! undo/redo history that carries rebasing information with each snapshot.
//!
//! All geometry is exact: coordinates are rational numbers, so rebasing is a
//! pure remap with no rounding drift.

pub mod frac;
pub mod geom;
pub mod input;
pub mod stroke;
pub mod utils;
pub mod canvas;
pub mod app;
