//! Track sizing for a two-dimensional grid: columns and rows are given as
//! automatic or percentage tracks, resolved against a viewport, and turned
//! into cell rectangles.
//!
//! All lengths are exact rationals ([`Fraction`]): every track on one axis is
//! expressed over a common denominator, so the resolved sizes add up exactly.

pub mod track;
pub mod grid;

pub use track::{
    CellSize, Fraction, MAX_TRACKS, resolve_tracks,
};
pub use grid::{Layout, LayoutBuilder};
