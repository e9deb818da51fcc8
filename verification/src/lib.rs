//! Conversion of guitar-tab style song sheets into a normalized,
//! position-accurate sequence of text and chord nodes.
//!
//! Two source dialects are supported: an inline bracket-chord dialect and a
//! two-line chord-above-lyric dialect. Parsing, line segmentation, chord
//! realignment, enharmonic normalization and transposition are all verified;
//! network fetching, DOM extraction and document rendering live outside the
//! library.

pub mod align;
pub mod hints;
pub mod laws;
pub mod lines;
pub mod model;
pub mod parse;
pub mod strutil;
pub mod supermusic;
pub mod transpose;
pub mod ultimate_guitar;
