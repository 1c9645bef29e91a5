//! Display-width aware string primitives and a bordered grid renderer.
//!
//! The crate measures terminal display width of text that may carry ANSI
//! styling escape sequences, wide Unicode glyphs and tabs, truncates and pads
//! such text without disturbing the escape sequences, and lays out a matrix of
//! cells into a bordered table per a configurable style.

pub mod ansi;
pub mod grid;
pub mod strings;
pub mod style;
pub mod width;
