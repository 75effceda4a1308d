//! Stacked-text generator: overlays each character of one line with a
//! combining glyph chosen by a character of a second line, and encodes the
//! two lines into a shareable URL fragment.

use vstd::prelude::*;

pub mod fragment;
pub mod generator;
pub mod split;
pub mod table;

verus! {

/// The two raw input strings: the overlay line (whose characters select
/// combining glyphs) and the base line (whose characters are emitted).
pub struct InputPair {
    pub overlay: String,
    pub base: String,
}

} // verus!
