//! Text-editing core: a grapheme-aware row buffer with cursor and selection,
//! row and glyph geometry derived from shaped text, scrolling and hit testing.
use vstd::prelude::*;

pub mod layout;
pub mod model;
pub mod rgbabuffer;
pub mod segment;
pub mod textedit;

verus! {

} // verus!
