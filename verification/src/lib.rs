//! Complex-script shaping support for MapLibre GL JS: the bookkeeping that turns shaped glyphs
//! into private-use codepoints and back, the glyph protocol buffer writer, splitting text into
//! runs of one direction, script and font, choosing fonts from a fallback chain, deciding when a
//! shaped run can stay characters, and putting shaped, line-broken text into reading order.

pub mod constants;
pub mod encoding;
pub mod glyph;
pub mod pbf;
pub mod glyph_pbf;
pub mod allocator;
pub mod bidi;
pub mod chars;
pub mod text;
pub mod registry;
pub mod reorder;
pub mod script;
pub mod segment;
pub mod fallback;
pub mod shaped_run;
