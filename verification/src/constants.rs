//! The fixed numbers of MapLibre's text pipeline, and of the codepoint pool shaped glyphs are
//! allocated from.

use vstd::prelude::*;

verus! {

/// The padding a glyph bitmap carries on every side (`GLYPH_PBF_BORDER` in MapLibre).
pub const GLYPH_BORDER: i32 = 3;

/// A glyph's `top` metric is measured down from an origin this many pixels above the baseline
/// rather than from the baseline itself.
pub const TOP_ORIGIN: i32 = 26;

/// Glyphs are fetched in blocks of this many codepoints: the `{range}` of a `glyphs` URL.
pub const RANGE_SIZE: u32 = 256;

/// The first codepoint of plane 15, where the supplementary private use areas begin.
pub const POOL_START: u32 = 0xF_0000;

/// The last codepoint of plane 16 that a string may contain.
pub const POOL_END: u32 = 0x10_FFFD;

/// Codepoints inside the pool's span that no string may contain.
pub const NONCHARACTERS: [u32; 2] = [0xF_FFFE, 0xF_FFFF];

/// Whether `codepoint` is one of the two noncharacters inside the pool's span.
pub open spec fn is_noncharacter(codepoint: u32) -> bool {
    codepoint == 0xF_FFFEu32 || codepoint == 0xF_FFFFu32
}

/// Whether a codepoint lies in the pool's span.
pub open spec fn in_pool(codepoint: u32) -> bool {
    POOL_START <= codepoint <= POOL_END
}

/// Whether a codepoint belongs to the pool rather than standing for a character.
pub fn is_pool_codepoint(codepoint: u32) -> (r: bool)
    ensures
        r == in_pool(codepoint),
{
    POOL_START <= codepoint && codepoint <= POOL_END
}

} // verus!
