//! Glyphs: which one, where, and what it looks like once drawn.

use vstd::prelude::*;

verus! {

/// Which font of the fallback chain a glyph came from.
pub type FontIndex = u16;

/// A glyph's index within its font.
pub type GlyphIndex = u16;

/// How far a glyph sits from the pen position, in quarters of a pixel, y upwards.
#[derive(Clone, Copy, Debug, Default, PartialEq, Eq, Hash)]
pub struct Offset {
    pub x: i16,
    pub y: i16,
}

impl Offset {
    /// No offset at all: the glyph sits at the pen position.
    pub fn zero() -> (r: Offset)
        ensures
            r.x == 0 && r.y == 0,
    {
        Offset { x: 0, y: 0 }
    }
}

/// Everything that distinguishes one drawn glyph from another. Two glyphs with the same key are
/// the same picture at the same place with the same advance, so they can share one codepoint.
#[derive(Clone, Copy, Debug, PartialEq, Eq, Hash)]
pub struct GlyphKey {
    pub font: FontIndex,
    pub glyph: GlyphIndex,
    pub offset: Offset,
    /// How far the pen moves after this glyph, in whole pixels.
    pub advance: i16,
    /// Whether the glyph was shaped right to left.
    pub rtl: bool,
}

/// Two offsets that agree as 16 bit patterns agree as numbers.
proof fn lemma_bits_of_i16(a: i16, b: i16)
    requires
        a as u16 == b as u16,
    ensures
        a == b,
{
    assert(a as u16 == b as u16 ==> a == b) by (bit_vector);
}

/// Six fields laid side by side in one 128 bit value can be told apart again.
proof fn lemma_glyph_fields_pack(
    f1: u16,
    g1: u16,
    x1: u16,
    y1: u16,
    a1: u16,
    r1: u128,
    f2: u16,
    g2: u16,
    x2: u16,
    y2: u16,
    a2: u16,
    r2: u128,
)
    requires
        r1 < 2,
        r2 < 2,
        ((f1 as u128) << 65u128) | ((g1 as u128) << 49u128) | ((x1 as u128) << 33u128) | ((
        y1 as u128) << 17u128) | ((a1 as u128) << 1u128) | r1 == ((f2 as u128) << 65u128) | ((
        g2 as u128) << 49u128) | ((x2 as u128) << 33u128) | ((y2 as u128) << 17u128) | ((
        a2 as u128) << 1u128) | r2,
    ensures
        f1 == f2 && g1 == g2 && x1 == x2 && y1 == y2 && a1 == a2 && r1 == r2,
{
    assert(r1 < 2 && r2 < 2 && ((f1 as u128) << 65u128) | ((g1 as u128) << 49u128) | ((
    x1 as u128) << 33u128) | ((y1 as u128) << 17u128) | ((a1 as u128) << 1u128) | r1 == ((
    f2 as u128) << 65u128) | ((g2 as u128) << 49u128) | ((x2 as u128) << 33u128) | ((
    y2 as u128) << 17u128) | ((a2 as u128) << 1u128) | r2 ==> f1 == f2 && g1 == g2 && x1 == x2
        && y1 == y2 && a1 == a2 && r1 == r2) by (bit_vector);
}

/// Four fields laid side by side in one 64 bit value can be told apart again.
proof fn lemma_raster_fields_pack(
    f1: u16,
    g1: u16,
    x1: u16,
    y1: u16,
    f2: u16,
    g2: u16,
    x2: u16,
    y2: u16,
)
    requires
        ((f1 as u64) << 48u64) | ((g1 as u64) << 32u64) | ((x1 as u64) << 16u64) | (y1 as u64)
            == ((f2 as u64) << 48u64) | ((g2 as u64) << 32u64) | ((x2 as u64) << 16u64) | (
        y2 as u64),
    ensures
        f1 == f2 && g1 == g2 && x1 == x2 && y1 == y2,
{
    assert(((f1 as u64) << 48u64) | ((g1 as u64) << 32u64) | ((x1 as u64) << 16u64) | (
    y1 as u64) == ((f2 as u64) << 48u64) | ((g2 as u64) << 32u64) | ((x2 as u64) << 16u64) | (
    y2 as u64) ==> f1 == f2 && g1 == g2 && x1 == x2 && y1 == y2) by (bit_vector);
}

impl GlyphKey {
    /// The key as one number, for use as a hash table key.
    pub open spec fn packed_spec(self) -> u128 {
        ((self.font as u128) << 65u128) | ((self.glyph as u128) << 49u128) | ((
        self.offset.x as u16 as u128) << 33u128) | ((self.offset.y as u16 as u128) << 17u128)
            | ((self.advance as u16 as u128) << 1u128) | (if self.rtl {
            1u128
        } else {
            0u128
        })
    }

    /// The key as one number, for use as a hash table key.
    pub fn packed(&self) -> (p: u128)
        ensures
            p == self.packed_spec(),
    {
        ((self.font as u128) << 65) | ((self.glyph as u128) << 49) | ((self.offset.x as u16
            as u128) << 33) | ((self.offset.y as u16 as u128) << 17) | ((self.advance as u16
            as u128) << 1) | (if self.rtl {
            1u128
        } else {
            0u128
        })
    }

    /// Different keys pack into different numbers.
    pub proof fn lemma_packed_injective(a: GlyphKey, b: GlyphKey)
        ensures
            a.packed_spec() == b.packed_spec() ==> a == b,
    {
        if a.packed_spec() == b.packed_spec() {
            lemma_glyph_fields_pack(
                a.font,
                a.glyph,
                a.offset.x as u16,
                a.offset.y as u16,
                a.advance as u16,
                if a.rtl {
                    1u128
                } else {
                    0u128
                },
                b.font,
                b.glyph,
                b.offset.x as u16,
                b.offset.y as u16,
                b.advance as u16,
                if b.rtl {
                    1u128
                } else {
                    0u128
                },
            );
            lemma_bits_of_i16(a.offset.x, b.offset.x);
            lemma_bits_of_i16(a.offset.y, b.offset.y);
            lemma_bits_of_i16(a.advance, b.advance);
        }
    }

    /// What a drawn picture of this glyph depends on: its advance and direction change no pixel.
    pub open spec fn raster_key(self) -> RasterKey {
        RasterKey { font: self.font, glyph: self.glyph, offset: self.offset }
    }
}

/// What a drawn picture depends on. Glyphs that differ only in advance or direction share one
/// drawing.
#[derive(Clone, Copy, Debug, PartialEq, Eq, Hash)]
pub struct RasterKey {
    pub font: FontIndex,
    pub glyph: GlyphIndex,
    pub offset: Offset,
}

impl RasterKey {
    /// The drawing key of a glyph key.
    pub fn from_key(key: &GlyphKey) -> (r: RasterKey)
        ensures
            r == key.raster_key(),
    {
        RasterKey { font: key.font, glyph: key.glyph, offset: key.offset }
    }

    /// The key as one number, for use as a hash table key.
    pub open spec fn packed_spec(self) -> u64 {
        ((self.font as u64) << 48u64) | ((self.glyph as u64) << 32u64) | ((
        self.offset.x as u16 as u64) << 16u64) | (self.offset.y as u16 as u64)
    }

    /// The key as one number, for use as a hash table key.
    pub fn packed(&self) -> (p: u64)
        ensures
            p == self.packed_spec(),
    {
        ((self.font as u64) << 48) | ((self.glyph as u64) << 32) | ((self.offset.x as u16
            as u64) << 16) | (self.offset.y as u16 as u64)
    }

    /// Different keys pack into different numbers.
    pub proof fn lemma_packed_injective(a: RasterKey, b: RasterKey)
        ensures
            a.packed_spec() == b.packed_spec() ==> a == b,
    {
        if a.packed_spec() == b.packed_spec() {
            lemma_raster_fields_pack(
                a.font,
                a.glyph,
                a.offset.x as u16,
                a.offset.y as u16,
                b.font,
                b.glyph,
                b.offset.x as u16,
                b.offset.y as u16,
            );
            lemma_bits_of_i16(a.offset.x, b.offset.x);
            lemma_bits_of_i16(a.offset.y, b.offset.y);
        }
    }
}

/// The glyph a codepoint draws as when nothing has shaped it.
#[derive(Clone, Copy, Debug, PartialEq, Eq)]
pub struct PlainGlyph {
    pub font: FontIndex,
    pub glyph: GlyphIndex,
    /// The font's own advance for it, in whole pixels.
    pub advance: i16,
}

/// A glyph drawn into a signed distance field.
#[derive(Clone, Debug, Default, PartialEq, Eq)]
pub struct RasterGlyph {
    /// The size of the glyph itself. The bitmap is `2 * GLYPH_BORDER` larger in each direction.
    pub width: u32,
    pub height: u32,
    /// From the pen position to the left edge of the glyph.
    pub left: i32,
    /// From the top edge of the glyph up to the baseline.
    pub bearing_y: i32,
    /// The padded distance field, or empty for a glyph with nothing to draw, such as a space.
    pub bitmap: Vec<u8>,
}

impl RasterGlyph {
    /// A glyph with nothing to draw.
    pub fn blank() -> (r: Self)
        ensures
            r.width == 0,
            r.height == 0,
            r.left == 0,
            r.bearing_y == 0,
            r.bitmap@ == Seq::<u8>::empty(),
    {
        RasterGlyph { width: 0, height: 0, left: 0, bearing_y: 0, bitmap: Vec::new() }
    }

    /// Whether there is nothing to draw.
    pub fn is_blank(&self) -> (r: bool)
        ensures
            r == (self.bitmap@.len() == 0),
    {
        self.bitmap.len() == 0
    }
}

} // verus!
