//! Flat encodings for the values that cross into JavaScript.
//!
//! Everything here is a plain array of numbers rather than an object graph: crossing the boundary
//! is the expensive part, and these are crossed per label and per glyph block.

use vstd::prelude::*;

use crate::constants::{POOL_END, POOL_START};
use crate::glyph::{GlyphKey, Offset, RasterGlyph};
use crate::text::{InspectedGlyph, VisualLine};

verus! {

/// How many 32 bit integers one glyph entry takes.
pub const ENTRY_WIDTH: usize = 7;

/// The first and last codepoint of the pool, so that a caller can size its own share of it
/// without writing the numbers down.
pub fn codepoint_pool() -> (pool: Vec<u32>)
    ensures
        pool@ == seq![POOL_START, POOL_END],
{
    let mut pool = Vec::new();
    pool.push(POOL_START);
    pool.push(POOL_END);
    assert(pool@ =~= seq![POOL_START, POOL_END]);
    pool
}

/// The width of one entry of the glyph encoding, in 32 bit integers.
pub fn glyph_entry_width() -> (width: usize)
    ensures
        width == 7,
{
    ENTRY_WIDTH
}

/// `true` as 1 and `false` as 0.
pub open spec fn flag(value: bool) -> i32 {
    if value {
        1
    } else {
        0
    }
}

/// One glyph entry: `[codepoint, font, glyph, dx, dy, advance, rtl]`, the codepoint as the 32
/// bit pattern it is.
pub open spec fn glyph_entry(codepoint: u32, key: GlyphKey) -> Seq<i32> {
    seq![
        codepoint as i32,
        key.font as i32,
        key.glyph as i32,
        key.offset.x as i32,
        key.offset.y as i32,
        key.advance as i32,
        flag(key.rtl),
    ]
}

/// Every entry, one after another.
pub open spec fn glyph_entries(entries: Seq<(u32, GlyphKey)>) -> Seq<i32>
    decreases entries.len(),
{
    if entries.len() == 0 {
        Seq::empty()
    } else {
        glyph_entries(entries.drop_last()) + glyph_entry(entries.last().0, entries.last().1)
    }
}

/// One glyph entry read back.
pub open spec fn decoded_entry(entry: Seq<i32>) -> (u32, GlyphKey) {
    (
        entry[0] as u32,
        GlyphKey {
            font: entry[1] as u16,
            glyph: entry[2] as u16,
            offset: Offset { x: entry[3] as i16, y: entry[4] as i16 },
            advance: entry[5] as i16,
            rtl: entry[6] != 0,
        },
    )
}

/// Every whole entry read back; a partial entry at the end is ignored.
pub open spec fn decoded_entries(entries: Seq<i32>) -> Seq<(u32, GlyphKey)> {
    Seq::new(
        entries.len() / 7,
        |i: int| decoded_entry(entries.subrange(7 * i, 7 * i + 7)),
    )
}

/// `[codepoint, font, glyph, dx, dy, advance, rtl]` per entry.
pub fn encode_glyph_entries(entries: Vec<(u32, GlyphKey)>) -> (out: Vec<i32>)
    ensures
        out@ == glyph_entries(entries@),
{
    let mut out: Vec<i32> = Vec::new();
    let mut index: usize = 0;
    while index < entries.len()
        invariant
            0 <= index <= entries@.len(),
            out@ == glyph_entries(entries@.take(index as int)),
        decreases entries@.len() - index,
    {
        let (codepoint, key) = entries[index];
        out.push(codepoint as i32);
        out.push(key.font as i32);
        out.push(key.glyph as i32);
        out.push(key.offset.x as i32);
        out.push(key.offset.y as i32);
        out.push(key.advance as i32);
        out.push(if key.rtl {
            1
        } else {
            0
        });
        assert(entries@.take(index + 1).drop_last() =~= entries@.take(index as int));
        assert(out@ =~= glyph_entries(entries@.take(index + 1)));
        index += 1;
    }
    assert(entries@.take(entries@.len() as int) =~= entries@);
    out
}

/// Reads glyph entries back, seven integers at a time.
pub fn decode_glyph_entries(entries: &[i32]) -> (decoded: Vec<(u32, GlyphKey)>)
    ensures
        decoded@ == decoded_entries(entries@),
{
    let mut decoded: Vec<(u32, GlyphKey)> = Vec::new();
    let count = entries.len() / ENTRY_WIDTH;
    let mut index: usize = 0;
    while index < count
        invariant
            count == entries@.len() / 7,
            entries@.len() <= usize::MAX,
            0 <= index <= count,
            decoded@.len() == index,
            forall|i: int|
                0 <= i < index ==> #[trigger] decoded@[i] == decoded_entry(
                    entries@.subrange(7 * i, 7 * i + 7),
                ),
        decreases count - index,
    {
        assert(index * 7 + 7 <= entries@.len()) by (nonlinear_arith)
            requires
                index < entries@.len() / 7,
        ;
        let at = index * 7;
        let entry = (
            entries[at] as u32,
            GlyphKey {
                font: entries[at + 1] as u16,
                glyph: entries[at + 2] as u16,
                offset: Offset { x: entries[at + 3] as i16, y: entries[at + 4] as i16 },
                advance: entries[at + 5] as i16,
                rtl: entries[at + 6] != 0,
            },
        );
        assert(entry == decoded_entry(entries@.subrange(7 * index, 7 * index + 7)));
        decoded.push(entry);
        index += 1;
    }
    assert(decoded@ =~= decoded_entries(entries@));
    decoded
}

/// Reading back the entries a registry reported gives back exactly those entries, which is what
/// lets another instance register what this one allocated.
pub proof fn lemma_glyph_entries_roundtrip(entries: Seq<(u32, GlyphKey)>)
    ensures
        decoded_entries(glyph_entries(entries)) == entries,
    decreases entries.len(),
{
    lemma_glyph_entries_len(entries);
    if entries.len() > 0 {
        let front = entries.drop_last();
        lemma_glyph_entries_roundtrip(front);
        lemma_glyph_entries_len(front);
        let ints = glyph_entries(entries);
        let (codepoint, key) = entries.last();
        assert(ints == glyph_entries(front) + glyph_entry(codepoint, key));
        assert forall|i: int| 0 <= i < entries.len() implies #[trigger] decoded_entries(ints)[i]
            == entries[i] by {
            if i < entries.len() - 1 {
                assert(ints.subrange(7 * i, 7 * i + 7) =~= glyph_entries(front).subrange(
                    7 * i,
                    7 * i + 7,
                ));
                assert(decoded_entries(glyph_entries(front))[i] == front[i]);
            } else {
                assert(ints.subrange(7 * i, 7 * i + 7) =~= glyph_entry(codepoint, key));
                lemma_entry_fields_roundtrip(codepoint, key);
            }
        }
        assert(decoded_entries(ints) =~= entries);
    }
}

proof fn lemma_glyph_entries_len(entries: Seq<(u32, GlyphKey)>)
    ensures
        glyph_entries(entries).len() == 7 * entries.len(),
    decreases entries.len(),
{
    if entries.len() > 0 {
        lemma_glyph_entries_len(entries.drop_last());
    }
}

proof fn lemma_entry_fields_roundtrip(codepoint: u32, key: GlyphKey)
    ensures
        decoded_entry(glyph_entry(codepoint, key)) == (codepoint, key),
{
    let x = key.offset.x;
    let y = key.offset.y;
    let advance = key.advance;
    assert((codepoint as i32) as u32 == codepoint) by (bit_vector);
    assert(x as i32 as i16 == x) by (bit_vector);
    assert(y as i32 as i16 == y) by (bit_vector);
    assert(advance as i32 as i16 == advance) by (bit_vector);
    let font = key.font;
    let glyph = key.glyph;
    assert(font as i32 as u16 == font) by (bit_vector);
    assert(glyph as i32 as u16 == glyph) by (bit_vector);
}

/// One inspected glyph: `[font, glyph, dx, dy, advance, rtl, codepoint]`, with -1 where a glyph
/// no longer stands for a codepoint.
pub open spec fn inspected_entry(glyph: InspectedGlyph) -> Seq<i32> {
    seq![
        glyph.font as i32,
        glyph.glyph as i32,
        glyph.offset.x as i32,
        glyph.offset.y as i32,
        glyph.advance as i32,
        flag(glyph.rtl),
        match glyph.codepoint {
            Some(codepoint) => codepoint as i32,
            None => -1i32,
        },
    ]
}

/// Every inspected glyph, one after another.
pub open spec fn inspected_entries(glyphs: Seq<InspectedGlyph>) -> Seq<i32>
    decreases glyphs.len(),
{
    if glyphs.len() == 0 {
        Seq::empty()
    } else {
        inspected_entries(glyphs.drop_last()) + inspected_entry(glyphs.last())
    }
}

/// `[font, glyph, dx, dy, advance, rtl, codepoint]` per glyph.
pub fn encode_pieces(glyphs: Vec<InspectedGlyph>) -> (out: Vec<i32>)
    ensures
        out@ == inspected_entries(glyphs@),
{
    let mut out: Vec<i32> = Vec::new();
    let mut index: usize = 0;
    while index < glyphs.len()
        invariant
            0 <= index <= glyphs@.len(),
            out@ == inspected_entries(glyphs@.take(index as int)),
        decreases glyphs@.len() - index,
    {
        let glyph = glyphs[index];
        out.push(glyph.font as i32);
        out.push(glyph.glyph as i32);
        out.push(glyph.offset.x as i32);
        out.push(glyph.offset.y as i32);
        out.push(glyph.advance as i32);
        out.push(if glyph.rtl {
            1
        } else {
            0
        });
        out.push(
            match glyph.codepoint {
                Some(codepoint) => codepoint as i32,
                None => -1,
            },
        );
        assert(glyphs@.take(index + 1).drop_last() =~= glyphs@.take(index as int));
        assert(out@ =~= inspected_entries(glyphs@.take(index + 1)));
        index += 1;
    }
    assert(glyphs@.take(glyphs@.len() as int) =~= glyphs@);
    out
}

/// One line: its length, then that many `codepoint, section` pairs, as far as both lists go.
pub open spec fn line_entry(codepoints: Seq<u32>, sections: Seq<u32>) -> Seq<u32> {
    let pairs = if codepoints.len() < sections.len() {
        codepoints.len()
    } else {
        sections.len()
    };
    seq![codepoints.len() as u32] + Seq::new(
        2 * pairs,
        |i: int|
            if i % 2 == 0 {
                codepoints[i / 2]
            } else {
                sections[i / 2]
            },
    )
}

/// Every line, one after another.
pub open spec fn line_entries(lines: Seq<VisualLine>) -> Seq<u32>
    decreases lines.len(),
{
    if lines.len() == 0 {
        Seq::empty()
    } else {
        line_entries(lines.drop_last()) + line_entry(
            lines.last().codepoints@,
            lines.last().sections@,
        )
    }
}

/// A line count, then for each line its length followed by that many `codepoint, section` pairs.
pub fn encode_visual_lines(lines: Vec<VisualLine>) -> (out: Vec<u32>)
    ensures
        out@ == seq![lines@.len() as u32] + line_entries(lines@),
{
    let mut out: Vec<u32> = Vec::new();
    out.push(lines.len() as u32);
    let mut index: usize = 0;
    while index < lines.len()
        invariant
            0 <= index <= lines@.len(),
            out@ == seq![lines@.len() as u32] + line_entries(lines@.take(index as int)),
        decreases lines@.len() - index,
    {
        let line = &lines[index];
        let ghost before = out@;
        out.push(line.codepoints.len() as u32);
        let mut k: usize = 0;
        while k < line.codepoints.len() && k < line.sections.len()
            invariant
                0 <= k <= line.codepoints@.len(),
                k <= line.sections@.len(),
                out@ == before + seq![line.codepoints@.len() as u32] + Seq::new(
                    2 * k as nat,
                    |i: int|
                        if i % 2 == 0 {
                            line.codepoints@[i / 2]
                        } else {
                            line.sections@[i / 2]
                        },
                ),
            decreases line.codepoints@.len() - k,
        {
            out.push(line.codepoints[k]);
            out.push(line.sections[k]);
            assert(out@ =~= before + seq![line.codepoints@.len() as u32] + Seq::new(
                2 * (k + 1) as nat,
                |i: int|
                    if i % 2 == 0 {
                        line.codepoints@[i / 2]
                    } else {
                        line.sections@[i / 2]
                    },
            ));
            k += 1;
        }
        assert(lines@.take(index + 1).drop_last() =~= lines@.take(index as int));
        assert(out@ =~= seq![lines@.len() as u32] + line_entries(lines@.take(index + 1)));
        index += 1;
    }
    assert(lines@.take(lines@.len() as int) =~= lines@);
    out
}

/// The four little-endian bytes of a 32 bit value.
pub open spec fn le_bytes(value: i32) -> Seq<u8> {
    let bits = value as u32;
    seq![(bits % 256) as u8, ((bits / 256) % 256) as u8, ((bits / 65536) % 256) as u8, (bits / 16777216) as u8]
}

/// Appends the four little-endian bytes of a value, as `i32::to_le_bytes` lays them out.
fn push_le_bytes(out: &mut Vec<u8>, value: i32)
    ensures
        final(out)@ == old(out)@ + le_bytes(value),
{
    let bits = value as u32;
    out.push((bits % 256) as u8);
    out.push(((bits / 256) % 256) as u8);
    out.push(((bits / 65536) % 256) as u8);
    out.push((bits / 16777216) as u8);
    assert(final(out)@ =~= old(out)@ + le_bytes(value));
}

/// A drawn glyph: width, height, left and bearing as four little-endian 32 bit integers, then the
/// distance field.
pub open spec fn raster_bytes(glyph: RasterGlyph) -> Seq<u8> {
    le_bytes(glyph.width as i32) + le_bytes(glyph.height as i32) + le_bytes(glyph.left) + le_bytes(
        glyph.bearing_y,
    ) + glyph.bitmap@
}

/// Four little-endian 32 bit integers -- width, height, left, bearing -- then the distance field.
pub fn encode_raster(glyph: &RasterGlyph) -> (out: Vec<u8>)
    ensures
        out@ == raster_bytes(*glyph),
{
    let mut out: Vec<u8> = Vec::new();
    push_le_bytes(&mut out, glyph.width as i32);
    push_le_bytes(&mut out, glyph.height as i32);
    push_le_bytes(&mut out, glyph.left);
    push_le_bytes(&mut out, glyph.bearing_y);
    let mut index: usize = 0;
    let ghost header = out@;
    while index < glyph.bitmap.len()
        invariant
            0 <= index <= glyph.bitmap@.len(),
            out@ == header + glyph.bitmap@.take(index as int),
        decreases glyph.bitmap@.len() - index,
    {
        out.push(glyph.bitmap[index]);
        assert(out@ =~= header + glyph.bitmap@.take(index + 1));
        index += 1;
    }
    assert(glyph.bitmap@.take(glyph.bitmap@.len() as int) =~= glyph.bitmap@);
    assert(out@ =~= raster_bytes(*glyph));
    out
}

} // verus!
