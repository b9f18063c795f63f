//! Writes the protocol buffer MapLibre GL JS fetches from a `glyphs` URL.
//!
//! The schema is the one MapLibre's `parse_glyph_pbf` reads:
//!
//! ```proto
//! message glyphs    { repeated fontstack stacks = 1; }
//! message fontstack { required string name = 1; required string range = 2; repeated glyph glyphs = 3; }
//! message glyph     { required uint32 id = 1; optional bytes bitmap = 2;
//!                     required uint32 width = 3; required uint32 height = 4;
//!                     required sint32 left = 5; required sint32 top = 6; required uint32 advance = 7; }
//! ```

use vstd::prelude::*;
use vstd::string::StringSliceAdditionalSpecFns;

use crate::constants::{RANGE_SIZE, TOP_ORIGIN};
use crate::glyph::RasterGlyph;
use crate::pbf::{bytes_field_bytes, sint32_field_bytes, uint32_field_bytes, PbfWriter};

verus! {

/// The decimal digits of `n`, as ASCII.
pub open spec fn decimal(n: nat) -> Seq<u8>
    decreases n,
{
    if n < 10 {
        seq![(48 + n) as u8]
    } else {
        decimal(n / 10) + seq![(48 + n % 10) as u8]
    }
}

/// The `range` string of a block: its first and last codepoint, joined by a hyphen.
pub open spec fn range_label(range: u32) -> Seq<u8> {
    decimal(range as nat * 256) + seq![45u8] + decimal(range as nat * 256 + 255)
}

/// A glyph as it goes into the file: which codepoint MapLibre will ask for it by, what it looks
/// like, and how far the pen moves after it.
pub struct PbfGlyph<'a> {
    pub codepoint: u32,
    pub raster: &'a RasterGlyph,
    pub advance: u32,
}

/// A glyph as the file holds it: codepoint, drawing, and advance.
pub type GlyphEntry = (u32, RasterGlyph, u32);

/// What a glyph puts into the file.
pub open spec fn entry_of(glyph: PbfGlyph) -> GlyphEntry {
    (glyph.codepoint, *glyph.raster, glyph.advance)
}

/// What a list of glyphs puts into the file.
pub open spec fn entries_of(glyphs: Seq<PbfGlyph>) -> Seq<GlyphEntry> {
    glyphs.map_values(|glyph: PbfGlyph| entry_of(glyph))
}

/// The `top` a glyph protocol buffer carries, measured down from [`TOP_ORIGIN`], wrapping as 32
/// bit arithmetic does.
pub open spec fn pbf_top(raster: RasterGlyph) -> i32 {
    raster.bearing_y.wrapping_sub(TOP_ORIGIN)
}

/// The fields of one glyph message. The bitmap is left out for a glyph with nothing to draw.
pub open spec fn glyph_message(glyph: GlyphEntry) -> Seq<u8> {
    let (codepoint, raster, advance) = glyph;
    uint32_field_bytes(1, codepoint) + (if raster.bitmap@.len() == 0 {
        Seq::<u8>::empty()
    } else {
        bytes_field_bytes(2, raster.bitmap@)
    }) + uint32_field_bytes(3, raster.width) + uint32_field_bytes(4, raster.height)
        + sint32_field_bytes(5, raster.left) + sint32_field_bytes(6, pbf_top(raster))
        + uint32_field_bytes(7, advance)
}

/// Every glyph, each as a field 3 of the fontstack message, in the order given.
pub open spec fn glyph_fields(glyphs: Seq<GlyphEntry>) -> Seq<u8>
    decreases glyphs.len(),
{
    if glyphs.len() == 0 {
        Seq::<u8>::empty()
    } else {
        glyph_fields(glyphs.drop_last()) + bytes_field_bytes(3, glyph_message(glyphs.last()))
    }
}

/// The fields of the one fontstack message of a block.
pub open spec fn fontstack_message(fontstack: Seq<u8>, range: u32, glyphs: Seq<GlyphEntry>) -> Seq<
    u8,
> {
    bytes_field_bytes(1, fontstack) + bytes_field_bytes(2, range_label(range)) + glyph_fields(
        glyphs,
    )
}

/// The whole file for a block: one fontstack.
pub open spec fn range_file(fontstack: Seq<u8>, range: u32, glyphs: Seq<GlyphEntry>) -> Seq<u8> {
    bytes_field_bytes(1, fontstack_message(fontstack, range, glyphs))
}

/// Appends the decimal digits of `n`.
fn push_decimal(out: &mut Vec<u8>, n: u32)
    ensures
        final(out)@ == old(out)@ + decimal(n as nat),
    decreases n,
{
    if n >= 10 {
        push_decimal(out, n / 10);
    }
    out.push((48 + n % 10) as u8);
    assert(final(out)@ =~= old(out)@ + decimal(n as nat));
}

/// Writes the fields of one glyph message.
fn write_glyph(out: &mut PbfWriter, glyph: &PbfGlyph)
    ensures
        final(out)@ == old(out)@ + glyph_message(entry_of(*glyph)),
{
    let ghost start = out@;
    out.uint32_field(1, glyph.codepoint);
    if !glyph.raster.is_blank() {
        out.bytes_field(2, glyph.raster.bitmap.as_slice());
    }
    out.uint32_field(3, glyph.raster.width);
    out.uint32_field(4, glyph.raster.height);
    out.sint32_field(5, glyph.raster.left);
    out.sint32_field(6, glyph.raster.bearing_y.wrapping_sub(TOP_ORIGIN));
    out.uint32_field(7, glyph.advance);
    assert(out@ =~= start + glyph_message(entry_of(*glyph)));
}

/// Writes one block of glyphs.
///
/// A block is written even when it holds nothing: MapLibre asks for a block once, so an error or a
/// missing response would leave those codepoints blank for good, while an empty block simply says
/// there is nothing there.
pub fn write_range(fontstack: &str, range: u32, glyphs: &Vec<PbfGlyph>) -> (bytes: Vec<u8>)
    requires
        range < 0xFF_FFFF,
    ensures
        bytes@ == range_file(fontstack.spec_bytes(), range, entries_of(glyphs@)),
        bytes@.len() > 0,
{
    let start = range * RANGE_SIZE;
    let mut label: Vec<u8> = Vec::new();
    push_decimal(&mut label, start);
    label.push(45u8);
    push_decimal(&mut label, start + RANGE_SIZE - 1);
    assert(label@ =~= range_label(range));

    let mut writer = PbfWriter::new();
    let stack_position = writer.begin_message(1);
    let ghost opening = writer@.take(stack_position as int);
    writer.string_field(1, fontstack);
    writer.bytes_field(2, label.as_slice());
    let ghost head = bytes_field_bytes(1, fontstack.spec_bytes()) + bytes_field_bytes(
        2,
        range_label(range),
    );
    assert(glyphs@.take(0) =~= Seq::<PbfGlyph>::empty());

    let mut index: usize = 0;
    while index < glyphs.len()
        invariant
            0 <= index <= glyphs@.len(),
            stack_position == opening.len(),
            writer@ == opening + seq![0u8] + head + glyph_fields(entries_of(glyphs@.take(index as int))),
        decreases glyphs@.len() - index,
    {
        let glyph = &glyphs[index];
        let ghost before = writer@;
        let position = writer.begin_message(3);
        let ghost with_key = writer@;
        write_glyph(&mut writer, glyph);
        let ghost message = glyph_message(entry_of(*glyph));
        assert(writer@ =~= with_key + message);
        assert(writer@.take(position as int) =~= before + crate::pbf::field_key(3, 2));
        assert(writer@.skip(position + 1) =~= message);
        writer.end_message(position);
        assert(glyphs@.take(index + 1).drop_last() =~= glyphs@.take(index as int));
        assert(entries_of(glyphs@.take(index + 1)).drop_last() =~= entries_of(glyphs@.take(index as int)));
        assert(entries_of(glyphs@.take(index + 1)).last() == entry_of(*glyph));
        assert(writer@ =~= before + bytes_field_bytes(3, message));
        index += 1;
    }
    assert(glyphs@.take(glyphs@.len() as int) =~= glyphs@);
    let ghost body = head + glyph_fields(entries_of(glyphs@));
    assert(writer@.take(stack_position as int) =~= opening);
    assert(writer@.skip(stack_position + 1) =~= body);
    writer.end_message(stack_position);
    let bytes = writer.finish();
    assert(bytes@ =~= range_file(fontstack.spec_bytes(), range, entries_of(glyphs@)));
    proof {
        crate::pbf::lemma_varint_length(((1u32 << 3u32) | 2u32) as nat);
    }
    bytes
}

} // verus!
