//! The flat encodings handed across to JavaScript.

use maplibre_shaper::constants::{POOL_END, POOL_START};
use maplibre_shaper::encoding::{
    codepoint_pool, decode_glyph_entries, encode_glyph_entries, encode_pieces, encode_raster,
    encode_visual_lines, glyph_entry_width, ENTRY_WIDTH,
};
use maplibre_shaper::glyph::{GlyphKey, Offset, RasterGlyph};
use maplibre_shaper::text::{InspectedGlyph, VisualLine};

fn glyph_key(font: u16, glyph: u16, x: i16, y: i16, advance: i16, rtl: bool) -> GlyphKey {
    GlyphKey { font, glyph, offset: Offset { x, y }, advance, rtl }
}

#[test]
fn the_pool_and_the_entry_width_are_stated_once() {
    assert_eq!(codepoint_pool(), vec![POOL_START, POOL_END]);
    assert_eq!(glyph_entry_width(), 7);
    assert_eq!(ENTRY_WIDTH, 7);
}

#[test]
fn glyph_entries_are_seven_numbers_each() {
    let entries = vec![(0xF0000, glyph_key(1, 300, -4, 2, 11, true)), (0xF0001, glyph_key(0, 7, 0, 0, 0, false))];
    assert_eq!(
        encode_glyph_entries(entries),
        vec![0xF0000, 1, 300, -4, 2, 11, 1, 0xF0001, 0, 7, 0, 0, 0, 0]
    );
    assert!(encode_glyph_entries(Vec::new()).is_empty());
}

#[test]
fn glyph_entries_read_back_as_they_were_written() {
    let entries = vec![
        (0xF0000, glyph_key(1, 300, -4, 2, 11, true)),
        (0x10FFFD, glyph_key(u16::MAX, u16::MAX, i16::MIN, i16::MAX, -1, false)),
    ];
    let encoded = encode_glyph_entries(entries.clone());
    assert_eq!(decode_glyph_entries(&encoded), entries);
}

#[test]
fn a_partial_entry_is_ignored_and_any_nonzero_direction_is_right_to_left() {
    let decoded = decode_glyph_entries(&[5, 1, 2, 3, 4, 6, 9, 1, 2]);
    assert_eq!(decoded, vec![(5, glyph_key(1, 2, 3, 4, 6, true))]);
    assert!(decode_glyph_entries(&[1, 2, 3]).is_empty());
    // Values out of a field's range keep their low bits, as a cast does.
    let wide = decode_glyph_entries(&[-1, 0x1_0002, 0, 0x1_8000, 0, 0, 0]);
    assert_eq!(wide, vec![(u32::MAX, glyph_key(2, 0, i16::MIN, 0, 0, false))]);
}

#[test]
fn inspected_glyphs_mark_a_glyph_with_no_codepoint() {
    let glyphs = vec![
        InspectedGlyph { font: 2, glyph: 40, offset: Offset { x: 1, y: -1 }, advance: 9, rtl: true, codepoint: None },
        InspectedGlyph { font: 0, glyph: 36, offset: Offset::zero(), advance: 14, rtl: false, codepoint: Some('A' as u32) },
    ];
    assert_eq!(encode_pieces(glyphs), vec![2, 40, 1, -1, 9, 1, -1, 0, 36, 0, 0, 14, 0, 65]);
}

#[test]
fn visual_lines_are_counted_then_paired() {
    let lines = vec![
        VisualLine { codepoints: vec![97, 98], sections: vec![0, 1] },
        VisualLine { codepoints: vec![], sections: vec![] },
        VisualLine { codepoints: vec![99], sections: vec![2] },
    ];
    assert_eq!(encode_visual_lines(lines), vec![3, 2, 97, 0, 98, 1, 0, 1, 99, 2]);
    assert_eq!(encode_visual_lines(Vec::new()), vec![0]);
}

#[test]
fn a_drawing_is_a_little_endian_header_then_its_bitmap() {
    let glyph = RasterGlyph { width: 2, height: 258, left: -1, bearing_y: 20, bitmap: vec![9, 8, 7] };
    assert_eq!(
        encode_raster(&glyph),
        vec![2, 0, 0, 0, 2, 1, 0, 0, 0xFF, 0xFF, 0xFF, 0xFF, 20, 0, 0, 0, 9, 8, 7]
    );
    assert_eq!(encode_raster(&RasterGlyph::blank()), vec![0; 16]);
}
