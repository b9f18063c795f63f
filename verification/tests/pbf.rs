//! The protocol buffer writer, and the glyph blocks written with it, byte for byte.

use maplibre_shaper::glyph::RasterGlyph;
use maplibre_shaper::glyph_pbf::{write_range, PbfGlyph};
use maplibre_shaper::pbf::PbfWriter;

fn written(write: impl FnOnce(&mut PbfWriter)) -> Vec<u8> {
    let mut writer = PbfWriter::new();
    write(&mut writer);
    writer.finish()
}

#[test]
fn an_empty_writer_writes_nothing() {
    assert!(PbfWriter::new().finish().is_empty());
}

#[test]
fn varints_take_seven_bits_a_byte_low_bits_first() {
    assert_eq!(written(|w| w.varint(0)), vec![0x00]);
    assert_eq!(written(|w| w.varint(1)), vec![0x01]);
    assert_eq!(written(|w| w.varint(127)), vec![0x7F]);
    assert_eq!(written(|w| w.varint(128)), vec![0x80, 0x01]);
    assert_eq!(written(|w| w.varint(300)), vec![0xAC, 0x02]);
    assert_eq!(
        written(|w| w.varint(u64::MAX)),
        vec![0xFF, 0xFF, 0xFF, 0xFF, 0xFF, 0xFF, 0xFF, 0xFF, 0xFF, 0x01]
    );
}

#[test]
fn a_key_is_the_tag_shifted_past_the_wire_type() {
    assert_eq!(written(|w| w.key(1, 2)), vec![0x0A]);
    assert_eq!(written(|w| w.key(7, 0)), vec![0x38]);
    assert_eq!(written(|w| w.key(16, 0)), vec![0x80, 0x01]);
}

#[test]
fn an_unsigned_field_is_a_key_and_a_varint() {
    assert_eq!(written(|w| w.uint32_field(1, 150)), vec![0x08, 0x96, 0x01]);
    assert_eq!(written(|w| w.uint32_field(3, u32::MAX)), vec![0x18, 0xFF, 0xFF, 0xFF, 0xFF, 0x0F]);
}

#[test]
fn a_signed_field_is_zig_zag_encoded() {
    assert_eq!(written(|w| w.sint32_field(5, 0)), vec![0x28, 0x00]);
    assert_eq!(written(|w| w.sint32_field(5, -1)), vec![0x28, 0x01]);
    assert_eq!(written(|w| w.sint32_field(5, 1)), vec![0x28, 0x02]);
    assert_eq!(written(|w| w.sint32_field(5, -2)), vec![0x28, 0x03]);
    assert_eq!(written(|w| w.sint32_field(6, -26)), vec![0x30, 51]);
    assert_eq!(written(|w| w.sint32_field(5, i32::MAX)), vec![0x28, 0xFE, 0xFF, 0xFF, 0xFF, 0x0F]);
    assert_eq!(written(|w| w.sint32_field(5, i32::MIN)), vec![0x28, 0xFF, 0xFF, 0xFF, 0xFF, 0x0F]);
}

#[test]
fn a_string_field_carries_its_length() {
    assert_eq!(
        written(|w| w.string_field(2, "testing")),
        vec![0x12, 0x07, b't', b'e', b's', b't', b'i', b'n', b'g']
    );
    assert_eq!(written(|w| w.bytes_field(2, &[])), vec![0x12, 0x00]);
}

#[test]
fn a_short_message_fills_its_reserved_length_byte() {
    let bytes = written(|w| {
        let at = w.begin_message(1);
        w.uint32_field(1, 5);
        w.end_message(at);
    });
    assert_eq!(bytes, vec![0x0A, 0x02, 0x08, 0x05]);
}

#[test]
fn a_long_message_grows_its_length_in_place() {
    let body = vec![7u8; 200];
    let bytes = written(|w| {
        w.uint32_field(1, 1);
        let at = w.begin_message(3);
        w.bytes_field(2, &body);
        w.end_message(at);
        w.uint32_field(4, 9);
    });
    // The message holds a key, a two byte length and the 200 bytes: 203, a two byte varint.
    let mut expected = vec![0x08, 0x01, 0x1A, 0xCB, 0x01, 0x12, 0xC8, 0x01];
    expected.extend_from_slice(&body);
    expected.extend_from_slice(&[0x20, 0x09]);
    assert_eq!(bytes, expected);
}

#[test]
fn an_empty_block_still_names_its_fontstack_and_range() {
    let bytes = write_range("Noto Sans", 0, &Vec::new());
    let mut expected = vec![0x0A, 18, 0x0A, 9];
    expected.extend_from_slice(b"Noto Sans");
    expected.extend_from_slice(&[0x12, 5]);
    expected.extend_from_slice(b"0-255");
    assert_eq!(bytes, expected);
}

#[test]
fn the_range_label_counts_in_codepoints() {
    let bytes = write_range("", 1, &Vec::new());
    let mut expected = vec![0x0A, 11, 0x0A, 0, 0x12, 7];
    expected.extend_from_slice(b"256-511");
    assert_eq!(bytes, expected);

    let last = write_range("", 0x10FF, &Vec::new());
    assert!(last.ends_with(b"1113856-1114111"));
}

#[test]
fn a_glyph_with_nothing_to_draw_has_no_bitmap_field() {
    let blank = RasterGlyph::blank();
    let glyphs = vec![PbfGlyph { codepoint: 65, raster: &blank, advance: 7 }];
    let bytes = write_range("a", 0, &glyphs);
    // id, width, height, left, top measured from its origin, advance.
    let glyph = [0x08, 65, 0x18, 0, 0x20, 0, 0x28, 0, 0x30, 51, 0x38, 7];
    let mut expected = vec![0x0A, 24, 0x0A, 1, b'a', 0x12, 5];
    expected.extend_from_slice(b"0-255");
    expected.extend_from_slice(&[0x1A, 12]);
    expected.extend_from_slice(&glyph);
    assert_eq!(bytes, expected);
}

#[test]
fn a_drawn_glyph_carries_its_bitmap_and_signed_offsets() {
    let raster = RasterGlyph { width: 1, height: 2, left: -3, bearing_y: 30, bitmap: vec![1, 2, 3] };
    let glyphs = vec![
        PbfGlyph { codepoint: 0xF0000, raster: &raster, advance: 0 },
        PbfGlyph { codepoint: 0xF0001, raster: &raster, advance: 12 },
    ];
    let bytes = write_range("a", 0xF00, &glyphs);
    let glyph = |id: [u8; 3], advance: u8| {
        let mut out = vec![0x08];
        out.extend_from_slice(&id);
        out.extend_from_slice(&[0x12, 3, 1, 2, 3, 0x18, 1, 0x20, 2, 0x28, 5, 0x30, 8, 0x38, advance]);
        out
    };
    let first = glyph([0x80, 0x80, 0x3C], 0);
    let second = glyph([0x81, 0x80, 0x3C], 12);
    assert_eq!(first.len(), 19);

    let label = b"983040-983295";
    let mut stack = vec![0x0A, 1, b'a', 0x12, label.len() as u8];
    stack.extend_from_slice(label);
    for message in [&first, &second] {
        stack.push(0x1A);
        stack.push(message.len() as u8);
        stack.extend_from_slice(message);
    }
    let mut expected = vec![0x0A, stack.len() as u8];
    expected.extend_from_slice(&stack);
    assert_eq!(bytes, expected);
}
