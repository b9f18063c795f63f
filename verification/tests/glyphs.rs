//! Glyph keys, drawings, and the codepoints that stand for them.

use maplibre_shaper::constants::{is_pool_codepoint, POOL_END, POOL_START};
use maplibre_shaper::glyph::{GlyphKey, Offset, RasterGlyph, RasterKey};

fn key(font: u16, glyph: u16, x: i16, y: i16, advance: i16, rtl: bool) -> GlyphKey {
    GlyphKey { font, glyph, offset: Offset { x, y }, advance, rtl }
}

#[test]
fn the_pool_is_the_supplementary_private_use_areas() {
    assert!(!is_pool_codepoint(POOL_START - 1));
    assert!(is_pool_codepoint(POOL_START));
    assert!(is_pool_codepoint(0x10_0000));
    assert!(is_pool_codepoint(POOL_END));
    assert!(!is_pool_codepoint(POOL_END + 1));
    assert!(!is_pool_codepoint('a' as u32));
    assert!(!is_pool_codepoint(u32::MAX));
}

#[test]
fn a_blank_glyph_has_nothing_to_draw() {
    let blank = RasterGlyph::blank();
    assert_eq!((blank.width, blank.height, blank.left, blank.bearing_y), (0, 0, 0, 0));
    assert!(blank.is_blank());
    let drawn = RasterGlyph { width: 1, height: 1, left: 0, bearing_y: 1, bitmap: vec![0; 49] };
    assert!(!drawn.is_blank());
}

#[test]
fn the_zero_offset_sits_at_the_pen() {
    assert_eq!(Offset::zero(), Offset { x: 0, y: 0 });
}

#[test]
fn keys_that_differ_in_any_field_pack_differently() {
    let base = key(1, 2, -3, 4, 5, false);
    let others = [
        key(2, 2, -3, 4, 5, false),
        key(1, 3, -3, 4, 5, false),
        key(1, 2, 3, 4, 5, false),
        key(1, 2, -3, -4, 5, false),
        key(1, 2, -3, 4, -5, false),
        key(1, 2, -3, 4, 5, true),
    ];
    for other in others {
        assert_ne!(base.packed(), other.packed(), "{other:?}");
    }
    assert_eq!(base.packed(), key(1, 2, -3, 4, 5, false).packed());
    assert_eq!(key(0, 0, 0, 0, 0, true).packed(), 1);
    assert_eq!(key(0, 0, 0, 0, 1, false).packed(), 2);
}

#[test]
fn a_drawing_ignores_advance_and_direction() {
    let a = RasterKey::from_key(&key(1, 2, -3, 4, 5, false));
    let b = RasterKey::from_key(&key(1, 2, -3, 4, 0, true));
    assert_eq!(a, b);
    assert_eq!(a, RasterKey { font: 1, glyph: 2, offset: Offset { x: -3, y: 4 } });
    assert_eq!(a.packed(), b.packed());
    let moved = RasterKey::from_key(&key(1, 2, -3, 5, 5, false));
    assert_ne!(a.packed(), moved.packed());
    assert_eq!(RasterKey { font: 0, glyph: 0, offset: Offset { x: -1, y: 0 } }.packed(), 0xFFFF_0000);
}
