//! The registry's bookkeeping, with a shaper and a rasterizer that need no font: an upper-case
//! letter shapes into a glyph, `*` into a right-to-left glyph, and everything else is left alone.

use std::cell::Cell;
use std::rc::Rc;

use maplibre_shaper::encoding::{decode_glyph_entries, encode_glyph_entries};
use maplibre_shaper::glyph::{FontIndex, GlyphIndex, GlyphKey, Offset, PlainGlyph, RasterGlyph};
use maplibre_shaper::glyph_pbf::{write_range, PbfGlyph};
use maplibre_shaper::registry::{inspect_of, line_codepoints, GlyphRegistry};
use maplibre_shaper::reorder::reorder;
use maplibre_shaper::text::{GlyphRasterizing, InspectedGlyph, Piece, TextShaping, VisualLine};

struct Letters;

fn letter_key(ch: char) -> GlyphKey {
    GlyphKey { font: 1, glyph: ch as u16, offset: Offset { x: 2, y: -4 }, advance: 10, rtl: false }
}

fn star_key() -> GlyphKey {
    GlyphKey { font: 1, glyph: 42, offset: Offset::zero(), advance: 8, rtl: true }
}

impl TextShaping for Letters {
    fn shape(&self, text: &str) -> Vec<Piece> {
        text.chars()
            .map(|ch| match ch {
                'A'..='Z' => Piece::Glyph(letter_key(ch)),
                '*' => Piece::Glyph(star_key()),
                _ => Piece::Verbatim(ch),
            })
            .collect()
    }

    fn reorder(
        &self,
        text: &str,
        directions: &Vec<Option<bool>>,
        sections: &[u32],
        line_breaks: &[u32],
    ) -> Vec<VisualLine> {
        reorder(text, directions, sections, line_breaks)
    }
}

/// Draws every glyph as a one pixel square whose value is its glyph index, and counts drawings.
struct Squares {
    drawn: Rc<Cell<usize>>,
}

fn square(glyph: GlyphIndex, offset: Offset) -> RasterGlyph {
    RasterGlyph { width: 1, height: 1, left: offset.x as i32, bearing_y: 20, bitmap: vec![glyph as u8; 49] }
}

impl GlyphRasterizing for Squares {
    fn rasterize(&self, _font: FontIndex, glyph: GlyphIndex, offset: Offset) -> RasterGlyph {
        self.drawn.set(self.drawn.get() + 1);
        square(glyph, offset)
    }

    fn plain_glyph(&self, codepoint: u32) -> Option<PlainGlyph> {
        if codepoint < 0x80 {
            Some(PlainGlyph { font: 0, glyph: codepoint as u16, advance: 9 })
        } else {
            None
        }
    }
}

fn registry() -> (GlyphRegistry<Letters, Squares>, Rc<Cell<usize>>) {
    let drawn = Rc::new(Cell::new(0));
    (GlyphRegistry::new(Letters, Squares { drawn: drawn.clone() }), drawn)
}

const P0: char = '\u{F0000}';
const P1: char = '\u{F0001}';

#[test]
fn shaped_glyphs_become_pool_codepoints_and_the_rest_stays_text() {
    let (mut registry, _) = registry();
    assert_eq!(registry.shape("aB C"), format!("a{P0} {P1}"));
    assert_eq!(
        registry.take_new_glyphs(),
        vec![(0xF0000, letter_key('B')), (0xF0001, letter_key('C'))]
    );
    assert!(registry.take_new_glyphs().is_empty());
}

#[test]
fn the_same_glyph_keeps_its_codepoint() {
    let (mut registry, _) = registry();
    assert_eq!(registry.shape("BB"), format!("{P0}{P0}"));
    assert_eq!(registry.shape("xB"), format!("x{P0}"));
    assert_eq!(registry.take_new_glyphs().len(), 1);
}

#[test]
fn text_shaped_before_comes_back_as_it_did() {
    let (mut registry, _) = registry();
    let first = registry.shape("DE");
    registry.take_new_glyphs();
    assert_eq!(registry.shape("DE"), first);
    assert!(registry.take_new_glyphs().is_empty());
}

#[test]
fn text_left_alone_needs_no_codepoint() {
    let (mut registry, _) = registry();
    assert_eq!(registry.shape("tel aviv-yafo 12"), "tel aviv-yafo 12");
    assert!(registry.take_new_glyphs().is_empty());
    assert_eq!(registry.shape(""), "");
}

#[test]
fn a_registered_codepoint_is_reused_and_not_reported() {
    let (mut registry, _) = registry();
    registry.register(0xF0100, letter_key('Q'));
    assert_eq!(registry.shape("Q"), "\u{F0100}");
    assert!(registry.take_new_glyphs().is_empty());
    assert_eq!(registry.shape("R"), P0.to_string());
}

#[test]
fn allocation_keeps_to_its_stretch_and_skips_sealed_blocks() {
    let (mut registry, _) = registry();
    registry.restrict_codepoints(0xF1000, 0xF1FFF);
    assert_eq!(registry.shape("A"), "\u{F1000}");
    assert_eq!(registry.cursor_block(), 0xF10);
    registry.seal_range(0xF10);
    assert_eq!(registry.cursor_block(), 0xF11);
    assert_eq!(registry.shape("B"), "\u{F1100}");
}

#[test]
fn a_block_draws_its_allocated_glyphs_with_their_offsets() {
    let (mut registry, drawn) = registry();
    registry.shape("AB");
    let bytes = registry.glyph_pbf("Noto Sans Regular", 0xF00);
    let a = square('A' as u16, Offset { x: 2, y: -4 });
    let b = square('B' as u16, Offset { x: 2, y: -4 });
    let expected = write_range(
        "Noto Sans Regular",
        0xF00,
        &vec![
            PbfGlyph { codepoint: 0xF0000, raster: &a, advance: 10 },
            PbfGlyph { codepoint: 0xF0001, raster: &b, advance: 10 },
        ],
    );
    assert_eq!(bytes, expected);
    assert_eq!(drawn.get(), 2);
    // A block asked for again is not drawn again.
    assert_eq!(registry.glyph_pbf("Noto Sans Regular", 0xF00), expected);
    assert_eq!(drawn.get(), 2);
}

#[test]
fn a_block_of_characters_draws_each_as_itself() {
    let (mut registry, drawn) = registry();
    let bytes = registry.glyph_pbf("s", 0);
    let rasters: Vec<RasterGlyph> = (0..0x80u16).map(|glyph| square(glyph, Offset::zero())).collect();
    let glyphs: Vec<PbfGlyph> = rasters
        .iter()
        .enumerate()
        .map(|(codepoint, raster)| PbfGlyph { codepoint: codepoint as u32, raster, advance: 9 })
        .collect();
    assert_eq!(bytes, write_range("s", 0, &glyphs));
    assert_eq!(drawn.get(), 0x80);
}

#[test]
fn an_empty_block_is_still_a_block() {
    let (mut registry, _) = registry();
    assert_eq!(registry.glyph_pbf("s", 0xF00), write_range("s", 0xF00, &Vec::new()));
}

#[test]
fn glyphs_differing_only_in_advance_share_a_drawing() {
    let (mut registry, drawn) = registry();
    registry.register(0xF0000, GlyphKey { advance: 1, ..letter_key('A') });
    registry.register(0xF0001, GlyphKey { advance: 2, rtl: true, ..letter_key('A') });
    registry.glyph_pbf("s", 0xF00);
    assert_eq!(drawn.get(), 1);
}

#[test]
fn a_glyph_drawn_on_its_own_is_drawn_once() {
    let (mut registry, drawn) = registry();
    let offset = Offset { x: -1, y: 3 };
    assert_eq!(registry.draw_glyph(0, 7, offset), &square(7, offset));
    assert_eq!(registry.draw_glyph(0, 7, offset), &square(7, offset));
    assert_eq!(drawn.get(), 1);
}

fn inspected(key: GlyphKey, codepoint: Option<u32>) -> InspectedGlyph {
    InspectedGlyph {
        font: key.font,
        glyph: key.glyph,
        offset: key.offset,
        advance: key.advance,
        rtl: key.rtl,
        codepoint,
    }
}

fn plain(ch: char) -> InspectedGlyph {
    InspectedGlyph {
        font: 0,
        glyph: ch as u16,
        offset: Offset::zero(),
        advance: 9,
        rtl: false,
        codepoint: Some(ch as u32),
    }
}

#[test]
fn inspecting_allocates_nothing_and_drops_what_no_font_has() {
    let (mut registry, _) = registry();
    assert_eq!(
        registry.inspect("aB\u{0E01}"),
        vec![plain('a'), inspected(letter_key('B'), None)]
    );
    assert!(registry.take_new_glyphs().is_empty());
    assert_eq!(registry.shape("B"), P0.to_string());
}

#[test]
fn unshaped_text_is_one_plain_glyph_per_character() {
    let (registry, _) = registry();
    assert_eq!(registry.inspect_unshaped("aB"), vec![plain('a'), plain('B')]);
    assert!(registry.inspect_unshaped("").is_empty());
}

#[test]
fn the_direction_of_each_shaped_codepoint_is_known() {
    let (mut registry, _) = registry();
    let shaped = registry.shape("A*b");
    assert_eq!(registry.directions(&shaped), vec![Some(false), Some(true), None]);
}

#[test]
fn right_to_left_glyphs_are_read_in_reverse() {
    let (mut registry, _) = registry();
    registry.shape("A");
    let shaped = registry.shape("**");
    assert_eq!(shaped, format!("{P1}{P1}"));
    let star = P1 as u32;
    assert_eq!(
        registry.reorder(&shaped, &[], &[]),
        vec![VisualLine { codepoints: vec![star, star], sections: vec![0, 0] }]
    );
}

#[test]
fn the_visual_inspection_follows_the_map_path() {
    let (mut registry, _) = registry();
    let glyphs = registry.inspect_visual("aA");
    assert_eq!(glyphs, vec![plain('a'), inspected(letter_key('A'), None)]);
    // It shapes for real, so the glyph now has a codepoint waiting to be reported.
    assert_eq!(registry.take_new_glyphs(), vec![(0xF0000, letter_key('A'))]);
}

#[test]
fn a_registry_told_what_another_allocated_draws_the_same_block() {
    let (mut worker, _) = registry();
    worker.restrict_codepoints(0xF0100, 0xF01FF);
    let shaped = worker.shape("A*B");
    let reported = encode_glyph_entries(worker.take_new_glyphs());

    let (mut main, _) = registry();
    for (codepoint, key) in decode_glyph_entries(&reported) {
        main.register(codepoint, key);
    }
    assert_eq!(main.glyph_pbf("s", 0xF01), worker.glyph_pbf("s", 0xF01));
    assert_eq!(main.directions(&shaped), vec![Some(false), Some(true), Some(false)]);
    assert_eq!(main.inspect_visual(&shaped), worker.inspect_visual(&shaped));
}

#[test]
fn inspected_pieces_take_their_plain_glyphs_as_given() {
    let pieces = vec![Piece::Verbatim('a'), Piece::Glyph(letter_key('B')), Piece::Verbatim('c')];
    let a = PlainGlyph { font: 3, glyph: 30, advance: 7 };
    let glyphs = inspect_of(&pieces, &vec![Some(a), None, None]);
    assert_eq!(
        glyphs,
        vec![
            InspectedGlyph { font: 3, glyph: 30, offset: Offset::zero(), advance: 7, rtl: false, codepoint: Some(97) },
            inspected(letter_key('B'), None),
        ]
    );
    assert!(inspect_of(&Vec::new(), &Vec::new()).is_empty());
}

#[test]
fn a_block_is_keyed_from_registrations_and_the_plain_glyphs_given() {
    let (mut registry, _) = registry();
    registry.register(0x41, letter_key('Z'));
    let mut plains = vec![None; 256];
    plains[0x41] = Some(PlainGlyph { font: 0, glyph: 1, advance: 1 });
    plains[0x42] = Some(PlainGlyph { font: 0, glyph: 2, advance: 5 });
    let keys = registry.block_keys_with(0, &plains);
    assert_eq!(
        keys,
        vec![
            (0x41, letter_key('Z')),
            (0x42, GlyphKey { font: 0, glyph: 2, offset: Offset::zero(), advance: 5, rtl: false }),
        ]
    );
    // A pool codepoint standing for nothing is left out even where a plain glyph is given.
    let pool = registry.block_keys_with(0xF00, &vec![Some(PlainGlyph { font: 0, glyph: 2, advance: 5 }); 256]);
    assert!(pool.is_empty());
}

#[test]
fn lines_are_read_one_after_another_and_described() {
    let lines = vec![
        VisualLine { codepoints: vec![0x61, 0xF0000], sections: vec![0, 0] },
        VisualLine { codepoints: vec![], sections: vec![] },
        VisualLine { codepoints: vec![0x62], sections: vec![1] },
    ];
    assert_eq!(line_codepoints(&lines), vec![0x61, 0xF0000, 0x62]);

    let (mut registry, _) = registry();
    registry.register(0xF0000, letter_key('Q'));
    let plain_b = PlainGlyph { font: 0, glyph: 66, advance: 4 };
    let glyphs = registry.describe_each(&vec![0x61, 0xF0000, 0x62], &vec![None, None, Some(plain_b)]);
    assert_eq!(
        glyphs,
        vec![
            inspected(letter_key('Q'), None),
            InspectedGlyph { font: 0, glyph: 66, offset: Offset::zero(), advance: 4, rtl: false, codepoint: Some(0x62) },
        ]
    );
}

#[test]
fn a_registered_codepoint_no_string_can_hold_is_left_out() {
    let (mut registry, _) = registry();
    registry.register(0x11_0000, letter_key('A'));
    assert_eq!(registry.shape("xAy"), "xy");
    assert!(registry.take_new_glyphs().is_empty());
}

#[test]
fn a_sealed_block_is_never_allocated_into_later() {
    let (mut registry, _) = registry();
    registry.seal_range(0xF11);
    registry.restrict_codepoints(0xF10FE, 0xF12FF);
    assert_eq!(registry.shape("ABCD"), "\u{F10FE}\u{F10FF}\u{F1200}\u{F1201}");
    registry.restrict_codepoints(0xF1100, 0xF11FF);
    assert_eq!(registry.shape("E"), "");
    assert_eq!(registry.shape("A"), "\u{F10FE}");
    let taken = registry.take_new_glyphs();
    assert_eq!(taken.len(), 4);
    assert!(taken.iter().all(|(codepoint, _)| codepoint / 256 != 0xF11));
}

#[test]
fn every_allocation_is_reported_once_in_the_order_it_was_made() {
    let (mut registry, _) = registry();
    assert_eq!(registry.shape("AB"), format!("{P0}{P1}"));
    registry.seal_range(0xF05);
    assert_eq!(registry.shape("BCA"), format!("{P1}\u{F0002}{P0}"));
    assert_eq!(
        registry.take_new_glyphs(),
        vec![(0xF0000, letter_key('A')), (0xF0001, letter_key('B')), (0xF0002, letter_key('C'))]
    );
    assert!(registry.take_new_glyphs().is_empty());
    assert_eq!(registry.shape("CD"), "\u{F0002}\u{F0003}");
    assert_eq!(registry.take_new_glyphs(), vec![(0xF0003, letter_key('D'))]);
}
