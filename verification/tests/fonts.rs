//! The fallback chain, and when a shaped run may go back to being characters.

use maplibre_shaper::fallback::{lookup, lookup_preferring, resolve_fonts};
use maplibre_shaper::shaped_run::{unchanged_run, RunGlyph};
use maplibre_shaper::text::Piece;

#[test]
fn the_first_font_with_the_character_wins() {
    assert_eq!(lookup(&vec![None, Some(7), Some(9)]), Some((1, 7)));
    assert_eq!(lookup(&vec![Some(3), Some(7)]), Some((0, 3)));
    assert_eq!(lookup(&vec![None, None]), None);
    assert_eq!(lookup(&Vec::new()), None);
}

#[test]
fn a_preferred_font_wins_only_if_it_has_the_character() {
    let glyphs = vec![Some(3), None, Some(8)];
    assert_eq!(lookup_preferring(&glyphs, Some(2)), Some((2, 8)));
    assert_eq!(lookup_preferring(&glyphs, Some(1)), Some((0, 3)));
    assert_eq!(lookup_preferring(&glyphs, Some(5)), Some((0, 3)));
    assert_eq!(lookup_preferring(&glyphs, None), Some((0, 3)));
    assert_eq!(lookup_preferring(&vec![None], Some(0)), None);
}

#[test]
fn a_combining_mark_stays_with_the_font_of_its_base() {
    // A Hebrew letter only the second font has, then a combining mark both fonts have.
    let chars: Vec<char> = "\u{05E9}\u{0301}".chars().collect();
    let coverage = vec![vec![None, Some(20)], vec![Some(5), Some(21)]];
    assert_eq!(resolve_fonts(&chars, &coverage), vec![Some(1), Some(1)]);
}

#[test]
fn a_character_of_its_own_takes_the_first_font_that_has_it() {
    // A letter only the second font has, then a space both fonts have: the space is no mark.
    let chars: Vec<char> = "\u{05E9} ".chars().collect();
    let coverage = vec![vec![None, Some(20)], vec![Some(5), Some(21)]];
    assert_eq!(resolve_fonts(&chars, &coverage), vec![Some(1), Some(0)]);
}

#[test]
fn a_mark_at_the_start_or_after_nothing_falls_back_to_the_chain() {
    let chars: Vec<char> = "\u{0301}x\u{0301}".chars().collect();
    let coverage = vec![vec![None, Some(2)], vec![None, None], vec![None, Some(2)]];
    assert_eq!(resolve_fonts(&chars, &coverage), vec![Some(1), None, Some(1)]);
    assert!(resolve_fonts(&Vec::new(), &Vec::new()).is_empty());
}

fn glyph(glyph: u32, x_advance: i32, plain: u16) -> RunGlyph {
    RunGlyph { glyph, x_advance, x_offset: 0, y_offset: 0, plain_advance: Some(plain) }
}

#[test]
fn a_run_shaping_did_not_touch_stays_characters() {
    let run: Vec<char> = "ab".chars().collect();
    let shaped = vec![glyph(10, 500, 500), glyph(11, 600, 600)];
    let lookups = vec![Some((0, 10)), Some((0, 11))];
    assert_eq!(
        unchanged_run(&run, 0, false, &shaped, &lookups),
        Some(vec![Piece::Verbatim('a'), Piece::Verbatim('b')])
    );
}

#[test]
fn a_right_to_left_run_is_compared_in_the_order_it_was_drawn() {
    let run: Vec<char> = "\u{05D0}\u{05D1}".chars().collect();
    let lookups = vec![Some((1, 10)), Some((1, 11))];
    let drawn = vec![glyph(11, 600, 600), glyph(10, 500, 500)];
    assert!(unchanged_run(&run, 1, true, &drawn, &lookups).is_some());
    assert!(unchanged_run(&run, 1, false, &drawn, &lookups).is_none());
}

#[test]
fn any_change_at_all_keeps_the_glyphs() {
    let run: Vec<char> = "ab".chars().collect();
    let lookups = vec![Some((0, 10)), Some((0, 11))];
    let plain = vec![glyph(10, 500, 500), glyph(11, 600, 600)];
    assert!(unchanged_run(&run, 0, false, &plain, &lookups).is_some());

    // A ligature: fewer glyphs than characters.
    assert!(unchanged_run(&run, 0, false, &vec![glyph(12, 900, 900)], &lookups).is_none());
    // Kerning: an advance other than the font's own.
    assert!(unchanged_run(&run, 0, false, &vec![glyph(10, 480, 500), glyph(11, 600, 600)], &lookups).is_none());
    // A mark moved off the pen position.
    let mut moved = plain.clone();
    moved[1].y_offset = -40;
    assert!(unchanged_run(&run, 0, false, &moved, &lookups).is_none());
    // A different glyph than the character draws as on its own.
    assert!(unchanged_run(&run, 0, false, &vec![glyph(10, 500, 500), glyph(13, 600, 600)], &lookups).is_none());
    // The character drawn on its own would come from another font.
    assert!(unchanged_run(&run, 1, false, &plain, &lookups).is_none());
    // A glyph the font has no advance for.
    let mut unknown = plain.clone();
    unknown[0].plain_advance = None;
    assert!(unchanged_run(&run, 0, false, &unknown, &lookups).is_none());
    // A character no font has on its own.
    assert!(unchanged_run(&run, 0, false, &plain, &vec![Some((0, 10)), None]).is_none());
}

#[test]
fn an_empty_run_is_unchanged() {
    assert_eq!(unchanged_run(&Vec::new(), 0, false, &Vec::new(), &Vec::new()), Some(Vec::new()));
}
