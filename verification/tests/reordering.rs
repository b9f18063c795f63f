//! The second pass: putting shaped, line-broken text into the order it is read in. These need no
//! font: the direction of each glyph is simply stated.

use maplibre_shaper::reorder::reorder as reorder_text;
use maplibre_shaper::text::VisualLine;

/// Stands in for a shaped glyph. Any codepoint of the pool will do.
const RTL_GLYPH: char = '\u{F0000}';
const LTR_GLYPH: char = '\u{F0001}';

fn reorder(text: &str, line_breaks: &[u32]) -> Vec<VisualLine> {
    let directions: Vec<Option<bool>> = text
        .chars()
        .map(|ch| match ch {
            RTL_GLYPH => Some(true),
            LTR_GLYPH => Some(false),
            _ => None,
        })
        .collect();
    reorder_text(text, &directions, &[], line_breaks)
}

fn line(text: &str, line_breaks: &[u32]) -> String {
    reorder(text, line_breaks)
        .into_iter()
        .map(|line| line.codepoints.into_iter().filter_map(char::from_u32).collect::<String>())
        .collect::<Vec<_>>()
        .join("\n")
}

#[test]
fn a_right_to_left_run_is_reversed() {
    let shaped: String = [RTL_GLYPH, RTL_GLYPH, RTL_GLYPH].iter().collect();
    let visual = line(&shaped, &[]);
    assert_eq!(visual.chars().count(), 3);
    assert!(visual.chars().all(|ch| ch == RTL_GLYPH));
}

#[test]
fn a_left_to_right_run_is_left_alone() {
    assert_eq!(line("Tel Aviv", &[]), "Tel Aviv");
}

#[test]
fn the_first_strong_character_decides_the_direction_of_the_line() {
    let rtl_first = format!("{RTL_GLYPH}{RTL_GLYPH} ab");
    let ltr_first = format!("ab {RTL_GLYPH}{RTL_GLYPH}");

    for text in [&rtl_first, &ltr_first] {
        let visual = line(text, &[]);
        let letters: String = visual.chars().filter(|ch| ch.is_ascii_alphabetic()).collect();
        assert_eq!(letters, "ab", "{text:?} put its Latin in the wrong order");
        assert!(
            visual.chars().take(2).all(|ch| ch.is_ascii_alphabetic()),
            "{text:?} should start its line with the Latin run"
        );
    }
}

#[test]
fn a_number_inside_right_to_left_text_keeps_its_own_direction() {
    let text = format!("{RTL_GLYPH}{RTL_GLYPH} 42 {RTL_GLYPH}");
    let visual = line(&text, &[]);
    let digits: String = visual.chars().filter(char::is_ascii_digit).collect();
    assert_eq!(digits, "42", "the digits should not have been reversed");
}

#[test]
fn each_line_is_reordered_on_its_own() {
    let text = format!("ab {RTL_GLYPH}{RTL_GLYPH}");
    let lines = reorder(&text, &[3]);
    assert_eq!(lines.len(), 2, "one break should give two lines");
    assert_eq!(lines[0].codepoints.len(), 3, "the first line is `ab ` ");
    assert_eq!(lines[1].codepoints.len(), 2, "the second line is the right-to-left run");
}

#[test]
fn the_number_of_lines_matches_maplibres_own_splitting() {
    assert_eq!(reorder("abcdef", &[2, 4]).len(), 3);
    assert_eq!(reorder("abcdef", &[]).len(), 1);
    assert_eq!(reorder("abcdef", &[6]).len(), 1, "a break at the end adds no empty line");
}

#[test]
fn line_breaks_are_counted_in_utf16_code_units() {
    let text = format!("{LTR_GLYPH}{LTR_GLYPH}{LTR_GLYPH}");
    // Two code units per glyph, so a break after the second glyph is at four.
    let lines = reorder(&text, &[4]);
    assert_eq!(lines.len(), 2);
    assert_eq!(lines[0].codepoints.len(), 2);
    assert_eq!(lines[1].codepoints.len(), 1);
}

#[test]
fn sections_follow_their_characters_into_visual_order() {
    // Three shaped glyphs, two UTF-16 code units each, in sections 7, 8 and 9.
    let text = format!("{RTL_GLYPH}{RTL_GLYPH}{RTL_GLYPH}");
    let sections = [7, 7, 8, 8, 9, 9];
    let directions = vec![Some(true); 3];
    let lines = reorder_text(&text, &directions, &sections, &[]);
    assert_eq!(lines.len(), 1);
    assert_eq!(lines[0].sections, vec![9, 8, 7]);
}

#[test]
fn a_missing_section_counts_as_the_first() {
    let lines = reorder_text("ab", &vec![None, None], &[5], &[]);
    assert_eq!(lines[0].codepoints, vec!['a' as u32, 'b' as u32]);
    assert_eq!(lines[0].sections, vec![5, 0]);
}

#[test]
fn an_empty_text_has_no_lines() {
    assert!(reorder("", &[]).is_empty());
    assert_eq!(reorder("", &[0]).len(), 1, "a break gives a line even when there is nothing in it");
}

#[test]
fn breaks_out_of_order_never_move_backwards() {
    let lines = reorder("abcdef", &[4, 2]);
    assert_eq!(lines.len(), 3);
    assert_eq!(lines[0].codepoints.len(), 4);
    assert_eq!(lines[1].codepoints.len(), 0);
    assert_eq!(lines[2].codepoints.len(), 2);
}

#[test]
fn a_line_across_two_paragraphs_keeps_every_character_once() {
    // A hard break inside one line starts a second paragraph; each part is reordered on its own
    // and the parts stay in the order they were written.
    let text = format!("a{RTL_GLYPH}{LTR_GLYPH}\n{RTL_GLYPH}{RTL_GLYPH}b");
    let lines = reorder(&text, &[]);
    assert_eq!(lines.len(), 1);
    let mut seen = lines[0].codepoints.clone();
    let mut written: Vec<u32> = text.chars().map(|ch| ch as u32).collect();
    seen.sort_unstable();
    written.sort_unstable();
    assert_eq!(seen, written);
    // The first paragraph runs left to right and comes first; the second starts with a
    // right-to-left run, so its own order is reversed but it stays after the first.
    assert_eq!(lines[0].codepoints[0], 'a' as u32);
    assert_eq!(&lines[0].codepoints[4..], &['b' as u32, RTL_GLYPH as u32, RTL_GLYPH as u32]);
}
