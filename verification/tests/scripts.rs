//! Scripts, and splitting text into the runs it is shaped in.

use maplibre_shaper::script::{resolve_scripts, ARABIC, COMMON, HEBREW, LATIN};
use maplibre_shaper::segment::{plan_runs, split_runs, Segment};
use unicode_script::Script;

fn scripts(text: &str) -> Vec<u8> {
    resolve_scripts(&text.chars().collect())
}

#[test]
fn a_character_with_a_script_of_its_own_keeps_the_one_the_unicode_script_crate_gives_it() {
    assert_eq!(scripts("a"), vec![Script::Latin as u8]);
    assert_eq!(scripts("a"), vec![LATIN]);
    assert_eq!(scripts("\u{05D0}"), vec![HEBREW]);
    assert_eq!(scripts("\u{0627}"), vec![ARABIC]);
    assert_eq!(scripts("\u{0E01}"), vec![Script::Thai as u8]);
    // Neither a space nor a combining mark has a script of its own.
    assert_eq!(scripts(" "), vec![COMMON]);
    assert_eq!(scripts("\u{0301}"), vec![COMMON]);
    assert_eq!(scripts("\u{0301}a"), vec![LATIN, LATIN]);
}

#[test]
fn characters_without_a_script_take_the_one_before_them() {
    assert_eq!(scripts("ab 1"), vec![LATIN, LATIN, LATIN, LATIN]);
    assert_eq!(
        scripts("\u{05D0} a, \u{05D1}"),
        vec![HEBREW, HEBREW, LATIN, LATIN, LATIN, HEBREW]
    );
}

#[test]
fn what_comes_before_the_first_script_takes_the_one_after_it() {
    assert_eq!(scripts("12 \u{05D0}"), vec![HEBREW, HEBREW, HEBREW, HEBREW]);
    assert_eq!(scripts("\"Tel"), vec![LATIN, LATIN, LATIN, LATIN]);
}

#[test]
fn text_with_no_script_at_all_stays_common() {
    assert_eq!(scripts("12 3"), vec![COMMON, COMMON, COMMON, COMMON]);
    assert!(scripts("").is_empty());
}

fn run(start: usize, end: usize, level: u8, script: u8, font: u16) -> Segment {
    Segment::Run { start, end, level, script, font }
}

#[test]
fn runs_split_where_level_script_or_font_change() {
    let chars: Vec<char> = "abcde".chars().collect();
    let levels = vec![0, 0, 1, 1, 1];
    let scripts = vec![LATIN, LATIN, LATIN, HEBREW, HEBREW];
    let fonts = vec![Some(0), Some(0), Some(0), Some(0), Some(2)];
    assert_eq!(
        split_runs(&chars, &levels, &scripts, &fonts),
        vec![
            run(0, 2, 0, LATIN, 0),
            run(2, 3, 1, LATIN, 0),
            run(3, 4, 1, HEBREW, 0),
            run(4, 5, 1, HEBREW, 2),
        ]
    );
}

#[test]
fn a_newline_or_an_uncovered_character_stands_alone() {
    let chars: Vec<char> = "ab\ncd".chars().collect();
    let levels = vec![0; 5];
    let scripts = vec![LATIN; 5];
    let fonts = vec![Some(0), Some(0), Some(0), None, Some(0)];
    assert_eq!(
        split_runs(&chars, &levels, &scripts, &fonts),
        vec![run(0, 2, 0, LATIN, 0), Segment::Verbatim('\n'), Segment::Verbatim('c'), run(4, 5, 0, LATIN, 0)]
    );
    assert!(split_runs(&Vec::new(), &Vec::new(), &Vec::new(), &Vec::new()).is_empty());
}

#[test]
fn a_mixed_direction_label_is_planned_as_one_run_per_direction() {
    let text = "ab \u{05E9}\u{05DC}";
    let fonts = vec![Some(0), Some(0), Some(0), Some(1), Some(1)];
    assert_eq!(
        plan_runs(text, &fonts),
        vec![run(0, 3, 0, LATIN, 0), run(3, 5, 1, HEBREW, 1)]
    );
}

#[test]
fn digits_in_right_to_left_text_keep_their_own_level() {
    let text = "\u{05E9} 12";
    let fonts = vec![Some(0); 4];
    assert_eq!(
        plan_runs(text, &fonts),
        vec![run(0, 2, 1, HEBREW, 0), run(2, 4, 2, HEBREW, 0)]
    );
}
