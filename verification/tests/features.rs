use maplibre_shaper::script::{disabled_refinements, features_for, needs_shaping, FeatureSetting, REFINEMENTS};
use unicode_script::Script;

#[test]
fn leaves_a_complex_script_alone() {
    assert!(features_for(Script::Devanagari as u8).is_empty());
    assert!(features_for(Script::Arabic as u8).is_empty());
    assert!(features_for(Script::Khmer as u8).is_empty());
}

#[test]
fn turns_refinements_off_for_a_simple_script() {
    assert_eq!(features_for(Script::Latin as u8).len(), REFINEMENTS.len());
    assert!(features_for(Script::Latin as u8).iter().all(|feature| feature.value == 0));
}

#[test]
fn treats_hebrew_as_simple_so_that_unpointed_hebrew_stays_characters() {
    // Its vowel points are positioned by `mark`, which is not on the list, so pointed Hebrew is
    // still shaped.
    assert!(!features_for(Script::Hebrew as u8).is_empty());
}

#[test]
fn the_refinements_are_named_by_their_tags() {
    let tags: Vec<[u8; 4]> = disabled_refinements(Script::Greek as u8);
    assert_eq!(tags, vec![*b"kern", *b"liga", *b"clig", *b"dlig", *b"hlig", *b"calt"]);
    assert!(disabled_refinements(Script::Tamil as u8).is_empty());
}

#[test]
fn the_script_codes_match_the_unicode_script_crate() {
    for script in [
        Script::Common,
        Script::Inherited,
        Script::Unknown,
        Script::Latin,
        Script::Greek,
        Script::Cyrillic,
        Script::Hebrew,
        Script::Han,
        Script::Canadian_Aboriginal,
        Script::Yi,
    ] {
        assert!(!needs_shaping(script as u8), "{script:?} is drawn correctly without shaping");
    }
    for script in [Script::Arabic, Script::Devanagari, Script::Tamil, Script::Thai, Script::Khmer] {
        assert!(needs_shaping(script as u8), "{script:?} needs shaping");
    }
}

#[test]
fn each_refinement_is_turned_off_over_the_whole_run() {
    let tags = [*b"kern", *b"liga", *b"clig", *b"dlig", *b"hlig", *b"calt"];
    let expected: Vec<FeatureSetting> = tags
        .iter()
        .map(|&tag| FeatureSetting { tag, value: 0, start: 0, end: u32::MAX })
        .collect();
    assert_eq!(features_for(Script::Cyrillic as u8), expected);
}
