//! Scripts: which one each character belongs to, and which OpenType features a run of a script
//! is shaped with.
//!
//! Shaping is only worth doing where it changes something. A run of Latin text that comes back
//! exactly as it went in can stay characters, and what stops that from happening is typographic
//! refinement: kerning and optional ligatures. So for the scripts MapLibre already draws
//! correctly, refinements are turned off. Everything a script actually needs -- required
//! ligatures, mark attachment, Indic reordering, Arabic joining -- is untouched.

use unicode_script::UnicodeScript;
use vstd::prelude::*;

verus! {

/// A script, as the number `unicode_script::Script` is represented by.
pub type ScriptCode = u8;

pub const UNKNOWN: ScriptCode = 0xFF;
pub const COMMON: ScriptCode = 0xFE;
pub const INHERITED: ScriptCode = 0xFD;
pub const ARABIC: ScriptCode = 3;
pub const ARMENIAN: ScriptCode = 5;
pub const BOPOMOFO: ScriptCode = 14;
pub const CANADIAN_ABORIGINAL: ScriptCode = 20;
pub const CHEROKEE: ScriptCode = 23;
pub const COPTIC: ScriptCode = 25;
pub const CYRILLIC: ScriptCode = 28;
pub const DEVANAGARI: ScriptCode = 29;
pub const DESERET: ScriptCode = 32;
pub const ETHIOPIC: ScriptCode = 37;
pub const GEORGIAN: ScriptCode = 39;
pub const GOTHIC: ScriptCode = 43;
pub const GREEK: ScriptCode = 45;
pub const HANGUL: ScriptCode = 49;
pub const HAN: ScriptCode = 50;
pub const HEBREW: ScriptCode = 53;
pub const HIRAGANA: ScriptCode = 54;
pub const OLD_ITALIC: ScriptCode = 59;
pub const KATAKANA: ScriptCode = 63;
pub const KHMER: ScriptCode = 66;
pub const LATIN: ScriptCode = 74;
pub const OGHAM: ScriptCode = 105;
pub const OSAGE: ScriptCode = 110;
pub const RUNIC: ScriptCode = 125;
pub const VAI: ScriptCode = 166;
pub const YI: ScriptCode = 173;

/// The script `UnicodeScript::script` gives a character.
pub uninterp spec fn char_script(ch: char) -> ScriptCode;

/// The script of a character, through `UnicodeScript::script`.
#[verifier::external_body]
pub(crate) fn script_of(ch: char) -> (script: ScriptCode)
    ensures
        script == char_script(ch),
{
    ch.script() as u8
}

/// Features that make text look better without being needed to write it correctly.
pub const REFINEMENTS: [[u8; 4]; 6] = [
    [107, 101, 114, 110],
    [108, 105, 103, 97],
    [99, 108, 105, 103],
    [100, 108, 105, 103],
    [104, 108, 105, 103],
    [99, 97, 108, 116],
];

/// Whether a script is one MapLibre draws correctly a codepoint at a time. The scripts that are
/// fine are named and everything else is taken to need shaping, because being wrong in that
/// direction only costs a codepoint from the pool.
pub open spec fn is_simple_script(script: ScriptCode) -> bool {
    script == COMMON || script == INHERITED || script == UNKNOWN || script == LATIN || script
        == GREEK || script == CYRILLIC || script == ARMENIAN || script == GEORGIAN || script
        == HEBREW || script == HAN || script == HIRAGANA || script == KATAKANA || script
        == BOPOMOFO || script == HANGUL || script == CHEROKEE || script == ETHIOPIC || script
        == CANADIAN_ABORIGINAL || script == COPTIC || script == DESERET || script == GOTHIC
        || script == OGHAM || script == OLD_ITALIC || script == OSAGE || script == RUNIC || script
        == VAI || script == YI
}

/// The scripts MapLibre draws correctly a codepoint at a time, one by one: Common, Inherited,
/// Unknown, Latin, Greek, Cyrillic, Armenian, Georgian, Hebrew, Han, Hiragana, Katakana,
/// Bopomofo, Hangul, Cherokee, Ethiopic, Canadian Aboriginal, Coptic, Deseret, Gothic, Ogham, Old
/// Italic, Osage, Runic, Vai and Yi; while Arabic, Devanagari and Khmer, which join, reorder and
/// stack, need shaping.
pub proof fn lemma_named_scripts()
    ensures
        is_simple_script(COMMON),
        is_simple_script(INHERITED),
        is_simple_script(UNKNOWN),
        is_simple_script(LATIN),
        is_simple_script(GREEK),
        is_simple_script(CYRILLIC),
        is_simple_script(ARMENIAN),
        is_simple_script(GEORGIAN),
        is_simple_script(HEBREW),
        is_simple_script(HAN),
        is_simple_script(HIRAGANA),
        is_simple_script(KATAKANA),
        is_simple_script(BOPOMOFO),
        is_simple_script(HANGUL),
        is_simple_script(CHEROKEE),
        is_simple_script(ETHIOPIC),
        is_simple_script(CANADIAN_ABORIGINAL),
        is_simple_script(COPTIC),
        is_simple_script(DESERET),
        is_simple_script(GOTHIC),
        is_simple_script(OGHAM),
        is_simple_script(OLD_ITALIC),
        is_simple_script(OSAGE),
        is_simple_script(RUNIC),
        is_simple_script(VAI),
        is_simple_script(YI),
        !is_simple_script(ARABIC),
        !is_simple_script(DEVANAGARI),
        !is_simple_script(KHMER),
{
}

/// Whether a script is one MapLibre cannot draw a codepoint at a time.
pub fn needs_shaping(script: ScriptCode) -> (needed: bool)
    ensures
        needed == !is_simple_script(script),
        script == COMMON ==> !needed,
        script == INHERITED ==> !needed,
        script == UNKNOWN ==> !needed,
        script == LATIN ==> !needed,
        script == GREEK ==> !needed,
        script == CYRILLIC ==> !needed,
        script == ARMENIAN ==> !needed,
        script == GEORGIAN ==> !needed,
        script == HEBREW ==> !needed,
        script == HAN ==> !needed,
        script == HIRAGANA ==> !needed,
        script == KATAKANA ==> !needed,
        script == BOPOMOFO ==> !needed,
        script == HANGUL ==> !needed,
        script == CHEROKEE ==> !needed,
        script == ETHIOPIC ==> !needed,
        script == CANADIAN_ABORIGINAL ==> !needed,
        script == COPTIC ==> !needed,
        script == DESERET ==> !needed,
        script == GOTHIC ==> !needed,
        script == OGHAM ==> !needed,
        script == OLD_ITALIC ==> !needed,
        script == OSAGE ==> !needed,
        script == RUNIC ==> !needed,
        script == VAI ==> !needed,
        script == YI ==> !needed,
        script == ARABIC ==> needed,
        script == DEVANAGARI ==> needed,
        script == KHMER ==> needed,
        !needed ==> (script == COMMON || script == INHERITED || script == UNKNOWN || script == LATIN
                || script == GREEK || script == CYRILLIC || script == ARMENIAN || script == GEORGIAN
                || script == HEBREW || script == HAN || script == HIRAGANA || script == KATAKANA
                || script == BOPOMOFO || script == HANGUL || script == CHEROKEE || script == ETHIOPIC
                || script == CANADIAN_ABORIGINAL || script == COPTIC || script == DESERET || script == GOTHIC
                || script == OGHAM || script == OLD_ITALIC || script == OSAGE || script == RUNIC
                || script == VAI || script == YI),
{
    !(script == COMMON || script == INHERITED || script == UNKNOWN || script == LATIN || script
        == GREEK || script == CYRILLIC || script == ARMENIAN || script == GEORGIAN || script
        == HEBREW || script == HAN || script == HIRAGANA || script == KATAKANA || script
        == BOPOMOFO || script == HANGUL || script == CHEROKEE || script == ETHIOPIC || script
        == CANADIAN_ABORIGINAL || script == COPTIC || script == DESERET || script == GOTHIC
        || script == OGHAM || script == OLD_ITALIC || script == OSAGE || script == RUNIC || script
        == VAI || script == YI)
}

/// The refinements a run of a script is shaped without: none for a script that needs shaping,
/// all of them for one that does not.
pub open spec fn refinements_off(script: ScriptCode) -> Seq<[u8; 4]> {
    if is_simple_script(script) {
        REFINEMENTS@
    } else {
        Seq::empty()
    }
}

/// The tags of the refinements a run of a script is shaped without.
pub fn disabled_refinements(script: ScriptCode) -> (tags: Vec<[u8; 4]>)
    ensures
        tags@ == refinements_off(script),
{
    let mut tags: Vec<[u8; 4]> = Vec::new();
    if needs_shaping(script) {
        return tags;
    }
    let mut index: usize = 0;
    while index < 6
        invariant
            0 <= index <= 6,
            tags@ == REFINEMENTS@.take(index as int),
        decreases 6 - index,
    {
        tags.push(REFINEMENTS[index]);
        assert(tags@ =~= REFINEMENTS@.take(index + 1));
        index += 1;
    }
    assert(REFINEMENTS@.take(6) =~= REFINEMENTS@);
    tags
}

/// An OpenType feature setting as a shaping engine takes it: the feature's tag, its value, and
/// the stretch of the run it applies to, from character `start` to character `end` inclusive.
#[derive(Clone, Copy, Debug, PartialEq, Eq)]
pub struct FeatureSetting {
    pub tag: [u8; 4],
    pub value: u32,
    pub start: u32,
    pub end: u32,
}

/// A feature turned off over the whole run: value 0, from the first character to the last.
pub open spec fn turned_off(tag: [u8; 4]) -> FeatureSetting {
    FeatureSetting { tag, value: 0, start: 0, end: u32::MAX }
}

/// The features to shape a run of this script with: the refinements of
/// [`disabled_refinements`], each turned off over the whole run, in the same order.
pub fn features_for(script: ScriptCode) -> (features: Vec<FeatureSetting>)
    ensures
        features@.len() == refinements_off(script).len(),
        forall|i: int|
            0 <= i < features@.len() ==> #[trigger] features@[i] == turned_off(
                refinements_off(script)[i],
            ),
        script == COMMON || script == INHERITED || script == UNKNOWN || script == LATIN
            || script == GREEK || script == CYRILLIC || script == ARMENIAN || script == GEORGIAN
            || script == HEBREW || script == HAN || script == HIRAGANA || script == KATAKANA
            || script == BOPOMOFO || script == HANGUL || script == CHEROKEE || script == ETHIOPIC
            || script == CANADIAN_ABORIGINAL || script == COPTIC || script == DESERET || script == GOTHIC
            || script == OGHAM || script == OLD_ITALIC || script == OSAGE || script == RUNIC
            || script == VAI || script == YI ==> features@.len() == 6 && forall|i: int|
            0 <= i < 6 ==> #[trigger] features@[i] == turned_off(REFINEMENTS[i]),
        script == ARABIC || script == DEVANAGARI || script == KHMER ==> features@.len() == 0,
        !(script == COMMON || script == INHERITED || script == UNKNOWN || script == LATIN
            || script == GREEK || script == CYRILLIC || script == ARMENIAN || script == GEORGIAN
            || script == HEBREW || script == HAN || script == HIRAGANA || script == KATAKANA
            || script == BOPOMOFO || script == HANGUL || script == CHEROKEE || script == ETHIOPIC
            || script == CANADIAN_ABORIGINAL || script == COPTIC || script == DESERET || script == GOTHIC
            || script == OGHAM || script == OLD_ITALIC || script == OSAGE || script == RUNIC
            || script == VAI || script == YI) ==> features@.len() == 0,
{
    let tags = disabled_refinements(script);
    let mut features: Vec<FeatureSetting> = Vec::new();
    let mut index: usize = 0;
    while index < tags.len()
        invariant
            0 <= index <= tags@.len(),
            tags@ == refinements_off(script),
            features@.len() == index,
            forall|i: int| 0 <= i < index ==> #[trigger] features@[i] == turned_off(tags@[i]),
        decreases tags@.len() - index,
    {
        features.push(FeatureSetting { tag: tags[index], value: 0, start: 0, end: u32::MAX });
        index += 1;
    }
    features
}

/// Whether a script is a script of its own rather than one a character takes from the text
/// around it.
pub open spec fn is_own_script(script: ScriptCode) -> bool {
    script != COMMON && script != INHERITED && script != UNKNOWN
}

/// The last script of its own at or before position `i`, or Common if there is none.
pub open spec fn own_script_before(raw: Seq<ScriptCode>, i: int) -> ScriptCode
    decreases i + 1,
{
    if i < 0 {
        COMMON
    } else if is_own_script(raw[i]) {
        raw[i]
    } else {
        own_script_before(raw, i - 1)
    }
}

/// The first script of its own at or after position `i`, or Common if there is none.
pub open spec fn own_script_after(raw: Seq<ScriptCode>, i: int) -> ScriptCode
    decreases raw.len() - i,
{
    if i >= raw.len() || i < 0 {
        COMMON
    } else if is_own_script(raw[i]) {
        raw[i]
    } else {
        own_script_after(raw, i + 1)
    }
}

/// The script a character is shaped as: its own if it has one; otherwise that of the nearest
/// character before it with one; and for what comes before the first such character -- a
/// leading quotation mark, a house number -- that of the first one after it.
pub open spec fn resolved_script(raw: Seq<ScriptCode>, i: int) -> ScriptCode {
    if is_own_script(own_script_before(raw, i)) {
        own_script_before(raw, i)
    } else {
        own_script_after(raw, i)
    }
}

/// The raw script of every character.
pub open spec fn raw_scripts(chars: Seq<char>) -> Seq<ScriptCode> {
    Seq::new(chars.len(), |i: int| char_script(chars[i]))
}

/// Before the first character with a script of its own, nothing has one.
proof fn lemma_no_own_script_before(raw: Seq<ScriptCode>, i: int, k: int)
    requires
        0 <= k <= i < raw.len(),
        !is_own_script(own_script_before(raw, i)),
    ensures
        !is_own_script(raw[k]),
    decreases i,
{
    if k < i {
        lemma_no_own_script_before(raw, i - 1, k);
    }
}

/// The script of every character, with the ones that have no script of their own -- digits,
/// punctuation, spaces, combining marks -- taking the script of the text around them.
pub fn resolve_scripts(chars: &Vec<char>) -> (scripts: Vec<ScriptCode>)
    ensures
        scripts@.len() == chars@.len(),
        forall|i: int|
            0 <= i < chars@.len() ==> #[trigger] scripts@[i] == resolved_script(
                raw_scripts(chars@),
                i,
            ),
{
    let ghost raw = raw_scripts(chars@);
    let mut scripts: Vec<ScriptCode> = Vec::new();
    let mut current: ScriptCode = COMMON;
    let mut index: usize = 0;
    while index < chars.len()
        invariant
            raw == raw_scripts(chars@),
            0 <= index <= chars@.len(),
            scripts@.len() == index,
            current == own_script_before(raw, index - 1),
            forall|i: int| 0 <= i < index ==> #[trigger] scripts@[i] == own_script_before(raw, i),
        decreases chars@.len() - index,
    {
        let script = script_of(chars[index]);
        assert(script == raw[index as int]);
        if script != COMMON && script != INHERITED && script != UNKNOWN {
            current = script;
        }
        scripts.push(current);
        index += 1;
    }
    let mut current: ScriptCode = COMMON;
    let mut index: usize = scripts.len();
    while index > 0
        invariant
            raw == raw_scripts(chars@),
            scripts@.len() == chars@.len(),
            0 <= index <= chars@.len(),
            forall|i: int| 0 <= i < index ==> #[trigger] scripts@[i] == own_script_before(raw, i),
            forall|i: int|
                index <= i < chars@.len() ==> #[trigger] scripts@[i] == resolved_script(raw, i),
            index < chars@.len() && !is_own_script(own_script_before(raw, index as int)) ==> current
                == own_script_after(raw, index as int),
            index < chars@.len() && is_own_script(own_script_before(raw, index as int)) ==> current
                == own_script_before(raw, index as int),
            index == chars@.len() ==> current == COMMON,
        decreases index,
    {
        index -= 1;
        let script = scripts[index];
        proof {
            let i = index as int;
            if !is_own_script(own_script_before(raw, i)) {
                lemma_no_own_script_before(raw, i, i);
                if i + 1 < chars@.len() {
                    if is_own_script(own_script_before(raw, i + 1)) {
                        assert(is_own_script(raw[i + 1]));
                    }
                }
                assert(own_script_after(raw, i) == own_script_after(raw, i + 1));
            }
        }
        if script != COMMON && script != INHERITED && script != UNKNOWN {
            current = script;
        } else {
            scripts.set(index, current);
        }
    }
    scripts
}

} // verus!
