//! The fallback chain of fonts: which font a character is shaped and drawn with.
//!
//! Fonts are tried in the order they were added: the first one with a glyph for a character is
//! the one that character is drawn with. The chain itself lives with the font files; what it
//! decides is stated here over what each font has for a character, `glyphs[i]` being the glyph
//! font `i` has for it, if any.

use vstd::prelude::*;

use crate::glyph::{FontIndex, GlyphIndex};
use crate::script::{char_script, script_of, INHERITED};

verus! {

/// The first font from `from` on with a glyph for the character, and that glyph.
pub open spec fn first_covering(glyphs: Seq<Option<GlyphIndex>>, from: int) -> Option<
    (FontIndex, GlyphIndex),
>
    decreases glyphs.len() - from,
{
    if from < 0 || from >= glyphs.len() {
        None
    } else if glyphs[from] is Some {
        Some((from as FontIndex, glyphs[from]->0))
    } else {
        first_covering(glyphs, from + 1)
    }
}

/// The font a character is shaped with when `preferred` is the font the run is already using:
/// that font if it has the character, else the first one that does.
pub open spec fn preferring(glyphs: Seq<Option<GlyphIndex>>, preferred: Option<FontIndex>) -> Option<
    (FontIndex, GlyphIndex),
> {
    match preferred {
        Some(index) => if (index as int) < glyphs.len() && glyphs[index as int] is Some {
            Some((index, glyphs[index as int]->0))
        } else {
            first_covering(glyphs, 0)
        },
        None => first_covering(glyphs, 0),
    }
}

/// Whether a character is one that combines with what precedes it: it has no script of its own
/// but takes the script of its base.
pub open spec fn combines(chars: Seq<char>, i: int) -> bool {
    i > 0 && char_script(chars[i]) == INHERITED
}

/// The font chosen for each of the first `n` characters: each character gets the first font that
/// has it, except that one which combines with what precedes it prefers the font chosen for that.
pub open spec fn chosen_fonts(
    chars: Seq<char>,
    coverage: Seq<Seq<Option<GlyphIndex>>>,
    n: int,
) -> Seq<Option<FontIndex>>
    decreases n,
{
    if n <= 0 {
        Seq::empty()
    } else {
        let before = chosen_fonts(chars, coverage, n - 1);
        let i = n - 1;
        let preferred = if combines(chars, i) {
            before[i - 1]
        } else {
            None
        };
        before.push(
            match preferring(coverage[i], preferred) {
                Some(found) => Some(found.0),
                None => None,
            },
        )
    }
}

proof fn lemma_chosen_fonts_length(
    chars: Seq<char>,
    coverage: Seq<Seq<Option<GlyphIndex>>>,
    n: int,
)
    requires
        n >= 0,
    ensures
        chosen_fonts(chars, coverage, n).len() == n,
    decreases n,
{
    if n > 0 {
        lemma_chosen_fonts_length(chars, coverage, n - 1);
    }
}

/// What the first covering font is: a font with a glyph for the character, with none before it
/// from `from` on; and when there is none, no font from `from` on has the character.
proof fn lemma_first_covering(glyphs: Seq<Option<GlyphIndex>>, from: int)
    requires
        0 <= from,
        glyphs.len() <= 0x1_0000,
    ensures
        match first_covering(glyphs, from) {
            Some((font, glyph)) => {
                &&& from <= font < glyphs.len()
                &&& glyphs[font as int] == Some(glyph)
                &&& forall|g: int| from <= g < font ==> glyphs[g] is None
            },
            None => forall|g: int| from <= g < glyphs.len() ==> glyphs[g] is None,
        },
    decreases glyphs.len() - from,
{
    if from < glyphs.len() && glyphs[from] is None {
        lemma_first_covering(glyphs, from + 1);
    }
}

/// The font chosen for a character does not change as more characters follow it.
proof fn lemma_chosen_prefix(
    chars: Seq<char>,
    coverage: Seq<Seq<Option<GlyphIndex>>>,
    n: int,
    i: int,
)
    requires
        0 <= i < n,
    ensures
        chosen_fonts(chars, coverage, n)[i] == chosen_fonts(chars, coverage, i + 1)[i],
    decreases n,
{
    lemma_chosen_fonts_length(chars, coverage, n - 1);
    if i < n - 1 {
        lemma_chosen_prefix(chars, coverage, n - 1, i);
    }
}

/// Whether the font chosen for character `i` is the right one, given what each font has for each
/// character (`coverage[i][f]`) and the fonts chosen (`fonts`): a character that has no script of
/// its own and follows another keeps the font chosen for the character before it whenever that
/// font has it; otherwise it gets a font that has it with no font before it in the chain that
/// does, and no font at all only when no font has it.
pub open spec fn chosen_well(
    chars: Seq<char>,
    coverage: Seq<Seq<Option<GlyphIndex>>>,
    fonts: Seq<Option<FontIndex>>,
    i: int,
) -> bool {
    let keeps_base = i > 0 && char_script(chars[i]) == INHERITED && match fonts[i - 1] {
        Some(base) => (base as int) < coverage[i].len() && coverage[i][base as int] is Some,
        None => false,
    };
    if keeps_base {
        fonts[i] == fonts[i - 1]
    } else {
        match fonts[i] {
            Some(font) => {
                &&& (font as int) < coverage[i].len()
                &&& coverage[i][font as int] is Some
                &&& forall|g: int| 0 <= g < font ==> coverage[i][g] is None
            },
            None => forall|g: int| 0 <= g < coverage[i].len() ==> coverage[i][g] is None,
        }
    }
}

/// Fonts are chosen from the fallback chain in order, and a combining mark stays with its base:
/// every character gets the first font that has it, except one with no script of its own that
/// follows another, which keeps the font chosen for the character just before it whenever that
/// font has it. (Chains of more than 65536 fonts are left out: a font is numbered by a `u16`.)
pub proof fn lemma_fonts_chosen_well(chars: Seq<char>, coverage: Seq<Seq<Option<GlyphIndex>>>)
    requires
        coverage.len() == chars.len(),
        forall|i: int| 0 <= i < coverage.len() ==> #[trigger] coverage[i].len() <= 0x1_0000,
    ensures
        chosen_fonts(chars, coverage, chars.len() as int).len() == chars.len(),
        forall|i: int|
            0 <= i < chars.len() ==> #[trigger] chosen_well(
                chars,
                coverage,
                chosen_fonts(chars, coverage, chars.len() as int),
                i,
            ),
{
    let n = chars.len() as int;
    let fonts = chosen_fonts(chars, coverage, n);
    lemma_chosen_fonts_length(chars, coverage, n);
    assert forall|i: int| 0 <= i < n implies #[trigger] chosen_well(chars, coverage, fonts, i) by {
        lemma_chosen_prefix(chars, coverage, n, i);
        lemma_chosen_fonts_length(chars, coverage, i);
        let before = chosen_fonts(chars, coverage, i);
        if i > 0 {
            lemma_chosen_prefix(chars, coverage, n, i - 1);
            lemma_chosen_prefix(chars, coverage, i, i - 1);
            assert(before[i - 1] == fonts[i - 1]);
        }
        assert(coverage[i].len() <= 0x1_0000);
        lemma_first_covering(coverage[i], 0);
    }
}

/// The first font with a glyph for a character, and that glyph, given what each font of the
/// chain has for it.
pub fn lookup(glyphs: &Vec<Option<GlyphIndex>>) -> (found: Option<(FontIndex, GlyphIndex)>)
    ensures
        found == first_covering(glyphs@, 0),
{
    let mut index: usize = 0;
    while index < glyphs.len()
        invariant
            0 <= index <= glyphs@.len(),
            first_covering(glyphs@, 0) == first_covering(glyphs@, index as int),
        decreases glyphs@.len() - index,
    {
        if let Some(glyph) = glyphs[index] {
            return Some((index as FontIndex, glyph));
        }
        index += 1;
    }
    None
}

/// The font a character should be shaped with, preferring one the run is already using so that a
/// shared character -- a space, a digit, a combining mark -- does not split a run away from the
/// letters it belongs with.
pub fn lookup_preferring(glyphs: &Vec<Option<GlyphIndex>>, preferred: Option<FontIndex>) -> (found:
    Option<(FontIndex, GlyphIndex)>)
    ensures
        found == preferring(glyphs@, preferred),
{
    if let Some(index) = preferred {
        if (index as usize) < glyphs.len() {
            if let Some(glyph) = glyphs[index as usize] {
                return Some((index, glyph));
            }
        }
    }
    lookup(glyphs)
}

/// The font every character is shaped with, given what each font of the chain has for each
/// character (`coverage[i][f]` for character `i` and font `f`).
///
/// Almost always this is the first font in the chain that has the character, which is what lets
/// a run go back to being characters: the glyph drawn for a lone character comes from the first
/// font that has it. The exception is a character that combines with what precedes it, which has
/// to be shaped with the font its base was shaped with, or the cluster falls apart.
pub fn resolve_fonts(chars: &Vec<char>, coverage: &Vec<Vec<Option<GlyphIndex>>>) -> (fonts: Vec<
    Option<FontIndex>,
>)
    requires
        coverage@.len() == chars@.len(),
    ensures
        fonts@ == chosen_fonts(chars@, coverage@.map_values(|row: Vec<Option<GlyphIndex>>| row@), chars@.len() as int),
        fonts@.len() == chars@.len(),
        (forall|i: int| 0 <= i < coverage@.len() ==> #[trigger] coverage@[i]@.len() <= 0x1_0000) ==> forall|
            i: int,
        |
            #![trigger fonts@[i]]
            0 <= i < chars@.len() ==> chosen_well(
                chars@,
                coverage@.map_values(|row: Vec<Option<GlyphIndex>>| row@),
                fonts@,
                i,
            ),
{
    let ghost rows = coverage@.map_values(|row: Vec<Option<GlyphIndex>>| row@);
    let mut chosen: Vec<Option<FontIndex>> = Vec::new();
    let mut previous: Option<FontIndex> = None;
    let mut index: usize = 0;
    while index < chars.len()
        invariant
            coverage@.len() == chars@.len(),
            rows == coverage@.map_values(|row: Vec<Option<GlyphIndex>>| row@),
            0 <= index <= chars@.len(),
            chosen@ == chosen_fonts(chars@, rows, index as int),
            index > 0 ==> previous == chosen@[index - 1],
        decreases chars@.len() - index,
    {
        proof {
            lemma_chosen_fonts_length(chars@, rows, index as int);
        }
        let ch = chars[index];
        let joins = index > 0 && script_of(ch) == INHERITED;
        let preferred = if joins {
            previous
        } else {
            None
        };
        let row = &coverage[index];
        assert(row@ == rows[index as int]);
        let font = match lookup_preferring(row, preferred) {
            Some(found) => Some(found.0),
            None => None,
        };
        chosen.push(font);
        previous = font;
        index += 1;
    }
    proof {
        lemma_chosen_fonts_length(chars@, rows, chars@.len() as int);
        if forall|i: int| 0 <= i < coverage@.len() ==> #[trigger] coverage@[i]@.len() <= 0x1_0000 {
            assert forall|i: int| 0 <= i < rows.len() implies #[trigger] rows[i].len() <= 0x1_0000 by {
                assert(rows[i] == coverage@[i]@);
            }
            lemma_fonts_chosen_well(chars@, rows);
        }
    }
    chosen
}

} // verus!
