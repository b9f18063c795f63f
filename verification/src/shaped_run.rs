//! Deciding whether shaping changed a run at all.
//!
//! Runs that shaping leaves untouched -- most Latin text -- are handed back as their original
//! characters instead of as glyphs, so that ordinary labels stay ordinary codepoints all the way
//! through MapLibre: line breaking still sees its spaces and hyphens, and the glyph atlas does not
//! fill up with a private copy of the Latin alphabet.

use vstd::prelude::*;

use crate::glyph::{FontIndex, GlyphIndex};
use crate::text::{verbatim, verbatim_pieces, Piece};

verus! {

/// One glyph of a shaped run as the shaping engine hands it back, in font units, together with
/// the font's own advance for that glyph where the font has one.
#[derive(Clone, Copy, Debug, PartialEq, Eq)]
pub struct RunGlyph {
    pub glyph: u32,
    pub x_advance: i32,
    pub x_offset: i32,
    pub y_offset: i32,
    pub plain_advance: Option<u16>,
}

/// Where the glyph for the `k`th character of a run of `n` sits in what the shaping engine
/// returned: a right-to-left run comes back in visual order.
pub open spec fn drawn_at(n: int, rtl: bool, k: int) -> int {
    if rtl {
        n - 1 - k
    } else {
        k
    }
}

/// Whether the glyph drawn for the `k`th character is the one that character draws as on its
/// own, unmoved and at the font's own advance. `lookups[k]` is the first font with a glyph for
/// that character, and that glyph.
pub open spec fn glyph_unchanged(
    font: FontIndex,
    glyph: RunGlyph,
    lookup: Option<(FontIndex, GlyphIndex)>,
) -> bool {
    &&& glyph.x_offset == 0
    &&& glyph.y_offset == 0
    &&& lookup == Some((font, glyph.glyph as GlyphIndex))
    &&& glyph.plain_advance is Some
    &&& glyph.x_advance == glyph.plain_advance->0 as i32
}

/// Whether shaping left a run exactly as it found it: one glyph per character, in order, each the
/// glyph its character draws as on its own, unmoved, at the font's plain advance.
pub open spec fn run_unchanged(
    n: int,
    font: FontIndex,
    rtl: bool,
    shaped: Seq<RunGlyph>,
    lookups: Seq<Option<(FontIndex, GlyphIndex)>>,
) -> bool {
    &&& shaped.len() == n
    &&& forall|k: int|
        0 <= k < n ==> #[trigger] glyph_unchanged(font, shaped[drawn_at(n, rtl, k)], lookups[k])
}

/// The characters of a run, if shaping left the run as it found it.
///
/// `run` holds the characters of the run, `shaped` the glyphs shaping made of them in the order
/// the shaping engine returned them, and `lookups[k]` the first font with a glyph for `run[k]`,
/// with that glyph.
pub fn unchanged_run(
    run: &Vec<char>,
    font: FontIndex,
    rtl: bool,
    shaped: &Vec<RunGlyph>,
    lookups: &Vec<Option<(FontIndex, GlyphIndex)>>,
) -> (pieces: Option<Vec<Piece>>)
    requires
        lookups@.len() == run@.len(),
    ensures
        pieces is Some <==> run_unchanged(run@.len() as int, font, rtl, shaped@, lookups@),
        pieces is Some ==> pieces->0@ == verbatim_pieces(run@),
{
    let n = run.len();
    if shaped.len() != n {
        return None;
    }
    let mut k: usize = 0;
    while k < n
        invariant
            n == run@.len(),
            shaped@.len() == n,
            lookups@.len() == n,
            0 <= k <= n,
            forall|j: int|
                0 <= j < k ==> #[trigger] glyph_unchanged(
                    font,
                    shaped@[drawn_at(n as int, rtl, j)],
                    lookups@[j],
                ),
        decreases n - k,
    {
        let at = if rtl {
            n - 1 - k
        } else {
            k
        };
        let glyph = shaped[at];
        if glyph.x_offset != 0 || glyph.y_offset != 0 {
            assert(!glyph_unchanged(font, shaped@[drawn_at(n as int, rtl, k as int)], lookups@[k as int]));
            return None;
        }
        let index = glyph.glyph as GlyphIndex;
        let expected = Some((font, index));
        let matches = match lookups[k] {
            Some(found) => found.0 == font && found.1 == index,
            None => false,
        };
        if !matches {
            assert(!glyph_unchanged(font, shaped@[drawn_at(n as int, rtl, k as int)], lookups@[k as int]));
            return None;
        }
        assert(lookups@[k as int] == expected);
        let plain = match glyph.plain_advance {
            Some(advance) => advance,
            None => {
                assert(!glyph_unchanged(font, shaped@[drawn_at(n as int, rtl, k as int)], lookups@[k as int]));
                return None;
            },
        };
        if glyph.x_advance != plain as i32 {
            assert(!glyph_unchanged(font, shaped@[drawn_at(n as int, rtl, k as int)], lookups@[k as int]));
            return None;
        }
        assert(glyph_unchanged(font, shaped@[drawn_at(n as int, rtl, k as int)], lookups@[k as int]));
        k += 1;
    }
    let mut pieces: Vec<Piece> = Vec::new();
    let mut i: usize = 0;
    while i < n
        invariant
            n == run@.len(),
            0 <= i <= n,
            pieces@ == verbatim_pieces(run@.take(i as int)),
        decreases n - i,
    {
        pieces.push(Piece::Verbatim(run[i]));
        proof {
            let next = run@.take(i + 1);
            assert(next.drop_last() =~= run@.take(i as int));
            assert(next.last() == run@[i as int]);
            assert(Piece::Verbatim(run@[i as int]) == verbatim(run@[i as int]));
        }
        i += 1;
    }
    assert(run@.take(n as int) =~= run@);
    Some(pieces)
}

} // verus!
