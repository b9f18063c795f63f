//! The Unicode Bidirectional Algorithm, as the `unicode-bidi` crate runs it.

use unicode_bidi::{BidiInfo, Level};
use vstd::prelude::*;

use crate::chars::{chars_of, is_char_start, utf8_offset, utf8_width};
use crate::reorder::{lemma_encode_utf8_len, lemma_offsets_grow};
use vstd::string::StringSliceAdditionalSpecFns;

verus! {

#[verifier::external_type_specification]
#[verifier::external_body]
pub struct ExBidiInfo<'text>(BidiInfo<'text>);

/// What `BidiInfo::new` finds in a text: its paragraphs, as byte ranges, and the resolved level
/// of each byte.
pub uninterp spec fn bidi_analysis(text: Seq<char>) -> (Seq<(usize, usize)>, Seq<u8>);

/// The paragraphs `BidiInfo::new` finds in a text, as byte ranges.
pub open spec fn bidi_paragraphs(text: Seq<char>) -> Seq<(usize, usize)> {
    bidi_analysis(text).0
}

/// The level `BidiInfo::new` resolves for each character of a text: that of the byte where the
/// character starts.
pub open spec fn bidi_char_levels(text: Seq<char>) -> Seq<u8> {
    Seq::new(text.len(), |i: int| bidi_analysis(text).1[utf8_offset(text, i)])
}

/// The levels `BidiInfo::reordered_levels_per_char` gives a text, one per character, after
/// rule L1 has been applied to the byte range `start..end` of paragraph `paragraph`.
pub uninterp spec fn bidi_line_levels(
    text: Seq<char>,
    paragraph: int,
    start: usize,
    end: usize,
) -> Seq<u8>;

/// The order `BidiInfo::reorder_visual` puts a sequence of levels in: for each visual position,
/// the logical index shown there.
pub uninterp spec fn bidi_visual_order(levels: Seq<u8>) -> Seq<usize>;

/// A text together with what the bidirectional algorithm made of it.
pub struct BidiText<'a> {
    text: &'a str,
    info: BidiInfo<'a>,
}

impl<'a> BidiText<'a> {
    /// The text the algorithm ran over.
    pub closed spec fn text(&self) -> Seq<char> {
        self.text@
    }
}

/// Runs the algorithm over a text with no paragraph level imposed, through `BidiInfo::new`.
#[verifier::external_body]
pub(crate) fn analyze<'a>(text: &'a str) -> (bidi: BidiText<'a>)
    ensures
        bidi.text() == text@,
{
    BidiText { text, info: BidiInfo::new(text, None) }
}

/// The paragraphs the algorithm found, as byte ranges of the text. They come out of
/// `BidiInfo::new`, which splits the text just after each paragraph separator: the ranges are
/// not empty, each starts and ends where a character starts or at the end of the text, each
/// starts where the one before it ends, the first starts at 0 and the last ends at the end of the
/// text, and a text with no characters has none.
#[verifier::external_body]
pub(crate) fn paragraphs(bidi: &BidiText) -> (ranges: Vec<(usize, usize)>)
    ensures
        ranges@ == bidi_analysis(bidi.text()).0,
        forall|i: int|
            0 <= i < ranges@.len() ==> is_char_start(bidi.text(), #[trigger] ranges@[i].0 as int)
                && is_char_start(bidi.text(), ranges@[i].1 as int),
        forall|i: int| 0 <= i < ranges@.len() ==> #[trigger] ranges@[i].0 < ranges@[i].1,
        forall|i: int| 0 < i < ranges@.len() ==> #[trigger] ranges@[i].0 == ranges@[i - 1].1,
        ranges@.len() == 0 <==> bidi.text().len() == 0,
        ranges@.len() > 0 ==> ranges@[0].0 == 0 && ranges@.last().1 == encode_utf8_len(bidi.text()),
{
    bidi.info.paragraphs.iter().map(|paragraph| (paragraph.range.start, paragraph.range.end)).collect()
}

/// The resolved level of every byte of the text, as `BidiInfo::levels` holds them, one per byte;
/// a level never exceeds the crate's implicit maximum of 126.
#[verifier::external_body]
pub(crate) fn byte_levels(bidi: &BidiText) -> (levels: Vec<u8>)
    ensures
        levels@ == bidi_analysis(bidi.text()).1,
        levels@.len() == encode_utf8_len(bidi.text()),
        forall|i: int| 0 <= i < levels@.len() ==> #[trigger] levels@[i] <= 126,
{
    bidi.info.levels.iter().map(|level| level.number()).collect()
}

/// The resolved level of every character: that of the byte where the character starts.
pub(crate) fn char_levels(bidi: &BidiText) -> (levels: Vec<u8>)
    ensures
        levels@ == bidi_char_levels(bidi.text()),
        levels@.len() == bidi.text().len(),
        forall|i: int| 0 <= i < levels@.len() ==> #[trigger] levels@[i] <= 126,
{
    let ghost text = bidi.text();
    let bytes = byte_levels(bidi);
    let chars = chars_of(bidi.text);
    proof {
        lemma_encode_utf8_len(text);
    }
    let total = bytes.len();
    let mut levels: Vec<u8> = Vec::new();
    let mut at: usize = 0;
    let mut index: usize = 0;
    while index < chars.len()
        invariant
            total == bytes@.len(),
            chars@ == text,
            text == bidi.text(),
            bytes@ == bidi_analysis(text).1,
            bytes@.len() == utf8_offset(text, text.len() as int),
            forall|i: int| 0 <= i < bytes@.len() ==> #[trigger] bytes@[i] <= 126,
            0 <= index <= text.len(),
            at == utf8_offset(text, index as int),
            levels@.len() == index,
            forall|i: int|
                0 <= i < index ==> #[trigger] levels@[i] == bidi_analysis(text).1[utf8_offset(
                    text,
                    i,
                )],
            forall|i: int| 0 <= i < index ==> #[trigger] levels@[i] <= 126,
        decreases text.len() - index,
    {
        proof {
            lemma_offsets_grow(text, index + 1, text.len() as int);
        }
        levels.push(bytes[at]);
        let code = chars[index] as u32;
        let width: usize = if code < 0x80 {
            1
        } else if code < 0x800 {
            2
        } else if code < 0x10000 {
            3
        } else {
            4
        };
        assert(width == utf8_width(text[index as int]));
        assert(utf8_offset(text, index + 1) == at + width);
        assert(at + width <= total);
        at = at + width;
        index += 1;
    }
    assert(levels@ =~= bidi_char_levels(text));
    levels
}

/// The level of every character after rule L1 has been applied to one line of one paragraph,
/// through `BidiInfo::reordered_levels_per_char`. It panics unless the line is a run of whole
/// characters of the text, since it slices the text by the line's bytes; a level never exceeds
/// the crate's implicit maximum of 126.
#[verifier::external_body]
pub(crate) fn line_levels(bidi: &BidiText, paragraph: usize, start: usize, end: usize) -> (levels: Vec<u8>)
    requires
        paragraph < bidi_paragraphs(bidi.text()).len(),
        start <= end <= encode_utf8_len(bidi.text()),
        is_char_start(bidi.text(), start as int),
        is_char_start(bidi.text(), end as int),
    ensures
        levels@ == bidi_line_levels(bidi.text(), paragraph as int, start, end),
        levels@.len() == bidi.text().len(),
        forall|i: int| 0 <= i < levels@.len() ==> #[trigger] levels@[i] <= 126,
{
    bidi.info.reordered_levels_per_char(&bidi.info.paragraphs[paragraph], start..end)
        .iter()
        .map(|level| level.number())
        .collect()
}

/// The visual order of a sequence of levels, through `BidiInfo::reorder_visual`: one logical
/// index per position, each within the sequence and none twice, since the crate starts from the
/// identity and only ever reverses stretches of it.
#[verifier::external_body]
pub(crate) fn visual_order(levels: &[u8]) -> (order: Vec<usize>)
    requires
        forall|i: int| 0 <= i < levels@.len() ==> #[trigger] levels@[i] <= 126,
    ensures
        order@ == bidi_visual_order(levels@),
        order@.len() == levels@.len(),
        forall|i: int| 0 <= i < order@.len() ==> #[trigger] order@[i] < levels@.len(),
        forall|i: int, j: int| 0 <= i < j < order@.len() ==> order@[i] != order@[j],
{
    BidiInfo::reorder_visual(&Level::vec(levels))
}

/// How many bytes the UTF-8 encoding of a text takes.
pub open spec fn encode_utf8_len(text: Seq<char>) -> int {
    vstd::utf8::encode_utf8(text).len() as int
}

} // verus!
