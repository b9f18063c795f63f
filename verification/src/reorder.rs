//! The second pass: putting a shaped, line-broken string into the order it is read in.
//!
//! The Unicode Bidirectional Algorithm resolves the order of a *line*, not of a paragraph, so
//! this runs once MapLibre has decided where the lines break. By this point some of the text is
//! glyph references, which have no direction of their own; the algorithm is run over a stand-in
//! string in which each glyph reference is replaced by a character of the direction that glyph
//! was shaped in, and everything else is still itself.

use vstd::prelude::*;

use crate::bidi::{
    analyze, bidi_line_levels, bidi_paragraphs, bidi_visual_order, encode_utf8_len, line_levels,
    paragraphs, visual_order, BidiText,
};
use crate::chars::{chars_of, is_char_start, push_char, utf8_offset, utf8_width};
use crate::text::VisualLine;

verus! {

/// Stands in for a glyph shaped right to left: the Hebrew letter alef.
pub const RTL_STAND_IN: char = '\u{05D0}';

/// Stands in for a glyph shaped left to right.
pub const LTR_STAND_IN: char = 'A';

/// How many UTF-16 code units a character takes.
pub open spec fn utf16_width(ch: char) -> int {
    if ch as u32 >= 0x10000 {
        2
    } else {
        1
    }
}

/// Where character `i` starts, in UTF-16 code units.
pub open spec fn utf16_offset(chars: Seq<char>, i: int) -> int
    decreases i,
{
    if i <= 0 {
        0
    } else {
        utf16_offset(chars, i - 1) + utf16_width(chars[i - 1])
    }
}

/// What the bidirectional algorithm is shown in place of a character: a strong character of the
/// glyph's direction where the character stands for a shaped glyph, and the character itself
/// otherwise.
pub open spec fn stand_in_char(ch: char, direction: Option<bool>) -> char {
    match direction {
        Some(true) => RTL_STAND_IN,
        Some(false) => LTR_STAND_IN,
        None => ch,
    }
}

/// The stand-in text, character by character.
pub open spec fn stand_in_text(chars: Seq<char>, directions: Seq<Option<bool>>) -> Seq<char> {
    Seq::new(chars.len(), |i: int| stand_in_char(chars[i], directions[i]))
}

/// The section of the character starting at UTF-16 offset `offset`, or 0 past the end of
/// `sections`.
pub open spec fn section_at(sections: Seq<u32>, offset: int) -> u32 {
    if 0 <= offset < sections.len() {
        sections[offset]
    } else {
        0
    }
}

/// The section of every character.
pub open spec fn char_sections(chars: Seq<char>, sections: Seq<u32>) -> Seq<u32> {
    Seq::new(chars.len(), |i: int| section_at(sections, utf16_offset(chars, i)))
}

/// Every character as a codepoint.
pub open spec fn codepoints_of(chars: Seq<char>) -> Seq<u32> {
    Seq::new(chars.len(), |i: int| chars[i] as u32)
}

/// The first character at or after `from` that starts at or past UTF-16 offset `target`, or the
/// number of characters if none does.
pub open spec fn first_reaching(chars: Seq<char>, target: u32, from: int) -> int
    decreases chars.len() - from,
{
    if from >= chars.len() {
        chars.len() as int
    } else if target <= utf16_offset(chars, from) {
        from
    } else {
        first_reaching(chars, target, from + 1)
    }
}

/// Where break `j` falls, in characters: breaks are taken in the order given, none before the
/// one ahead of it, each at the first character that starts at or past its UTF-16 offset.
pub open spec fn break_position(chars: Seq<char>, line_breaks: Seq<u32>, j: int) -> int
    decreases j,
{
    if j <= 0 {
        first_reaching(chars, line_breaks[0], 0)
    } else {
        first_reaching(chars, line_breaks[j], break_position(chars, line_breaks, j - 1))
    }
}

proof fn lemma_first_reaching_bounds(chars: Seq<char>, target: u32, from: int)
    requires
        0 <= from,
    ensures
        from <= chars.len() ==> from <= first_reaching(chars, target, from),
        first_reaching(chars, target, from) <= chars.len(),
        from >= chars.len() ==> first_reaching(chars, target, from) == chars.len(),
    decreases chars.len() - from,
{
    if from < chars.len() && !(target <= utf16_offset(chars, from)) {
        lemma_first_reaching_bounds(chars, target, from + 1);
    }
}

/// While a break has not been reached, the characters passed so far all start before it.
proof fn lemma_first_reaching_step(chars: Seq<char>, target: u32, from: int, i: int)
    requires
        0 <= from <= i < chars.len(),
        first_reaching(chars, target, from) >= i,
    ensures
        target <= utf16_offset(chars, i) ==> first_reaching(chars, target, from) == i,
        !(target <= utf16_offset(chars, i)) ==> first_reaching(chars, target, from) >= i + 1,
    decreases i - from,
{
    if from < i {
        lemma_first_reaching_step(chars, target, from + 1, i);
    } else {
        lemma_first_reaching_bounds(chars, target, i + 1);
    }
}

proof fn lemma_break_position_bounds(chars: Seq<char>, line_breaks: Seq<u32>, j: int)
    requires
        0 <= j,
    ensures
        0 <= break_position(chars, line_breaks, j) <= chars.len(),
        j > 0 ==> break_position(chars, line_breaks, j - 1) <= break_position(chars, line_breaks, j),
    decreases j,
{
    if j == 0 {
        lemma_first_reaching_bounds(chars, line_breaks[0], 0);
    } else {
        lemma_break_position_bounds(chars, line_breaks, j - 1);
        lemma_first_reaching_bounds(
            chars,
            line_breaks[j],
            break_position(chars, line_breaks, j - 1),
        );
    }
}

/// How many UTF-16 code units a character takes, as `char::len_utf16` counts them.
fn len_utf16(ch: char) -> (width: usize)
    ensures
        width == utf16_width(ch),
{
    if ch as u32 >= 0x10000 {
        2
    } else {
        1
    }
}

/// What the reordering reads off a shaped string before running the algorithm: each character
/// as a codepoint, each character's section, the stand-in text, and where each break falls in
/// characters.
pub struct Prepared {
    pub codepoints: Vec<u32>,
    pub sections: Vec<u32>,
    pub stand_in: String,
    pub breaks: Vec<usize>,
}

/// Reads a shaped string character by character, counting UTF-16 code units as it goes.
pub fn prepare(
    text: &str,
    directions: &Vec<Option<bool>>,
    sections: &[u32],
    line_breaks: &[u32],
) -> (prepared: Prepared)
    requires
        directions@.len() == text@.len(),
        encode_utf8_len(text@) <= usize::MAX,
    ensures
        prepared.codepoints@ == codepoints_of(text@),
        prepared.sections@ == char_sections(text@, sections@),
        prepared.stand_in@ == stand_in_text(text@, directions@),
        prepared.breaks@.len() == line_breaks@.len(),
        forall|j: int|
            0 <= j < line_breaks@.len() ==> #[trigger] prepared.breaks@[j] == break_position(
                text@,
                line_breaks@,
                j,
            ),
{
    let chars = chars_of(text);
    proof {
        lemma_encode_utf8_len(text@);
        if line_breaks@.len() > 0 {
            lemma_first_reaching_bounds(text@, line_breaks@[0], 0);
        }
    }
    let mut codepoints: Vec<u32> = Vec::new();
    let mut char_sections_out: Vec<u32> = Vec::new();
    let mut stand_in = String::new();
    let mut breaks: Vec<usize> = Vec::new();
    let mut next_break: usize = 0;
    let mut code_unit: usize = 0;
    let mut index: usize = 0;
    while index < chars.len()
        invariant
            chars@ == text@,
            directions@.len() == text@.len(),
            0 <= index <= chars@.len(),
            code_unit == utf16_offset(chars@, index as int),
            utf8_offset(chars@, chars@.len() as int) <= usize::MAX,
            codepoints@ == codepoints_of(chars@.take(index as int)),
            char_sections_out@ == char_sections(chars@.take(index as int), sections@),
            stand_in@ == stand_in_text(chars@.take(index as int), directions@.take(index as int)),
            next_break <= line_breaks@.len(),
            breaks@.len() == next_break,
            forall|j: int|
                0 <= j < next_break ==> #[trigger] breaks@[j] == break_position(
                    chars@,
                    line_breaks@,
                    j,
                ),
            next_break < line_breaks@.len() ==> first_reaching(
                chars@,
                line_breaks@[next_break as int],
                if next_break == 0 {
                    0
                } else {
                    break_position(chars@, line_breaks@, next_break - 1)
                },
            ) >= index,
            next_break > 0 ==> break_position(chars@, line_breaks@, next_break - 1) <= index,
        decreases chars@.len() - index,
    {
        let ghost taken = chars@.take(index as int);
        while next_break < line_breaks.len() && line_breaks[next_break] as usize <= code_unit
            invariant
                chars@ == text@,
                0 <= index < chars@.len(),
                code_unit == utf16_offset(chars@, index as int),
                next_break <= line_breaks@.len(),
                breaks@.len() == next_break,
                forall|j: int|
                    0 <= j < next_break ==> #[trigger] breaks@[j] == break_position(
                        chars@,
                        line_breaks@,
                        j,
                    ),
                next_break < line_breaks@.len() ==> first_reaching(
                    chars@,
                    line_breaks@[next_break as int],
                    if next_break == 0 {
                        0
                    } else {
                        break_position(chars@, line_breaks@, next_break - 1)
                    },
                ) >= index,
                next_break > 0 ==> break_position(chars@, line_breaks@, next_break - 1) <= index,
            decreases line_breaks@.len() - next_break,
        {
            proof {
                let from = if next_break == 0 {
                    0
                } else {
                    break_position(chars@, line_breaks@, next_break - 1)
                };
                if next_break > 0 {
                    lemma_break_position_bounds(chars@, line_breaks@, next_break - 1);
                }
                lemma_first_reaching_step(
                    chars@,
                    line_breaks@[next_break as int],
                    from,
                    index as int,
                );
                assert(break_position(chars@, line_breaks@, next_break as int) == index);
            }
            breaks.push(index);
            next_break += 1;
            proof {
                if next_break < line_breaks@.len() {
                    lemma_first_reaching_bounds(
                        chars@,
                        line_breaks@[next_break as int],
                        index as int,
                    );
                }
            }
        }
        proof {
            if next_break < line_breaks@.len() {
                let from = if next_break == 0 {
                    0
                } else {
                    break_position(chars@, line_breaks@, next_break - 1)
                };
                if next_break > 0 {
                    lemma_break_position_bounds(chars@, line_breaks@, next_break - 1);
                }
                lemma_first_reaching_step(
                    chars@,
                    line_breaks@[next_break as int],
                    from,
                    index as int,
                );
            }
        }

        let ch = chars[index];
        codepoints.push(ch as u32);
        let section = if code_unit < sections.len() {
            sections[code_unit]
        } else {
            0
        };
        char_sections_out.push(section);
        let stand = match directions[index] {
            Some(true) => RTL_STAND_IN,
            Some(false) => LTR_STAND_IN,
            None => ch,
        };
        push_char(&mut stand_in, stand);
        proof {
            lemma_offsets_grow(chars@, index + 1, chars@.len() as int);
        }
        code_unit = code_unit + len_utf16(ch);
        proof {
            let next = chars@.take(index + 1);
            assert(next.take(index as int) =~= taken);
            assert(codepoints@ =~= codepoints_of(next));
            assert forall|i: int| 0 <= i < index + 1 implies #[trigger] utf16_offset(next, i)
                == utf16_offset(chars@, i) by {
                lemma_utf16_offset_prefix(chars@, index + 1, i);
            }
            assert forall|i: int| 0 <= i < index implies #[trigger] utf16_offset(taken, i)
                == utf16_offset(chars@, i) by {
                lemma_utf16_offset_prefix(chars@, index as int, i);
            }
            assert(char_sections_out@ =~= char_sections(next, sections@));
            assert(directions@.take(index + 1).take(index as int) =~= directions@.take(
                index as int,
            ));
            assert(stand_in@ =~= stand_in_text(next, directions@.take(index + 1)));
        }
        index += 1;
    }
    proof {
        assert(chars@.take(chars@.len() as int) =~= chars@);
        assert(directions@.take(chars@.len() as int) =~= directions@);
    }
    let ghost passed = next_break;
    while next_break < line_breaks.len()
        invariant
            chars@ == text@,
            index == chars@.len(),
            passed <= next_break <= line_breaks@.len(),
            breaks@.len() == next_break,
            forall|j: int|
                0 <= j < next_break ==> #[trigger] breaks@[j] == break_position(
                    chars@,
                    line_breaks@,
                    j,
                ),
            next_break < line_breaks@.len() ==> first_reaching(
                chars@,
                line_breaks@[next_break as int],
                if next_break == 0 {
                    0
                } else {
                    break_position(chars@, line_breaks@, next_break - 1)
                },
            ) >= index,
        decreases line_breaks@.len() - next_break,
    {
        proof {
            let from = if next_break == 0 {
                0
            } else {
                break_position(chars@, line_breaks@, next_break - 1)
            };
            if next_break > 0 {
                lemma_break_position_bounds(chars@, line_breaks@, next_break - 1);
            }
            lemma_first_reaching_bounds(chars@, line_breaks@[next_break as int], from);
        }
        breaks.push(index);
        next_break += 1;
        proof {
            if next_break < line_breaks@.len() {
                lemma_first_reaching_bounds(chars@, line_breaks@[next_break as int], index as int);
            }
        }
    }
    Prepared { codepoints, sections: char_sections_out, stand_in, breaks }
}

/// A character's UTF-8 encoding is as long as its width says.
proof fn lemma_encode_scalar_len(ch: char)
    ensures
        vstd::utf8::encode_scalar(ch as u32).len() == utf8_width(ch),
{
    vstd::utf8::char_is_scalar(ch);
}

/// Offsets counted from the second character are offsets counted from the first, less the first
/// character's width.
proof fn lemma_utf8_offset_shift(chars: Seq<char>, i: int)
    requires
        0 <= i < chars.len(),
    ensures
        utf8_offset(chars, i + 1) == utf8_width(chars[0]) + utf8_offset(chars.drop_first(), i),
    decreases i,
{
    if i > 0 {
        lemma_utf8_offset_shift(chars, i - 1);
        assert(chars.drop_first()[i - 1] == chars[i]);
    } else {
        assert(utf8_offset(chars, 0) == 0);
        assert(utf8_offset(chars.drop_first(), 0) == 0);
    }
}

/// The UTF-8 encoding of a text is as long as the sum of its characters' widths.
pub proof fn lemma_encode_utf8_len(chars: Seq<char>)
    ensures
        encode_utf8_len(chars) == utf8_offset(chars, chars.len() as int),
    decreases chars.len(),
{
    if chars.len() > 0 {
        lemma_encode_utf8_len(chars.drop_first());
        lemma_encode_scalar_len(chars[0]);
        lemma_utf8_offset_shift(chars, chars.len() - 1);
    }
}

/// Offsets only grow, and a character never takes more UTF-16 code units than UTF-8 bytes.
pub(crate) proof fn lemma_offsets_grow(chars: Seq<char>, i: int, j: int)
    requires
        0 <= i <= j <= chars.len(),
    ensures
        utf8_offset(chars, i) <= utf8_offset(chars, j),
        utf16_offset(chars, i) <= utf16_offset(chars, j),
        utf16_offset(chars, j) <= utf8_offset(chars, j),
        utf8_offset(chars, i) + (j - i) <= utf8_offset(chars, j),
    decreases j,
{
    if j > 0 {
        if i == j {
            lemma_offsets_grow(chars, i - 1, j - 1);
        } else {
            lemma_offsets_grow(chars, i, j - 1);
        }
    }
}

/// A prefix of a text has the same UTF-16 offsets as the text, as far as it goes.
proof fn lemma_utf16_offset_prefix(chars: Seq<char>, n: int, i: int)
    requires
        0 <= i <= n <= chars.len(),
    ensures
        utf16_offset(chars.take(n), i) == utf16_offset(chars, i),
    decreases i,
{
    if i > 0 {
        lemma_utf16_offset_prefix(chars, n, i - 1);
    }
}

/// The first of `offsets` at or past `byte`: how many of them lie before it, as
/// `slice::partition_point` counts them in a sorted slice.
pub fn char_at_byte(offsets: &[usize], byte: usize) -> (index: usize)
    requires
        forall|i: int, j: int| 0 <= i <= j < offsets@.len() ==> offsets@[i] <= offsets@[j],
    ensures
        index <= offsets@.len(),
        forall|k: int| 0 <= k < index ==> offsets@[k] < byte,
        forall|k: int| index <= k < offsets@.len() ==> offsets@[k] >= byte,
{
    let mut low: usize = 0;
    let mut high: usize = offsets.len();
    while low < high
        invariant
            0 <= low <= high <= offsets@.len(),
            forall|i: int, j: int| 0 <= i <= j < offsets@.len() ==> offsets@[i] <= offsets@[j],
            forall|k: int| 0 <= k < low ==> offsets@[k] < byte,
            forall|k: int| high <= k < offsets@.len() ==> offsets@[k] >= byte,
        decreases high - low,
    {
        let middle = low + (high - low) / 2;
        if offsets[middle] < byte {
            low = middle + 1;
        } else {
            high = middle;
        }
    }
    low
}

/// The first character whose UTF-8 offset is at or past `byte`, counting from `from`.
pub open spec fn char_index_from(chars: Seq<char>, byte: int, from: int) -> int
    decreases chars.len() + 1 - from,
{
    if from > chars.len() {
        chars.len() as int + 1
    } else if utf8_offset(chars, from) >= byte {
        from
    } else {
        char_index_from(chars, byte, from + 1)
    }
}

/// The first character whose UTF-8 offset is at or past `byte`.
pub open spec fn char_index_at(chars: Seq<char>, byte: int) -> int {
    char_index_from(chars, byte, 0)
}

/// The first index at or past `byte` is the only one with everything before it short of `byte`
/// and itself at or past it.
proof fn lemma_char_index_unique(chars: Seq<char>, byte: int, from: int, r: int)
    requires
        0 <= from <= r <= chars.len(),
        forall|k: int| from <= k < r ==> utf8_offset(chars, k) < byte,
        utf8_offset(chars, r) >= byte,
    ensures
        char_index_from(chars, byte, from) == r,
    decreases r - from,
{
    if from < r {
        lemma_char_index_unique(chars, byte, from + 1, r);
    }
}

/// Where each line starts, in characters: each break held within the text and never before the
/// line ahead of it.
pub open spec fn line_start(breaks: Seq<usize>, n: int, j: int) -> int
    decreases j,
{
    if j <= 0 {
        0
    } else {
        let previous = line_start(breaks, n, j - 1);
        let at = if breaks[j - 1] > n {
            n
        } else {
            breaks[j - 1] as int
        };
        if at < previous {
            previous
        } else {
            at
        }
    }
}

proof fn lemma_line_start_bounds(breaks: Seq<usize>, n: int, j: int)
    requires
        0 <= j,
        0 <= n,
    ensures
        0 <= line_start(breaks, n, j) <= n,
        j > 0 ==> line_start(breaks, n, j - 1) <= line_start(breaks, n, j),
    decreases j,
{
    if j > 0 {
        lemma_line_start_bounds(breaks, n, j - 1);
    }
}

/// The characters of one paragraph's share of a line, in visual order, as indices into the text.
pub open spec fn part_order(stand_in: Seq<char>, paragraph: int, start: int, end: int) -> Seq<int> {
    let range = bidi_paragraphs(stand_in)[paragraph];
    let line_first_byte = utf8_offset(stand_in, start);
    let line_end_byte = utf8_offset(stand_in, end);
    let first_byte = if line_first_byte < range.0 {
        range.0 as int
    } else {
        line_first_byte
    };
    let end_byte = if line_end_byte > range.1 {
        range.1 as int
    } else {
        line_end_byte
    };
    if first_byte >= end_byte {
        Seq::empty()
    } else {
        let levels = bidi_line_levels(stand_in, paragraph, first_byte as usize, end_byte as usize);
        let first = if char_index_at(stand_in, first_byte) < start {
            start
        } else {
            char_index_at(stand_in, first_byte)
        };
        let last = if char_index_at(stand_in, end_byte) > end {
            end
        } else {
            char_index_at(stand_in, end_byte)
        };
        let order = bidi_visual_order(levels.subrange(first, last));
        Seq::new(order.len(), |k: int| first + order[k])
    }
}

/// The characters of a line in visual order, as indices into the text: each paragraph's share
/// reordered on its own, the shares in the order they were written.
pub open spec fn line_order(stand_in: Seq<char>, start: int, end: int, paragraphs: int) -> Seq<int>
    decreases paragraphs,
{
    if paragraphs <= 0 || start >= end {
        Seq::empty()
    } else {
        line_order(stand_in, start, end, paragraphs - 1) + part_order(
            stand_in,
            paragraphs - 1,
            start,
            end,
        )
    }
}

/// A line as codepoints and sections, read off in the given order.
pub open spec fn line_view(order: Seq<int>, codepoints: Seq<u32>, sections: Seq<u32>) -> (Seq<u32>, Seq<u32>) {
    (
        Seq::new(order.len(), |k: int| codepoints[order[k]]),
        Seq::new(order.len(), |k: int| sections[order[k]]),
    )
}

/// The byte offset at which each character starts, and the length of the whole.
fn byte_offsets(chars: &Vec<char>) -> (offsets: Vec<usize>)
    requires
        utf8_offset(chars@, chars@.len() as int) <= usize::MAX,
    ensures
        offsets@.len() == chars@.len() + 1,
        forall|i: int| 0 <= i <= chars@.len() ==> #[trigger] offsets@[i] == utf8_offset(chars@, i),
{
    let mut offsets: Vec<usize> = Vec::new();
    let mut at: usize = 0;
    let mut index: usize = 0;
    while index < chars.len()
        invariant
            0 <= index <= chars@.len(),
            at == utf8_offset(chars@, index as int),
            utf8_offset(chars@, chars@.len() as int) <= usize::MAX,
            offsets@.len() == index,
            forall|i: int| 0 <= i < index ==> #[trigger] offsets@[i] == utf8_offset(chars@, i),
        decreases chars@.len() - index,
    {
        offsets.push(at);
        let code = chars[index] as u32;
        let width: usize = if code < 0x80 {
            1
        } else if code < 0x800 {
            2
        } else if code < 0x10000 {
            3
        } else {
            4
        };
        proof {
            lemma_offsets_grow(chars@, index + 1, chars@.len() as int);
        }
        at = at + width;
        index += 1;
    }
    offsets.push(at);
    offsets
}

/// Offsets only grow, strictly.
proof fn lemma_offsets_increase(chars: Seq<char>)
    ensures
        forall|i: int, j: int|
            0 <= i < j <= chars.len() ==> utf8_offset(chars, i) < utf8_offset(chars, j),
{
    assert forall|i: int, j: int| 0 <= i < j <= chars.len() implies utf8_offset(chars, i)
        < utf8_offset(chars, j) by {
        lemma_offsets_grow(chars, i, j);
    }
}

/// Whether `order` holds each of `start..end` exactly once.
pub open spec fn arranges(order: Seq<int>, start: int, end: int) -> bool {
    &&& order.len() == end - start
    &&& forall|k: int| 0 <= k < order.len() ==> start <= #[trigger] order[k] < end
    &&& forall|k: int, l: int| 0 <= k < l < order.len() ==> order[k] != order[l]
}

/// An arrangement of `start..middle` followed by one of `middle..end` is one of `start..end`.
proof fn lemma_arranges_append(a: Seq<int>, b: Seq<int>, start: int, middle: int, end: int)
    requires
        arranges(a, start, middle),
        arranges(b, middle, end),
    ensures
        arranges(a + b, start, end),
{
    let joined = a + b;
    assert forall|k: int| 0 <= k < joined.len() implies start <= #[trigger] joined[k] < end by {
        if k < a.len() {
            assert(joined[k] == a[k]);
        } else {
            assert(joined[k] == b[k - a.len()]);
        }
    }
    assert forall|k: int, l: int| 0 <= k < l < joined.len() implies joined[k] != joined[l] by {
        if l < a.len() {
            assert(joined[k] == a[k] && joined[l] == a[l]);
        } else if k >= a.len() {
            assert(joined[k] == b[k - a.len()] && joined[l] == b[l - a.len()]);
        } else {
            assert(joined[k] == a[k] && joined[l] == b[l - a.len()]);
        }
    }
}

/// Where `char_index_from` lands: past every character that starts before `byte`, on one that
/// starts at or past it.
proof fn lemma_char_index_from_bounds(chars: Seq<char>, byte: int, from: int)
    requires
        0 <= from <= chars.len(),
        forall|k: int| 0 <= k < from ==> utf8_offset(chars, k) < byte,
        byte <= utf8_offset(chars, chars.len() as int),
    ensures
        from <= char_index_from(chars, byte, from) <= chars.len(),
        forall|k: int|
            0 <= k < char_index_from(chars, byte, from) ==> utf8_offset(chars, k) < byte,
        utf8_offset(chars, char_index_from(chars, byte, from)) >= byte,
    decreases chars.len() - from,
{
    if utf8_offset(chars, from) < byte {
        lemma_char_index_from_bounds(chars, byte, from + 1);
    }
}

/// Where `char_index_at` lands, for a byte within the text.
proof fn lemma_char_index_at_bounds(chars: Seq<char>, byte: int)
    requires
        byte <= utf8_offset(chars, chars.len() as int),
    ensures
        0 <= char_index_at(chars, byte) <= chars.len(),
        forall|k: int| 0 <= k < char_index_at(chars, byte) ==> utf8_offset(chars, k) < byte,
        utf8_offset(chars, char_index_at(chars, byte)) >= byte,
{
    lemma_char_index_from_bounds(chars, byte, 0);
}

/// The character a paragraph boundary falls on, held within a line.
pub open spec fn clamp_to(c: int, start: int, end: int) -> int {
    if c < start {
        start
    } else if c > end {
        end
    } else {
        c
    }
}

/// How far into the line `start..end` the first `p` paragraphs reach, in characters.
pub open spec fn reached(stand_in: Seq<char>, start: int, end: int, p: int) -> int {
    if p <= 0 {
        start
    } else {
        clamp_to(
            char_index_at(stand_in, bidi_paragraphs(stand_in)[p - 1].1 as int),
            start,
            end,
        )
    }
}

/// Paragraphs that follow one another end no later than the last.
proof fn lemma_paragraph_ends_bounded(ranges: Seq<(usize, usize)>, i: int)
    requires
        0 <= i < ranges.len(),
        forall|k: int| 0 <= k < ranges.len() ==> #[trigger] ranges[k].0 < ranges[k].1,
        forall|k: int| 0 < k < ranges.len() ==> #[trigger] ranges[k].0 == ranges[k - 1].1,
    ensures
        ranges[i].1 <= ranges.last().1,
    decreases ranges.len() - i,
{
    if i + 1 < ranges.len() {
        lemma_paragraph_ends_bounded(ranges, i + 1);
        assert(ranges[i + 1].0 == ranges[i].1);
    }
}

/// Puts one line into visual order: each paragraph's share of it is reordered against its own
/// paragraph, and the shares stay in the order they were written.
fn reorder_line(
    bidi: &BidiText,
    offsets: &Vec<usize>,
    codepoints: &Vec<u32>,
    sections: &Vec<u32>,
    start: usize,
    end: usize,
) -> (line: VisualLine)
    requires
        offsets@.len() == bidi.text().len() + 1,
        forall|i: int| 0 <= i <= bidi.text().len() ==> #[trigger] offsets@[i] == utf8_offset(bidi.text(), i),
        encode_utf8_len(bidi.text()) == utf8_offset(bidi.text(), bidi.text().len() as int),
        codepoints@.len() == bidi.text().len(),
        sections@.len() == bidi.text().len(),
        start <= end <= bidi.text().len(),
    ensures
        (line.codepoints@, line.sections@) == line_view(
            line_order(bidi.text(), start as int, end as int, bidi_paragraphs(bidi.text()).len() as int),
            codepoints@,
            sections@,
        ),
        arranges(
            line_order(bidi.text(), start as int, end as int, bidi_paragraphs(bidi.text()).len() as int),
            start as int,
            end as int,
        ),
{
    let ghost stand_in = bidi.text();
    let ghost n = stand_in.len() as int;
    let mut visual = VisualLine { codepoints: Vec::new(), sections: Vec::new() };
    if start >= end {
        assert(visual.codepoints@ =~= line_view(line_order(stand_in, start as int, end as int, bidi_paragraphs(stand_in).len() as int), codepoints@, sections@).0);
        assert(visual.sections@ =~= line_view(line_order(stand_in, start as int, end as int, bidi_paragraphs(stand_in).len() as int), codepoints@, sections@).1);
        assert(line_order(stand_in, start as int, end as int, bidi_paragraphs(stand_in).len() as int) =~= Seq::<int>::empty());
        return visual;
    }
    proof {
        lemma_offsets_increase(stand_in);
    }
    let line_first_byte = offsets[start];
    let line_end_byte = offsets[end];
    let ranges = paragraphs(bidi);
    proof {
        assert(line_order(stand_in, start as int, end as int, 0) =~= Seq::<int>::empty());
        lemma_char_index_unique(stand_in, line_first_byte as int, 0, start as int);
        lemma_char_index_unique(stand_in, line_end_byte as int, 0, end as int);
    }
    let mut paragraph: usize = 0;
    while paragraph < ranges.len()
        invariant
            stand_in == bidi.text(),
            n == stand_in.len(),
            offsets@.len() == n + 1,
            forall|i: int| 0 <= i <= n ==> #[trigger] offsets@[i] == utf8_offset(stand_in, i),
            forall|i: int, j: int| 0 <= i < j <= n ==> utf8_offset(stand_in, i) < utf8_offset(stand_in, j),
            encode_utf8_len(stand_in) == utf8_offset(stand_in, n),
            codepoints@.len() == n,
            sections@.len() == n,
            start < end <= n,
            line_first_byte == utf8_offset(stand_in, start as int),
            line_end_byte == utf8_offset(stand_in, end as int),
            ranges@ == bidi_paragraphs(stand_in),
            forall|i: int| 0 <= i < ranges@.len() ==> #[trigger] ranges@[i].0 < ranges@[i].1,
            forall|i: int| 0 < i < ranges@.len() ==> #[trigger] ranges@[i].0 == ranges@[i - 1].1,
            forall|i: int|
                0 <= i < ranges@.len() ==> is_char_start(stand_in, #[trigger] ranges@[i].0 as int)
                    && is_char_start(stand_in, ranges@[i].1 as int),
            ranges@.len() > 0,
            ranges@[0].0 == 0,
            ranges@.last().1 == utf8_offset(stand_in, n),
            char_index_at(stand_in, line_first_byte as int) == start,
            char_index_at(stand_in, line_end_byte as int) == end,
            arranges(
                line_order(stand_in, start as int, end as int, paragraph as int),
                start as int,
                reached(stand_in, start as int, end as int, paragraph as int),
            ),
            0 <= paragraph <= ranges@.len(),
            (visual.codepoints@, visual.sections@) == line_view(
                line_order(stand_in, start as int, end as int, paragraph as int),
                codepoints@,
                sections@,
            ),
        decreases ranges@.len() - paragraph,
    {
        let ghost before = line_order(stand_in, start as int, end as int, paragraph as int);
        let ghost part = part_order(stand_in, paragraph as int, start as int, end as int);
        let ghost before_codepoints = visual.codepoints@;
        let ghost before_sections = visual.sections@;
        assert(line_order(stand_in, start as int, end as int, paragraph + 1) == before + part);
        let ghost b0 = ranges@[paragraph as int].0 as int;
        let ghost b1 = ranges@[paragraph as int].1 as int;
        proof {
            lemma_paragraph_ends_bounded(ranges@, paragraph as int);
            lemma_char_index_at_bounds(stand_in, b0);
            lemma_char_index_at_bounds(stand_in, b1);
            if paragraph == 0 {
                assert(char_index_at(stand_in, 0) == 0);
            } else {
                assert(ranges@[paragraph as int].0 == ranges@[paragraph - 1].1);
            }
            assert(reached(stand_in, start as int, end as int, paragraph as int) == clamp_to(
                char_index_at(stand_in, b0),
                start as int,
                end as int,
            ));
            assert(reached(stand_in, start as int, end as int, paragraph + 1) == clamp_to(
                char_index_at(stand_in, b1),
                start as int,
                end as int,
            ));
        }
        let (range_start, range_end) = ranges[paragraph];
        let first_byte = if line_first_byte < range_start {
            range_start
        } else {
            line_first_byte
        };
        let end_byte = if line_end_byte > range_end {
            range_end
        } else {
            line_end_byte
        };
        if first_byte < end_byte {
            proof {
                assert(utf8_offset(stand_in, start as int) == line_first_byte);
                assert(utf8_offset(stand_in, end as int) == line_end_byte);
                assert(is_char_start(stand_in, ranges@[paragraph as int].0 as int));
                assert(is_char_start(stand_in, ranges@[paragraph as int].1 as int));
            }
            let levels = line_levels(bidi, paragraph, first_byte, end_byte);
            let first_at = char_at_byte(offsets.as_slice(), first_byte);
            let last_at = char_at_byte(offsets.as_slice(), end_byte);
            proof {
                assert(offsets@[end as int] >= first_byte);
                assert(first_at <= end);
                assert(offsets@[end as int] >= end_byte);
                assert(last_at <= end);
                assert forall|k: int| 0 <= k < first_at implies utf8_offset(stand_in, k)
                    < first_byte by {
                    assert(offsets@[k] == utf8_offset(stand_in, k));
                }
                assert forall|k: int| 0 <= k < last_at implies utf8_offset(stand_in, k)
                    < end_byte by {
                    assert(offsets@[k] == utf8_offset(stand_in, k));
                }
                assert(offsets@[first_at as int] == utf8_offset(stand_in, first_at as int));
                assert(offsets@[last_at as int] == utf8_offset(stand_in, last_at as int));
                lemma_char_index_unique(stand_in, first_byte as int, 0, first_at as int);
                lemma_char_index_unique(stand_in, end_byte as int, 0, last_at as int);
                if last_at < start {
                    assert(offsets@[last_at as int] < offsets@[start as int]);
                    assert(false);
                }
            }
            let first = if first_at < start {
                start
            } else {
                first_at
            };
            let last = if last_at > end {
                end
            } else {
                last_at
            };
            assert(first <= last);
            let mut part_levels: Vec<u8> = Vec::new();
            let mut at = first;
            while at < last
                invariant
                    first <= at <= last <= levels@.len(),
                    forall|i: int| 0 <= i < levels@.len() ==> #[trigger] levels@[i] <= 126,
                    part_levels@ == levels@.subrange(first as int, at as int),
                decreases last - at,
            {
                part_levels.push(levels[at]);
                assert(part_levels@ =~= levels@.subrange(first as int, at + 1));
                at += 1;
            }
            let order = visual_order(part_levels.as_slice());
            let mut k: usize = 0;
            while k < order.len()
                invariant
                    0 <= k <= order@.len(),
                    first <= last <= n,
                    order@.len() == last - first,
                    forall|i: int| 0 <= i < order@.len() ==> #[trigger] order@[i] < last - first,
                    codepoints@.len() == n,
                    sections@.len() == n,
                    visual.codepoints@ == before_codepoints + Seq::new(k as nat, |i: int| codepoints@[first + order@[i]]),
                    visual.sections@ == before_sections + Seq::new(k as nat, |i: int| sections@[first + order@[i]]),
                decreases order@.len() - k,
            {
                let index = first + order[k];
                visual.codepoints.push(codepoints[index]);
                visual.sections.push(sections[index]);
                assert(visual.codepoints@ =~= before_codepoints + Seq::new((k + 1) as nat, |i: int| codepoints@[first + order@[i]]));
                assert(visual.sections@ =~= before_sections + Seq::new((k + 1) as nat, |i: int| sections@[first + order@[i]]));
                k += 1;
            }
            proof {
                assert(part =~= Seq::new(order@.len(), |i: int| first + order@[i]));
                assert(visual.codepoints@ =~= line_view(before + part, codepoints@, sections@).0);
                assert(visual.sections@ =~= line_view(before + part, codepoints@, sections@).1);
                assert(arranges(part, first as int, last as int));
                let c0 = char_index_at(stand_in, b0);
                let c1 = char_index_at(stand_in, b1);
                if b0 <= line_first_byte {
                    assert(first_byte == line_first_byte);
                    if c0 > start {
                        assert(utf8_offset(stand_in, start as int) < b0);
                    }
                } else {
                    assert(first_byte == b0);
                    if c0 <= start {
                        assert(utf8_offset(stand_in, c0) <= utf8_offset(stand_in, start as int));
                    }
                    if c0 > end {
                        assert(utf8_offset(stand_in, end as int) < b0);
                    }
                }
                assert(first == reached(stand_in, start as int, end as int, paragraph as int));
                if b1 >= line_end_byte {
                    assert(end_byte == line_end_byte);
                    if c1 < end {
                        assert(utf8_offset(stand_in, c1) < utf8_offset(stand_in, end as int));
                    }
                } else {
                    assert(end_byte == b1);
                    if c1 > end {
                        assert(utf8_offset(stand_in, end as int) < b1);
                    }
                    if c1 < start {
                        assert(utf8_offset(stand_in, c1) < utf8_offset(stand_in, start as int));
                    }
                }
                assert(last == reached(stand_in, start as int, end as int, paragraph + 1));
                lemma_arranges_append(
                    before,
                    part,
                    start as int,
                    first as int,
                    last as int,
                );
            }
        } else {
            proof {
                assert(part =~= Seq::<int>::empty());
                assert(before + part =~= before);
                let c0 = char_index_at(stand_in, b0);
                let c1 = char_index_at(stand_in, b1);
                if b1 <= line_first_byte {
                    if c1 > start {
                        assert(utf8_offset(stand_in, start as int) < b1);
                    }
                    if c0 > c1 {
                        assert(utf8_offset(stand_in, c1) < b0);
                    }
                } else if b0 >= line_end_byte {
                    if c0 < end {
                        assert(utf8_offset(stand_in, c0) < utf8_offset(stand_in, end as int));
                    }
                    if c0 > c1 {
                        assert(utf8_offset(stand_in, c1) < b0);
                    }
                } else {
                    assert(first_byte < end_byte);
                }
                assert(reached(stand_in, start as int, end as int, paragraph + 1) == reached(
                    stand_in,
                    start as int,
                    end as int,
                    paragraph as int,
                ));
            }
        }
        paragraph += 1;
    }
    proof {
        let total = utf8_offset(stand_in, n);
        lemma_char_index_unique(stand_in, total, 0, n);
        assert(reached(stand_in, start as int, end as int, ranges@.len() as int) == end);
    }
    visual
}

/// A character never takes more than four UTF-8 bytes.
proof fn lemma_utf8_offset_at_most_four(chars: Seq<char>, i: int)
    requires
        0 <= i <= chars.len(),
    ensures
        utf8_offset(chars, i) <= 4 * i,
    decreases i,
{
    if i > 0 {
        lemma_utf8_offset_at_most_four(chars, i - 1);
    }
}

/// Where each break falls, in characters.
pub open spec fn break_positions(chars: Seq<char>, line_breaks: Seq<u32>) -> Seq<usize> {
    Seq::new(line_breaks.len(), |j: int| break_position(chars, line_breaks, j) as usize)
}

/// How many lines a string comes out as for these breaks: one per break, and one more if
/// anything follows the last break.
pub open spec fn line_count(text: Seq<char>, line_breaks: Seq<u32>) -> int {
    if line_start(break_positions(text, line_breaks), text.len() as int, line_breaks.len() as int)
        < text.len() {
        line_breaks.len() as int + 1
    } else {
        line_breaks.len() as int
    }
}

/// Where line `j` of a line-broken string starts, in characters.
pub open spec fn line_begin(text: Seq<char>, line_breaks: Seq<u32>, j: int) -> int {
    line_start(break_positions(text, line_breaks), text.len() as int, j)
}

/// Where line `j` of a line-broken string ends, in characters: where the next line starts, or
/// the end of the text for the line after the last break.
pub open spec fn line_end(text: Seq<char>, line_breaks: Seq<u32>, j: int) -> int {
    if j < line_breaks.len() {
        line_begin(text, line_breaks, j + 1)
    } else {
        text.len() as int
    }
}

/// Line `j` of a shaped, line-broken string, as codepoints and sections in the order it is
/// read: the characters from where line `j` starts to where it ends.
pub open spec fn spec_line(
    text: Seq<char>,
    directions: Seq<Option<bool>>,
    sections: Seq<u32>,
    line_breaks: Seq<u32>,
    j: int,
) -> (Seq<u32>, Seq<u32>) {
    let stand_in = stand_in_text(text, directions);
    line_view(
        line_order(
            stand_in,
            line_begin(text, line_breaks, j),
            line_end(text, line_breaks, j),
            bidi_paragraphs(stand_in).len() as int,
        ),
        codepoints_of(text),
        char_sections(text, sections),
    )
}

/// Whether a line holds each character of the text from `start` to `end` exactly once, each
/// with its section, in some order.
pub open spec fn rearranges(
    line: (Seq<u32>, Seq<u32>),
    codepoints: Seq<u32>,
    sections: Seq<u32>,
    start: int,
    end: int,
) -> bool {
    exists|order: Seq<int>| arranges(order, start, end) && line == line_view(order, codepoints, sections)
}

/// The lines a shaped, line-broken string comes out as.
pub open spec fn reorder_spec(
    text: Seq<char>,
    directions: Seq<Option<bool>>,
    sections: Seq<u32>,
    line_breaks: Seq<u32>,
) -> Seq<(Seq<u32>, Seq<u32>)> {
    Seq::new(
        line_count(text, line_breaks) as nat,
        |j: int| spec_line(text, directions, sections, line_breaks, j),
    )
}

/// Reorders a shaped string into lines in visual order.
///
/// `directions` reports, for each character, whether it stands for a shaped glyph and, if so,
/// whether that glyph was shaped right to left. `sections` holds one entry per UTF-16 code unit,
/// as MapLibre passes it, and `line_breaks` are offsets in UTF-16 code units, as MapLibre
/// computes them. The lines split exactly where MapLibre's own `breakLines` splits them.
pub fn reorder(
    text: &str,
    directions: &Vec<Option<bool>>,
    sections: &[u32],
    line_breaks: &[u32],
) -> (lines: Vec<VisualLine>)
    requires
        directions@.len() == text@.len(),
        4 * text@.len() <= usize::MAX,
    ensures
        lines@.len() == reorder_spec(text@, directions@, sections@, line_breaks@).len(),
        lines@.len() == line_count(text@, line_breaks@),
        forall|i: int|
            0 <= i < lines@.len() ==> (#[trigger] lines@[i].codepoints@, lines@[i].sections@)
                == reorder_spec(text@, directions@, sections@, line_breaks@)[i],
        forall|i: int|
            0 <= i < lines@.len() ==> #[trigger] rearranges(
                (lines@[i].codepoints@, lines@[i].sections@),
                codepoints_of(text@),
                char_sections(text@, sections@),
                line_begin(text@, line_breaks@, i),
                line_end(text@, line_breaks@, i),
            ),
{
    proof {
        lemma_utf8_offset_at_most_four(text@, text@.len() as int);
        lemma_encode_utf8_len(text@);
    }
    let prepared = prepare(text, directions, sections, line_breaks);
    let ghost stand_in = stand_in_text(text@, directions@);
    let ghost n = text@.len() as int;
    let ghost paragraph_count = bidi_paragraphs(stand_in).len() as int;
    let ghost breaks = break_positions(text@, line_breaks@);
    assert(prepared.breaks@ =~= breaks);
    let stand_in_chars = chars_of(prepared.stand_in.as_str());
    proof {
        lemma_utf8_offset_at_most_four(stand_in, n);
        lemma_encode_utf8_len(stand_in);
    }
    let offsets = byte_offsets(&stand_in_chars);
    assert(prepared.codepoints@.len() == n);
    assert(prepared.sections@.len() == n);
    let bidi = analyze(prepared.stand_in.as_str());
    let count = prepared.codepoints.len();
    let mut lines: Vec<VisualLine> = Vec::new();
    let mut start: usize = 0;
    let mut j: usize = 0;
    while j < prepared.breaks.len()
        invariant
            prepared.breaks@ == breaks,
            breaks == break_positions(text@, line_breaks@),
            stand_in == stand_in_text(text@, directions@),
            paragraph_count == bidi_paragraphs(stand_in).len() as int,
            n == text@.len() as int,
            breaks.len() == line_breaks@.len(),
            count == n,
            0 <= j <= breaks.len(),
            start == line_start(breaks, n, j as int),
            bidi.text() == stand_in,
            stand_in.len() == n,
            offsets@.len() == n + 1,
            forall|i: int| 0 <= i <= n ==> #[trigger] offsets@[i] == utf8_offset(stand_in, i),
            encode_utf8_len(stand_in) == utf8_offset(stand_in, n),
            prepared.codepoints@ == codepoints_of(text@),
            prepared.sections@ == char_sections(text@, sections@),
            prepared.codepoints@.len() == n,
            prepared.sections@.len() == n,
            lines@.len() == j,
            forall|i: int|
                0 <= i < j ==> (#[trigger] lines@[i].codepoints@, lines@[i].sections@)
                    == spec_line(text@, directions@, sections@, line_breaks@, i),
            forall|i: int|
                0 <= i < j ==> #[trigger] rearranges(
                    (lines@[i].codepoints@, lines@[i].sections@),
                    codepoints_of(text@),
                    char_sections(text@, sections@),
                    line_begin(text@, line_breaks@, i),
                    line_end(text@, line_breaks@, i),
                ),
        decreases breaks.len() - j,
    {
        proof {
            lemma_line_start_bounds(breaks, n, j + 1);
        }
        let at = prepared.breaks[j];
        let clamped = if at > count {
            count
        } else {
            at
        };
        let line_break = if clamped < start {
            start
        } else {
            clamped
        };
        let line = reorder_line(
            &bidi,
            &offsets,
            &prepared.codepoints,
            &prepared.sections,
            start,
            line_break,
        );
        assert(line_start(breaks, n, j + 1) == line_break);
        assert(break_positions(text@, line_breaks@) == breaks);
        assert(stand_in_text(text@, directions@) == stand_in);
        assert((j as int) < line_breaks@.len());
        assert(line_start(breaks, n, j as int) == start);
        assert(spec_line(text@, directions@, sections@, line_breaks@, j as int) == line_view(
            line_order(stand_in, start as int, line_break as int, paragraph_count),
            codepoints_of(text@),
            char_sections(text@, sections@),
        ));
        assert(line_begin(text@, line_breaks@, j as int) == start);
        assert(line_end(text@, line_breaks@, j as int) == line_break);
        assert(rearranges(
            (line.codepoints@, line.sections@),
            codepoints_of(text@),
            char_sections(text@, sections@),
            start as int,
            line_break as int,
        ));
        lines.push(line);
        start = line_break;
        j += 1;
    }
    proof {
        lemma_line_start_bounds(breaks, n, breaks.len() as int);
    }
    if start < count {
        let line = reorder_line(&bidi, &offsets, &prepared.codepoints, &prepared.sections, start, count);
        assert(line_begin(text@, line_breaks@, breaks.len() as int) == start);
        assert(line_end(text@, line_breaks@, breaks.len() as int) == count);
        assert(rearranges(
            (line.codepoints@, line.sections@),
            codepoints_of(text@),
            char_sections(text@, sections@),
            start as int,
            count as int,
        ));
        lines.push(line);
    }
    assert(lines@.len() == line_count(text@, line_breaks@));
    lines
}

} // verus!
