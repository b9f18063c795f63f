//! Splitting a text into runs of one direction, one script and one font, which is how it is
//! handed to the shaping engine.

use vstd::prelude::*;

use crate::bidi::{analyze, bidi_char_levels, char_levels};
use crate::chars::chars_of;
use crate::glyph::FontIndex;
use crate::script::{raw_scripts, resolve_scripts, resolved_script, ScriptCode};

verus! {

/// A stretch of text to shape in one go, or a character to leave alone.
#[derive(Clone, Copy, Debug, PartialEq, Eq)]
pub enum Segment {
    /// Characters `start..end`, all at one bidirectional level, in one script, in one font.
    Run { start: usize, end: usize, level: u8, script: ScriptCode, font: FontIndex },
    /// A newline, or a character no font covers: nothing to shape, and it must not be swept into
    /// a neighbouring run.
    Verbatim(char),
}

/// A character left alone.
pub open spec fn verbatim_segment(ch: char) -> Segment {
    Segment::Verbatim(ch)
}

/// Whether a character cannot be part of any run: it is a newline, or no font covers it.
pub open spec fn stands_alone(chars: Seq<char>, fonts: Seq<Option<FontIndex>>, i: int) -> bool {
    fonts[i] is None || chars[i] == '\n'
}

/// Whether character `i` can join the run that starts at `start`.
pub open spec fn continues(
    levels: Seq<u8>,
    scripts: Seq<ScriptCode>,
    fonts: Seq<Option<FontIndex>>,
    start: int,
    i: int,
) -> bool {
    levels[i] == levels[start] && scripts[i] == scripts[start] && fonts[i] == fonts[start]
}

/// Where the run starting at `start` ends, looking from `i` on: the first character that stands
/// alone or differs from the run's first in level, script or font, or the end of the text.
pub open spec fn run_end(
    chars: Seq<char>,
    levels: Seq<u8>,
    scripts: Seq<ScriptCode>,
    fonts: Seq<Option<FontIndex>>,
    start: int,
    i: int,
) -> int
    decreases chars.len() - i,
{
    if i >= chars.len() {
        chars.len() as int
    } else if stands_alone(chars, fonts, i) || !continues(levels, scripts, fonts, start, i) {
        i
    } else {
        run_end(chars, levels, scripts, fonts, start, i + 1)
    }
}

/// The segments of a text from character `start` on: each character that stands alone on its
/// own, and the longest runs of everything else.
pub open spec fn segments_from(
    chars: Seq<char>,
    levels: Seq<u8>,
    scripts: Seq<ScriptCode>,
    fonts: Seq<Option<FontIndex>>,
    start: int,
) -> Seq<Segment>
    decreases chars.len() - start, 0int,
{
    if start >= chars.len() || start < 0 {
        Seq::empty()
    } else if stands_alone(chars, fonts, start) {
        seq![verbatim_segment(chars[start])] + segments_from(chars, levels, scripts, fonts, start + 1)
    } else {
        let end = run_end(chars, levels, scripts, fonts, start, start + 1);
        if end <= start || end > chars.len() {
            Seq::empty()
        } else {
            seq![
                Segment::Run {
                    start: start as usize,
                    end: end as usize,
                    level: levels[start],
                    script: scripts[start],
                    font: fonts[start]->0,
                },
            ] + segments_from(chars, levels, scripts, fonts, end)
        }
    }
}

proof fn lemma_run_end_bounds(
    chars: Seq<char>,
    levels: Seq<u8>,
    scripts: Seq<ScriptCode>,
    fonts: Seq<Option<FontIndex>>,
    start: int,
    i: int,
)
    requires
        0 <= i <= chars.len(),
    ensures
        i <= run_end(chars, levels, scripts, fonts, start, i) <= chars.len(),
    decreases chars.len() - i,
{
    if i < chars.len() && !(stands_alone(chars, fonts, i) || !continues(levels, scripts, fonts, start, i)) {
        lemma_run_end_bounds(chars, levels, scripts, fonts, start, i + 1);
    }
}

/// Every character from `start` up to where its run ends can join that run.
proof fn lemma_run_end_joins(
    chars: Seq<char>,
    levels: Seq<u8>,
    scripts: Seq<ScriptCode>,
    fonts: Seq<Option<FontIndex>>,
    start: int,
    i: int,
)
    requires
        0 <= start < i <= chars.len(),
    ensures
        forall|k: int|
            i <= k < run_end(chars, levels, scripts, fonts, start, i) ==> !#[trigger] stands_alone(
                chars,
                fonts,
                k,
            ) && continues(levels, scripts, fonts, start, k),
    decreases chars.len() - i,
{
    if i < chars.len() && !(stands_alone(chars, fonts, i) || !continues(levels, scripts, fonts, start, i)) {
        lemma_run_end_joins(chars, levels, scripts, fonts, start, i + 1);
    }
}

/// Whether a segment, if it is a run, is a non-empty stretch of the text whose characters all
/// have the run's level, script and font, none of them a newline or a character no font covers.
pub open spec fn uniform_run(
    chars: Seq<char>,
    levels: Seq<u8>,
    scripts: Seq<ScriptCode>,
    fonts: Seq<Option<FontIndex>>,
    segment: Segment,
) -> bool {
    segment matches Segment::Run { start: first, end: last, level, script, font } ==> {
        &&& first < last <= chars.len()
        &&& forall|i: int|
            first <= i < last ==> levels[i] == level && scripts[i] == script && fonts[i] == Some(
                font,
            ) && chars[i] != '\n'
    }
}

/// Every run a text is split into is a non-empty stretch of it whose characters all have the
/// run's level, script and font, none of them a newline or a character no font covers.
pub proof fn lemma_runs_are_uniform(
    chars: Seq<char>,
    levels: Seq<u8>,
    scripts: Seq<ScriptCode>,
    fonts: Seq<Option<FontIndex>>,
    start: int,
)
    requires
        levels.len() == chars.len(),
        scripts.len() == chars.len(),
        fonts.len() == chars.len(),
        chars.len() <= usize::MAX,
        0 <= start,
    ensures
        forall|k: int|
            0 <= k < segments_from(chars, levels, scripts, fonts, start).len() ==> uniform_run(
                chars,
                levels,
                scripts,
                fonts,
                #[trigger] segments_from(chars, levels, scripts, fonts, start)[k],
            ),
    decreases chars.len() - start,
{
    let all = segments_from(chars, levels, scripts, fonts, start);
    if start >= chars.len() {
    } else if stands_alone(chars, fonts, start) {
        lemma_runs_are_uniform(chars, levels, scripts, fonts, start + 1);
        let rest = segments_from(chars, levels, scripts, fonts, start + 1);
        assert(all == seq![verbatim_segment(chars[start])] + rest);
        assert forall|k: int| 0 <= k < all.len() implies uniform_run(
            chars,
            levels,
            scripts,
            fonts,
            #[trigger] all[k],
        ) by {
            if k > 0 {
                assert(all[k] == rest[k - 1]);
            }
        }
    } else {
        let end = run_end(chars, levels, scripts, fonts, start, start + 1);
        lemma_run_end_bounds(chars, levels, scripts, fonts, start, start + 1);
        lemma_run_end_joins(chars, levels, scripts, fonts, start, start + 1);
        lemma_runs_are_uniform(chars, levels, scripts, fonts, end);
        let rest = segments_from(chars, levels, scripts, fonts, end);
        let run = Segment::Run {
            start: start as usize,
            end: end as usize,
            level: levels[start],
            script: scripts[start],
            font: fonts[start]->0,
        };
        assert(all == seq![run] + rest);
        assert(uniform_run(chars, levels, scripts, fonts, run)) by {
            assert forall|i: int| start <= i < end implies levels[i] == levels[start] && scripts[i]
                == scripts[start] && fonts[i] == Some(fonts[start]->0) && chars[i] != '\n' by {
                if i > start {
                    assert(!stands_alone(chars, fonts, i));
                }
            }
        }
        assert forall|k: int| 0 <= k < all.len() implies uniform_run(
            chars,
            levels,
            scripts,
            fonts,
            #[trigger] all[k],
        ) by {
            if k > 0 {
                assert(all[k] == rest[k - 1]);
            }
        }
    }
}

/// Where a run stops, the character there stands alone or differs from the run's first
/// character in level, script or font -- or the text has ended.
proof fn lemma_run_end_stops(
    chars: Seq<char>,
    levels: Seq<u8>,
    scripts: Seq<ScriptCode>,
    fonts: Seq<Option<FontIndex>>,
    start: int,
    i: int,
)
    requires
        0 <= i <= chars.len(),
    ensures
        ({
            let e = run_end(chars, levels, scripts, fonts, start, i);
            e == chars.len() || fonts[e] is None || chars[e] == '\n' || levels[e] != levels[start]
                || scripts[e] != scripts[start] || fonts[e] != fonts[start]
        }),
    decreases chars.len() - i,
{
    if i < chars.len() && !(stands_alone(chars, fonts, i) || !continues(levels, scripts, fonts, start, i)) {
        lemma_run_end_stops(chars, levels, scripts, fonts, start, i + 1);
    }
}

/// Whether every run of a list of segments is as long as it can be: a run that stops before the
/// end of the text is followed by the segment of the character where it stopped, which is that
/// character left alone if it is a newline or no font covers it, and otherwise a run starting
/// there that differs from the one before in level, script or font.
pub open spec fn runs_maximal(
    chars: Seq<char>,
    levels: Seq<u8>,
    scripts: Seq<ScriptCode>,
    fonts: Seq<Option<FontIndex>>,
    segments: Seq<Segment>,
) -> bool {
    forall|k: int| 0 <= k < segments.len() ==> #[trigger] run_followed(chars, fonts, segments, k)
}

/// Whether segment `k`, if it is a run that stops before the end of the text, is followed by the
/// segment of the character where it stopped: that character left alone if it is a newline or no
/// font covers it, and otherwise a run starting there that differs from this one in level, script
/// or font.
pub open spec fn run_followed(
    chars: Seq<char>,
    fonts: Seq<Option<FontIndex>>,
    segments: Seq<Segment>,
    k: int,
) -> bool {
    match segments[k] {
        Segment::Run { end: last, level, script, font, .. } => last < chars.len() ==> {
            &&& k + 1 < segments.len()
            &&& if fonts[last as int] is None || chars[last as int] == '\n' {
                segments[k + 1] == Segment::Verbatim(chars[last as int])
            } else {
                match segments[k + 1] {
                    Segment::Run { start: next, level: l, script: c, font: f, .. } => next == last && (l
                        != level || c != script || f != font),
                    Segment::Verbatim(_) => false,
                }
            }
        },
        Segment::Verbatim(_) => true,
    }
}

/// Runs are as long as they can be: a text is never split between two characters that could
/// have been shaped together, so two runs side by side never agree in level, script and font,
/// and a run only stops early at a newline or a character no font covers.
pub proof fn lemma_runs_are_maximal(
    chars: Seq<char>,
    levels: Seq<u8>,
    scripts: Seq<ScriptCode>,
    fonts: Seq<Option<FontIndex>>,
    start: int,
)
    requires
        levels.len() == chars.len(),
        scripts.len() == chars.len(),
        fonts.len() == chars.len(),
        chars.len() <= usize::MAX,
        0 <= start,
    ensures
        runs_maximal(chars, levels, scripts, fonts, segments_from(chars, levels, scripts, fonts, start)),
    decreases chars.len() - start,
{
    let all = segments_from(chars, levels, scripts, fonts, start);
    if start >= chars.len() {
    } else if stands_alone(chars, fonts, start) {
        lemma_runs_are_maximal(chars, levels, scripts, fonts, start + 1);
        let rest = segments_from(chars, levels, scripts, fonts, start + 1);
        assert(all == seq![verbatim_segment(chars[start])] + rest);
        assert forall|k: int| 0 <= k < all.len() implies #[trigger] run_followed(chars, fonts, all, k) by {
            if k > 0 {
                assert(run_followed(chars, fonts, rest, k - 1));
                assert(all[k] == rest[k - 1]);
                if k + 1 < all.len() {
                    assert(all[k + 1] == rest[k]);
                }
            }
        }
    } else {
        let end = run_end(chars, levels, scripts, fonts, start, start + 1);
        lemma_run_end_bounds(chars, levels, scripts, fonts, start, start + 1);
        lemma_run_end_stops(chars, levels, scripts, fonts, start, start + 1);
        lemma_runs_are_maximal(chars, levels, scripts, fonts, end);
        let rest = segments_from(chars, levels, scripts, fonts, end);
        let run = Segment::Run {
            start: start as usize,
            end: end as usize,
            level: levels[start],
            script: scripts[start],
            font: fonts[start]->0,
        };
        assert(all == seq![run] + rest);
        if end < chars.len() {
            if !stands_alone(chars, fonts, end) {
                lemma_run_end_bounds(chars, levels, scripts, fonts, end, end + 1);
            }
        }
        assert forall|k: int| 0 <= k < all.len() implies #[trigger] run_followed(chars, fonts, all, k) by {
            if k > 0 {
                assert(run_followed(chars, fonts, rest, k - 1));
                assert(all[k] == rest[k - 1]);
                if k + 1 < all.len() {
                    assert(all[k + 1] == rest[k]);
                }
            } else if end < chars.len() {
                assert(all[1] == rest[0]);
            }
        }
    }
}

/// Whether a segment covers exactly the characters `from..to`: a run from `from` to `to`, or the
/// single character at `from` left alone because it is a newline or no font covers it.
pub open spec fn covers(chars: Seq<char>, fonts: Seq<Option<FontIndex>>, segment: Segment, from: int, to: int) -> bool {
    match segment {
        Segment::Run { start, end, .. } => start == from && end == to && from < to,
        Segment::Verbatim(ch) => to == from + 1 && ch == chars[from] && (fonts[from] is None || chars[from]
            == '\n'),
    }
}

/// Whether segments cover the text from `from` to its end, one after another with nothing left
/// out and nothing covered twice, segment `k` covering `positions[k]..positions[k + 1]`.
pub open spec fn tiles(
    chars: Seq<char>,
    fonts: Seq<Option<FontIndex>>,
    segments: Seq<Segment>,
    from: int,
    positions: Seq<int>,
) -> bool {
    &&& positions.len() == segments.len() + 1
    &&& positions[0] == from
    &&& positions.last() == chars.len()
    &&& forall|k: int|
        0 <= k < segments.len() ==> #[trigger] covers(chars, fonts, segments[k], positions[k], positions[k + 1])
}

/// The segments of a text cover it, in order, with nothing left out and nothing covered twice:
/// each is a run of at least one character or a single character left alone, and a character is
/// left alone exactly when it is a newline or no font covers it. Returns where each segment
/// starts, and where the last one ends.
pub proof fn lemma_segments_tile(
    chars: Seq<char>,
    levels: Seq<u8>,
    scripts: Seq<ScriptCode>,
    fonts: Seq<Option<FontIndex>>,
    start: int,
) -> (positions: Seq<int>)
    requires
        levels.len() == chars.len(),
        scripts.len() == chars.len(),
        fonts.len() == chars.len(),
        chars.len() <= usize::MAX,
        0 <= start <= chars.len(),
    ensures
        tiles(chars, fonts, segments_from(chars, levels, scripts, fonts, start), start, positions),
    decreases chars.len() - start,
{
    let all = segments_from(chars, levels, scripts, fonts, start);
    if start == chars.len() {
        seq![start]
    } else if stands_alone(chars, fonts, start) {
        let rest = segments_from(chars, levels, scripts, fonts, start + 1);
        let later = lemma_segments_tile(chars, levels, scripts, fonts, start + 1);
        let positions = seq![start] + later;
        assert(all == seq![verbatim_segment(chars[start])] + rest);
        assert forall|k: int| 0 <= k < all.len() implies #[trigger] covers(
            chars,
            fonts,
            all[k],
            positions[k],
            positions[k + 1],
        ) by {
            if k > 0 {
                let j = k - 1;
                assert(all[k] == rest[j]);
                assert(covers(chars, fonts, rest[j], later[j], later[j + 1]));
                assert(positions[k] == later[j] && positions[k + 1] == later[j + 1]);
            }
        }
        positions
    } else {
        let end = run_end(chars, levels, scripts, fonts, start, start + 1);
        lemma_run_end_bounds(chars, levels, scripts, fonts, start, start + 1);
        let rest = segments_from(chars, levels, scripts, fonts, end);
        let later = lemma_segments_tile(chars, levels, scripts, fonts, end);
        let positions = seq![start] + later;
        let run = Segment::Run {
            start: start as usize,
            end: end as usize,
            level: levels[start],
            script: scripts[start],
            font: fonts[start]->0,
        };
        assert(all == seq![run] + rest);
        assert forall|k: int| 0 <= k < all.len() implies #[trigger] covers(
            chars,
            fonts,
            all[k],
            positions[k],
            positions[k + 1],
        ) by {
            if k > 0 {
                let j = k - 1;
                assert(all[k] == rest[j]);
                assert(covers(chars, fonts, rest[j], later[j], later[j + 1]));
                assert(positions[k] == later[j] && positions[k + 1] == later[j + 1]);
            }
        }
        positions
    }
}

/// Splits a text into segments, given each character's bidirectional level, script and font.
pub fn split_runs(
    chars: &Vec<char>,
    levels: &Vec<u8>,
    scripts: &Vec<ScriptCode>,
    fonts: &Vec<Option<FontIndex>>,
) -> (segments: Vec<Segment>)
    requires
        levels@.len() == chars@.len(),
        scripts@.len() == chars@.len(),
        fonts@.len() == chars@.len(),
    ensures
        segments@ == segments_from(chars@, levels@, scripts@, fonts@, 0),
        runs_maximal(chars@, levels@, scripts@, fonts@, segments@),
        forall|k: int|
            0 <= k < segments@.len() ==> uniform_run(chars@, levels@, scripts@, fonts@, #[trigger] segments@[k]),
        exists|positions: Seq<int>| #[trigger] tiles(chars@, fonts@, segments@, 0, positions),
{
    let ghost all = segments_from(chars@, levels@, scripts@, fonts@, 0);
    let n = chars.len();
    proof {
        lemma_runs_are_maximal(chars@, levels@, scripts@, fonts@, 0);
        lemma_runs_are_uniform(chars@, levels@, scripts@, fonts@, 0);
        let positions = lemma_segments_tile(chars@, levels@, scripts@, fonts@, 0);
        assert(tiles(chars@, fonts@, all, 0, positions));
    }
    let mut segments: Vec<Segment> = Vec::new();
    let mut run_start: usize = 0;
    let mut index: usize = 0;
    loop
        invariant
            n == chars@.len(),
            levels@.len() == n,
            scripts@.len() == n,
            fonts@.len() == n,
            all == segments_from(chars@, levels@, scripts@, fonts@, 0),
            0 <= run_start <= index <= n,
            segments@ + segments_from(chars@, levels@, scripts@, fonts@, run_start as int) == all,
            run_start < index ==> !stands_alone(chars@, fonts@, run_start as int) && run_end(
                chars@,
                levels@,
                scripts@,
                fonts@,
                run_start as int,
                run_start + 1,
            ) == run_end(chars@, levels@, scripts@, fonts@, run_start as int, index as int),
        ensures
            segments@ + segments_from(chars@, levels@, scripts@, fonts@, run_start as int) == all,
            run_start == n,
        decreases n - index,
    {
        let ends_run = index == n || fonts[index].is_none() || chars[index] == '\n' || (index
            > run_start && (levels[index] != levels[run_start] || scripts[index]
            != scripts[run_start] || fonts[index] != fonts[run_start]));
        if ends_run && index > run_start {
            proof {
                lemma_run_end_bounds(chars@, levels@, scripts@, fonts@, run_start as int, index as int);
                assert(run_end(chars@, levels@, scripts@, fonts@, run_start as int, index as int) == index);
            }
            let font = match fonts[run_start] {
                Some(font) => font,
                None => {
                    assert(false);
                    0
                },
            };
            let run = Segment::Run {
                start: run_start,
                end: index,
                level: levels[run_start],
                script: scripts[run_start],
                font,
            };
            let ghost before = segments@;
            segments.push(run);
            assert(segments_from(chars@, levels@, scripts@, fonts@, run_start as int) == seq![run]
                + segments_from(chars@, levels@, scripts@, fonts@, index as int));
            assert(segments@ + segments_from(chars@, levels@, scripts@, fonts@, index as int) =~= before
                + segments_from(chars@, levels@, scripts@, fonts@, run_start as int));
            run_start = index;
        }
        if index == n {
            break;
        }
        if fonts[index].is_none() || chars[index] == '\n' {
            let ghost before = segments@;
            segments.push(Segment::Verbatim(chars[index]));
            assert(segments_from(chars@, levels@, scripts@, fonts@, index as int) == seq![
                verbatim_segment(chars@[index as int]),
            ] + segments_from(chars@, levels@, scripts@, fonts@, index + 1));
            assert(segments@ + segments_from(chars@, levels@, scripts@, fonts@, index + 1) =~= before
                + segments_from(chars@, levels@, scripts@, fonts@, run_start as int));
            run_start = index + 1;
        }
        index += 1;
    }
    assert(segments_from(chars@, levels@, scripts@, fonts@, n as int) =~= Seq::<Segment>::empty());
    assert(segments@ =~= all);
    segments
}

/// Splits a text into segments given the font each character is shaped with: each character's
/// level comes from the bidirectional algorithm, and its script from [`resolve_scripts`].
pub fn plan_runs(text: &str, fonts: &Vec<Option<FontIndex>>) -> (segments: Vec<Segment>)
    requires
        fonts@.len() == text@.len(),
    ensures
        segments@ == segments_from(
            text@,
            bidi_char_levels(text@),
            Seq::new(text@.len(), |i: int| resolved_script(raw_scripts(text@), i)),
            fonts@,
            0,
        ),
        runs_maximal(
            text@,
            bidi_char_levels(text@),
            Seq::new(text@.len(), |i: int| resolved_script(raw_scripts(text@), i)),
            fonts@,
            segments@,
        ),
        exists|positions: Seq<int>| #[trigger] tiles(text@, fonts@, segments@, 0, positions),
{
    let chars = chars_of(text);
    let bidi = analyze(text);
    let levels = char_levels(&bidi);
    let scripts = resolve_scripts(&chars);
    assert(scripts@ =~= Seq::new(text@.len(), |i: int| resolved_script(raw_scripts(text@), i)));
    split_runs(&chars, &levels, &scripts, fonts)
}

} // verus!
