//! Ties shaping and drawing together through the codepoints that stand for shaped glyphs.
//!
//! Shaping produces glyphs that no longer correspond to any character; MapLibre can only carry
//! characters. So each distinct glyph is given a codepoint out of a private stretch of Unicode, the
//! shaped text is handed back as a string of those, and when MapLibre later asks what those
//! codepoints look like, the registry draws the glyphs they stand for -- offsets and all -- into
//! the reply.

use std::collections::HashMap;
use vstd::hash_map::StringHashMap;
use vstd::prelude::*;
use vstd::string::StringSliceAdditionalSpecFns;

use crate::allocator::{
    allocation, block_of, lemma_allocation_is_first_eligible, AllocatorState, CodepointAllocator,
};
use crate::constants::{in_pool, POOL_END, POOL_START, RANGE_SIZE};
use crate::glyph_pbf::{range_file, write_range, GlyphEntry, PbfGlyph};
use crate::glyph::{FontIndex, GlyphIndex, GlyphKey, Offset, PlainGlyph, RasterGlyph, RasterKey};
use crate::text::{lemma_verbatim_length, verbatim_pieces, GlyphRasterizing, InspectedGlyph, Piece, TextShaping, VisualLine};
use crate::chars::{char_from_u32, chars_of, is_scalar_value, push_char};
use crate::encoding::{decoded_entries, glyph_entries, lemma_glyph_entries_roundtrip};

verus! {

broadcast use vstd::std_specs::hash::group_hash_axioms;

/// How many labels' shaping results to remember. Shaping the same name over and over is the
/// common case -- a road is named on every tile it crosses, at every zoom.
pub const SHAPING_CACHE_LIMIT: usize = 8192;

/// What a registry is, abstractly.
pub struct RegistryState {
    pub allocator: AllocatorState,
    /// The codepoint standing for each glyph.
    pub by_key: Map<GlyphKey, u32>,
    /// The glyph each codepoint stands for.
    pub by_codepoint: Map<u32, GlyphKey>,
    /// Codepoints allocated since they were last taken.
    pub unreported: Seq<(u32, GlyphKey)>,
    /// Remembered shaping results, by input text.
    pub shaped: Map<Seq<char>, Seq<char>>,
    /// Glyphs drawn so far.
    pub drawn: Map<RasterKey, RasterGlyph>,
}

/// Records that `codepoint` stands for `key`, both ways round.
pub open spec fn register_state(s: RegistryState, codepoint: u32, key: GlyphKey) -> RegistryState {
    RegistryState {
        by_codepoint: s.by_codepoint.insert(codepoint, key),
        by_key: s.by_key.insert(key, codepoint),
        ..s
    }
}

/// The codepoint standing for a glyph: the one it already has, or the next one the allocator
/// hands out, which is then recorded and queued to be reported.
pub open spec fn allocate_state(s: RegistryState, key: GlyphKey) -> (RegistryState, Option<u32>) {
    if s.by_key.contains_key(key) {
        (s, Some(s.by_key[key]))
    } else {
        let (allocator, result) = allocation(s.allocator);
        match result {
            Some(codepoint) => {
                let registered = register_state(
                    RegistryState { allocator, ..s },
                    codepoint,
                    key,
                );
                (
                    RegistryState {
                        unreported: registered.unreported.push((codepoint, key)),
                        ..registered
                    },
                    Some(codepoint),
                )
            },
            None => (RegistryState { allocator, ..s }, None),
        }
    }
}

/// Turns shaped pieces into one character each: a piece shaping left alone stays itself, and a
/// glyph becomes the codepoint standing for it -- or nothing at all, if the pool has run out.
pub open spec fn assemble(s: RegistryState, pieces: Seq<Piece>) -> (RegistryState, Seq<char>)
    decreases pieces.len(),
{
    if pieces.len() == 0 {
        (s, Seq::<char>::empty())
    } else {
        let (before, out) = assemble(s, pieces.drop_last());
        match pieces.last() {
            Piece::Verbatim(ch) => (before, out.push(ch)),
            Piece::Glyph(key) => {
                let (after, codepoint) = allocate_state(before, key);
                match codepoint {
                    Some(c) => if is_scalar_value(c) {
                        (after, out.push(c as char))
                    } else {
                        (after, out)
                    },
                    None => (after, out),
                }
            },
        }
    }
}

/// Remembers a shaping result, forgetting everything remembered so far once the cache is full.
pub open spec fn remember(s: RegistryState, text: Seq<char>, out: Seq<char>) -> RegistryState {
    RegistryState {
        shaped: (if s.shaped.len() >= SHAPING_CACHE_LIMIT {
            Map::<Seq<char>, Seq<char>>::empty()
        } else {
            s.shaped
        }).insert(text, out),
        ..s
    }
}

/// The registry's invariant: the allocator's cursor and stretch lie within the pool, and every
/// codepoint waiting to be reported was allocated from it.
pub open spec fn registry_wf(s: RegistryState) -> bool {
    &&& POOL_START <= s.allocator.next
    &&& s.allocator.end <= POOL_END
    &&& forall|i: int| 0 <= i < s.unreported.len() ==> in_pool(#[trigger] s.unreported[i].0)
}

/// The key of the glyph a codepoint draws as when nothing has shaped it.
pub open spec fn plain_key(plain: PlainGlyph) -> GlyphKey {
    GlyphKey {
        font: plain.font,
        glyph: plain.glyph,
        offset: Offset { x: 0, y: 0 },
        advance: plain.advance,
        rtl: false,
    }
}

/// What to draw for a codepoint: the glyph registered for it; nothing, for a pool codepoint that
/// stands for no glyph; otherwise the codepoint's own glyph, as `plain` says it is.
pub open spec fn key_for_spec(s: RegistryState, codepoint: u32, plain: Option<PlainGlyph>) -> Option<
    GlyphKey,
> {
    if s.by_codepoint.contains_key(codepoint) {
        Some(s.by_codepoint[codepoint])
    } else if in_pool(codepoint) {
        None
    } else {
        match plain {
            Some(p) => Some(plain_key(p)),
            None => None,
        }
    }
}

/// The glyphs of a block, codepoint by codepoint from `start`, given what each codepoint draws
/// as on its own.
pub open spec fn block_keys(s: RegistryState, start: u32, plains: Seq<Option<PlainGlyph>>) -> Seq<
    (u32, GlyphKey),
>
    decreases plains.len(),
{
    if plains.len() == 0 {
        Seq::empty()
    } else {
        let rest = block_keys(s, start, plains.drop_last());
        let codepoint = (start + plains.len() - 1) as u32;
        match key_for_spec(s, codepoint, plains.last()) {
            Some(key) => rest.push((codepoint, key)),
            None => rest,
        }
    }
}

/// The advance a glyph protocol buffer carries: never negative.
pub open spec fn pbf_advance(key: GlyphKey) -> u32 {
    if key.advance < 0 {
        0
    } else {
        key.advance as u32
    }
}

/// What the file holds for each glyph of a block: its codepoint, its drawing, its advance.
pub open spec fn block_entries(keys: Seq<(u32, GlyphKey)>, drawn: Map<RasterKey, RasterGlyph>) -> Seq<
    GlyphEntry,
> {
    keys.map_values(
        |entry: (u32, GlyphKey)| (entry.0, drawn[entry.1.raster_key()], pbf_advance(entry.1)),
    )
}

/// Drawings already made are never replaced.
pub open spec fn keeps_drawings(before: Map<RasterKey, RasterGlyph>, after: Map<RasterKey, RasterGlyph>) -> bool {
    forall|k: RasterKey| #[trigger] before.contains_key(k) ==> after.contains_key(k) && after[k]
        == before[k]
}

/// A shaped glyph as a tool sees it.
pub open spec fn inspected_key(key: GlyphKey) -> InspectedGlyph {
    InspectedGlyph {
        font: key.font,
        glyph: key.glyph,
        offset: key.offset,
        advance: key.advance,
        rtl: key.rtl,
        codepoint: None,
    }
}

/// A character drawn as its own glyph, as a tool sees it.
pub open spec fn inspected_plain(codepoint: u32, plain: PlainGlyph) -> InspectedGlyph {
    InspectedGlyph {
        font: plain.font,
        glyph: plain.glyph,
        offset: Offset { x: 0, y: 0 },
        advance: plain.advance,
        rtl: false,
        codepoint: Some(codepoint),
    }
}

/// Pieces as a tool sees them: a glyph as itself, a character as the glyph it draws as on its
/// own (`plains` says which, one entry per piece), left out where no font has one.
pub open spec fn inspect_pieces(pieces: Seq<Piece>, plains: Seq<Option<PlainGlyph>>) -> Seq<
    InspectedGlyph,
>
    decreases pieces.len(),
{
    if pieces.len() == 0 || plains.len() == 0 {
        Seq::empty()
    } else {
        let rest = inspect_pieces(pieces.drop_last(), plains.drop_last());
        match pieces.last() {
            Piece::Glyph(key) => rest.push(inspected_key(key)),
            Piece::Verbatim(ch) => match plains.last() {
                Some(plain) => rest.push(inspected_plain(ch as u32, plain)),
                None => rest,
            },
        }
    }
}

/// What a codepoint of a shaped string draws as: the glyph registered for it, or its own glyph
/// as `plain` says it is.
pub open spec fn describe_spec(s: RegistryState, codepoint: u32, plain: Option<PlainGlyph>) -> Option<
    InspectedGlyph,
> {
    if s.by_codepoint.contains_key(codepoint) {
        Some(inspected_key(s.by_codepoint[codepoint]))
    } else {
        match plain {
            Some(p) => Some(inspected_plain(codepoint, p)),
            None => None,
        }
    }
}

/// Every codepoint of a list described, those that draw as nothing left out.
pub open spec fn describe_all(s: RegistryState, codepoints: Seq<u32>, plains: Seq<
    Option<PlainGlyph>,
>) -> Seq<InspectedGlyph>
    decreases codepoints.len(),
{
    if codepoints.len() == 0 || plains.len() == 0 {
        Seq::empty()
    } else {
        let rest = describe_all(s, codepoints.drop_last(), plains.drop_last());
        match describe_spec(s, codepoints.last(), plains.last()) {
            Some(glyph) => rest.push(glyph),
            None => rest,
        }
    }
}

/// The direction shaping gave the glyph a character stands for, if it stands for one.
pub open spec fn direction_spec(s: RegistryState, ch: char) -> Option<bool> {
    if s.by_codepoint.contains_key(ch as u32) {
        Some(s.by_codepoint[ch as u32].rtl)
    } else {
        None
    }
}

/// What shaping a text does to a registry and gives back: the remembered result if there is one,
/// and otherwise some pieces assembled and remembered.
pub open spec fn shaping_effect<S: TextShaping>(
    shaper: S,
    before: RegistryState,
    text: Seq<char>,
    after: RegistryState,
    out: Seq<char>,
) -> bool {
    if before.shaped.contains_key(text) {
        out == before.shaped[text] && after == before
    } else {
        exists|pieces: Seq<Piece>|
            {
                let (assembled, chars) = #[trigger] assemble(before, pieces);
                &&& shaper.shapes(text, pieces)
                &&& out == chars
                &&& after == remember(assembled, text, chars)
            }
    }
}

/// Every drawing made between two states is one the rasterizer can give for its glyph and
/// offset.
pub open spec fn drawn_by<R: GlyphRasterizing>(
    rasterizer: R,
    before: Map<RasterKey, RasterGlyph>,
    after: Map<RasterKey, RasterGlyph>,
) -> bool {
    forall|k: RasterKey|
        #[trigger] after.contains_key(k) && !before.contains_key(k) ==> rasterizer.draws(
            k.font,
            k.glyph,
            k.offset,
            after[k],
        )
}

/// Every drawing kept is one the rasterizer can give for its glyph and offset.
pub open spec fn drawings_from<R: GlyphRasterizing>(rasterizer: R, drawn: Map<RasterKey, RasterGlyph>) -> bool {
    forall|k: RasterKey| #[trigger] drawn.contains_key(k) ==> rasterizer.draws(k.font, k.glyph, k.offset, drawn[k])
}

/// For each character of a text, the direction of the glyph it stands for, if any.
pub open spec fn directions_of(s: RegistryState, text: Seq<char>) -> Seq<Option<bool>> {
    Seq::new(text.len(), |i: int| direction_spec(s, text[i]))
}

/// What a rasterizer answers for the codepoints of a block that stand for no registered glyph
/// and lie outside the pool, and nothing for the others.
pub open spec fn block_plains_answered<R: GlyphRasterizing>(
    rasterizer: R,
    s: RegistryState,
    start: int,
    plains: Seq<Option<PlainGlyph>>,
) -> bool {
    forall|i: int|
        0 <= i < plains.len() ==> if !s.by_codepoint.contains_key((start + i) as u32) && !in_pool(
            (start + i) as u32,
        ) {
            rasterizer.answers_plain((start + i) as u32, #[trigger] plains[i])
        } else {
            plains[i] is None
        }
}

/// Asking for the same glyph again gives the codepoint it was given the first time, and changes
/// nothing: two glyphs with the same key share one codepoint.
pub proof fn lemma_allocation_is_stable(s: RegistryState, key: GlyphKey)
    ensures
        ({
            let (after, first) = allocate_state(s, key);
            first is Some ==> allocate_state(after, key) == (after, first)
        }),
{
}

/// A codepoint freshly allocated for a glyph is drawn, and described, as that glyph.
pub proof fn lemma_allocated_codepoint_is_its_glyph(
    s: RegistryState,
    key: GlyphKey,
    plain: Option<PlainGlyph>,
)
    requires
        !s.by_key.contains_key(key),
    ensures
        ({
            let (after, codepoint) = allocate_state(s, key);
            codepoint matches Some(c) ==> {
                &&& key_for_spec(after, c, plain) == Some(key)
                &&& describe_spec(after, c, plain) == Some(inspected_key(key))
                &&& after.unreported == s.unreported.push((c, key))
            }
        }),
{
}

/// Text that shaping leaves alone comes back as the characters it was, and spends nothing.
pub proof fn lemma_text_left_alone_stays_text(s: RegistryState, text: Seq<char>)
    ensures
        assemble(s, verbatim_pieces(text)) == (s, text),
    decreases text.len(),
{
    if text.len() > 0 {
        let front = text.drop_last();
        lemma_text_left_alone_stays_text(s, front);
        let pieces = verbatim_pieces(text);
        assert(pieces.drop_last() =~= verbatim_pieces(front));
        assert(front.push(text.last()) =~= text);
    } else {
        assert(text =~= Seq::<char>::empty());
    }
}

/// Every codepoint a glyph stands for lies below the allocator's cursor, and no two glyphs share
/// one.
pub open spec fn allocations_distinct(s: RegistryState) -> bool {
    &&& forall|k: GlyphKey| #[trigger] s.by_key.contains_key(k) ==> s.by_key[k] < s.allocator.next
    &&& forall|k1: GlyphKey, k2: GlyphKey|
        #![trigger s.by_key[k1], s.by_key[k2]]
        s.by_key.contains_key(k1) && s.by_key.contains_key(k2) && k1 != k2 ==> s.by_key[k1]
            != s.by_key[k2]
}

/// Every glyph that had a codepoint before still has the same one after.
pub open spec fn keeps_keys(before: RegistryState, after: RegistryState) -> bool {
    forall|k: GlyphKey| #[trigger] before.by_key.contains_key(k) ==> after.by_key.contains_key(k)
        && after.by_key[k] == before.by_key[k]
}

/// An entry allocated between two states: a glyph that had no codepoint before, given one from
/// the pool, at or past the cursor it started from, and in no block sealed then.
pub open spec fn fresh_entry(before: RegistryState, after: RegistryState, entry: (u32, GlyphKey)) -> bool {
    &&& !before.by_key.contains_key(entry.1)
    &&& after.by_key.contains_key(entry.1)
    &&& after.by_key[entry.1] == entry.0
    &&& before.allocator.next <= entry.0 < after.allocator.next
    &&& in_pool(entry.0)
    &&& !before.allocator.sealed.contains(block_of(entry.0 as int))
}

/// Every glyph given a codepoint between two states is among the entries queued for reporting
/// since, as that codepoint and that glyph.
pub open spec fn reports_all(before: RegistryState, after: RegistryState) -> bool {
    forall|k: GlyphKey|
        #[trigger] after.by_key.contains_key(k) && !before.by_key.contains_key(k) ==> exists|i: int|
            before.unreported.len() <= i < after.unreported.len() && #[trigger] after.unreported[i] == (
                after.by_key[k],
                k,
            )
}

/// What holds between two states of a registry when nothing but shaping, sealing and drawing has
/// happened in between: the stretch ends where it did, sealed blocks stay sealed, the cursor only
/// moves on, every glyph keeps its codepoint, and what was queued for reporting stays queued;
/// what is queued after it is exactly the glyphs given codepoints in between, each a
/// [`fresh_entry`], in increasing order of codepoint; and if no two glyphs shared a codepoint
/// before, none do after.
pub open spec fn allocates_afresh(before: RegistryState, after: RegistryState) -> bool {
    let n = before.unreported.len() as int;
    &&& after.allocator.end == before.allocator.end
    &&& before.allocator.sealed.subset_of(after.allocator.sealed)
    &&& before.allocator.next <= after.allocator.next
    &&& keeps_keys(before, after)
    &&& n <= after.unreported.len()
    &&& after.unreported.take(n) == before.unreported
    &&& forall|i: int| n <= i < after.unreported.len() ==> fresh_entry(before, after, #[trigger] after.unreported[i])
    &&& forall|i: int, j: int|
        n <= i < j < after.unreported.len() ==> #[trigger] after.unreported[i].0
            < #[trigger] after.unreported[j].0
    &&& reports_all(before, after)
    &&& allocations_distinct(before) ==> allocations_distinct(after)
}

/// What holds between two states of a registry whatever shaping, narrowing, sealing, reporting
/// and drawing has happened in between: every glyph keeps its codepoint, every sealed block stays
/// sealed, and no glyph has been given a codepoint in a block that was sealed at the start.
pub open spec fn seals_hold(before: RegistryState, after: RegistryState) -> bool {
    &&& keeps_keys(before, after)
    &&& before.allocator.sealed.subset_of(after.allocator.sealed)
    &&& forall|k: GlyphKey|
        #[trigger] after.by_key.contains_key(k) && !before.by_key.contains_key(k)
            ==> !before.allocator.sealed.contains(block_of(after.by_key[k] as int))
}

/// Nothing happening is allocating nothing afresh.
proof fn lemma_afresh_reflexive(s: RegistryState)
    ensures
        allocates_afresh(s, s),
{
    assert(s.unreported.take(s.unreported.len() as int) =~= s.unreported);
}

/// Allocating afresh twice over is allocating afresh: across any run of shaping, sealing and
/// drawing, every glyph keeps the codepoint it was first given, a glyph gets a codepoint no other
/// glyph has, the glyphs met for the first time are queued for reporting exactly once each, in
/// increasing order of codepoint, and none lands in a sealed block.
pub proof fn lemma_afresh_chains(a: RegistryState, b: RegistryState, c: RegistryState)
    requires
        allocates_afresh(a, b),
        allocates_afresh(b, c),
    ensures
        allocates_afresh(a, c),
{
    let na = a.unreported.len() as int;
    let nb = b.unreported.len() as int;
    assert forall|i: int| 0 <= i < nb implies #[trigger] c.unreported[i] == b.unreported[i] by {
        assert(c.unreported.take(nb)[i] == c.unreported[i]);
    }
    assert forall|i: int| 0 <= i < na implies #[trigger] b.unreported[i] == a.unreported[i] by {
        assert(b.unreported.take(na)[i] == b.unreported[i]);
    }
    assert(c.unreported.take(na) =~= a.unreported) by {
        assert forall|i: int| 0 <= i < na implies c.unreported.take(na)[i] == a.unreported[i] by {
            assert(c.unreported[i] == b.unreported[i]);
        }
    }
    assert forall|i: int| na <= i < c.unreported.len() implies fresh_entry(a, c, #[trigger] c.unreported[i]) by {
        if i < nb {
            assert(c.unreported[i] == b.unreported[i]);
            assert(fresh_entry(a, b, b.unreported[i]));
        } else {
            assert(fresh_entry(b, c, c.unreported[i]));
            let k = c.unreported[i].1;
            if a.by_key.contains_key(k) {
                assert(b.by_key.contains_key(k));
            }
        }
    }
    assert forall|i: int, j: int| na <= i < j < c.unreported.len() implies #[trigger] c.unreported[i].0
        < #[trigger] c.unreported[j].0 by {
        if j < nb {
            assert(c.unreported[i] == b.unreported[i]);
            assert(c.unreported[j] == b.unreported[j]);
        } else if i < nb {
            assert(c.unreported[i] == b.unreported[i]);
            assert(fresh_entry(a, b, b.unreported[i]));
            assert(fresh_entry(b, c, c.unreported[j]));
        }
    }
    assert forall|k: GlyphKey| #[trigger] c.by_key.contains_key(k) && !a.by_key.contains_key(k) implies exists|i: int|
        na <= i < c.unreported.len() && #[trigger] c.unreported[i] == (c.by_key[k], k) by {
        if b.by_key.contains_key(k) {
            let i = choose|i: int| na <= i < b.unreported.len() && #[trigger] b.unreported[i] == (b.by_key[k], k);
            assert(c.unreported[i] == b.unreported[i]);
        } else {
            let i = choose|i: int| nb <= i < c.unreported.len() && #[trigger] c.unreported[i] == (c.by_key[k], k);
            assert(c.unreported[i] == (c.by_key[k], k));
        }
    }
}

/// Allocating afresh keeps the seals: a glyph given a codepoint in between got it from a block
/// that was not sealed.
pub proof fn lemma_afresh_keeps_seals(a: RegistryState, b: RegistryState)
    requires
        allocates_afresh(a, b),
    ensures
        seals_hold(a, b),
{
    assert forall|k: GlyphKey| #[trigger] b.by_key.contains_key(k) && !a.by_key.contains_key(k)
        implies !a.allocator.sealed.contains(block_of(b.by_key[k] as int)) by {
        let i = choose|i: int| a.unreported.len() <= i < b.unreported.len() && #[trigger] b.unreported[i] == (b.by_key[k], k);
        assert(fresh_entry(a, b, b.unreported[i]));
    }
}

/// A sealed block stays closed: once a block is sealed, no run of shaping, narrowing, sealing,
/// reporting and drawing that follows gives any glyph a codepoint in it, and every glyph keeps
/// its codepoint.
pub proof fn lemma_seals_hold_chain(a: RegistryState, b: RegistryState, c: RegistryState)
    requires
        seals_hold(a, b),
        seals_hold(b, c),
    ensures
        seals_hold(a, c),
{
    assert forall|k: GlyphKey| #[trigger] c.by_key.contains_key(k) && !a.by_key.contains_key(k)
        implies !a.allocator.sealed.contains(block_of(c.by_key[k] as int)) by {
        if b.by_key.contains_key(k) {
            assert(c.by_key[k] == b.by_key[k]);
        } else {
            assert(!b.allocator.sealed.contains(block_of(c.by_key[k] as int)));
        }
    }
}

/// One glyph given a codepoint: what changes and what does not.
proof fn lemma_allocate_step(s: RegistryState, key: GlyphKey)
    requires
        registry_wf(s),
    ensures
        ({
            let (after, codepoint) = allocate_state(s, key);
            &&& registry_wf(after)
            &&& after.allocator.sealed == s.allocator.sealed
            &&& after.allocator.end == s.allocator.end
            &&& s.allocator.next <= after.allocator.next
            &&& keeps_keys(s, after)
            &&& after.by_key.contains_key(key) || allocation(after.allocator).1 is None
            &&& allocation(s.allocator).1 is None ==> allocation(after.allocator).1 is None
            &&& allocations_distinct(s) ==> allocations_distinct(after)
            &&& reports_all(s, after)
            &&& if !s.by_key.contains_key(key) && codepoint is Some {
                &&& after.unreported == s.unreported.push((codepoint->0, key))
                &&& fresh_entry(s, after, (codepoint->0, key))
            } else {
                after.unreported == s.unreported
            }
        }),
{
    let (after, codepoint) = allocate_state(s, key);
    if !s.by_key.contains_key(key) {
        lemma_allocation_is_first_eligible(s.allocator);
        let moved = allocation(s.allocator).0;
        lemma_allocation_is_first_eligible(moved);
        if let Some(c) = allocation(s.allocator).1 {
            assert(in_pool(c));
            assert(after.unreported[s.unreported.len() as int] == (c, key));
            assert forall|i: int| 0 <= i < after.unreported.len() implies in_pool(
                #[trigger] after.unreported[i].0,
            ) by {
                if i < s.unreported.len() {
                    assert(after.unreported[i] == s.unreported[i]);
                }
            }
            if allocations_distinct(s) {
                assert forall|k1: GlyphKey, k2: GlyphKey|
                    after.by_key.contains_key(k1) && after.by_key.contains_key(k2) && k1 != k2
                        implies #[trigger] after.by_key[k1] != #[trigger] after.by_key[k2] by {
                    if k1 != key && k2 != key {
                        assert(s.by_key[k1] != s.by_key[k2]);
                    } else if k1 == key {
                        assert(s.by_key[k2] < s.allocator.next);
                    } else {
                        assert(s.by_key[k1] < s.allocator.next);
                    }
                }
            }
        } else {
            assert(after.allocator == moved);
        }
    }
}

/// Shaping gives codepoints afresh and changes nothing else: every glyph keeps the codepoint it
/// had; the glyphs met for the first time are reported in the order they were given codepoints,
/// each from the pool, at or past the cursor and in no sealed block, in increasing order; every
/// glyph of the pieces ends up with a codepoint unless the pool has run out; sealed blocks stay
/// sealed; and if no two glyphs shared a codepoint before, none do after.
pub proof fn lemma_shaping_allocates_afresh(s: RegistryState, pieces: Seq<Piece>)
    requires
        registry_wf(s),
    ensures
        ({
            let after = assemble(s, pieces).0;
            let n = s.unreported.len() as int;
            &&& registry_wf(after)
            &&& after.allocator.sealed == s.allocator.sealed
            &&& after.allocator.end == s.allocator.end
            &&& s.allocator.next <= after.allocator.next
            &&& keeps_keys(s, after)
            &&& n <= after.unreported.len()
            &&& after.unreported.take(n) == s.unreported
            &&& forall|i: int| n <= i < after.unreported.len() ==> fresh_entry(s, after, #[trigger] after.unreported[i])
            &&& forall|i: int, j: int|
                n <= i < j < after.unreported.len() ==> #[trigger] after.unreported[i].0
                    < #[trigger] after.unreported[j].0
            &&& forall|i: int|
                0 <= i < pieces.len() ==> (#[trigger] pieces[i] matches Piece::Glyph(k) ==> after.by_key.contains_key(k)
                    || allocation(after.allocator).1 is None)
            &&& allocation(s.allocator).1 is None ==> allocation(after.allocator).1 is None
            &&& allocations_distinct(s) ==> allocations_distinct(after)
            &&& reports_all(s, after)
            &&& allocates_afresh(s, after)
        }),
    decreases pieces.len(),
{
    if pieces.len() == 0 {
        assert(s.unreported.take(s.unreported.len() as int) =~= s.unreported);
    } else {
        let front = pieces.drop_last();
        lemma_shaping_allocates_afresh(s, front);
        let mid = assemble(s, front).0;
        let after = assemble(s, pieces).0;
        let n = s.unreported.len() as int;
        match pieces.last() {
            Piece::Verbatim(_) => {
                assert(after == mid);
                assert forall|i: int| 0 <= i < pieces.len() implies (#[trigger] pieces[i] matches Piece::Glyph(k)
                    ==> after.by_key.contains_key(k) || allocation(after.allocator).1 is None) by {
                    if i < front.len() {
                        assert(pieces[i] == front[i]);
                    }
                }
            },
            Piece::Glyph(key) => {
                lemma_allocate_step(mid, key);
                assert(after == allocate_state(mid, key).0);
                assert(after.unreported.take(mid.unreported.len() as int) =~= mid.unreported);
                assert forall|k: GlyphKey| #[trigger] after.by_key.contains_key(k) && !s.by_key.contains_key(k)
                    implies exists|i: int|
                    n <= i < after.unreported.len() && #[trigger] after.unreported[i] == (after.by_key[k], k) by {
                    if mid.by_key.contains_key(k) {
                        let i = choose|i: int|
                            n <= i < mid.unreported.len() && #[trigger] mid.unreported[i] == (mid.by_key[k], k);
                        assert(after.unreported.take(mid.unreported.len() as int)[i] == after.unreported[i]);
                    } else {
                        let i = choose|i: int|
                            mid.unreported.len() <= i < after.unreported.len() && #[trigger] after.unreported[i]
                                == (after.by_key[k], k);
                    }
                }
                assert forall|i: int| 0 <= i < pieces.len() implies (#[trigger] pieces[i] matches Piece::Glyph(k)
                    ==> after.by_key.contains_key(k) || allocation(after.allocator).1 is None) by {
                    if i < front.len() {
                        assert(pieces[i] == front[i]);
                    }
                }
                if !mid.by_key.contains_key(key) && allocate_state(mid, key).1 is Some {
                    let c = allocate_state(mid, key).1->0;
                    assert(after.unreported == mid.unreported.push((c, key)));
                    assert(after.unreported.take(n) =~= mid.unreported.take(n));
                    assert forall|i: int| n <= i < after.unreported.len() implies fresh_entry(
                        s,
                        after,
                        #[trigger] after.unreported[i],
                    ) by {
                        if i < mid.unreported.len() {
                            assert(after.unreported[i] == mid.unreported[i]);
                            assert(fresh_entry(s, mid, mid.unreported[i]));
                        }
                    }
                    assert forall|i: int, j: int|
                        n <= i < j < after.unreported.len() implies #[trigger] after.unreported[i].0
                        < #[trigger] after.unreported[j].0 by {
                        assert(after.unreported[i] == mid.unreported[i]);
                        assert(fresh_entry(s, mid, mid.unreported[i]));
                        if j < mid.unreported.len() {
                            assert(after.unreported[j] == mid.unreported[j]);
                        }
                    }
                } else {
                    assert forall|i: int| n <= i < after.unreported.len() implies fresh_entry(
                        s,
                        after,
                        #[trigger] after.unreported[i],
                    ) by {
                        assert(fresh_entry(s, mid, mid.unreported[i]));
                    }
                }
            },
        }
    }
}

/// A registry told, in order, what each of a list of codepoints stands for.
pub open spec fn register_all(s: RegistryState, entries: Seq<(u32, GlyphKey)>) -> RegistryState
    decreases entries.len(),
{
    if entries.len() == 0 {
        s
    } else {
        register_state(register_all(s, entries.drop_last()), entries.last().0, entries.last().1)
    }
}

/// Registering entries whose codepoints differ records each codepoint as its own entry's glyph.
proof fn lemma_register_all_records(s: RegistryState, entries: Seq<(u32, GlyphKey)>)
    requires
        forall|i: int, j: int| 0 <= i < j < entries.len() ==> entries[i].0 != entries[j].0,
    ensures
        forall|i: int|
            0 <= i < entries.len() ==> register_all(s, entries).by_codepoint.contains_key(
                #[trigger] entries[i].0,
            ) && register_all(s, entries).by_codepoint[entries[i].0] == entries[i].1,
    decreases entries.len(),
{
    if entries.len() > 0 {
        let front = entries.drop_last();
        lemma_register_all_records(s, front);
        assert forall|i: int| 0 <= i < entries.len() implies register_all(
            s,
            entries,
        ).by_codepoint.contains_key(#[trigger] entries[i].0) && register_all(
            s,
            entries,
        ).by_codepoint[entries[i].0] == entries[i].1 by {
            if i < entries.len() - 1 {
                assert(front[i] == entries[i]);
                assert(entries[i].0 != entries.last().0);
            }
        }
    }
}

/// What one registry reports, another can be told: once the reported entries, encoded as they
/// cross to JavaScript and read back, are registered in order, each reported codepoint is drawn
/// and described as the glyph it was allocated for.
pub proof fn lemma_reported_glyphs_draw_alike(
    s: RegistryState,
    entries: Seq<(u32, GlyphKey)>,
    plain: Option<PlainGlyph>,
)
    requires
        forall|i: int, j: int| 0 <= i < j < entries.len() ==> entries[i].0 != entries[j].0,
    ensures
        forall|i: int|
            0 <= i < entries.len() ==> key_for_spec(
                register_all(s, decoded_entries(glyph_entries(entries))),
                #[trigger] entries[i].0,
                plain,
            ) == Some(entries[i].1) && describe_spec(
                register_all(s, decoded_entries(glyph_entries(entries))),
                entries[i].0,
                plain,
            ) == Some(inspected_key(entries[i].1)),
{
    lemma_glyph_entries_roundtrip(entries);
    lemma_register_all_records(s, entries);
}

/// A codepoint that stands for a registered glyph is in its block as that glyph.
proof fn lemma_block_keys_hold(s: RegistryState, start: u32, plains: Seq<Option<PlainGlyph>>, codepoint: u32)
    requires
        start <= codepoint < start + plains.len(),
        start + plains.len() <= u32::MAX + 1,
        s.by_codepoint.contains_key(codepoint),
    ensures
        block_keys(s, start, plains).contains((codepoint, s.by_codepoint[codepoint])),
    decreases plains.len(),
{
    let last = (start + plains.len() - 1) as u32;
    if codepoint == last {
        assert(key_for_spec(s, codepoint, plains.last()) == Some(s.by_codepoint[codepoint]));
        let keys = block_keys(s, start, plains);
        assert(keys.last() == (codepoint, s.by_codepoint[codepoint]));
    } else {
        lemma_block_keys_hold(s, start, plains.drop_last(), codepoint);
        let rest = block_keys(s, start, plains.drop_last());
        let found = choose|i: int| 0 <= i < rest.len() && rest[i] == (codepoint, s.by_codepoint[codepoint]);
        let keys = block_keys(s, start, plains);
        assert(keys[found] == rest[found]);
    }
}

/// What one registry reports, another can be told, and then its glyph blocks hold it: once the
/// reported entries, encoded and read back, are registered in order, the block of each reported
/// codepoint holds that codepoint as the glyph it was allocated for, whatever the other
/// codepoints of the block draw as on their own.
pub proof fn lemma_reported_glyphs_fill_their_blocks(
    s: RegistryState,
    entries: Seq<(u32, GlyphKey)>,
    i: int,
    range: u32,
    plains: Seq<Option<PlainGlyph>>,
)
    requires
        forall|a: int, b: int| 0 <= a < b < entries.len() ==> entries[a].0 != entries[b].0,
        0 <= i < entries.len(),
        range < 0xFF_FFFF,
        entries[i].0 / RANGE_SIZE == range,
        plains.len() == RANGE_SIZE,
    ensures
        block_keys(
            register_all(s, decoded_entries(glyph_entries(entries))),
            (range * RANGE_SIZE) as u32,
            plains,
        ).contains(entries[i]),
{
    lemma_glyph_entries_roundtrip(entries);
    lemma_register_all_records(s, entries);
    let told = register_all(s, entries);
    assert(told.by_codepoint.contains_key(entries[i].0));
    lemma_block_keys_hold(told, (range * RANGE_SIZE) as u32, plains, entries[i].0);
}

/// The glyph map as seen through packed keys.
pub open spec fn key_view(m: Map<u128, u32>) -> Map<GlyphKey, u32> {
    Map::new(|k: GlyphKey| m.contains_key(k.packed_spec()), |k: GlyphKey| m[k.packed_spec()])
}

/// The drawing map as seen through packed keys.
pub open spec fn drawn_view(m: Map<u64, RasterGlyph>) -> Map<RasterKey, RasterGlyph> {
    Map::new(|k: RasterKey| m.contains_key(k.packed_spec()), |k: RasterKey| m[k.packed_spec()])
}

proof fn lemma_key_view_insert(m: Map<u128, u32>, key: GlyphKey, codepoint: u32)
    ensures
        key_view(m.insert(key.packed_spec(), codepoint)) == key_view(m).insert(key, codepoint),
{
    assert forall|k: GlyphKey| #[trigger] key_view(m.insert(key.packed_spec(), codepoint)).contains_key(k)
        == key_view(m).insert(key, codepoint).contains_key(k) by {
        GlyphKey::lemma_packed_injective(k, key);
    }
    assert forall|k: GlyphKey| #[trigger] key_view(m.insert(key.packed_spec(), codepoint)).contains_key(k)
        implies key_view(m.insert(key.packed_spec(), codepoint))[k] == key_view(m).insert(
        key,
        codepoint,
    )[k] by {
        GlyphKey::lemma_packed_injective(k, key);
    }
    assert(key_view(m.insert(key.packed_spec(), codepoint)) =~= key_view(m).insert(key, codepoint));
}

proof fn lemma_drawn_view_insert(m: Map<u64, RasterGlyph>, key: RasterKey, glyph: RasterGlyph)
    ensures
        drawn_view(m.insert(key.packed_spec(), glyph)) == drawn_view(m).insert(key, glyph),
{
    assert forall|k: RasterKey| #[trigger] drawn_view(m.insert(key.packed_spec(), glyph)).contains_key(k)
        == drawn_view(m).insert(key, glyph).contains_key(k) by {
        RasterKey::lemma_packed_injective(k, key);
    }
    assert forall|k: RasterKey| #[trigger] drawn_view(m.insert(key.packed_spec(), glyph)).contains_key(k)
        implies drawn_view(m.insert(key.packed_spec(), glyph))[k] == drawn_view(m).insert(
        key,
        glyph,
    )[k] by {
        RasterKey::lemma_packed_injective(k, key);
    }
    assert(drawn_view(m.insert(key.packed_spec(), glyph)) =~= drawn_view(m).insert(key, glyph));
}

/// Every character of a text as a piece left alone.
fn verbatim_vec(text: &str) -> (pieces: Vec<Piece>)
    ensures
        pieces@ == verbatim_pieces(text@),
        pieces@.len() == text@.len(),
        forall|i: int| 0 <= i < text@.len() ==> #[trigger] pieces@[i] == Piece::Verbatim(text@[i]),
{
    let chars = chars_of(text);
    let mut pieces: Vec<Piece> = Vec::new();
    let mut index: usize = 0;
    assert(text@.take(0) =~= Seq::<char>::empty());
    while index < chars.len()
        invariant
            0 <= index <= chars@.len(),
            chars@ == text@,
            pieces@ == verbatim_pieces(text@.take(index as int)),
            pieces@.len() == index,
            forall|i: int| 0 <= i < index ==> #[trigger] pieces@[i] == Piece::Verbatim(text@[i]),
        decreases chars@.len() - index,
    {
        let ch = chars[index];
        pieces.push(Piece::Verbatim(ch));
        assert(text@.take(index + 1).drop_last() =~= text@.take(index as int));
        index += 1;
    }
    assert(text@.take(text@.len() as int) =~= text@);
    proof {
        lemma_verbatim_length(text@);
    }
    pieces
}


/// Where shaped glyphs are given codepoints, and where those codepoints are turned back into
/// pictures.
pub struct GlyphRegistry<S: TextShaping, R: GlyphRasterizing> {
    shaping: S,
    rasterizing: R,
    allocator: CodepointAllocator,
    by_key: HashMap<u128, u32>,
    by_codepoint: HashMap<u32, GlyphKey>,
    unreported: Vec<(u32, GlyphKey)>,
    shaped: StringHashMap<String>,
    drawn: HashMap<u64, RasterGlyph>,
}

impl<S: TextShaping, R: GlyphRasterizing> View for GlyphRegistry<S, R> {
    type V = RegistryState;

    closed spec fn view(&self) -> RegistryState {
        RegistryState {
            allocator: self.allocator@,
            by_key: key_view(self.by_key@),
            by_codepoint: self.by_codepoint@,
            unreported: self.unreported@,
            shaped: self.shaped@.map_values(|s: String| s@),
            drawn: drawn_view(self.drawn@),
        }
    }
}

impl<S: TextShaping, R: GlyphRasterizing> GlyphRegistry<S, R> {
    /// The registry's invariant: [`registry_wf`], and every drawing kept is one its rasterizer
    /// can give.
    pub open spec fn wf(&self) -> bool {
        &&& registry_wf(self@)
        &&& drawings_from(self.rasterizer(), self@.drawn)
    }

    /// The shaper this registry asks.
    pub closed spec fn shaper(&self) -> S {
        self.shaping
    }

    /// The rasterizer this registry asks.
    pub closed spec fn rasterizer(&self) -> R {
        self.rasterizing
    }

    /// A registry that has allocated nothing, over the whole pool.
    pub fn new(shaping: S, rasterizing: R) -> (r: Self)
        ensures
            r.wf(),
            r@.allocator.next == crate::constants::POOL_START,
            r@.allocator.end == crate::constants::POOL_END,
            r@.allocator.sealed == Set::<u32>::empty(),
            r@.by_key == Map::<GlyphKey, u32>::empty(),
            r@.by_codepoint == Map::<u32, GlyphKey>::empty(),
            r@.unreported == Seq::<(u32, GlyphKey)>::empty(),
            r@.shaped == Map::<Seq<char>, Seq<char>>::empty(),
            r@.drawn == Map::<RasterKey, RasterGlyph>::empty(),
            allocations_distinct(r@),
    {
        let r = GlyphRegistry {
            shaping,
            rasterizing,
            allocator: CodepointAllocator::new(),
            by_key: HashMap::new(),
            by_codepoint: HashMap::new(),
            unreported: Vec::new(),
            shaped: StringHashMap::new(),
            drawn: HashMap::new(),
        };
        assert(r@.by_key =~= Map::<GlyphKey, u32>::empty());
        assert(r@.shaped =~= Map::<Seq<char>, Seq<char>>::empty());
        assert(r@.drawn =~= Map::<RasterKey, RasterGlyph>::empty());
        r
    }

    /// Narrows the codepoints this registry allocates to one stretch of the pool.
    pub fn restrict_codepoints(&mut self, start: u32, end: u32)
        requires
            old(self).wf(),
        ensures
            final(self).wf(),
            final(self).shaper() == old(self).shaper(),
            final(self).rasterizer() == old(self).rasterizer(),
            final(self)@ == (RegistryState {
                allocator: AllocatorState {
                    next: if start < crate::constants::POOL_START {
                        crate::constants::POOL_START as int
                    } else {
                        start as int
                    },
                    end: if end > crate::constants::POOL_END {
                        crate::constants::POOL_END as int
                    } else {
                        end as int
                    },
                    sealed: old(self)@.allocator.sealed,
                },
                ..old(self)@
            }),
            seals_hold(old(self)@, final(self)@),
    {
        self.allocator.restrict(start, end);
    }

    /// Marks a block of codepoints as drawn, so that nothing new is allocated into it.
    pub fn seal_range(&mut self, range: u32)
        requires
            old(self).wf(),
            range < 0xFF_FFFF || old(self)@.allocator.next / RANGE_SIZE as int != range,
        ensures
            final(self).wf(),
            final(self).shaper() == old(self).shaper(),
            final(self).rasterizer() == old(self).rasterizer(),
            final(self)@ == (RegistryState {
                allocator: AllocatorState {
                    next: if old(self)@.allocator.next / RANGE_SIZE as int == range {
                        (range + 1) * RANGE_SIZE as int
                    } else {
                        old(self)@.allocator.next
                    },
                    end: old(self)@.allocator.end,
                    sealed: old(self)@.allocator.sealed.insert(range),
                },
                ..old(self)@
            }),
            allocates_afresh(old(self)@, final(self)@),
            seals_hold(old(self)@, final(self)@),
    {
        self.allocator.seal(range);
        assert(self@.by_key == old(self)@.by_key);
        proof {
            lemma_afresh_reflexive(old(self)@);
            lemma_afresh_keeps_seals(old(self)@, self@);
        }
    }

    /// The block the allocator's cursor is in. Sealing that block moves the cursor to the start
    /// of the next one.
    pub fn cursor_block(&self) -> (block: u32)
        ensures
            block == self@.allocator.next / RANGE_SIZE as int,
    {
        self.allocator.cursor_block()
    }

    /// The codepoints allocated since this was last called, in the order they were allocated.
    /// They have to reach whoever draws the glyphs before the block they fall in is asked for.
    pub fn take_new_glyphs(&mut self) -> (taken: Vec<(u32, GlyphKey)>)
        requires
            old(self).wf(),
        ensures
            final(self).wf(),
            final(self).shaper() == old(self).shaper(),
            final(self).rasterizer() == old(self).rasterizer(),
            taken@ == old(self)@.unreported,
            final(self)@ == (RegistryState {
                unreported: Seq::<(u32, GlyphKey)>::empty(),
                ..old(self)@
            }),
            seals_hold(old(self)@, final(self)@),
    {
        let mut taken = Vec::new();
        std::mem::swap(&mut taken, &mut self.unreported);
        taken
    }

    /// Records what a codepoint allocated elsewhere stands for.
    pub fn register(&mut self, codepoint: u32, key: GlyphKey)
        requires
            old(self).wf(),
        ensures
            final(self).wf(),
            final(self).shaper() == old(self).shaper(),
            final(self).rasterizer() == old(self).rasterizer(),
            final(self)@ == register_state(old(self)@, codepoint, key),
    {
        self.by_codepoint.insert(codepoint, key);
        proof {
            lemma_key_view_insert(self.by_key@, key, codepoint);
        }
        self.by_key.insert(key.packed(), codepoint);
        assert(self@ =~= register_state(old(self)@, codepoint, key));
    }

    /// The codepoint standing for a glyph, allocating one the first time it is needed.
    fn allocate(&mut self, key: GlyphKey) -> (codepoint: Option<u32>)
        requires
            old(self).wf(),
        ensures
            final(self).wf(),
            final(self).shaper() == old(self).shaper(),
            final(self).rasterizer() == old(self).rasterizer(),
            (final(self)@, codepoint) == allocate_state(old(self)@, key),
    {
        match self.by_key.get(&key.packed()) {
            Some(codepoint) => {
                return Some(*codepoint);
            },
            None => {},
        }
        assert(!self@.by_key.contains_key(key));
        let ghost before = self@;
        let next = self.allocator.next();
        assert(self@.unreported == before.unreported);
        assert(registry_wf(self@));
        match next {
            Some(codepoint) => {
                assert(in_pool(codepoint));
                self.register(codepoint, key);
                let ghost registered = self@.unreported;
                self.unreported.push((codepoint, key));
                assert(self@.unreported == registered.push((codepoint, key)));
                Some(codepoint)
            },
            None => None,
        }
    }

    /// Shapes one run of text into one codepoint per glyph to be drawn, in logical order, from
    /// the pieces shaping produced for it, and remembers the result.
    pub fn shape_pieces(&mut self, text: &str, pieces: Vec<Piece>) -> (out: String)
        requires
            old(self).wf(),
        ensures
            final(self).wf(),
            final(self).shaper() == old(self).shaper(),
            final(self).rasterizer() == old(self).rasterizer(),
            ({
                let (assembled, chars) = assemble(old(self)@, pieces@);
                &&& out@ == chars
                &&& final(self)@ == remember(assembled, text@, chars)
            }),
            allocates_afresh(old(self)@, final(self)@),
            seals_hold(old(self)@, final(self)@),
    {
        proof {
            lemma_shaping_allocates_afresh(old(self)@, pieces@);
            lemma_afresh_keeps_seals(old(self)@, assemble(old(self)@, pieces@).0);
        }
        let mut out = String::new();
        let mut index: usize = 0;
        assert(pieces@.take(0) =~= Seq::<Piece>::empty());
        while index < pieces.len()
            invariant
                0 <= index <= pieces@.len(),
                self.wf(),
                self.shaper() == old(self).shaper(),
                self.rasterizer() == old(self).rasterizer(),
                (self@, out@) == assemble(old(self)@, pieces@.take(index as int)),
            decreases pieces@.len() - index,
        {
            assert(pieces@.take(index + 1).drop_last() =~= pieces@.take(index as int));
            match pieces[index] {
                Piece::Verbatim(ch) => push_char(&mut out, ch),
                Piece::Glyph(key) => {
                    match self.allocate(key) {
                        Some(codepoint) => match char_from_u32(codepoint) {
                            Some(ch) => push_char(&mut out, ch),
                            None => {},
                        },
                        None => {},
                    }
                },
            }
            index += 1;
        }
        assert(pieces@.take(pieces@.len() as int) =~= pieces@);
        let ghost assembled = self@;
        assert(self.shaped@.map_values(|s: String| s@).dom() =~= self.shaped@.dom());
        let full = self.shaped.len() >= SHAPING_CACHE_LIMIT;
        if full {
            self.shaped.clear();
        }
        let ghost kept = self.shaped@;
        assert(full ==> kept.map_values(|s: String| s@) =~= Map::<Seq<char>, Seq<char>>::empty());
        assert(!full ==> kept.map_values(|s: String| s@) == assembled.shaped);
        let remembered = out.clone();
        let key = text.to_owned();
        self.shaped.insert(key, remembered);
        assert(self.shaped@ == kept.insert(text@, remembered));
        assert(self@.shaped =~= kept.map_values(|s: String| s@).insert(text@, out@));
        assert(self@ =~= remember(assembled, text@, out@));
        out
    }

    /// Shapes one run of text into one codepoint per glyph to be drawn, in logical order.
    ///
    /// A text shaped before comes back exactly as it did then. Otherwise the shaper's pieces are
    /// assembled as [`Self::shape_pieces`] says.
    pub fn shape(&mut self, text: &str) -> (out: String)
        requires
            old(self).wf(),
        ensures
            final(self).wf(),
            final(self).shaper() == old(self).shaper(),
            final(self).rasterizer() == old(self).rasterizer(),
            old(self)@.shaped.contains_key(text@) ==> out@ == old(self)@.shaped[text@]
                && final(self)@ == old(self)@,
            !old(self)@.shaped.contains_key(text@) ==> exists|pieces: Seq<Piece>|
                {
                    let (assembled, chars) = #[trigger] assemble(old(self)@, pieces);
                    &&& old(self).shaper().shapes(text@, pieces)
                    &&& out@ == chars
                    &&& final(self)@ == remember(assembled, text@, chars)
                },
            allocates_afresh(old(self)@, final(self)@),
            seals_hold(old(self)@, final(self)@),
    {
        proof {
            lemma_afresh_reflexive(old(self)@);
            lemma_afresh_keeps_seals(old(self)@, old(self)@);
        }
        match self.shaped.get(text) {
            Some(shaped) => {
                return shaped.clone();
            },
            None => {},
        }
        let pieces = self.shaping.shape(text);
        let out = self.shape_pieces(text, pieces);
        assert(assemble(old(self)@, pieces@).1 == out@);
        out
    }

    /// What to draw for a codepoint, given the glyph it draws as on its own: the glyph registered
    /// for it; nothing, for a pool codepoint that stands for no glyph; otherwise its own glyph.
    fn key_for(&self, codepoint: u32, plain: Option<PlainGlyph>) -> (key: Option<GlyphKey>)
        ensures
            key == key_for_spec(self@, codepoint, plain),
    {
        match self.by_codepoint.get(&codepoint) {
            Some(key) => {
                return Some(*key);
            },
            None => {},
        }
        if crate::constants::is_pool_codepoint(codepoint) {
            return None;
        }
        match plain {
            Some(plain) => Some(
                GlyphKey {
                    font: plain.font,
                    glyph: plain.glyph,
                    offset: Offset::zero(),
                    advance: plain.advance,
                    rtl: false,
                },
            ),
            None => None,
        }
    }

    /// Draws a glyph unless a drawing of it is already kept.
    fn draw(&mut self, key: GlyphKey)
        requires
            old(self).wf(),
        ensures
            final(self).wf(),
            final(self).shaper() == old(self).shaper(),
            final(self).rasterizer() == old(self).rasterizer(),
            final(self)@ == (RegistryState { drawn: final(self)@.drawn, ..old(self)@ }),
            keeps_drawings(old(self)@.drawn, final(self)@.drawn),
            final(self)@.drawn.contains_key(key.raster_key()),
            final(self)@.drawn.dom() == old(self)@.drawn.dom().insert(key.raster_key()),
            drawn_by(old(self).rasterizer(), old(self)@.drawn, final(self)@.drawn),
    {
        let raster_key = RasterKey::from_key(&key);
        let packed = raster_key.packed();
        if self.drawn.contains_key(&packed) {
            assert(self@.drawn.dom() =~= old(self)@.drawn.dom().insert(key.raster_key()));
            return;
        }
        let glyph = self.rasterizing.rasterize(key.font, key.glyph, key.offset);
        proof {
            lemma_drawn_view_insert(self.drawn@, raster_key, glyph);
        }
        self.drawn.insert(packed, glyph);
        assert(self@.drawn.dom() =~= old(self)@.drawn.dom().insert(key.raster_key()));
        assert(self@ =~= RegistryState { drawn: self@.drawn, ..old(self)@ });
    }

    /// What each codepoint of a block draws as on its own, as the rasterizer says; asked only of
    /// the codepoints that stand for no registered glyph and lie outside the pool.
    fn block_plains(&self, range: u32) -> (plains: Vec<Option<PlainGlyph>>)
        requires
            range < 0xFF_FFFF,
        ensures
            plains@.len() == RANGE_SIZE,
            block_plains_answered(self.rasterizer(), self@, range * RANGE_SIZE, plains@),
    {
        let start = range * RANGE_SIZE;
        let mut plains: Vec<Option<PlainGlyph>> = Vec::new();
        let mut offset: u32 = 0;
        while offset < RANGE_SIZE
            invariant
                start == range * RANGE_SIZE,
                range < 0xFF_FFFF,
                offset <= RANGE_SIZE,
                plains@.len() == offset,
                block_plains_answered(self.rasterizer(), self@, start as int, plains@),
            decreases RANGE_SIZE - offset,
        {
            let codepoint = start + offset;
            let plain = if self.by_codepoint.contains_key(&codepoint)
                || crate::constants::is_pool_codepoint(codepoint) {
                None
            } else {
                self.rasterizing.plain_glyph(codepoint)
            };
            plains.push(plain);
            offset += 1;
        }
        plains
    }

    /// The glyphs of one block, codepoint by codepoint, given what each codepoint of the block
    /// draws as on its own (`plains[i]` for the `i`th codepoint): exactly [`block_keys`].
    pub fn block_keys_with(&self, range: u32, plains: &Vec<Option<PlainGlyph>>) -> (keys: Vec<
        (u32, GlyphKey),
    >)
        requires
            range < 0xFF_FFFF,
            plains@.len() == RANGE_SIZE,
        ensures
            keys@ == block_keys(self@, (range * RANGE_SIZE) as u32, plains@),
    {
        let start = range * RANGE_SIZE;
        let mut keys: Vec<(u32, GlyphKey)> = Vec::new();
        let mut offset: u32 = 0;
        while offset < RANGE_SIZE
            invariant
                start == range * RANGE_SIZE,
                range < 0xFF_FFFF,
                plains@.len() == RANGE_SIZE,
                offset <= RANGE_SIZE,
                keys@ == block_keys(self@, start, plains@.take(offset as int)),
            decreases RANGE_SIZE - offset,
        {
            let codepoint = start + offset;
            let key = self.key_for(codepoint, plains[offset as usize]);
            proof {
                let next = plains@.take(offset + 1);
                assert(next.drop_last() =~= plains@.take(offset as int));
                assert(next.last() == plains@[offset as int]);
            }
            match key {
                Some(key) => keys.push((codepoint, key)),
                None => {},
            }
            assert(keys@ =~= block_keys(self@, start, plains@.take(offset + 1)));
            offset += 1;
        }
        assert(plains@.take(RANGE_SIZE as int) =~= plains@);
        keys
    }

    /// Draws every glyph of a list that has no drawing kept yet.
    fn draw_keys(&mut self, keys: &Vec<(u32, GlyphKey)>)
        requires
            old(self).wf(),
        ensures
            final(self).wf(),
            final(self).shaper() == old(self).shaper(),
            final(self).rasterizer() == old(self).rasterizer(),
            final(self)@ == (RegistryState { drawn: final(self)@.drawn, ..old(self)@ }),
            keeps_drawings(old(self)@.drawn, final(self)@.drawn),
            forall|i: int|
                0 <= i < keys@.len() ==> final(self)@.drawn.contains_key(
                    #[trigger] keys@[i].1.raster_key(),
                ),
            drawn_by(old(self).rasterizer(), old(self)@.drawn, final(self)@.drawn),
    {
        let mut index: usize = 0;
        while index < keys.len()
            invariant
                0 <= index <= keys@.len(),
                self.wf(),
                self.shaper() == old(self).shaper(),
                self.rasterizer() == old(self).rasterizer(),
                self@ == (RegistryState { drawn: self@.drawn, ..old(self)@ }),
                keeps_drawings(old(self)@.drawn, self@.drawn),
                drawn_by(old(self).rasterizer(), old(self)@.drawn, self@.drawn),
                forall|i: int|
                    0 <= i < index ==> self@.drawn.contains_key(#[trigger] keys@[i].1.raster_key()),
            decreases keys@.len() - index,
        {
            self.draw(keys[index].1);
            index += 1;
        }
    }

    /// The glyphs of a block as the file writer takes them, each with its kept drawing.
    fn pbf_glyphs<'a>(&'a self, keys: &Vec<(u32, GlyphKey)>) -> (glyphs: Vec<PbfGlyph<'a>>)
        requires
            forall|i: int|
                0 <= i < keys@.len() ==> self@.drawn.contains_key(#[trigger] keys@[i].1.raster_key()),
        ensures
            crate::glyph_pbf::entries_of(glyphs@) == block_entries(keys@, self@.drawn),
    {
        let ghost drawn = self@.drawn;
        let mut glyphs: Vec<PbfGlyph> = Vec::new();
        let mut index: usize = 0;
        while index < keys.len()
            invariant
                0 <= index <= keys@.len(),
                drawn == self@.drawn,
                forall|i: int|
                    0 <= i < keys@.len() ==> drawn.contains_key(#[trigger] keys@[i].1.raster_key()),
                crate::glyph_pbf::entries_of(glyphs@) == block_entries(
                    keys@.take(index as int),
                    drawn,
                ),
            decreases keys@.len() - index,
        {
            let (codepoint, key) = keys[index];
            assert(drawn.contains_key(keys@[index as int].1.raster_key()));
            let raster = self.drawn.get(&RasterKey::from_key(&key).packed()).unwrap();
            let advance: u32 = if key.advance < 0 {
                0
            } else {
                key.advance as u32
            };
            let ghost before = glyphs@;
            glyphs.push(PbfGlyph { codepoint, raster, advance });
            assert(keys@.take(index + 1) =~= keys@.take(index as int).push(keys@[index as int]));
            assert(block_entries(keys@.take(index + 1), drawn) =~= block_entries(
                keys@.take(index as int),
                drawn,
            ).push((codepoint, drawn[key.raster_key()], pbf_advance(key))));
            assert(crate::glyph_pbf::entries_of(glyphs@) =~= crate::glyph_pbf::entries_of(
                before,
            ).push((codepoint, *raster, advance)));
            index += 1;
        }
        assert(keys@.take(keys@.len() as int) =~= keys@);
        glyphs
    }

    /// Draws every glyph of one block into the protocol buffer MapLibre parses.
    ///
    /// Codepoints from the pool are drawn as the glyphs they were allocated for. Every other
    /// codepoint is drawn as itself, which is what lets the plugin serve a style's whole
    /// fontstack. Nothing but the kept drawings changes, and no kept drawing is replaced.
    pub fn glyph_pbf(&mut self, fontstack: &str, range: u32) -> (bytes: Vec<u8>)
        requires
            old(self).wf(),
            range < 0xFF_FFFF,
        ensures
            final(self).wf(),
            final(self).shaper() == old(self).shaper(),
            final(self).rasterizer() == old(self).rasterizer(),
            final(self)@ == (RegistryState { drawn: final(self)@.drawn, ..old(self)@ }),
            keeps_drawings(old(self)@.drawn, final(self)@.drawn),
            drawn_by(old(self).rasterizer(), old(self)@.drawn, final(self)@.drawn),
            exists|plains: Seq<Option<PlainGlyph>>|
                {
                    let keys = #[trigger] block_keys(old(self)@, (range * RANGE_SIZE) as u32, plains);
                    &&& plains.len() == RANGE_SIZE
                    &&& block_plains_answered(old(self).rasterizer(), old(self)@, range * RANGE_SIZE, plains)
                    &&& forall|i: int|
                        0 <= i < keys.len() ==> final(self)@.drawn.contains_key(
                            #[trigger] keys[i].1.raster_key(),
                        ) && old(self).rasterizer().draws(
                            keys[i].1.font,
                            keys[i].1.glyph,
                            keys[i].1.offset,
                            final(self)@.drawn[keys[i].1.raster_key()],
                        )
                    &&& bytes@ == range_file(
                        fontstack.spec_bytes(),
                        range,
                        block_entries(keys, final(self)@.drawn),
                    )
                },
            allocates_afresh(old(self)@, final(self)@),
            seals_hold(old(self)@, final(self)@),
    {
        proof {
            lemma_afresh_reflexive(old(self)@);
            lemma_afresh_keeps_seals(old(self)@, old(self)@);
        }
        let plains = self.block_plains(range);
        let keys = self.block_keys_with(range, &plains);
        self.draw_keys(&keys);
        let glyphs = self.pbf_glyphs(&keys);
        let bytes = write_range(fontstack, range, &glyphs);
        bytes
    }

    /// Draws one glyph on its own, the same way it would be drawn into a block.
    pub fn draw_glyph(&mut self, font: FontIndex, glyph: GlyphIndex, offset: Offset) -> (raster: &RasterGlyph)
        requires
            old(self).wf(),
        ensures
            final(self).wf(),
            final(self).shaper() == old(self).shaper(),
            final(self).rasterizer() == old(self).rasterizer(),
            final(self)@ == (RegistryState { drawn: final(self)@.drawn, ..old(self)@ }),
            keeps_drawings(old(self)@.drawn, final(self)@.drawn),
            final(self)@.drawn.contains_key(RasterKey { font, glyph, offset }),
            *raster == final(self)@.drawn[RasterKey { font, glyph, offset }],
            drawn_by(old(self).rasterizer(), old(self)@.drawn, final(self)@.drawn),
            !old(self)@.drawn.contains_key(RasterKey { font, glyph, offset }) ==> old(
                self,
            ).rasterizer().draws(font, glyph, offset, *raster),
            allocates_afresh(old(self)@, final(self)@),
            seals_hold(old(self)@, final(self)@),
    {
        proof {
            lemma_afresh_reflexive(old(self)@);
            lemma_afresh_keeps_seals(old(self)@, old(self)@);
        }
        let key = GlyphKey { font, glyph, offset, advance: 0, rtl: false };
        self.draw(key);
        let packed = RasterKey::from_key(&key).packed();
        self.drawn.get(&packed).unwrap()
    }

    /// For each character of a shaped string, whether it stands for a shaped glyph and whether
    /// that glyph was shaped right to left.
    pub fn directions(&self, text: &str) -> (directions: Vec<Option<bool>>)
        ensures
            directions@.len() == text@.len(),
            forall|i: int|
                0 <= i < text@.len() ==> #[trigger] directions@[i] == direction_spec(self@, text@[i]),
    {
        let chars = chars_of(text);
        let mut directions: Vec<Option<bool>> = Vec::new();
        let mut index: usize = 0;
        while index < chars.len()
            invariant
                0 <= index <= chars@.len(),
                chars@ == text@,
                directions@.len() == index,
                forall|i: int| 0 <= i < index ==> #[trigger] directions@[i] == direction_spec(self@, text@[i]),
            decreases chars@.len() - index,
        {
            let direction = match self.by_codepoint.get(&(chars[index] as u32)) {
                Some(key) => Some(key.rtl),
                None => None,
            };
            directions.push(direction);
            index += 1;
        }
        directions
    }

    /// Puts shaped, line-broken text into the order it is read in. The shaper is told, for each
    /// character, the direction of the glyph it stands for, as [`Self::directions`] gives it.
    pub fn reorder(&self, text: &str, sections: &[u32], line_breaks: &[u32]) -> (lines: Vec<VisualLine>)
        ensures
            self.shaper().reorders(text@, directions_of(self@, text@), sections@, line_breaks@, lines@),
    {
        let directions = self.directions(text);
        assert(directions@ =~= directions_of(self@, text@));
        self.shaping.reorder(text, &directions, sections, line_breaks)
    }

    /// What each piece draws as on its own, as the rasterizer says: asked for each character
    /// shaping left alone, and nothing for a glyph.
    fn piece_plains(&self, pieces: &Vec<Piece>) -> (plains: Vec<Option<PlainGlyph>>)
        ensures
            plains@.len() == pieces@.len(),
            forall|i: int| 0 <= i < pieces@.len() && #[trigger] pieces@[i] is Glyph ==> plains@[i] is None,
            forall|i: int|
                0 <= i < pieces@.len() ==> (#[trigger] pieces@[i] matches Piece::Verbatim(ch)
                    ==> self.rasterizer().answers_plain(ch as u32, plains@[i])),
    {
        let mut plains: Vec<Option<PlainGlyph>> = Vec::new();
        let mut index: usize = 0;
        while index < pieces.len()
            invariant
                0 <= index <= pieces@.len(),
                plains@.len() == index,
                forall|i: int| 0 <= i < index && #[trigger] pieces@[i] is Glyph ==> plains@[i] is None,
                forall|i: int|
                    0 <= i < index ==> (#[trigger] pieces@[i] matches Piece::Verbatim(ch)
                        ==> self.rasterizer().answers_plain(ch as u32, plains@[i])),
            decreases pieces@.len() - index,
        {
            let plain = match pieces[index] {
                Piece::Verbatim(ch) => self.rasterizing.plain_glyph(ch as u32),
                Piece::Glyph(_) => None,
            };
            plains.push(plain);
            index += 1;
        }
        plains
    }

    /// Shapes text without allocating anything, resolving the characters shaping left alone to
    /// the glyphs they would be drawn as, so that a tool sees the whole line the way the map will:
    /// the shaper's pieces as [`inspect_of`] puts them, with what the rasterizer says each
    /// character left alone draws as.
    pub fn inspect(&self, text: &str) -> (glyphs: Vec<InspectedGlyph>)
        ensures
            exists|pieces: Seq<Piece>, plains: Seq<Option<PlainGlyph>>|
                {
                    &&& self.shaper().shapes(text@, pieces)
                    &&& pieces.len() == plains.len()
                    &&& forall|i: int| 0 <= i < pieces.len() && #[trigger] pieces[i] is Glyph ==> plains[i] is None
                    &&& forall|i: int|
                        0 <= i < pieces.len() ==> (#[trigger] pieces[i] matches Piece::Verbatim(ch)
                            ==> self.rasterizer().answers_plain(ch as u32, plains[i]))
                    &&& glyphs@ == #[trigger] inspect_pieces(pieces, plains)
                },
    {
        let pieces = self.shaping.shape(text);
        let plains = self.piece_plains(&pieces);
        inspect_of(&pieces, &plains)
    }

    /// The glyphs MapLibre would draw for this text with no plugin at all: one per character,
    /// at the font's own advance, with nothing moved -- every character as a piece left alone,
    /// as [`inspect_of`] puts it, with what the rasterizer says it draws as.
    pub fn inspect_unshaped(&self, text: &str) -> (glyphs: Vec<InspectedGlyph>)
        ensures
            exists|plains: Seq<Option<PlainGlyph>>|
                {
                    &&& text@.len() == plains.len()
                    &&& forall|i: int|
                        0 <= i < text@.len() ==> self.rasterizer().answers_plain(
                            text@[i] as u32,
                            #[trigger] plains[i],
                        )
                    &&& glyphs@ == #[trigger] inspect_pieces(verbatim_pieces(text@), plains)
                },
    {
        let pieces = verbatim_vec(text);
        let plains = self.piece_plains(&pieces);
        assert forall|i: int| 0 <= i < text@.len() implies self.rasterizer().answers_plain(
            text@[i] as u32,
            #[trigger] plains@[i],
        ) by {
            assert(pieces@[i] == Piece::Verbatim(text@[i]));
        }
        inspect_of(&pieces, &plains)
    }

    /// What each codepoint draws as on its own, as the rasterizer says: asked for each codepoint
    /// that stands for no registered glyph, and nothing for the others.
    fn codepoint_plains(&self, codepoints: &Vec<u32>) -> (plains: Vec<Option<PlainGlyph>>)
        ensures
            plains@.len() == codepoints@.len(),
            forall|i: int|
                0 <= i < codepoints@.len() && !self@.by_codepoint.contains_key(codepoints@[i])
                    ==> self.rasterizer().answers_plain(codepoints@[i], #[trigger] plains@[i]),
    {
        let mut plains: Vec<Option<PlainGlyph>> = Vec::new();
        let mut index: usize = 0;
        while index < codepoints.len()
            invariant
                0 <= index <= codepoints@.len(),
                plains@.len() == index,
                forall|i: int|
                    0 <= i < index && !self@.by_codepoint.contains_key(codepoints@[i])
                        ==> self.rasterizer().answers_plain(codepoints@[i], #[trigger] plains@[i]),
            decreases codepoints@.len() - index,
        {
            let codepoint = codepoints[index];
            let plain = if self.by_codepoint.contains_key(&codepoint) {
                None
            } else {
                self.rasterizing.plain_glyph(codepoint)
            };
            plains.push(plain);
            index += 1;
        }
        plains
    }

    /// What each codepoint of a shaped string draws as, given what each draws as on its own
    /// (`plains[i]` for `codepoints[i]`): exactly [`describe_all`].
    pub fn describe_each(&self, codepoints: &Vec<u32>, plains: &Vec<Option<PlainGlyph>>) -> (glyphs:
        Vec<InspectedGlyph>)
        requires
            plains@.len() == codepoints@.len(),
        ensures
            glyphs@ == describe_all(self@, codepoints@, plains@),
    {
        let mut glyphs: Vec<InspectedGlyph> = Vec::new();
        let mut index: usize = 0;
        while index < codepoints.len()
            invariant
                0 <= index <= codepoints@.len(),
                plains@.len() == codepoints@.len(),
                glyphs@ == describe_all(self@, codepoints@.take(index as int), plains@.take(index as int)),
            decreases codepoints@.len() - index,
        {
            let codepoint = codepoints[index];
            let glyph = match self.by_codepoint.get(&codepoint) {
                Some(key) => Some(
                    InspectedGlyph {
                        font: key.font,
                        glyph: key.glyph,
                        offset: key.offset,
                        advance: key.advance,
                        rtl: key.rtl,
                        codepoint: None,
                    },
                ),
                None => match plains[index] {
                    Some(plain) => Some(
                        InspectedGlyph {
                            font: plain.font,
                            glyph: plain.glyph,
                            offset: Offset::zero(),
                            advance: plain.advance,
                            rtl: false,
                            codepoint: Some(codepoint),
                        },
                    ),
                    None => None,
                },
            };
            proof {
                assert(codepoints@.take(index + 1).drop_last() =~= codepoints@.take(index as int));
                assert(plains@.take(index + 1).drop_last() =~= plains@.take(index as int));
                assert(glyph == describe_spec(self@, codepoints@[index as int], plains@[index as int]));
            }
            match glyph {
                Some(glyph) => glyphs.push(glyph),
                None => {},
            }
            assert(glyphs@ =~= describe_all(self@, codepoints@.take(index + 1), plains@.take(index + 1)));
            index += 1;
        }
        assert(codepoints@.take(codepoints@.len() as int) =~= codepoints@);
        assert(plains@.take(plains@.len() as int) =~= plains@);
        glyphs
    }

    /// The glyphs of a line in the order they are drawn, which for right-to-left text is not the
    /// order they were shaped in.
    ///
    /// This runs the very path the map runs -- shape, then reorder -- so it allocates codepoints
    /// as it goes: the registry changes exactly as [`Self::shape`] changes it, and the codepoints
    /// of the lines the reordering hands back, one line after another, are described as
    /// [`Self::describe_each`] describes them, with what the rasterizer says each draws as.
    pub fn inspect_visual(&mut self, text: &str) -> (glyphs: Vec<InspectedGlyph>)
        requires
            old(self).wf(),
        ensures
            final(self).wf(),
            final(self).shaper() == old(self).shaper(),
            final(self).rasterizer() == old(self).rasterizer(),
            exists|out: Seq<char>, lines: Seq<VisualLine>, plains: Seq<Option<PlainGlyph>>|
                #![trigger shaping_effect(old(self).shaper(), old(self)@, text@, final(self)@, out), describe_all(final(self)@, line_codepoints_spec(lines), plains)]
                {
                    let codepoints = line_codepoints_spec(lines);
                    &&& shaping_effect(old(self).shaper(), old(self)@, text@, final(self)@, out)
                    &&& old(self).shaper().reorders(
                        out,
                        directions_of(final(self)@, out),
                        Seq::empty(),
                        Seq::empty(),
                        lines,
                    )
                    &&& plains.len() == codepoints.len()
                    &&& forall|i: int|
                        0 <= i < codepoints.len() && !final(self)@.by_codepoint.contains_key(codepoints[i])
                            ==> old(self).rasterizer().answers_plain(codepoints[i], #[trigger] plains[i])
                    &&& glyphs@ == describe_all(final(self)@, codepoints, plains)
                },
            allocates_afresh(old(self)@, final(self)@),
            seals_hold(old(self)@, final(self)@),
    {
        let shaped = self.shape(text);
        assert(shaping_effect(old(self).shaper(), old(self)@, text@, self@, shaped@));
        let no_sections: Vec<u32> = Vec::new();
        let no_breaks: Vec<u32> = Vec::new();
        let lines = self.reorder(shaped.as_str(), no_sections.as_slice(), no_breaks.as_slice());
        assert(no_sections@ =~= Seq::<u32>::empty());
        assert(no_breaks@ =~= Seq::<u32>::empty());
        let codepoints = line_codepoints(&lines);
        let plains = self.codepoint_plains(&codepoints);
        let glyphs = self.describe_each(&codepoints, &plains);
        assert(shaping_effect(old(self).shaper(), old(self)@, text@, self@, shaped@) && glyphs@ == describe_all(self@, line_codepoints_spec(lines@), plains@));
        glyphs
    }
}

/// Pieces as a tool sees them, given what each piece draws as on its own (`plains[i]` for
/// `pieces[i]`): exactly [`inspect_pieces`].
pub fn inspect_of(pieces: &Vec<Piece>, plains: &Vec<Option<PlainGlyph>>) -> (glyphs: Vec<
    InspectedGlyph,
>)
    requires
        plains@.len() == pieces@.len(),
    ensures
        glyphs@ == inspect_pieces(pieces@, plains@),
{
    let mut glyphs: Vec<InspectedGlyph> = Vec::new();
    let mut index: usize = 0;
    while index < pieces.len()
        invariant
            0 <= index <= pieces@.len(),
            plains@.len() == pieces@.len(),
            glyphs@ == inspect_pieces(pieces@.take(index as int), plains@.take(index as int)),
        decreases pieces@.len() - index,
    {
        proof {
            assert(pieces@.take(index + 1).drop_last() =~= pieces@.take(index as int));
            assert(plains@.take(index + 1).drop_last() =~= plains@.take(index as int));
        }
        match pieces[index] {
            Piece::Glyph(key) => glyphs.push(
                InspectedGlyph {
                    font: key.font,
                    glyph: key.glyph,
                    offset: key.offset,
                    advance: key.advance,
                    rtl: key.rtl,
                    codepoint: None,
                },
            ),
            Piece::Verbatim(ch) => match plains[index] {
                Some(plain) => glyphs.push(
                    InspectedGlyph {
                        font: plain.font,
                        glyph: plain.glyph,
                        offset: Offset::zero(),
                        advance: plain.advance,
                        rtl: false,
                        codepoint: Some(ch as u32),
                    },
                ),
                None => {},
            },
        }
        assert(glyphs@ =~= inspect_pieces(pieces@.take(index + 1), plains@.take(index + 1)));
        index += 1;
    }
    assert(pieces@.take(pieces@.len() as int) =~= pieces@);
    assert(plains@.take(plains@.len() as int) =~= plains@);
    glyphs
}

/// The codepoints of a list of lines, one line after another.
pub open spec fn line_codepoints_spec(lines: Seq<VisualLine>) -> Seq<u32>
    decreases lines.len(),
{
    if lines.len() == 0 {
        Seq::empty()
    } else {
        line_codepoints_spec(lines.drop_last()) + lines.last().codepoints@
    }
}

/// The codepoints of a list of lines, one line after another.
pub fn line_codepoints(lines: &Vec<VisualLine>) -> (codepoints: Vec<u32>)
    ensures
        codepoints@ == line_codepoints_spec(lines@),
{
    let mut codepoints: Vec<u32> = Vec::new();
    let mut line_index: usize = 0;
    while line_index < lines.len()
        invariant
            0 <= line_index <= lines@.len(),
            codepoints@ == line_codepoints_spec(lines@.take(line_index as int)),
        decreases lines@.len() - line_index,
    {
        let line = &lines[line_index];
        let ghost before = codepoints@;
        let mut index: usize = 0;
        while index < line.codepoints.len()
            invariant
                0 <= index <= line.codepoints@.len(),
                codepoints@ == before + line.codepoints@.take(index as int),
            decreases line.codepoints@.len() - index,
        {
            codepoints.push(line.codepoints[index]);
            assert(codepoints@ =~= before + line.codepoints@.take(index + 1));
            index += 1;
        }
        assert(line.codepoints@.take(line.codepoints@.len() as int) =~= line.codepoints@);
        assert(lines@.take(line_index + 1).drop_last() =~= lines@.take(line_index as int));
        line_index += 1;
    }
    assert(lines@.take(lines@.len() as int) =~= lines@);
    codepoints
}

} // verus!
