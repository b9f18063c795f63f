//! Hands out the codepoints that stand for shaped glyphs.
//!
//! MapLibre asks for glyphs in blocks of 256 codepoints, and it asks for each block once: a glyph
//! added to a block that has already been drawn and handed over would be asked for never. So a
//! block can be *sealed*, after which nothing new is allocated into it, and whoever draws the
//! blocks seals one before drawing it.

use std::collections::HashSet;
use vstd::prelude::*;

use crate::constants::{in_pool, is_noncharacter, NONCHARACTERS, POOL_END, POOL_START, RANGE_SIZE};

verus! {

broadcast use vstd::std_specs::hash::group_hash_axioms;

/// What an allocator is, abstractly: a cursor, the last codepoint of its stretch, and the blocks
/// that are sealed.
pub struct AllocatorState {
    pub next: int,
    pub end: int,
    pub sealed: Set<u32>,
}

/// The block a codepoint falls in.
pub open spec fn block_of(codepoint: int) -> u32 {
    (codepoint / RANGE_SIZE as int) as u32
}

/// Whether `codepoint` may be handed out by an allocator whose stretch ends at `end` and whose
/// sealed blocks are `sealed`.
pub open spec fn eligible(codepoint: int, end: int, sealed: Set<u32>) -> bool {
    &&& 0 <= codepoint <= end
    &&& codepoint <= u32::MAX
    &&& !sealed.contains(block_of(codepoint))
    &&& !is_noncharacter(codepoint as u32)
}

/// How much of the stretch is left ahead of the cursor.
pub open spec fn remaining(next: int, end: int) -> int {
    if next <= end {
        end - next + 1
    } else {
        0
    }
}

/// What one allocation does: skip sealed blocks whole and noncharacters one by one, and hand out
/// the first codepoint left, moving the cursor past it; or report that the stretch is used up.
pub open spec fn allocation(state: AllocatorState) -> (AllocatorState, Option<u32>)
    decreases remaining(state.next, state.end),
{
    if state.next > state.end || state.next < 0 {
        (state, None)
    } else if state.sealed.contains(block_of(state.next)) {
        allocation(
            AllocatorState {
                next: (state.next / RANGE_SIZE as int + 1) * RANGE_SIZE as int,
                ..state
            },
        )
    } else if is_noncharacter(state.next as u32) {
        allocation(AllocatorState { next: state.next + 1, ..state })
    } else {
        (AllocatorState { next: state.next + 1, ..state }, Some(state.next as u32))
    }
}

/// An allocation hands out the least eligible codepoint at or after the cursor, and moves the
/// cursor just past it; when there is none, it hands out nothing.
pub proof fn lemma_allocation_is_first_eligible(state: AllocatorState)
    requires
        0 <= state.next,
        state.end <= u32::MAX,
    ensures
        allocation(state).0.end == state.end,
        allocation(state).0.sealed == state.sealed,
        state.next <= allocation(state).0.next,
        match allocation(state).1 {
            Some(codepoint) => {
                &&& eligible(codepoint as int, state.end, state.sealed)
                &&& state.next <= codepoint
                &&& allocation(state).0.next == codepoint + 1
                &&& forall|c: int|
                    state.next <= c < codepoint ==> !eligible(c, state.end, state.sealed)
            },
            None => forall|c: int| state.next <= c ==> !eligible(c, state.end, state.sealed),
        },
    decreases remaining(state.next, state.end),
{
    if state.next > state.end {
    } else if state.sealed.contains(block_of(state.next)) {
        let skipped = AllocatorState {
            next: (state.next / RANGE_SIZE as int + 1) * RANGE_SIZE as int,
            ..state
        };
        lemma_allocation_is_first_eligible(skipped);
        assert forall|c: int| state.next <= c < skipped.next implies !eligible(
            c,
            state.end,
            state.sealed,
        ) by {
            assert(c / 256 == state.next / 256);
        }
    } else if is_noncharacter(state.next as u32) {
        lemma_allocation_is_first_eligible(AllocatorState { next: state.next + 1, ..state });
    } else {
    }
}

/// Codepoints handed out one after another only ever increase, so no codepoint is handed out
/// twice.
pub proof fn lemma_allocations_increase(state: AllocatorState)
    requires
        0 <= state.next,
        state.end <= u32::MAX,
    ensures
        ({
            let (after, first) = allocation(state);
            let second = allocation(after).1;
            first is Some && second is Some ==> first->0 < second->0
        }),
{
    lemma_allocation_is_first_eligible(state);
    let after = allocation(state).0;
    if allocation(state).1 is Some {
        lemma_allocation_is_first_eligible(after);
    }
}

/// A sealed block is never allocated into: an allocation hands out no codepoint of it, and the
/// block is still sealed afterwards, so no later allocation does either.
pub proof fn lemma_sealed_block_stays_empty(state: AllocatorState, range: u32)
    requires
        0 <= state.next,
        state.end <= u32::MAX,
        state.sealed.contains(range),
    ensures
        allocation(state).0.sealed.contains(range),
        allocation(state).1 matches Some(codepoint) ==> block_of(codepoint as int) != range,
{
    lemma_allocation_is_first_eligible(state);
}

/// What [`CodepointAllocator::restrict`] leaves: the cursor at `start` and the stretch ending at
/// `end`, each held within the pool, and the same blocks sealed.
pub open spec fn restricted_state(state: AllocatorState, start: u32, end: u32) -> AllocatorState {
    AllocatorState {
        next: if start < POOL_START {
            POOL_START as int
        } else {
            start as int
        },
        end: if end > POOL_END {
            POOL_END as int
        } else {
            end as int
        },
        sealed: state.sealed,
    }
}

/// What [`CodepointAllocator::seal`] leaves: the block sealed, and the cursor moved to the start
/// of the next block if it was inside this one.
pub open spec fn sealed_state(state: AllocatorState, range: u32) -> AllocatorState {
    AllocatorState {
        next: if state.next / RANGE_SIZE as int == range {
            (range + 1) * RANGE_SIZE as int
        } else {
            state.next
        },
        end: state.end,
        sealed: state.sealed.insert(range),
    }
}

/// Where the next codepoint may start: just past the last one handed out since the stretch was
/// set, or the start of the stretch if none has been.
pub open spec fn lowest_open(lower: int, handed: Seq<u32>) -> int {
    if handed.len() == 0 {
        lower
    } else {
        handed.last() + 1
    }
}

/// What an allocator's cursor means, given that its stretch was set to start at `lower` and it
/// has handed out `handed` since: everything handed out is in increasing order, at or past
/// `lower` and before the cursor, and nothing between the last of them and the cursor could be
/// handed out.
pub open spec fn cursor_sound(state: AllocatorState, lower: int, handed: Seq<u32>) -> bool {
    &&& lowest_open(lower, handed) <= state.next
    &&& forall|i: int, j: int| 0 <= i < j < handed.len() ==> handed[i] < handed[j]
    &&& forall|i: int| 0 <= i < handed.len() ==> lower <= #[trigger] handed[i] < state.next
    &&& forall|c: int|
        lowest_open(lower, handed) <= c < state.next ==> !#[trigger] eligible(c, state.end, state.sealed)
}

/// Setting the stretch starts the cursor's meaning afresh, at the start of the stretch.
pub proof fn lemma_restrict_starts_sound(state: AllocatorState, start: u32, end: u32)
    ensures
        cursor_sound(restricted_state(state, start, end), restricted_state(state, start, end).next, Seq::empty()),
{
}

/// Sealing a block keeps what the cursor means.
pub proof fn lemma_seal_keeps_sound(state: AllocatorState, lower: int, handed: Seq<u32>, range: u32)
    requires
        cursor_sound(state, lower, handed),
        0 <= state.next,
    ensures
        cursor_sound(sealed_state(state, range), lower, handed),
{
    let after = sealed_state(state, range);
    assert forall|c: int| lowest_open(lower, handed) <= c < after.next implies !#[trigger] eligible(
        c,
        after.end,
        after.sealed,
    ) by {
        if c < state.next {
            assert(!eligible(c, state.end, state.sealed));
        } else {
            assert(state.next / 256 == range);
            assert(c / 256 == state.next / 256);
            if c <= u32::MAX {
                assert(block_of(c) == range);
            }
        }
    }
}

/// Each codepoint an allocator hands out is the least one past everything it has handed out since
/// its stretch was set that lies at or past the stretch's start and within it, is no
/// noncharacter and is in no sealed block; it hands out nothing only when there is no such
/// codepoint. The cursor keeps its meaning, with the new codepoint added to what was handed out.
pub proof fn lemma_allocation_is_least(state: AllocatorState, lower: int, handed: Seq<u32>)
    requires
        cursor_sound(state, lower, handed),
        0 <= state.next,
        state.end <= u32::MAX,
    ensures
        match allocation(state).1 {
            Some(codepoint) => {
                &&& eligible(codepoint as int, state.end, state.sealed)
                &&& lowest_open(lower, handed) <= codepoint
                &&& forall|c: int|
                    lowest_open(lower, handed) <= c < codepoint ==> !eligible(c, state.end, state.sealed)
                &&& cursor_sound(allocation(state).0, lower, handed.push(codepoint))
            },
            None => {
                &&& forall|c: int| lowest_open(lower, handed) <= c ==> !eligible(c, state.end, state.sealed)
                &&& cursor_sound(allocation(state).0, lower, handed)
            },
        },
{
    lemma_allocation_is_first_eligible(state);
    let after = allocation(state).0;
    match allocation(state).1 {
        Some(codepoint) => {
            let more = handed.push(codepoint);
            assert(lowest_open(lower, more) == codepoint + 1);
            assert forall|i: int| 0 <= i < more.len() implies lower <= #[trigger] more[i] < after.next by {
                if i < handed.len() {
                    assert(more[i] == handed[i]);
                }
            }
            assert forall|i: int, j: int| 0 <= i < j < more.len() implies more[i] < more[j] by {
                assert(more[i] == handed[i]);
                if j < handed.len() {
                    assert(more[j] == handed[j]);
                }
            }
        },
        None => {},
    }
}

/// How many codepoints of the pool can be handed out: all of it but the two noncharacters.
pub open spec fn pool_size() -> int {
    POOL_END - POOL_START + 1 - 2
}

/// The `k`th codepoint (from zero) that an allocator for the whole pool, with nothing sealed,
/// hands out: the pool in increasing order, with the two noncharacters left out.
pub open spec fn pool_order(k: int) -> int {
    if k < 0xF_FFFE - POOL_START {
        POOL_START + k
    } else {
        POOL_START + k + 2
    }
}

/// An allocator for the whole pool that nobody narrows or seals hands out the pool in order,
/// leaving out the noncharacters, and then nothing: once the first `k` codepoints of
/// [`pool_order`] have been handed out, the least codepoint that may come next is the `k`th, and
/// after the last of them there is none.
pub proof fn lemma_fresh_pool_order(k: int)
    requires
        0 <= k <= pool_size(),
    ensures
        ({
            let handed = Seq::new(k as nat, |i: int| pool_order(i) as u32);
            let from = lowest_open(POOL_START as int, handed);
            &&& k < pool_size() ==> {
                &&& eligible(pool_order(k), POOL_END as int, Set::empty())
                &&& from <= pool_order(k)
                &&& forall|c: int| from <= c < pool_order(k) ==> !eligible(c, POOL_END as int, Set::empty())
            }
            &&& k == pool_size() ==> forall|c: int| from <= c ==> !eligible(c, POOL_END as int, Set::empty())
        }),
{
    let handed = Seq::new(k as nat, |i: int| pool_order(i) as u32);
    if k > 0 {
        assert(handed.last() == pool_order(k - 1) as u32);
    }
}

/// Where an allocator's cursor stands and which blocks are sealed, with, as ghost state, where
/// its stretch started and what it has handed out since.
struct Cursor {
    next: u32,
    sealed: HashSet<u32>,
    lower: Ghost<int>,
    handed: Ghost<Seq<u32>>,
}

impl Cursor {
    /// A cursor at the start of the pool that has handed out nothing, with nothing sealed.
    fn fresh() -> (cursor: Cursor)
        ensures
            cursor.next == POOL_START,
            cursor.sealed@ == Set::<u32>::empty(),
            cursor.lower@ == POOL_START as int,
            cursor.handed@ == Seq::<u32>::empty(),
    {
        Cursor {
            next: POOL_START,
            sealed: HashSet::new(),
            lower: Ghost(POOL_START as int),
            handed: Ghost(Seq::empty()),
        }
    }
}

/// Hands out codepoints from a stretch of the pool, in order, skipping sealed blocks and the
/// noncharacters.
pub struct CodepointAllocator {
    cursor: Cursor,
    end: u32,
}

impl Default for CodepointAllocator {
    /// An allocator for the whole pool, with nothing sealed and nothing handed out.
    fn default() -> (a: Self)
        ensures
            a@.next == POOL_START,
            a@.end == POOL_END,
            a@.sealed == Set::<u32>::empty(),
            a.lower() == POOL_START as int,
            a.handed() == Seq::<u32>::empty(),
    {
        CodepointAllocator { cursor: Cursor::fresh(), end: POOL_END }
    }
}

impl View for CodepointAllocator {
    type V = AllocatorState;

    closed spec fn view(&self) -> AllocatorState {
        AllocatorState {
            next: self.cursor.next as int,
            end: self.end as int,
            sealed: self.cursor.sealed@,
        }
    }
}

impl CodepointAllocator {
    /// The cursor never falls below the pool, the stretch never ends past it, and the cursor
    /// means what [`cursor_sound`] says, for where the stretch started and what has been handed
    /// out since.
    #[verifier::type_invariant]
    closed spec fn well_formed(&self) -> bool {
        &&& POOL_START <= self.cursor.next
        &&& self.end <= POOL_END
        &&& cursor_sound(self@, self.cursor.lower@, self.cursor.handed@)
    }

    /// Where the stretch the allocator hands out from started: the start of the pool, or where
    /// the latest [`Self::restrict`] put the cursor.
    pub closed spec fn lower(&self) -> int {
        self.cursor.lower@
    }

    /// What the allocator has handed out since its stretch was set, in the order handed out.
    pub closed spec fn handed(&self) -> Seq<u32> {
        self.cursor.handed@
    }

    /// An allocator for the whole pool, with nothing sealed and nothing handed out.
    pub fn new() -> (a: Self)
        ensures
            a@.next == POOL_START,
            a@.end == POOL_END,
            a@.sealed == Set::<u32>::empty(),
            a.lower() == POOL_START as int,
            a.handed() == Seq::<u32>::empty(),
    {
        Self::default()
    }

    /// Narrows this allocator to one stretch of the pool: the cursor moves to `start` and the
    /// stretch ends at `end`, each held within the pool; the stretch starts afresh there, with
    /// nothing handed out from it yet.
    pub fn restrict(&mut self, start: u32, end: u32)
        ensures
            final(self)@.next == if start < POOL_START {
                POOL_START as int
            } else {
                start as int
            },
            final(self)@.end == if end > POOL_END {
                POOL_END as int
            } else {
                end as int
            },
            final(self)@.sealed == old(self)@.sealed,
            final(self)@ == restricted_state(old(self)@, start, end),
            POOL_START <= final(self)@.next,
            final(self)@.end <= POOL_END,
            final(self).lower() == final(self)@.next,
            final(self).handed() == Seq::<u32>::empty(),
    {
        proof {
            use_type_invariant(&*self);
        }
        let mut cursor = Cursor::fresh();
        std::mem::swap(&mut cursor, &mut self.cursor);
        let next = if start < POOL_START {
            POOL_START
        } else {
            start
        };
        self.end = if end > POOL_END {
            POOL_END
        } else {
            end
        };
        self.cursor = Cursor {
            next,
            sealed: cursor.sealed,
            lower: Ghost(next as int),
            handed: Ghost(Seq::empty()),
        };
    }

    /// Stops anything new from being allocated into a block. If the cursor is inside that block,
    /// it moves to the start of the next one.
    pub fn seal(&mut self, range: u32)
        requires
            range < 0xFF_FFFF || old(self)@.next / RANGE_SIZE as int != range,
        ensures
            final(self)@.sealed == old(self)@.sealed.insert(range),
            final(self)@.end == old(self)@.end,
            final(self)@.next == if old(self)@.next / RANGE_SIZE as int == range {
                (range + 1) * RANGE_SIZE as int
            } else {
                old(self)@.next
            },
            final(self)@ == sealed_state(old(self)@, range),
            POOL_START <= final(self)@.next,
            final(self)@.end <= POOL_END,
            final(self).lower() == old(self).lower(),
            final(self).handed() == old(self).handed(),
    {
        proof {
            use_type_invariant(&*self);
            lemma_seal_keeps_sound(old(self)@, old(self).lower(), old(self).handed(), range);
        }
        let mut cursor = Cursor::fresh();
        std::mem::swap(&mut cursor, &mut self.cursor);
        cursor.sealed.insert(range);
        if cursor.next / RANGE_SIZE == range {
            cursor.next = (range + 1) * RANGE_SIZE;
        }
        self.cursor = cursor;
    }

    /// The block the cursor is in: the one the next codepoint would come from, unless that block
    /// is sealed.
    pub fn cursor_block(&self) -> (block: u32)
        ensures
            block == self@.next / RANGE_SIZE as int,
    {
        self.cursor.next / RANGE_SIZE
    }

    /// The next codepoint, or `None` once the stretch is used up.
    ///
    /// It is the least codepoint past everything handed out since the stretch was set (or from
    /// the stretch's start, if nothing has been) that lies within the stretch, is no
    /// noncharacter and is in no sealed block; there is none exactly when it returns `None`.
    pub fn next(&mut self) -> (codepoint: Option<u32>)
        ensures
            (final(self)@, codepoint) == allocation(old(self)@),
            codepoint matches Some(c) ==> in_pool(c),
            codepoint matches Some(c) ==> old(self).lower() <= c <= old(self)@.end,
            POOL_START <= final(self)@.next,
            final(self)@.end <= POOL_END,
            final(self).lower() == old(self).lower(),
            final(self).handed() == match codepoint {
                Some(c) => old(self).handed().push(c),
                None => old(self).handed(),
            },
            match codepoint {
                Some(c) => {
                    &&& eligible(c as int, old(self)@.end, old(self)@.sealed)
                    &&& lowest_open(old(self).lower(), old(self).handed()) <= c
                    &&& forall|d: int|
                        lowest_open(old(self).lower(), old(self).handed()) <= d < c ==> !eligible(
                            d,
                            old(self)@.end,
                            old(self)@.sealed,
                        )
                },
                None => forall|d: int|
                    lowest_open(old(self).lower(), old(self).handed()) <= d ==> !eligible(
                        d,
                        old(self)@.end,
                        old(self)@.sealed,
                    ),
            },
    {
        proof {
            use_type_invariant(&*self);
            lemma_allocation_is_first_eligible(self@);
            lemma_allocation_is_least(self@, self.lower(), self.handed());
        }
        let ghost start = self@;
        let end = self.end;
        let mut cursor = Cursor::fresh();
        std::mem::swap(&mut cursor, &mut self.cursor);
        while cursor.next <= end
            invariant
                allocation(AllocatorState { next: cursor.next as int, end: end as int, sealed: cursor.sealed@ })
                    == allocation(start),
                start.end == end,
                self.end == end,
                POOL_START <= cursor.next,
                end <= POOL_END,
                cursor.lower@ == old(self).lower(),
                cursor.handed@ == old(self).handed(),
                start == old(self)@,
                cursor_sound(start, old(self).lower(), old(self).handed()),
                allocation(start).1 matches Some(c) ==> cursor_sound(
                    allocation(start).0,
                    old(self).lower(),
                    old(self).handed().push(c),
                ),
                allocation(start).1 is None ==> cursor_sound(
                    allocation(start).0,
                    old(self).lower(),
                    old(self).handed(),
                ),
            decreases remaining(cursor.next as int, end as int),
        {
            let codepoint = cursor.next;
            if cursor.sealed.contains(&(codepoint / RANGE_SIZE)) {
                cursor.next = (codepoint / RANGE_SIZE + 1) * RANGE_SIZE;
                continue;
            }
            let ghost here = AllocatorState { next: cursor.next as int, end: end as int, sealed: cursor.sealed@ };
            cursor.next = cursor.next + 1;
            if codepoint == NONCHARACTERS[0] || codepoint == NONCHARACTERS[1] {
                continue;
            }
            assert(allocation(here) == (AllocatorState { next: here.next + 1, ..here }, Some(codepoint)));
            proof {
                lemma_allocation_is_least(start, old(self).lower(), old(self).handed());
            }
            cursor.handed = Ghost(cursor.handed@.push(codepoint));
            self.cursor = cursor;
            return Some(codepoint);
        }
        self.cursor = cursor;
        None
    }
}

} // verus!
