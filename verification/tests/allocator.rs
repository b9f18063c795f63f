use maplibre_shaper::allocator::CodepointAllocator;
use maplibre_shaper::constants::{NONCHARACTERS, POOL_END, POOL_START, RANGE_SIZE};

#[test]
fn hands_out_the_pool_in_order() {
    let mut allocator = CodepointAllocator::new();
    assert_eq!(allocator.next(), Some(POOL_START));
    assert_eq!(allocator.next(), Some(POOL_START + 1));
}

#[test]
fn skips_a_sealed_block() {
    let mut allocator = CodepointAllocator::new();
    allocator.seal(POOL_START / RANGE_SIZE);
    assert_eq!(allocator.next(), Some(POOL_START + RANGE_SIZE));
}

#[test]
fn skips_noncharacters() {
    let mut allocator = CodepointAllocator::new();
    allocator.restrict(NONCHARACTERS[0] - 1, NONCHARACTERS[1] + 1);
    assert_eq!(allocator.next(), Some(NONCHARACTERS[0] - 1));
    assert_eq!(allocator.next(), Some(NONCHARACTERS[1] + 1));
    assert_eq!(allocator.next(), None);
}

#[test]
fn runs_out_at_the_end_of_its_stretch() {
    let mut allocator = CodepointAllocator::new();
    allocator.restrict(POOL_START, POOL_START);
    assert_eq!(allocator.next(), Some(POOL_START));
    assert_eq!(allocator.next(), None);
}

#[test]
fn restricting_keeps_the_stretch_inside_the_pool() {
    let mut allocator = CodepointAllocator::new();
    allocator.restrict(0, u32::MAX);
    assert_eq!(allocator.next(), Some(POOL_START));
    allocator.restrict(POOL_END, u32::MAX);
    assert_eq!(allocator.next(), Some(POOL_END));
    assert_eq!(allocator.next(), None);
}

#[test]
fn sealing_the_block_under_the_cursor_moves_it_on() {
    let mut allocator = CodepointAllocator::new();
    assert_eq!(allocator.next(), Some(POOL_START));
    allocator.seal(POOL_START / RANGE_SIZE);
    assert_eq!(allocator.next(), Some(POOL_START + RANGE_SIZE));
    // A block sealed ahead of the cursor is jumped over when it is reached.
    allocator.seal(POOL_START / RANGE_SIZE + 2);
    allocator.restrict(POOL_START + 2 * RANGE_SIZE - 1, POOL_END);
    assert_eq!(allocator.next(), Some(POOL_START + 2 * RANGE_SIZE - 1));
    assert_eq!(allocator.next(), Some(POOL_START + 3 * RANGE_SIZE));
}

#[test]
fn codepoints_handed_out_only_increase() {
    let mut allocator = CodepointAllocator::default();
    let mut previous = None;
    for _ in 0..600 {
        let next = allocator.next().expect("the pool is far from used up");
        if let Some(previous) = previous {
            assert!(next > previous);
        }
        previous = Some(next);
    }
}

#[test]
fn the_cursor_block_follows_allocation_and_sealing() {
    let mut allocator = CodepointAllocator::new();
    assert_eq!(allocator.cursor_block(), POOL_START / RANGE_SIZE);
    allocator.seal(POOL_START / RANGE_SIZE);
    assert_eq!(allocator.cursor_block(), POOL_START / RANGE_SIZE + 1);
    allocator.restrict(POOL_START + 3 * RANGE_SIZE - 1, POOL_END);
    assert_eq!(allocator.cursor_block(), POOL_START / RANGE_SIZE + 2);
    assert_eq!(allocator.next(), Some(POOL_START + 3 * RANGE_SIZE - 1));
    assert_eq!(allocator.cursor_block(), POOL_START / RANGE_SIZE + 3);
}

#[test]
fn a_fresh_allocator_hands_out_the_whole_pool_in_order_without_noncharacters() {
    let mut allocator = CodepointAllocator::new();
    let mut expected = POOL_START;
    let mut count: u32 = 0;
    while let Some(codepoint) = allocator.next() {
        if expected == NONCHARACTERS[0] {
            expected = NONCHARACTERS[1] + 1;
        }
        assert_eq!(codepoint, expected);
        expected += 1;
        count += 1;
    }
    assert_eq!(expected, POOL_END + 1);
    assert_eq!(count, POOL_END - POOL_START + 1 - 2);
    assert_eq!(allocator.next(), None);
    assert_eq!(allocator.next(), None);
}

#[test]
fn after_a_restrict_every_codepoint_lies_in_its_window() {
    let mut allocator = CodepointAllocator::new();
    allocator.seal(POOL_START / RANGE_SIZE + 1);
    allocator.restrict(POOL_START + RANGE_SIZE - 2, POOL_START + 2 * RANGE_SIZE + 1);
    let mut handed = Vec::new();
    while let Some(codepoint) = allocator.next() {
        handed.push(codepoint);
    }
    assert_eq!(
        handed,
        vec![
            POOL_START + RANGE_SIZE - 2,
            POOL_START + RANGE_SIZE - 1,
            POOL_START + 2 * RANGE_SIZE,
            POOL_START + 2 * RANGE_SIZE + 1,
        ]
    );
    allocator.restrict(POOL_START + RANGE_SIZE, POOL_START + 2 * RANGE_SIZE - 1);
    assert_eq!(allocator.next(), None);
}
