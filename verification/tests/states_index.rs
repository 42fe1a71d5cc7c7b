use cocoonfs::layout::AllocBlockCount;
use cocoonfs::states_index::{
    AuthTreeDataBlocksUpdateStatesAllocationBlockIndex, AuthTreeDataBlocksUpdateStatesAllocationBlocksIndexRange,
    AuthTreeDataBlocksUpdateStatesIndex, AuthTreeDataBlocksUpdateStatesIndexRange,
};

fn index(index: usize) -> AuthTreeDataBlocksUpdateStatesIndex {
    AuthTreeDataBlocksUpdateStatesIndex { index }
}

fn block_index(block: usize, offset: usize) -> AuthTreeDataBlocksUpdateStatesAllocationBlockIndex {
    AuthTreeDataBlocksUpdateStatesAllocationBlockIndex::new(index(block), offset)
}

fn blocks_range(
    begin: (usize, usize),
    end: (usize, usize),
) -> AuthTreeDataBlocksUpdateStatesAllocationBlocksIndexRange {
    AuthTreeDataBlocksUpdateStatesAllocationBlocksIndexRange::new(
        &block_index(begin.0, begin.1),
        &block_index(end.0, end.1),
    )
}

#[test]
fn index_steps() {
    assert_eq!(index(3).step(), index(4));
    assert_eq!(index(4).step_back(), Some(index(3)));
    assert_eq!(index(0).step_back(), None);
}

#[test]
fn index_converts_from_and_to_usize() {
    assert_eq!(AuthTreeDataBlocksUpdateStatesIndex::from(7usize), index(7));
    assert_eq!(usize::from(index(7)), 7);
    assert_eq!(AuthTreeDataBlocksUpdateStatesIndex::from(block_index(2, 3)), index(2));
    assert_eq!(AuthTreeDataBlocksUpdateStatesAllocationBlockIndex::from(index(2)), block_index(2, 0));
}

#[test]
fn block_index_steps_across_blocks() {
    assert_eq!(block_index(1, 2).step(2), block_index(1, 3));
    assert_eq!(block_index(1, 3).step(2), block_index(2, 0));
    assert_eq!(block_index(2, 0).step_back(2), Some(block_index(1, 3)));
    assert_eq!(block_index(1, 3).step_back(2), Some(block_index(1, 2)));
    assert_eq!(block_index(0, 0).step_back(2), None);
}

#[test]
fn stepping_back_undoes_step() {
    for log2 in 0..4u32 {
        let mut i = block_index(0, 0);
        for _ in 0..20 {
            let next = i.step(log2);
            assert_eq!(next.step_back(log2), Some(i));
            i = next;
        }
    }
}

#[test]
fn advancing_is_additive() {
    for log2 in 0..4u32 {
        for a in 0..10u64 {
            for b in 0..10u64 {
                let start = block_index(1, 0);
                let once = start.advance(AllocBlockCount::from(a + b), log2);
                let twice = start.advance(AllocBlockCount::from(a), log2).advance(AllocBlockCount::from(b), log2);
                assert_eq!(once, twice);
            }
        }
    }
    assert_eq!(block_index(1, 3).advance(AllocBlockCount::from(6), 2), block_index(3, 1));
}

#[test]
fn range_accessors() {
    let range = AuthTreeDataBlocksUpdateStatesIndexRange::new(index(2), index(5));
    assert_eq!(range.begin(), index(2));
    assert_eq!(range.end(), index(5));
    assert_eq!(range.len(), 3);
    assert!(!range.is_empty());
    assert!(AuthTreeDataBlocksUpdateStatesIndexRange::new(index(2), index(2)).is_empty());
    let range = blocks_range((1, 1), (2, 3));
    assert_eq!(*range.begin(), block_index(1, 1));
    assert_eq!(*range.end(), block_index(2, 3));
    assert!(!range.is_empty());
    assert!(blocks_range((1, 1), (1, 1)).is_empty());
}

#[test]
fn range_iterates_in_order() {
    let mut iter = AuthTreeDataBlocksUpdateStatesIndexRange::new(index(2), index(5)).iter();
    assert_eq!(iter.next(), Some(index(2)));
    assert_eq!(iter.next(), Some(index(3)));
    assert_eq!(iter.next(), Some(index(4)));
    assert_eq!(iter.next(), None);
    assert_eq!(iter.next(), None);
}

#[test]
fn blocks_range_iterates_in_order() {
    let mut iter = blocks_range((0, 1), (2, 1)).iter(1);
    assert_eq!(iter.next(), Some(block_index(0, 1)));
    assert_eq!(iter.next(), Some(block_index(1, 0)));
    assert_eq!(iter.next(), Some(block_index(1, 1)));
    assert_eq!(iter.next(), Some(block_index(2, 0)));
    assert_eq!(iter.next(), None);
}

#[test]
fn blocks_range_is_covered() {
    assert_eq!(
        AuthTreeDataBlocksUpdateStatesIndexRange::from(blocks_range((1, 1), (2, 3))),
        AuthTreeDataBlocksUpdateStatesIndexRange::new(index(1), index(3))
    );
    assert_eq!(
        AuthTreeDataBlocksUpdateStatesIndexRange::from(blocks_range((1, 1), (3, 0))),
        AuthTreeDataBlocksUpdateStatesIndexRange::new(index(1), index(3))
    );
}

#[test]
fn range_conversion_round_trips() {
    let range = AuthTreeDataBlocksUpdateStatesIndexRange::new(index(1), index(3));
    let blocks = AuthTreeDataBlocksUpdateStatesAllocationBlocksIndexRange::from(range);
    assert_eq!(blocks, blocks_range((1, 0), (3, 0)));
    assert_eq!(AuthTreeDataBlocksUpdateStatesIndexRange::from(blocks), range);
}

#[test]
fn insertion_offsets_move_ranges() {
    let range = AuthTreeDataBlocksUpdateStatesIndexRange::new(index(1), index(3));
    assert_eq!(
        range.apply_states_insertions_offsets(2, 1),
        AuthTreeDataBlocksUpdateStatesIndexRange::new(index(3), index(6))
    );
    assert_eq!(blocks_range((1, 1), (2, 3)).apply_states_insertions_offsets(2, 1), blocks_range((3, 1), (5, 3)));
}
