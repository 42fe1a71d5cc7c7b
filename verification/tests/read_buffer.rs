use cocoonfs::block_buffer::{
    AllocationBlocksBufs, BlockAllocationBlocksReadBuffer, ReadBufferAllocationBlockUpdate,
};
use cocoonfs::fs::NvFsError;
use cocoonfs::layout::{PhysicalAllocBlockIndex, PhysicalAllocBlockRange};
use cocoonfs::read_buffer::ReadBuffer;

fn loc(index: u64) -> PhysicalAllocBlockIndex {
    PhysicalAllocBlockIndex { index }
}

fn extent(begin: u64, end: u64) -> PhysicalAllocBlockRange {
    PhysicalAllocBlockRange::new(loc(begin), loc(end))
}

fn dst(len: usize) -> AllocationBlocksBufs {
    AllocationBlocksBufs {
        dst_allocation_blocks_bufs: vec![vec![0xffu8]; len],
        alignment_scratch_allocation_blocks_bufs: vec![],
        head_alignment_scratch_allocation_blocks: 0,
    }
}

fn filled(locations: std::ops::Range<u8>) -> Vec<Option<Vec<u8>>> {
    locations.map(|l| Some(vec![l])).collect()
}

// Authentication Tree Data Blocks of two, IO blocks of four Allocation Blocks.
fn new_buffer() -> ReadBuffer {
    ReadBuffer::new(0, 1, 2).unwrap()
}

#[test]
fn supported_dimensions() {
    assert!(matches!(ReadBuffer::new(0, 64, 2), Err(NvFsError::DimensionsNotSupported)));
    assert!(matches!(
        BlockAllocationBlocksReadBuffer::new(64),
        Err(NvFsError::DimensionsNotSupported)
    ));
    let buffer = new_buffer();
    assert!(buffer.min_io_blocks_are_buffered());
    assert!(buffer.auth_tree_blocks_are_buffered());
    let buffer = ReadBuffer::new(0, 2, 2).unwrap();
    assert!(!buffer.min_io_blocks_are_buffered());
    let buffer = ReadBuffer::new(0, 0, 2).unwrap();
    assert!(!buffer.auth_tree_blocks_are_buffered());
}

#[test]
fn inserted_authenticated_buffers_are_taken() {
    let mut buffer = new_buffer();
    buffer.insert_authenticated_buffers(loc(4), filled(4..6));
    assert_eq!(buffer.get_buffered_authenticated_range(), Some(extent(4, 6)));
    let mut bufs = dst(4);
    let r = buffer.take_authenticated_buffers(&extent(3, 7), &mut bufs, 0);
    assert_eq!(r, Some((extent(4, 6), true)));
    assert_eq!(
        bufs.dst_allocation_blocks_bufs,
        vec![vec![0xffu8], vec![4], vec![5], vec![0xff]]
    );
    // Everything is consumed by then.
    assert_eq!(buffer.get_buffered_authenticated_range(), None);
    assert_eq!(buffer.take_authenticated_buffers(&extent(3, 7), &mut bufs, 0), None);
}

#[test]
fn partially_consumed_buffers_are_reported_incomplete() {
    let mut buffer = new_buffer();
    buffer.insert_unauthenticated_buffers(loc(4), filled(4..8));
    let mut bufs = dst(1);
    assert_eq!(
        buffer.take_unauthenticated_buffers(&extent(5, 6), &mut bufs, 0),
        Some((extent(5, 6), true))
    );
    assert_eq!(bufs.dst_allocation_blocks_bufs, vec![vec![5u8]]);
    let mut bufs = dst(4);
    assert_eq!(
        buffer.take_unauthenticated_buffers(&extent(4, 8), &mut bufs, 0),
        Some((extent(4, 8), false))
    );
    assert_eq!(
        bufs.dst_allocation_blocks_bufs,
        vec![vec![4u8], vec![0xff], vec![6], vec![7]]
    );
}

#[test]
fn nothing_is_taken_unless_something_in_range_is_buffered() {
    let mut buffer = new_buffer();
    buffer.insert_unauthenticated_buffers(loc(4), vec![None, Some(vec![5])]);
    buffer.insert_authenticated_buffers(loc(5), vec![Some(vec![5])]);
    // The ranges overlap with the buffered block, but there's nothing buffered for them.
    let mut bufs = dst(1);
    assert_eq!(buffer.take_authenticated_buffers(&extent(4, 5), &mut bufs, 0), None);
    assert_eq!(buffer.take_unauthenticated_buffers(&extent(4, 5), &mut bufs, 0), None);
    assert_eq!(buffer.take_unauthenticated_buffers(&extent(7, 8), &mut bufs, 0), None);
    assert_eq!(bufs.dst_allocation_blocks_bufs, vec![vec![0xffu8]]);
    // It's still there.
    assert_eq!(
        buffer.take_authenticated_buffers(&extent(5, 6), &mut bufs, 0),
        Some((extent(5, 6), true))
    );
    let mut bufs = dst(2);
    assert_eq!(
        buffer.take_unauthenticated_buffers(&extent(4, 6), &mut bufs, 0),
        Some((extent(4, 6), false))
    );
    assert_eq!(bufs.dst_allocation_blocks_bufs, vec![vec![0xffu8], vec![5]]);
}

#[test]
fn insertion_supersedes_previous_block() {
    let mut buffer = new_buffer();
    buffer.insert_authenticated_buffers(loc(4), filled(4..6));
    buffer.insert_authenticated_buffers(loc(9), filled(9..10));
    assert_eq!(buffer.get_buffered_authenticated_range(), Some(extent(8, 10)));
    let mut bufs = dst(2);
    assert_eq!(
        buffer.take_authenticated_buffers(&extent(8, 10), &mut bufs, 0),
        Some((extent(8, 10), false))
    );
    assert_eq!(bufs.dst_allocation_blocks_bufs, vec![vec![0xffu8], vec![9]]);
}

#[test]
fn unrelated_ranges_find_nothing() {
    let mut buffer = new_buffer();
    buffer.insert_authenticated_buffers(loc(4), filled(4..6));
    let mut bufs = dst(2);
    assert_eq!(buffer.take_authenticated_buffers(&extent(6, 8), &mut bufs, 0), None);
    assert_eq!(buffer.take_authenticated_buffers(&extent(2, 4), &mut bufs, 0), None);
    assert_eq!(bufs.dst_allocation_blocks_bufs, vec![vec![0xffu8]; 2]);
    assert_eq!(buffer.get_buffered_authenticated_range(), Some(extent(4, 6)));
    assert_eq!(buffer.get_buffered_unauthenticated_range(), None);
}

#[test]
fn unallocated_blocks_are_taken_as_empty() {
    let mut buffer = new_buffer();
    buffer.insert_authenticated_buffers(loc(4), vec![Some(vec![]), Some(vec![5])]);
    let mut bufs = dst(2);
    assert_eq!(
        buffer.take_authenticated_buffers(&extent(4, 6), &mut bufs, 0),
        Some((extent(4, 6), true))
    );
    assert_eq!(bufs.dst_allocation_blocks_bufs, vec![vec![], vec![5u8]]);
}

#[test]
fn stale_buffers_are_not_taken() {
    let mut buffer = new_buffer();
    buffer.insert_authenticated_buffers(loc(4), filled(4..6));
    buffer.update_authenticated_buffers(
        loc(3),
        vec![
            ReadBufferAllocationBlockUpdate::Update { data: vec![0x33] },
            ReadBufferAllocationBlockUpdate::Invalidate,
        ],
    );
    let mut bufs = dst(2);
    assert_eq!(
        buffer.take_authenticated_buffers(&extent(4, 6), &mut bufs, 0),
        Some((extent(4, 6), false))
    );
    assert_eq!(bufs.dst_allocation_blocks_bufs, vec![vec![0xffu8], vec![5]]);
}

#[test]
fn buffers_are_updated() {
    let mut buffer = new_buffer();
    buffer.insert_unauthenticated_buffers(loc(4), filled(4..8));
    buffer.update_unauthenticated_buffers(
        loc(4),
        vec![
            ReadBufferAllocationBlockUpdate::Update { data: vec![0x44] },
            ReadBufferAllocationBlockUpdate::Retain,
            ReadBufferAllocationBlockUpdate::Unallocated,
        ],
    );
    let mut bufs = dst(4);
    assert_eq!(
        buffer.take_unauthenticated_buffers(&extent(4, 8), &mut bufs, 0),
        Some((extent(4, 8), true))
    );
    assert_eq!(
        bufs.dst_allocation_blocks_bufs,
        vec![vec![0x44u8], vec![5], vec![], vec![7]]
    );
}

#[test]
fn caches_are_cleared() {
    let mut buffer = new_buffer();
    buffer.insert_authenticated_buffers(loc(4), filled(4..6));
    buffer.insert_unauthenticated_buffers(loc(4), filled(4..8));
    buffer.clear_caches();
    assert_eq!(buffer.get_buffered_authenticated_range(), None);
    assert_eq!(buffer.get_buffered_unauthenticated_range(), None);
}

#[test]
fn ranges_are_trimmed_to_blocks() {
    assert!(ReadBuffer::range_overlaps_block(&extent(3, 5), loc(4), 2));
    assert!(!ReadBuffer::range_overlaps_block(&extent(3, 4), loc(4), 2));
    assert!(!ReadBuffer::range_overlaps_block(&extent(8, 9), loc(4), 2));
    assert_eq!(ReadBuffer::trim_range_to_block(&extent(3, 20), loc(4), 2), Some(extent(4, 8)));
    assert_eq!(ReadBuffer::trim_range_to_block(&extent(5, 6), loc(4), 2), Some(extent(5, 6)));
    assert_eq!(ReadBuffer::trim_range_to_block(&extent(8, 9), loc(4), 2), None);
}
