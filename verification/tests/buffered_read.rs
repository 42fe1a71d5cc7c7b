use cocoonfs::alloc_bitmap::AllocBitmap;
use cocoonfs::buffered_read::BufferedReadSetupError;
use cocoonfs::buffered_read_authenticate::AuthTreeDataBlockData;
use cocoonfs::buffered_read_poll::{
    BufferedReadAuthenticateDataFuture, BufferedReadAuthenticateDataFutureEvent,
    BufferedReadAuthenticateDataFuturePoll,
};
use cocoonfs::buffered_read_request::BufferedReadAuthenticateDataFutureNvChipReadRequest;
use cocoonfs::fs::{NvBlkDevIoError, NvFsError, NvFsIoError};
use cocoonfs::layout::{PhysicalAllocBlockIndex, PhysicalAllocBlockRange};
use cocoonfs::read_buffer::ReadBuffer;

// Base-2 logarithm of the number of Authentication Tree Data Blocks covered by a leaf node.
const LEAF_LOG2: u32 = 1;

fn loc(index: u64) -> PhysicalAllocBlockIndex {
    PhysicalAllocBlockIndex { index }
}

fn extent(begin: u64, end: u64) -> PhysicalAllocBlockRange {
    PhysicalAllocBlockRange::new(loc(begin), loc(end))
}

fn bitmap() -> AllocBitmap {
    AllocBitmap::new(vec![!0u64])
}

fn translate(location: PhysicalAllocBlockIndex) -> u64 {
    location.index / 2
}

// Authentication Tree Data Blocks of two, IO blocks of four Allocation Blocks.
fn new_buffer() -> ReadBuffer {
    ReadBuffer::new(0, 1, 2).unwrap()
}

fn new_future(begin: u64, end: u64) -> BufferedReadAuthenticateDataFuture {
    match BufferedReadAuthenticateDataFuture::new(&extent(begin, end), 0, 1, 2, 0, &translate) {
        Ok(fut) => fut,
        Err(_) => panic!("setup failed"),
    }
}

// Data is authentic if it's filled with the location or missing.
fn authenticate(leaf: &u64, index: u64, data: AuthTreeDataBlockData) -> Result<(), NvFsError> {
    assert_eq!(index >> LEAF_LOG2, *leaf);
    assert_eq!(data.len(), 2);
    for i in 0..2 {
        if let Some(d) = data.get(i) {
            assert_eq!(d.len(), 128);
            if d.iter().any(|b| *b as u64 != 2 * index + i as u64) {
                return Err(NvFsError::AuthenticationFailure);
            }
        }
    }
    Ok(())
}

fn complete(
    request: &mut BufferedReadAuthenticateDataFutureNvChipReadRequest,
    storage: &dyn Fn(u64) -> u8,
) -> (u64, u64) {
    let region = *request.region();
    for i in 0..(region.physical_end_128b - region.physical_begin_128b) as usize {
        for (begin, end) in [(0, 64), (64, 128)] {
            match request.get_destination_buffer(i, begin, end) {
                Ok(Some(buf)) => {
                    assert_eq!(buf.len(), end - begin);
                    buf.fill(storage(region.physical_begin_128b + i as u64));
                }
                Ok(None) => (),
                Err(_) => panic!("no destination buffer"),
            }
        }
    }
    (region.physical_begin_128b, region.physical_end_128b)
}

#[derive(Debug, PartialEq, Eq)]
struct Outcome {
    regions: Vec<(u64, u64)>,
    leaves: Vec<u64>,
    result: Result<Vec<Vec<u8>>, NvFsError>,
}

fn run_with(
    mut fut: BufferedReadAuthenticateDataFuture,
    buffer: &mut ReadBuffer,
    bitmap: &AllocBitmap,
    storage: &dyn Fn(u64) -> u8,
) -> Outcome {
    let mut regions = Vec::new();
    let mut leaves = Vec::new();
    let mut leaf: u64;
    let mut event = BufferedReadAuthenticateDataFutureEvent::Start;
    loop {
        match fut.poll(event, LEAF_LOG2, bitmap, buffer, &authenticate) {
            BufferedReadAuthenticateDataFuturePoll::Read(mut request) => {
                regions.push(complete(&mut request, storage));
                event = BufferedReadAuthenticateDataFutureEvent::ReadCompleted(Ok(request));
            }
            BufferedReadAuthenticateDataFuturePoll::LoadAuthTreeLeafNode(index) => {
                leaf = index >> LEAF_LOG2;
                leaves.push(leaf);
                event = BufferedReadAuthenticateDataFutureEvent::AuthTreeLeafNodeLoaded(Ok(&leaf));
            }
            BufferedReadAuthenticateDataFuturePoll::Ready(result) => {
                return Outcome {
                    regions,
                    leaves,
                    result,
                };
            }
        }
    }
}

fn run(begin: u64, end: u64, buffer: &mut ReadBuffer) -> Outcome {
    run_with(new_future(begin, end), buffer, &bitmap(), &|location| location as u8)
}

fn data(locations: std::ops::Range<u8>) -> Vec<Vec<u8>> {
    locations.map(|l| vec![l; 128]).collect()
}

#[test]
fn requested_data_is_read_and_authenticated() {
    let mut buffer = new_buffer();
    let outcome = run(5, 7, &mut buffer);
    assert_eq!(outcome.result, Ok(data(5..7)));
    assert_eq!(outcome.regions, vec![(4, 8)]);
    assert_eq!(outcome.leaves, vec![1]);
}

#[test]
fn alignment_padding_is_buffered() {
    let mut buffer = new_buffer();
    run(5, 7, &mut buffer);
    // The tail is preferred for the authenticated part.
    assert_eq!(buffer.get_buffered_authenticated_range(), Some(extent(6, 8)));
    let outcome = run(7, 8, &mut buffer);
    assert_eq!(
        outcome,
        Outcome {
            regions: vec![],
            leaves: vec![],
            result: Ok(data(7..8)),
        }
    );
    // It's been consumed.
    assert_eq!(buffer.get_buffered_authenticated_range(), None);
}

#[test]
fn only_what_is_handed_out_is_removed_from_the_buffer() {
    let mut buffer = new_buffer();
    buffer.insert_authenticated_buffers(loc(6), vec![Some(vec![0xaa; 128]), Some(vec![0xbb; 128])]);
    buffer.insert_unauthenticated_buffers(loc(4), vec![Some(vec![4; 128]), None, Some(vec![6; 128])]);
    let outcome = run(6, 7, &mut buffer);
    assert_eq!(outcome.result, Ok(vec![vec![0xaau8; 128]]));
    assert_eq!((outcome.regions, outcome.leaves), (vec![], vec![]));
    let authenticated = &buffer.buf.auth_tree_data_block_buf.buffered_allocation_blocks;
    assert_eq!(*authenticated, vec![None, Some(vec![0xbbu8; 128])]);
    let unauthenticated = &buffer.buf.min_io_block_buf.buffered_allocation_blocks;
    assert_eq!(
        *unauthenticated,
        vec![Some(vec![4u8; 128]), None, Some(vec![6u8; 128]), None]
    );
}

#[test]
fn no_allocated_block_is_recorded_as_unallocated() {
    for (begin, end) in [(4, 6), (5, 7), (5, 6), (2, 11), (3, 9)] {
        let mut buffer = new_buffer();
        let outcome = run(begin, end, &mut buffer);
        assert_eq!(outcome.result, Ok(data(begin as u8..end as u8)));
        for buffered in buffer
            .buf
            .auth_tree_data_block_buf
            .buffered_allocation_blocks
            .iter()
            .chain(buffer.buf.min_io_block_buf.buffered_allocation_blocks.iter())
        {
            assert!(buffered.as_ref().map_or(true, |b| b.len() == 128));
        }
    }
}

#[test]
fn data_from_the_buffer_is_retained_if_nothing_supersedes_it() {
    let mut buffer = new_buffer();
    buffer.insert_authenticated_buffers(loc(6), vec![Some(vec![0xaa; 128]), Some(vec![0xbb; 128])]);
    // The unauthenticated part has got something from the same IO block, but nothing of it is
    // needed.
    buffer.insert_unauthenticated_buffers(loc(4), vec![Some(vec![0xee; 128])]);
    let outcome = run(6, 12, &mut buffer);
    let mut expected = vec![vec![0xaau8; 128], vec![0xbb; 128]];
    expected.extend(data(8..12));
    assert_eq!(outcome.result, Ok(expected));
    assert_eq!(outcome.regions, vec![(8, 12)]);
}

#[test]
fn padding_within_a_single_block_is_buffered_together() {
    let mut buffer = ReadBuffer::new(0, 2, 0).unwrap();
    let fut = match BufferedReadAuthenticateDataFuture::new(&extent(5, 6), 0, 2, 0, 0, &|l: PhysicalAllocBlockIndex| {
        l.index / 4
    }) {
        Ok(fut) => fut,
        Err(_) => panic!("setup failed"),
    };
    let mut fut = fut;
    let accept = |_: &u64, _: u64, _: AuthTreeDataBlockData| -> Result<(), NvFsError> { Ok(()) };
    let leaf = 0u64;
    let mut event = BufferedReadAuthenticateDataFutureEvent::Start;
    let result = loop {
        match fut.poll(event, LEAF_LOG2, &bitmap(), &mut buffer, &accept) {
            BufferedReadAuthenticateDataFuturePoll::Read(mut request) => {
                complete(&mut request, &|location| location as u8);
                event = BufferedReadAuthenticateDataFutureEvent::ReadCompleted(Ok(request));
            }
            BufferedReadAuthenticateDataFuturePoll::LoadAuthTreeLeafNode(_) => {
                event = BufferedReadAuthenticateDataFutureEvent::AuthTreeLeafNodeLoaded(Ok(&leaf));
            }
            BufferedReadAuthenticateDataFuturePoll::Ready(result) => {
                break result;
            }
        }
    };
    assert_eq!(result, Ok(data(5..6)));
    let buffered: Vec<Option<u8>> = buffer
        .buf
        .auth_tree_data_block_buf
        .buffered_allocation_blocks
        .iter()
        .map(|b| b.as_ref().map(|b| b[0]))
        .collect();
    assert_eq!(buffered, vec![Some(4), None, Some(6), Some(7)]);
}

#[test]
fn unauthenticated_padding_is_buffered() {
    let mut buffer = new_buffer();
    // Only the first half of the IO block gets authenticated.
    let outcome = run(4, 6, &mut buffer);
    assert_eq!(outcome.result, Ok(data(4..6)));
    assert_eq!(buffer.get_buffered_unauthenticated_range(), Some(extent(4, 8)));
    // There's no need to read again for the second half, but to authenticate.
    let outcome = run(6, 8, &mut buffer);
    assert_eq!(
        outcome,
        Outcome {
            regions: vec![],
            leaves: vec![1],
            result: Ok(data(6..8)),
        }
    );
}

#[test]
fn buffered_unauthenticated_data_gets_authenticated() {
    let mut buffer = new_buffer();
    buffer.insert_unauthenticated_buffers(loc(4), vec![None, None, Some(vec![6; 128]), Some(vec![0xee; 128])]);
    let outcome = run(6, 8, &mut buffer);
    assert_eq!(outcome.regions, vec![]);
    assert_eq!(outcome.result, Err(NvFsError::AuthenticationFailure));
}

#[test]
fn incomplete_buffered_data_is_read_again() {
    let mut buffer = new_buffer();
    buffer.insert_unauthenticated_buffers(loc(4), vec![Some(vec![0xee; 128]), None, Some(vec![6; 128]), None]);
    let outcome = run(4, 8, &mut buffer);
    assert_eq!(outcome.regions, vec![(4, 8)]);
    assert_eq!(outcome.result, Ok(data(4..8)));
}

#[test]
fn authenticated_data_from_the_buffer_is_used() {
    let mut buffer = new_buffer();
    // Would not be found authentic if checked.
    buffer.insert_authenticated_buffers(loc(6), vec![Some(vec![0xaa; 128]), Some(vec![0xbb; 128])]);
    let outcome = run(6, 12, &mut buffer);
    let mut expected = vec![vec![0xaau8; 128], vec![0xbb; 128]];
    expected.extend(data(8..12));
    assert_eq!(outcome.result, Ok(expected));
    assert_eq!(outcome.regions, vec![(8, 12)]);
    assert_eq!(outcome.leaves, vec![2]);
}

#[test]
fn authenticated_data_from_the_buffer_is_not_overwritten() {
    let mut buffer = new_buffer();
    buffer.insert_authenticated_buffers(loc(6), vec![Some(vec![0xaa; 128]), Some(vec![0xbb; 128])]);
    // The IO block containing what's been found needs a read nonetheless.
    let outcome = run(4, 8, &mut buffer);
    let mut expected = data(4..6);
    expected.extend(vec![vec![0xaau8; 128], vec![0xbb; 128]]);
    assert_eq!(outcome.result, Ok(expected));
    assert_eq!(outcome.regions, vec![(4, 8)]);
    assert_eq!(outcome.leaves, vec![1]);
}

#[test]
fn partial_authenticated_data_is_not_used() {
    let mut buffer = new_buffer();
    buffer.insert_authenticated_buffers(loc(6), vec![Some(vec![0xaa; 128]), None]);
    let outcome = run(6, 8, &mut buffer);
    assert_eq!(outcome.result, Ok(data(6..8)));
}

#[test]
fn multiple_leaf_nodes_are_processed_in_order() {
    let mut buffer = new_buffer();
    let outcome = run(1, 15, &mut buffer);
    assert_eq!(outcome.result, Ok(data(1..15)));
    assert_eq!(outcome.leaves, vec![0, 1, 2, 3]);
    assert_eq!(outcome.regions, vec![(0, 4), (4, 8), (8, 12), (12, 16)]);
}

#[test]
fn data_blocks_are_checked_against_the_leaf_node_covering_them() {
    let mut buffer = new_buffer();
    // The authentication function rejects anything not covered by the leaf node.
    let outcome = run(2, 11, &mut buffer);
    assert_eq!(outcome.result, Ok(data(2..11)));
    assert_eq!(outcome.leaves, vec![0, 1, 2]);
}

#[test]
fn data_from_the_buffer_is_not_authenticated_again() {
    let mut buffer = new_buffer();
    // The remainder of its block is not read.
    buffer.insert_authenticated_buffers(loc(8), vec![Some(vec![0xaa; 128])]);
    let outcome = run(4, 9, &mut buffer);
    let mut expected = data(4..8);
    expected.push(vec![0xaau8; 128]);
    assert_eq!(outcome.result, Ok(expected));
    assert_eq!(outcome.regions, vec![(4, 8)]);
    assert_eq!(outcome.leaves, vec![1]);
}

#[test]
fn empty_requests_within_a_block_return_nothing() {
    let mut buffer = new_buffer();
    let outcome = run(5, 5, &mut buffer);
    assert_eq!(outcome.result, Ok(vec![]));
    // What's been read is available for future requests.
    let outcome = run(4, 6, &mut buffer);
    assert_eq!(
        outcome,
        Outcome {
            regions: vec![],
            leaves: vec![],
            result: Ok(data(4..6)),
        }
    );
}

#[test]
fn inauthentic_data_is_rejected() {
    let mut buffer = new_buffer();
    // The padding contributes to the authentication, too.
    for bad in 4..8u64 {
        let outcome = run_with(new_future(5, 7), &mut buffer, &bitmap(), &|location| {
            if location == bad { 0xee } else { location as u8 }
        });
        assert_eq!(outcome.result, Err(NvFsError::AuthenticationFailure));
        assert_eq!(buffer.get_buffered_authenticated_range(), None);
        assert_eq!(buffer.get_buffered_unauthenticated_range(), None);
    }
}

#[test]
fn unallocated_padding_is_not_read() {
    let mut buffer = new_buffer();
    // Nothing but the requested blocks is allocated.
    let bitmap = AllocBitmap::new(vec![0b0110_0000u64]);
    let outcome = run_with(new_future(5, 7), &mut buffer, &bitmap, &|location| {
        assert!((5..7).contains(&location));
        location as u8
    });
    assert_eq!(outcome.result, Ok(data(5..7)));
    let mut dst = cocoonfs::block_buffer::AllocationBlocksBufs {
        dst_allocation_blocks_bufs: vec![vec![1u8]],
        alignment_scratch_allocation_blocks_bufs: vec![],
        head_alignment_scratch_allocation_blocks: 0,
    };
    // It's tracked as such in the buffer.
    assert_eq!(
        buffer.take_authenticated_buffers(&extent(7, 8), &mut dst, 0),
        Some((extent(7, 8), true))
    );
    assert_eq!(dst.dst_allocation_blocks_bufs, vec![Vec::<u8>::new()]);
    assert_eq!(buffer.get_buffered_unauthenticated_range(), None);
}

#[test]
fn storage_failures_are_reported() {
    let mut buffer = new_buffer();
    let mut fut = new_future(5, 7);
    let start = BufferedReadAuthenticateDataFutureEvent::<u64>::Start;
    assert!(matches!(
        fut.poll(start, LEAF_LOG2, &bitmap(), &mut buffer, &authenticate),
        BufferedReadAuthenticateDataFuturePoll::Read(_)
    ));
    let failure = BufferedReadAuthenticateDataFutureEvent::<u64>::ReadCompleted(Err(NvBlkDevIoError::IoBlockNotMapped));
    assert!(matches!(
        fut.poll(failure, LEAF_LOG2, &bitmap(), &mut buffer, &authenticate),
        BufferedReadAuthenticateDataFuturePoll::Ready(Err(NvFsError::IoError(NvFsIoError::RegionNotMapped)))
    ));
}

#[test]
fn leaf_node_load_failures_are_reported() {
    let mut buffer = new_buffer();
    let mut fut = new_future(5, 7);
    let start = BufferedReadAuthenticateDataFutureEvent::<u64>::Start;
    let mut request = match fut.poll(start, LEAF_LOG2, &bitmap(), &mut buffer, &authenticate) {
        BufferedReadAuthenticateDataFuturePoll::Read(request) => request,
        _ => panic!("no read"),
    };
    complete(&mut request, &|location| location as u8);
    let completed = BufferedReadAuthenticateDataFutureEvent::<u64>::ReadCompleted(Ok(request));
    assert!(matches!(
        fut.poll(completed, LEAF_LOG2, &bitmap(), &mut buffer, &authenticate),
        BufferedReadAuthenticateDataFuturePoll::LoadAuthTreeLeafNode(2)
    ));
    let failure = BufferedReadAuthenticateDataFutureEvent::<u64>::AuthTreeLeafNodeLoaded(Err(NvFsError::NoSpace));
    assert!(matches!(
        fut.poll(failure, LEAF_LOG2, &bitmap(), &mut buffer, &authenticate),
        BufferedReadAuthenticateDataFuturePoll::Ready(Err(NvFsError::NoSpace))
    ));
}

#[test]
fn destination_buffers_are_bounded_by_the_request() {
    let mut buffer = new_buffer();
    let mut fut = new_future(5, 7);
    let start = BufferedReadAuthenticateDataFutureEvent::<u64>::Start;
    let mut request = match fut.poll(start, LEAF_LOG2, &bitmap(), &mut buffer, &authenticate) {
        BufferedReadAuthenticateDataFuturePoll::Read(request) => request,
        _ => panic!("no read"),
    };
    assert!(matches!(request.get_destination_buffer(3, 0, 128), Ok(Some(_))));
    assert!(matches!(
        request.get_destination_buffer(4, 0, 128),
        Err(NvBlkDevIoError::Internal)
    ));
}

#[test]
fn requests_exceeding_the_address_space_are_rejected() {
    let r = BufferedReadAuthenticateDataFuture::new(&extent(u64::MAX - 1, u64::MAX), 0, 1, 2, 0, &translate);
    assert!(matches!(r, Err(BufferedReadSetupError::BlockOutOfRange)));
    let r = BufferedReadAuthenticateDataFuture::new(&extent(0, 1 << 62), 0, 1, 2, 0, &translate);
    assert!(matches!(
        r,
        Err(BufferedReadSetupError::FsError(NvFsError::MemoryAllocationFailure))
    ));
}

#[test]
fn setup_failures_are_reported_in_order() {
    // The IO block size is considered first, the alignment to Authentication Tree Data Blocks
    // and to IO blocks next.
    let r = BufferedReadAuthenticateDataFuture::new(&extent(u64::MAX - 1, u64::MAX), 0, 1, 300, 0, &translate);
    assert!(matches!(r, Err(BufferedReadSetupError::FsError(NvFsError::Internal))));
    let r = BufferedReadAuthenticateDataFuture::new(&extent(u64::MAX - 3, u64::MAX - 1), 0, 1, 2, 0, &translate);
    assert!(matches!(r, Err(BufferedReadSetupError::BlockOutOfRange)));
    let r = BufferedReadAuthenticateDataFuture::new(&extent(u64::MAX - 3, u64::MAX - 1), 0, 1, 1, 0, &translate);
    assert!(r.is_ok());
    // There's nothing to allocate for an empty request.
    let r = BufferedReadAuthenticateDataFuture::new(&extent(4, 4), 0, 1, 2, 0, &translate);
    assert!(r.is_ok());
}
