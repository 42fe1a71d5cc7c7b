//! Relations between the steps of reading and authenticating data through a read
//! buffer.
use crate::align;
use crate::buffered_read;
use crate::buffered_read::{BufferedReadAuthenticatedDataFutureData, BufferedReadSetupError};
use crate::buffered_read_authenticate::{AuthTreeDataBlockData, BufferedReadAuthenticateStep};
use crate::buffered_read_poll::{
    BufferedReadAuthenticateDataFuture, BufferedReadAuthenticateDataFuturePoll,
    BufferedReadAuthenticateDataFutureState,
};
use crate::buffered_read_region_laws;
use crate::buffered_read_request::BufferedReadAuthenticateDataFutureNvChipReadRequest;
use crate::fs::NvFsError;
use crate::layout::{PhysicalAllocBlockIndex, PhysicalAllocBlockRange};
use crate::read_buffer::ReadBuffer;
use vstd::prelude::*;

verus! {

/// An index is that of the Authentication Tree Data Block at some location, as obtained
/// by translating the beginning of the first of the request's blocks and counting from
/// there.
pub open spec fn is_index_of<F: Fn(PhysicalAllocBlockIndex) -> u64>(
    translate: F,
    request_begin: int,
    auth_size: int,
    location: int,
    index: int,
) -> bool {
    let begin = request_begin - request_begin % auth_size;
    exists|first: u64|
        #![trigger call_ensures(translate, (PhysicalAllocBlockIndex { index: begin as u64 },), first)]
        call_ensures(translate, (PhysicalAllocBlockIndex { index: begin as u64 },), first) && index == first + (location
            - begin) / auth_size
}

/// Locations are translated to the Authentication Tree Data domain by means of the
/// translation provided for the request, distances are maintained.
pub proof fn law_data_block_indices_follow_translation<F: Fn(PhysicalAllocBlockIndex) -> u64>(
    request_range: &PhysicalAllocBlockRange,
    allocation_block_size_128b_log2: u8,
    auth_tree_data_block_allocation_blocks_log2: u8,
    chip_io_block_size_128b_log2: u32,
    preferred_chip_io_blocks_bulk_log2: u32,
    translate: F,
    initial: BufferedReadAuthenticatedDataFutureData,
    d: BufferedReadAuthenticatedDataFutureData,
    location: int,
)
    requires
        buffered_read::set_up(
            request_range,
            allocation_block_size_128b_log2,
            auth_tree_data_block_allocation_blocks_log2,
            chip_io_block_size_128b_log2,
            preferred_chip_io_blocks_bulk_log2,
            translate,
            Ok(initial),
        ),
        d.same_request(&initial),
        d.auth_tree_data_block_aligned_request_range.begin.index <= location
            <= d.auth_tree_data_block_aligned_request_range.end.index,
    ensures
        ({
            let auth_size = align::block_size(auth_tree_data_block_allocation_blocks_log2 as nat);
            let begin = request_range.begin.index - request_range.begin.index as int % auth_size;
            &&& d.request_range == *request_range
            &&& d.auth_tree_data_block_aligned_request_range.begin.index == begin
            &&& is_index_of(
                translate,
                request_range.begin.index as int,
                auth_size,
                location,
                d.data_block_index(location),
            )
            &&& d.auth_tree_location(location) - d.auth_tree_location(begin) == location - begin
            &&& d.auth_tree_location(location) / auth_size == d.data_block_index(location)
            &&& d.auth_tree_location(location) % auth_size == (location - begin) % auth_size
            &&& 0 <= d.data_block_index(location) <= u64::MAX
        }),
{
    let l = auth_tree_data_block_allocation_blocks_log2 as nat;
    let s = align::block_size(l);
    align::lemma_block_size_pos(l);
    reveal(align::align_down);
    reveal(align::blocks);
    let begin = align::align_down(request_range.begin.index as int, l);
    initial.lemma_ranges_nested();
    let first = choose|index: u64|
        #![trigger call_ensures(translate, (PhysicalAllocBlockIndex { index: begin as u64 },), index)]
        call_ensures(translate, (PhysicalAllocBlockIndex { index: begin as u64 },), index)
            && initial.request_range_auth_tree_data_allocation_blocks_begin == index * align::block_size(l);
    let x = location - begin;
    assert((first * s + x) / s == first + x / s && (first * s + x) % s == x % s) by {
        assert(first * s == s * first) by (nonlinear_arith);
        vstd::arithmetic::div_mod::lemma_hoist_over_denominator(x, first as int, s as nat);
        vstd::arithmetic::div_mod::lemma_mod_multiples_vanish(first as int, x, s);
    }
    vstd::arithmetic::div_mod::lemma_div_pos_is_pos(d.auth_tree_location(location), s);
    vstd::arithmetic::div_mod::lemma_div_is_ordered_by_denominator(d.auth_tree_location(location), 1, s);
}

/// An Authentication Tree leaf node is loaded for the Authentication Tree Data Block
/// at the location to authenticate next.
pub proof fn law_leaf_node_is_loaded_for_next_block<
    F: Fn(PhysicalAllocBlockIndex) -> u64,
    L,
    A: Fn(&L, u64, AuthTreeDataBlockData) -> Result<(), NvFsError>,
>(
    request_range: &PhysicalAllocBlockRange,
    allocation_block_size_128b_log2: u8,
    auth_tree_data_block_allocation_blocks_log2: u8,
    chip_io_block_size_128b_log2: u32,
    preferred_chip_io_blocks_bulk_log2: u32,
    translate: F,
    initial: BufferedReadAuthenticatedDataFutureData,
    future: BufferedReadAuthenticateDataFuture,
    authenticate: A,
    index: u64,
)
    requires
        buffered_read::set_up(
            request_range,
            allocation_block_size_128b_log2,
            auth_tree_data_block_allocation_blocks_log2,
            chip_io_block_size_128b_log2,
            preferred_chip_io_blocks_bulk_log2,
            translate,
            Ok(initial),
        ),
        future.d.same_request(&initial),
        future.wf(authenticate),
        future.fut_state == (BufferedReadAuthenticateDataFutureState::LoadAuthTreeLeafNode {
            auth_tree_data_block_index: index,
        }),
    ensures
        is_index_of(
            translate,
            request_range.begin.index as int,
            align::block_size(auth_tree_data_block_allocation_blocks_log2 as nat),
            future.d.authenticated_allocation_blocks_end.index as int,
            index as int,
        ),
        future.d.authenticated_allocation_blocks_end.index < request_range.end.index,
{
    future.d.lemma_ranges_nested();
    law_data_block_indices_follow_translation(
        request_range,
        allocation_block_size_128b_log2,
        auth_tree_data_block_allocation_blocks_log2,
        chip_io_block_size_128b_log2,
        preferred_chip_io_blocks_bulk_log2,
        translate,
        initial,
        future.d,
        future.d.authenticated_allocation_blocks_end.index as int,
    );
}

/// The decision to proceed with the authentication is for the block at the updated
/// authentication progress.
pub proof fn law_authentication_step_is_for_next_block<F: Fn(PhysicalAllocBlockIndex) -> u64>(
    request_range: &PhysicalAllocBlockRange,
    allocation_block_size_128b_log2: u8,
    auth_tree_data_block_allocation_blocks_log2: u8,
    chip_io_block_size_128b_log2: u32,
    preferred_chip_io_blocks_bulk_log2: u32,
    translate: F,
    initial: BufferedReadAuthenticatedDataFutureData,
    d: BufferedReadAuthenticatedDataFutureData,
    leaf_log2: nat,
    index: u64,
)
    requires
        buffered_read::set_up(
            request_range,
            allocation_block_size_128b_log2,
            auth_tree_data_block_allocation_blocks_log2,
            chip_io_block_size_128b_log2,
            preferred_chip_io_blocks_bulk_log2,
            translate,
            Ok(initial),
        ),
        d.same_request(&initial),
        d.subranges_wf(),
        d.progress_wf(),
        d.authenticate_step(leaf_log2) == BufferedReadAuthenticateStep::LoadAuthTreeLeafNode(index),
    ensures
        is_index_of(
            translate,
            request_range.begin.index as int,
            align::block_size(auth_tree_data_block_allocation_blocks_log2 as nat),
            d.skipped(),
            index as int,
        ),
        // Only what's been obtained authenticated is skipped over.
        d.authenticated_allocation_blocks_end.index <= d.skipped(),
        d.skipped() != d.authenticated_allocation_blocks_end.index ==> {
            &&& d.authenticated_subrange_from_read_buf matches Some(s)
            &&& d.skipped() == s.end.index
            &&& forall|x: int|
                d.authenticated_allocation_blocks_end.index <= x < d.skipped() && d.request_range.begin.index <= x
                    ==> #[trigger] s.has(x)
        },
{
    d.lemma_ranges_nested();
    law_data_block_indices_follow_translation(
        request_range,
        allocation_block_size_128b_log2,
        auth_tree_data_block_allocation_blocks_log2,
        chip_io_block_size_128b_log2,
        preferred_chip_io_blocks_bulk_log2,
        translate,
        initial,
        d,
        d.skipped(),
    );
}

/// What's authenticated is the data from the very locations of an Authentication Tree
/// Data Block, each one in its place, and for that block's index.
///
/// Unallocated Allocation Blocks are distinguished from those with data.
pub proof fn law_blocks_are_authenticated_by_index<
    F: Fn(PhysicalAllocBlockIndex) -> u64,
    L,
    A: Fn(&L, u64, AuthTreeDataBlockData) -> Result<(), NvFsError>,
>(
    request_range: &PhysicalAllocBlockRange,
    allocation_block_size_128b_log2: u8,
    auth_tree_data_block_allocation_blocks_log2: u8,
    chip_io_block_size_128b_log2: u32,
    preferred_chip_io_blocks_bulk_log2: u32,
    translate: F,
    initial: BufferedReadAuthenticatedDataFutureData,
    d: BufferedReadAuthenticatedDataFutureData,
    authenticate: A,
    leaf: L,
    begin: int,
    r: Result<(), NvFsError>,
)
    requires
        buffered_read::set_up(
            request_range,
            allocation_block_size_128b_log2,
            auth_tree_data_block_allocation_blocks_log2,
            chip_io_block_size_128b_log2,
            preferred_chip_io_blocks_bulk_log2,
            translate,
            Ok(initial),
        ),
        d.same_request(&initial),
        d.auth_tree_data_block_aligned_request_range.begin.index <= begin
            < d.auth_tree_data_block_aligned_request_range.end.index,
        d.block_checked(authenticate, leaf, begin, r),
    ensures
        ({
            let auth_size = align::block_size(auth_tree_data_block_allocation_blocks_log2 as nat);
            exists|index: u64, data: AuthTreeDataBlockData|
                {
                    &&& #[trigger] call_ensures(authenticate, (&leaf, index, data), r)
                    &&& is_index_of(translate, request_range.begin.index as int, auth_size, begin, index as int)
                    &&& data@.len() == auth_size
                    &&& forall|i: int|
                        0 <= i < auth_size ==> {
                            let buf = d.bufs@[begin + i - d.aligned_request_range.begin.index];
                            #[trigger] data@[i] == if buf@.len() == 0 {
                                None
                            } else {
                                Some(buf@)
                            }
                        }
                }
        }),
{
    law_data_block_indices_follow_translation(
        request_range,
        allocation_block_size_128b_log2,
        auth_tree_data_block_allocation_blocks_log2,
        chip_io_block_size_128b_log2,
        preferred_chip_io_blocks_bulk_log2,
        translate,
        initial,
        d,
        begin,
    );
    align::lemma_block_size_pos(auth_tree_data_block_allocation_blocks_log2 as nat);
    let index = d.data_block_index(begin) as u64;
    let data = choose|data: AuthTreeDataBlockData|
        data@ =~= d.block_contents(begin) && #[trigger] call_ensures(authenticate, (&leaf, index, data), r);
    assert(call_ensures(authenticate, (&leaf, index, data), r));
}

/// Data handed out for a location has either been found authentic in its place, for
/// the index of the Authentication Tree Data Block at the location, or it had been
/// obtained for the very same location from the read buffer's authenticated part.
pub proof fn law_returned_data_is_authentic_for_its_location<
    F: Fn(PhysicalAllocBlockIndex) -> u64,
    L,
    A: Fn(&L, u64, AuthTreeDataBlockData) -> Result<(), NvFsError>,
>(
    request_range: &PhysicalAllocBlockRange,
    allocation_block_size_128b_log2: u8,
    auth_tree_data_block_allocation_blocks_log2: u8,
    chip_io_block_size_128b_log2: u32,
    preferred_chip_io_blocks_bulk_log2: u32,
    translate: F,
    initial: BufferedReadAuthenticatedDataFutureData,
    d: BufferedReadAuthenticatedDataFutureData,
    authenticate: A,
    origin: &ReadBuffer,
    data: Seq<Vec<u8>>,
    location: int,
)
    requires
        buffered_read::set_up(
            request_range,
            allocation_block_size_128b_log2,
            auth_tree_data_block_allocation_blocks_log2,
            chip_io_block_size_128b_log2,
            preferred_chip_io_blocks_bulk_log2,
            translate,
            Ok(initial),
        ),
        d.same_request(&initial),
        d.outcome_is_authentic(authenticate, origin, data),
        request_range.begin.index <= location < request_range.end.index,
    ensures
        data.len() == request_range.end.index - request_range.begin.index,
        ({
            let auth_size = align::block_size(auth_tree_data_block_allocation_blocks_log2 as nat);
            let buf = data[location - request_range.begin.index];
            ||| origin.buf.auth_tree_data_block_buf.buffered(location) matches Some(buffered) && (buffered@.len() != 0
                ==> buf == buffered)
            ||| exists|leaf: L, index: u64, block: AuthTreeDataBlockData|
                {
                    &&& #[trigger] call_ensures(authenticate, (&leaf, index, block), Ok::<(), NvFsError>(()))
                    &&& is_index_of(translate, request_range.begin.index as int, auth_size, location, index as int)
                    &&& block@.len() == auth_size
                    &&& block@[location % auth_size] == if buf@.len() == 0 {
                        None
                    } else {
                        Some(buf@)
                    }
                }
        }),
{
    let l = auth_tree_data_block_allocation_blocks_log2 as nat;
    let auth_size = align::block_size(l);
    align::lemma_block_size_pos(l);
    let e = choose|e: BufferedReadAuthenticatedDataFutureData|
        e.same_request(&d) && #[trigger] e.is_outcome(authenticate, origin, data);
    assert(e.request_range.has(location));
    initial.lemma_ranges_nested();
    if !e.in_authenticated_subrange(location) {
        reveal(align::align_down);
        let begin = align::align_down(location, l);
        align::lemma_align_down_bounds(location, l);
        align::lemma_align_down_mono(e.auth_begin(), location, l);
        let leaf = choose|leaf: L| #[trigger] e.block_checked(authenticate, leaf, begin, Ok(()));
        law_blocks_are_authenticated_by_index(
            request_range,
            allocation_block_size_128b_log2,
            auth_tree_data_block_allocation_blocks_log2,
            chip_io_block_size_128b_log2,
            preferred_chip_io_blocks_bulk_log2,
            translate,
            initial,
            e,
            authenticate,
            leaf,
            begin,
            Ok(()),
        );
        let (index, block) = choose|index: u64, block: AuthTreeDataBlockData|
            {
                &&& #[trigger] call_ensures(authenticate, (&leaf, index, block), Ok::<(), NvFsError>(()))
                &&& is_index_of(translate, request_range.begin.index as int, auth_size, begin, index as int)
                &&& block@.len() == auth_size
                &&& forall|i: int|
                    0 <= i < auth_size ==> {
                        let buf = e.bufs@[begin + i - e.aligned_request_range.begin.index];
                        #[trigger] block@[i] == if buf@.len() == 0 {
                            None
                        } else {
                            Some(buf@)
                        }
                    }
            };
        let _ = block@[location % auth_size];
        let first = request_range.begin.index - request_range.begin.index as int % auth_size;
        assert((begin - first) / auth_size == (location - first) / auth_size) by {
            align::lemma_aligned_sum(begin, first, l);
            align::lemma_align_down_unique(location - first, begin - first, l);
            align::lemma_blocks_align_down(location - first, l);
            reveal(align::blocks);
        }
        assert(is_index_of(translate, request_range.begin.index as int, auth_size, location, index as int));
        assert(call_ensures(authenticate, (&leaf, index, block), Ok::<(), NvFsError>(())));
    }
}

/// The read buffer is left alone unless the operation is complete, and the request made
/// next is for the step determined to be next.
pub proof fn law_read_buffer_is_updated_upon_completion_only(
    future: BufferedReadAuthenticateDataFuture,
    d: BufferedReadAuthenticatedDataFutureData,
    location: int,
    leaf_log2: nat,
    old_buffer: &ReadBuffer,
    new_buffer: &ReadBuffer,
    r: BufferedReadAuthenticateDataFuturePoll,
)
    requires
        future.advanced(&d, location, leaf_log2, old_buffer, new_buffer, &r),
    ensures
        !(r matches BufferedReadAuthenticateDataFuturePoll::Ready(Ok(_))) ==> *new_buffer == *old_buffer,
        r is Ready <==> future.fut_state is Done,
        r is Read <==> future.fut_state is ReadSubrangeData,
        r matches BufferedReadAuthenticateDataFuturePoll::LoadAuthTreeLeafNode(index) ==> future.fut_state == (
        BufferedReadAuthenticateDataFutureState::LoadAuthTreeLeafNode { auth_tree_data_block_index: index }),
        r matches BufferedReadAuthenticateDataFuturePoll::Read(request) ==> {
            // All of the buffers are handed over, they're retained otherwise.
            &&& request.bufs == d.bufs
            &&& request.submitted@ == d.bufs@
        },
        r is LoadAuthTreeLeafNode ==> future.d.bufs == d.bufs,
        r matches BufferedReadAuthenticateDataFuturePoll::Ready(Ok(data)) ==> data@
            =~= d.bufs.dst_allocation_blocks_bufs@,
{
}

/// Failure to set up a request is for a reason: it's too long, its unit of reading is not
/// supported, it extends past what's representable, or memory is needed for it, but not
/// available.
pub proof fn law_setup_failures_have_a_reason<F: Fn(PhysicalAllocBlockIndex) -> u64>(
    request_range: &PhysicalAllocBlockRange,
    allocation_block_size_128b_log2: u8,
    auth_tree_data_block_allocation_blocks_log2: u8,
    chip_io_block_size_128b_log2: u32,
    preferred_chip_io_blocks_bulk_log2: u32,
    translate: F,
    r: Result<BufferedReadAuthenticatedDataFutureData, BufferedReadSetupError>,
)
    requires
        request_range.begin.index <= request_range.end.index,
        buffered_read::set_up(
            request_range,
            allocation_block_size_128b_log2,
            auth_tree_data_block_allocation_blocks_log2,
            chip_io_block_size_128b_log2,
            preferred_chip_io_blocks_bulk_log2,
            translate,
            r,
        ),
    ensures
        ({
            let io_log2 = if chip_io_block_size_128b_log2 > allocation_block_size_128b_log2 {
                chip_io_block_size_128b_log2 - allocation_block_size_128b_log2
            } else {
                0
            };
            let len = request_range.end.index - request_range.begin.index;
            let (auth_size, io_size) = (
                align::block_size(auth_tree_data_block_allocation_blocks_log2 as nat),
                align::block_size(io_log2 as nat),
            );
            let end = buffered_read_region_laws::rounded_up(
                buffered_read_region_laws::rounded_up(request_range.end.index as int, auth_size),
                io_size,
            );
            let auth_begin = request_range.begin.index - request_range.begin.index as int % auth_size;
            let begin = auth_begin - auth_begin % io_size;
            let too_long = len > usize::MAX;
            let unsupported = io_log2 > u8::MAX;
            let out_of_range = end > u64::MAX;
            let aligned_too_long = end - begin > usize::MAX;
            &&& (r matches Err(BufferedReadSetupError::BlockOutOfRange)) <==> !too_long && !unsupported && out_of_range
            &&& (r matches Err(BufferedReadSetupError::FsError(NvFsError::Internal))) <==> !too_long && unsupported
            &&& (r matches Err(BufferedReadSetupError::FsError(NvFsError::DimensionsNotSupported))) <==> too_long
                || !unsupported && !out_of_range && aligned_too_long
            &&& r matches Err(BufferedReadSetupError::FsError(e)) ==> e == NvFsError::Internal || e
                == NvFsError::DimensionsNotSupported || e == NvFsError::MemoryAllocationFailure && len > 0
            &&& r matches Ok(d) ==> d.min_io_block_allocation_blocks_log2 == io_log2
        }),
{
    buffered_read_region_laws::law_requests_are_limited_by_their_alignment(
        *request_range,
        auth_tree_data_block_allocation_blocks_log2 as nat,
        crate::transaction::min_read_block_log2(
            chip_io_block_size_128b_log2 as int,
            allocation_block_size_128b_log2 as int,
        ),
    );
}

/// What's requested to be read from storage next is the region determined to be read next.
pub proof fn law_requested_region_is_next_region(
    future: BufferedReadAuthenticateDataFuture,
    d: BufferedReadAuthenticatedDataFutureData,
    location: int,
    leaf_log2: nat,
    old_buffer: &ReadBuffer,
    new_buffer: &ReadBuffer,
    request: BufferedReadAuthenticateDataFutureNvChipReadRequest,
    begin: int,
    end: int,
)
    requires
        d.ranges_wf(),
        d.subranges_wf(),
        d.auth_tree_data_block_aligned_request_range.begin.index <= location,
        future.advanced(
            &d,
            location,
            leaf_log2,
            old_buffer,
            new_buffer,
            &BufferedReadAuthenticateDataFuturePoll::Read(request),
        ),
        d.next_region(location, leaf_log2) == Ok::<Option<(int, int)>, NvFsError>(Some((begin, end))),
    ensures
        ({
            let unit = align::block_size(d.allocation_block_size_128b_log2 as nat);
            &&& request.read_request_allocation_blocks_begin.index == begin
            &&& request.read_request_io_region.physical_begin_128b == begin * unit
            &&& request.read_request_io_region.physical_end_128b == end * unit
            &&& request.read_request_io_region.chunk_size_128b_log2 == d.allocation_block_size_128b_log2
            &&& request.aligned_request_range_allocation_blocks_begin == d.aligned_request_range.begin
            &&& request.authenticated_subrange_from_read_buf == d.authenticated_subrange_from_read_buf
            &&& future.fut_state matches BufferedReadAuthenticateDataFutureState::ReadSubrangeData { read_range, .. }
            &&& read_range.begin.index == begin
            &&& read_range.end.index == end
            &&& future.d.authenticated_allocation_blocks_end == d.authenticated_allocation_blocks_end
        }),
{
    d.law_read_region_bounds(location, leaf_log2);
    d.lemma_ranges_nested();
}

} // verus!
