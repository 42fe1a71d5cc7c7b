//! Relations between a request, the storage regions read for it, and the read buffer.
use crate::align;
use crate::alloc_bitmap::AllocBitmap;
use crate::block_buffer::BlockAllocationBlocksReadBuffer;
use crate::buffered_read;
use crate::buffered_read::BufferedReadAuthenticatedDataFutureData;
use crate::buffered_read_authenticate::BufferedReadAuthenticateStep;
use crate::buffered_read_init;
use crate::buffered_read_request::BufferedReadAuthenticateDataFutureNvChipReadRequest;
use crate::layout::{PhysicalAllocBlockIndex, PhysicalAllocBlockRange};
use crate::read_buffer;
use crate::read_buffer::ReadBuffer;
use vstd::prelude::*;

verus! {

/// A request is extended to the smallest ranges aligned to the Authentication Tree Data
/// Block size, and the unit of reading from storage respectively, containing it.
pub proof fn law_requests_are_extended_minimally<F: Fn(PhysicalAllocBlockIndex) -> u64>(
    request_range: &PhysicalAllocBlockRange,
    allocation_block_size_128b_log2: u8,
    auth_tree_data_block_allocation_blocks_log2: u8,
    chip_io_block_size_128b_log2: u32,
    preferred_chip_io_blocks_bulk_log2: u32,
    translate: F,
    d: BufferedReadAuthenticatedDataFutureData,
)
    requires
        buffered_read::set_up(
            request_range,
            allocation_block_size_128b_log2,
            auth_tree_data_block_allocation_blocks_log2,
            chip_io_block_size_128b_log2,
            preferred_chip_io_blocks_bulk_log2,
            translate,
            Ok(d),
        ),
    ensures
        ({
            let auth_size = align::block_size(auth_tree_data_block_allocation_blocks_log2 as nat);
            let io_size = align::block_size(d.min_io_block_allocation_blocks_log2 as nat);
            let a = d.auth_tree_data_block_aligned_request_range;
            let b = d.aligned_request_range;
            &&& d.request_range == *request_range
            &&& d.auth_tree_data_block_allocation_blocks_log2 == auth_tree_data_block_allocation_blocks_log2
            &&& d.allocation_block_size_128b_log2 == allocation_block_size_128b_log2
            &&& a.begin.index as int % auth_size == 0
            &&& a.end.index as int % auth_size == 0
            &&& a.begin.index <= request_range.begin.index < a.begin.index + auth_size
            &&& request_range.end.index <= a.end.index < request_range.end.index + auth_size
            &&& b.begin.index as int % io_size == 0
            &&& b.end.index as int % io_size == 0
            &&& b.begin.index <= a.begin.index < b.begin.index + io_size
            &&& a.end.index <= b.end.index < a.end.index + io_size
            // Nothing has been authenticated yet.
            &&& d.authenticated_allocation_blocks_end == a.begin
            &&& d.bufs.dst_allocation_blocks_bufs@.len() == request_range.end.index - request_range.begin.index
        }),
{
    reveal(align::align_down);
    align::lemma_align_down_bounds(request_range.begin.index as int, d.auth_log2());
    align::lemma_align_down_bounds(d.auth_begin(), d.io_log2());
}

/// Locations are covered by the same Authentication Tree leaf node exactly if the leaf
/// node covers both the associated Authentication Tree Data Blocks.
pub proof fn law_leaf_nodes_cover_data_blocks(
    d: BufferedReadAuthenticatedDataFutureData,
    covered_data_blocks_per_leaf_node_log2: nat,
    x: int,
    y: int,
)
    requires
        d.ranges_wf(),
        d.auth_tree_data_block_aligned_request_range.begin.index <= x,
        d.auth_tree_data_block_aligned_request_range.begin.index <= y,
    ensures
        d.same_leaf(
            x,
            y,
            d.auth_tree_data_block_allocation_blocks_log2 as nat + covered_data_blocks_per_leaf_node_log2,
        ) <==> d.data_block_index(x) / align::block_size(covered_data_blocks_per_leaf_node_log2) == d.data_block_index(
            y,
        ) / align::block_size(covered_data_blocks_per_leaf_node_log2),
{
    let (l, c) = (d.auth_log2(), covered_data_blocks_per_leaf_node_log2);
    let (a, b) = (d.auth_tree_location(x), d.auth_tree_location(y));
    align::lemma_block_size_pos(l);
    align::lemma_block_size_pos(c);
    align::lemma_block_size_pos(l + c);
    align::lemma_block_size_split(l, l + c);
    align::lemma_blocks_align_down(a, l + c);
    align::lemma_blocks_align_down(b, l + c);
    reveal(align::blocks);
    vstd::arithmetic::div_mod::lemma_div_denominator(a, align::block_size(l), align::block_size(c));
    vstd::arithmetic::div_mod::lemma_div_denominator(b, align::block_size(l), align::block_size(c));
}

/// There's nothing left to read for the current Authentication Tree leaf node only once
/// all data found missing initially, i.e. which there's a buffer for and which has not
/// been obtained from the read buffer, has been read for any of the Authentication Tree
/// Data Blocks it covers.
pub proof fn law_everything_needed_is_read(
    d: BufferedReadAuthenticatedDataFutureData,
    location: int,
    covered_data_blocks_per_leaf_node_log2: nat,
    x: int,
)
    requires
        d.ranges_wf(),
        d.subranges_wf(),
        d.auth_tree_data_block_aligned_request_range.begin.index <= d.authenticated_allocation_blocks_end.index
            <= location <= x < d.auth_tree_data_block_aligned_request_range.end.index,
        d.next_region(
            location,
            d.auth_tree_data_block_allocation_blocks_log2 as nat + covered_data_blocks_per_leaf_node_log2,
        ) matches Ok(None),
        d.bufs@[x - d.aligned_request_range.begin.index]@.len() != 0,
        d.unauthenticated_subrange_from_read_buf matches Some(u) ==> !(u.begin.index <= x < u.end.index),
        d.authenticated_subrange_from_read_buf matches Some(s) ==> {
            let size = align::block_size(d.auth_tree_data_block_allocation_blocks_log2 as nat);
            !(s.begin.index as int / size <= x / size <= (s.end.index - 1) / size)
        },
    ensures
        d.data_block_index(x) / align::block_size(covered_data_blocks_per_leaf_node_log2) != d.data_block_index(
            d.authenticated_allocation_blocks_end.index as int,
        ) / align::block_size(covered_data_blocks_per_leaf_node_log2),
{
    let (l, c) = (d.auth_log2(), covered_data_blocks_per_leaf_node_log2);
    d.lemma_ranges_nested();
    align::lemma_block_size_pos(l);
    match d.authenticated_subrange_from_read_buf {
        Some(s) => {
            lemma_outside_blocks(x, s.begin.index as int, s.end.index - 1, l);
            if s.end == d.request_range.end && x >= s.begin.index {
                // It's past the request, within its last block.
                assert(x >= d.request_end());
                let last = align::align_down(d.request_end() - 1, l);
                align::lemma_align_down_bounds(d.request_end() - 1, l);
                if last + align::block_size(l) < d.auth_end() {
                    align::lemma_aligned_next(last, l);
                    align::lemma_aligned_gap(last + align::block_size(l), d.auth_end(), l);
                }
                align::lemma_align_down_unique(x, last, l);
                align::lemma_blocks_align_down(x, l);
                align::lemma_blocks_align_down(d.request_end() - 1, l);
                reveal(align::blocks);
                assert(false);
            }
        },
        None => {},
    }
    assert(d.needs_read(x));
    d.law_authentication_batch_is_complete(location, l + c, x);
    law_leaf_nodes_cover_data_blocks(d, c, x, d.authenticated_allocation_blocks_end.index as int);
}

proof fn lemma_outside_blocks(x: int, first: int, last: int, log2: nat)
    requires
        first <= last,
        ({
            let size = align::block_size(log2);
            !(first / size <= x / size <= last / size)
        }),
    ensures
        !(first <= x <= last),
{
    align::lemma_block_size_pos(log2);
    let size = align::block_size(log2);
    if first <= x <= last {
        vstd::arithmetic::div_mod::lemma_div_is_ordered(first, x, size);
        vstd::arithmetic::div_mod::lemma_div_is_ordered(x, last, size);
    }
}

/// No data needed is left out in front of the next region to read, and that region is
/// not extended across any preferred IO block boundary, nor into another leaf node's
/// coverage, nor to IO blocks with nothing to read in them.
pub proof fn law_regions_are_read_as_needed(
    d: BufferedReadAuthenticatedDataFutureData,
    location: int,
    leaf_log2: nat,
    begin: int,
    end: int,
)
    requires
        d.ranges_wf(),
        d.subranges_wf(),
        d.auth_tree_data_block_aligned_request_range.begin.index <= location,
        d.next_region(location, leaf_log2) == Ok::<Option<(int, int)>, crate::fs::NvFsError>(Some((begin, end))),
    ensures
        ({
            let io_size = align::block_size(d.min_io_block_allocation_blocks_log2 as nat);
            let bulk_size = align::block_size(d.preferred_chip_io_bulk_allocation_blocks_log2 as nat);
            // There's something needed in the region's first IO block.
            &&& exists|x: int|
                location <= x && begin <= x < begin + io_size && #[trigger] is_to_be_read(d, x)
                    && !d.in_unauthenticated_subrange(x) && d.same_leaf(
                    x,
                    d.authenticated_allocation_blocks_end.index as int,
                    leaf_log2,
                )
            // And there's nothing needed in front of it.
            &&& forall|x: int|
                location <= x < begin && x < d.auth_end() && #[trigger] is_to_be_read(d, x)
                    ==> d.in_unauthenticated_subrange(x)
            // Any other IO block is read for a reason.
            &&& forall|y: int|
                begin < y < end && #[trigger] align::aligned(y, d.min_io_block_allocation_blocks_log2 as nat) ==> {
                    &&& y / bulk_size == begin / bulk_size
                    &&& d.same_leaf(y, d.authenticated_allocation_blocks_end.index as int, leaf_log2)
                    &&& exists|x: int| y <= x < y + io_size && #[trigger] is_to_be_read(d, x)
                    &&& d.unauthenticated_subrange_from_read_buf matches Some(u) ==> u.begin.index != y
                }
        }),
{
    let m = d.io_log2();
    d.lemma_next_needed(location);
    d.lemma_ranges_nested();
    let needed = d.next_needed(location)->Some_0;
    d.lemma_io_block_bounds(needed);
    align::lemma_block_size_pos(m);
    assert(is_to_be_read(d, needed));
    assert forall|x: int|
        location <= x < begin && x < d.auth_end() && #[trigger] is_to_be_read(d, x) implies d.in_unauthenticated_subrange(
        x,
    ) by {
        assert(!d.needs_read(x));
    }
    lemma_region_extended_as_needed(d, begin, begin + align::block_size(m), leaf_log2);
    assert forall|y: int| begin < y < end && #[trigger] align::aligned(y, m) implies {
        &&& y / align::block_size(d.preferred_chip_io_bulk_allocation_blocks_log2 as nat) == begin / align::block_size(
            d.preferred_chip_io_bulk_allocation_blocks_log2 as nat,
        )
        &&& d.same_leaf(y, d.authenticated_allocation_blocks_end.index as int, leaf_log2)
        &&& exists|x: int| y <= x < y + align::block_size(m) && #[trigger] is_to_be_read(d, x)
        &&& d.unauthenticated_subrange_from_read_buf matches Some(u) ==> u.begin.index != y
    } by {
        align::lemma_aligned_gap(begin, y, m);
        assert(d.extends_region(begin, y, leaf_log2));
        lemma_same_quotient(y, begin, d.preferred_chip_io_bulk_allocation_blocks_log2 as nat);
        let x = choose|x: int|
            y <= x < y + align::block_size(m) && x < d.io_end() && d.buf_at(x)@.len() != 0
                && !#[trigger] d.in_authenticated_subrange(x);
        assert(is_to_be_read(d, x));
    }
}

/// There's a buffer to read into for a location.
pub open spec fn is_to_be_read(d: BufferedReadAuthenticatedDataFutureData, x: int) -> bool {
    &&& d.bufs@[x - d.aligned_request_range.begin.index]@.len() != 0
    &&& d.authenticated_subrange_from_read_buf matches Some(s) ==> !(s.begin.index <= x < s.end.index)
}

proof fn lemma_same_quotient(x: int, y: int, log2: nat)
    requires
        align::same_block(x, y, log2),
    ensures
        x / align::block_size(log2) == y / align::block_size(log2),
{
    align::lemma_blocks_align_down(x, log2);
    align::lemma_blocks_align_down(y, log2);
    reveal(align::blocks);
}

proof fn lemma_region_extended_as_needed(
    d: BufferedReadAuthenticatedDataFutureData,
    begin: int,
    end: int,
    leaf_log2: nat,
)
    requires
        align::aligned(end, d.io_log2()),
    ensures
        forall|y: int|
            end <= y < d.region_end(begin, end, leaf_log2) && #[trigger] align::aligned(y, d.io_log2())
                ==> d.extends_region(begin, y, leaf_log2),
    decreases
            if end < d.io_end() {
                d.io_end() - end
            } else {
                0
            },
{
    let m = d.io_log2();
    align::lemma_block_size_pos(m);
    if d.extends_region(begin, end, leaf_log2) {
        align::lemma_aligned_next(end, m);
        lemma_region_extended_as_needed(d, begin, end + align::block_size(m), leaf_log2);
        assert forall|y: int|
            end <= y < d.region_end(begin, end, leaf_log2) && #[trigger] align::aligned(y, m) implies d.extends_region(
            begin,
            y,
            leaf_log2,
        ) by {
            if y != end {
                align::lemma_aligned_gap(end, y, m);
            }
        }
    }
}

/// Any Authentication Tree Data Block getting authenticated is complete, i.e. there's a
/// buffer for any allocated Allocation Block in it.
pub proof fn law_blocks_to_authenticate_are_complete(
    d: BufferedReadAuthenticatedDataFutureData,
    alloc_bitmap: &AllocBitmap,
    x: int,
)
    requires
        d.ranges_wf(),
        d.subranges_wf(),
        d.tracks_allocations(alloc_bitmap),
        d.auth_tree_data_block_aligned_request_range.begin.index <= x
            < d.auth_tree_data_block_aligned_request_range.end.index,
        d.authenticated_subrange_from_read_buf matches Some(s) ==> {
            let size = align::block_size(d.auth_tree_data_block_allocation_blocks_log2 as nat);
            !(s.begin.index as int / size <= x / size <= (s.end.index - 1) / size)
        },
        alloc_bitmap.allocated(x),
    ensures
        d.bufs@[x - d.aligned_request_range.begin.index]@.len() != 0,
{
    let (l, m) = (d.auth_log2(), d.io_log2());
    let size = align::block_size(l);
    d.lemma_ranges_nested();
    align::lemma_block_size_pos(l);
    align::lemma_align_down_bounds(d.request_begin(), l);
    align::lemma_align_down_bounds(d.request_end() - 1, l);
    if x < d.request_begin() {
        align::lemma_align_down_unique(x, d.auth_begin(), l);
        align::lemma_align_down_unique(d.request_begin(), d.auth_begin(), l);
        lemma_same_quotient(x, d.request_begin(), l);
    }
    if x >= d.request_end() {
        let last = align::align_down(d.request_end() - 1, l);
        if last + size < d.auth_end() {
            align::lemma_aligned_next(last, l);
            align::lemma_aligned_gap(last + size, d.auth_end(), l);
        }
        align::lemma_align_down_unique(x, last, l);
        lemma_same_quotient(x, d.request_end() - 1, l);
    }
    match d.authenticated_subrange_from_read_buf {
        Some(s) => {
            vstd::arithmetic::div_mod::lemma_div_is_ordered(s.begin.index as int, s.end.index - 1, size);
        },
        None => {},
    }
    match d.unauthenticated_subrange_from_read_buf {
        Some(u) => {
            if x < d.request_begin() && u.begin.index == d.auth_begin() && !u.has(x) {
                // The subrange extends up to some IO block boundary, but not beyond the block.
                align::lemma_aligned_finer(u.end.index as int, l, m);
                align::lemma_aligned_gap(d.auth_begin(), u.end.index as int, l);
                assert(false);
            }
            if x >= d.request_end() && u.end.index == d.auth_end() && !u.has(x) {
                align::lemma_aligned_finer(u.begin.index as int, l, m);
                let last = align::align_down(d.request_end() - 1, l);
                if u.begin.index != d.auth_begin() {
                    assert(last < u.begin.index);
                    align::lemma_aligned_gap(last, u.begin.index as int, l);
                }
                assert(false);
            }
        },
        None => {},
    }
    assert(d.is_used(x) || d.in_unauthenticated_subrange(x));
}

/// Chunks of a read request are associated with the locations to read, and data is
/// stored to the location's own buffer, if any.
pub proof fn law_chunks_are_read_to_own_buffers(
    d: BufferedReadAuthenticatedDataFutureData,
    request: BufferedReadAuthenticateDataFutureNvChipReadRequest,
    read_range: PhysicalAllocBlockRange,
    chunk: int,
)
    requires
        d.request_set_up(&request, read_range),
        0 <= chunk < read_range.end.index - read_range.begin.index,
    ensures
        ({
            let unit = align::block_size(d.allocation_block_size_128b_log2 as nat);
            let location = read_range.begin.index + chunk;
            &&& request.location(chunk) == location
            &&& request.read_request_io_region.chunk_size_128b_log2 == d.allocation_block_size_128b_log2
            &&& request.read_request_io_region.physical_begin_128b + chunk * unit == location * unit
            &&& request.read_request_io_region.physical_end_128b - request.read_request_io_region.physical_begin_128b
                == (read_range.end.index - read_range.begin.index) * unit
            // Nothing obtained authenticated is overwritten, and nothing is read without a buffer.
            &&& request.submitted@ == d.bufs@ ==> (request.reads(location) <==> 0 <= location
                - d.aligned_request_range.begin.index < d.bufs@.len() && is_to_be_read(d, location))
        }),
{
    let unit = align::block_size(d.allocation_block_size_128b_log2 as nat);
    let (a, b) = (read_range.begin.index as int, read_range.end.index as int);
    assert((a + chunk) * unit == a * unit + chunk * unit) by (nonlinear_arith);
    assert((b - a) * unit == b * unit - a * unit) by (nonlinear_arith);
}

/// Whatever is obtained for a location from the read buffer is what had been buffered for
/// that very location, and it's not in the read buffer anymore thereafter. Anything else
/// remains there.
pub proof fn law_buffered_data_is_obtained_by_location(
    old_d: BufferedReadAuthenticatedDataFutureData,
    d: BufferedReadAuthenticatedDataFutureData,
    old_buffer: &ReadBuffer,
    new_buffer: &ReadBuffer,
    x: int,
)
    requires
        old_d.ranges_wf(),
        d.buffered_data_obtained(&old_d, old_buffer, new_buffer),
    ensures
        ({
            let (old_auth, new_auth) = (
                old_buffer.buf.auth_tree_data_block_buf,
                new_buffer.buf.auth_tree_data_block_buf,
            );
            let (old_io, new_io) = (old_buffer.buf.min_io_block_buf, new_buffer.buf.min_io_block_buf);
            let buf = d.bufs@[x - d.aligned_request_range.begin.index];
            &&& d.aligned_request_range.has(x) ==> buf@.len() == 0 || old_auth.buffered(x) == Some(buf)
                || old_io.buffered(x) == Some(buf)
            &&& (d.authenticated_subrange_from_read_buf matches Some(s) && s.begin.index <= x < s.end.index) ==> {
                &&& old_auth.buffered(x) == Some(buf)
                &&& new_auth.buffered(x) is None
                &&& d.request_range.has(x)
            }
            &&& (d.unauthenticated_subrange_from_read_buf matches Some(u) && u.begin.index <= x < u.end.index) ==> {
                &&& old_io.buffered(x) == Some(buf)
                &&& new_io.buffered(x) is None
                &&& d.auth_tree_data_block_aligned_request_range.has(x)
            }
            &&& new_auth.buffered(x) is None || new_auth.buffered(x) == old_auth.buffered(x)
            &&& new_io.buffered(x) is None || new_io.buffered(x) == old_io.buffered(x)
            &&& !d.request_range.has(x) ==> new_auth.buffered(x) == old_auth.buffered(x)
            &&& !d.auth_tree_data_block_aligned_request_range.has(x) ==> new_io.buffered(x) == old_io.buffered(x)
            // What remains for a location has not been handed out.
            &&& d.aligned_request_range.has(x) && buf@.len() != 0 ==> new_auth.buffered(x) is None || new_io.buffered(
                x,
            ) is None
        }),
{
    old_d.lemma_ranges_nested();
    if d.aligned_request_range.has(x) {
        assert(old_d.obtained(old_buffer, x, d.buf_at(x)));
    }
    let _ = new_buffer.buf.auth_tree_data_block_buf.buffered(x);
    let _ = new_buffer.buf.min_io_block_buf.buffered(x);
    match d.authenticated_subrange_from_read_buf {
        Some(s) => {
            if s.has(x) {
                assert(old_d.aligned_request_range.has(x));
            }
        },
        None => {},
    }
    match d.unauthenticated_subrange_from_read_buf {
        Some(u) => {
            if u.has(x) {
                assert(old_d.aligned_request_range.has(x));
            }
        },
        None => {},
    }
}

/// A request is served from the read buffer's authenticated part if all of it is found
/// there.
pub proof fn law_authenticated_data_is_served_from_buffer(d: BufferedReadAuthenticatedDataFutureData, buffer: &ReadBuffer)
    requires
        d.request_range.begin.index < d.request_range.end.index,
        buffer.wf(),
        forall|x: int| #[trigger]
            d.request_range.has(x) ==> buffer.buf.auth_tree_data_block_buf.buffered(x) is Some,
    ensures
        d.authenticated_found(buffer) == Some(d.request_range),
{
    let a = buffer.buf.auth_tree_data_block_buf;
    assert(d.request_range.has(d.request_begin()));
    assert(d.request_range.has(d.request_end() - 1));
    assert(read_buffer::any_buffered(&a, d.request_range));
}

/// Unused parts of the last Authentication Tree Data Block, or else the first one, are
/// buffered as authenticated upon completion, each under its own location. Nothing from
/// the request itself is.
pub proof fn law_authenticated_padding_is_buffered(
    d: BufferedReadAuthenticatedDataFutureData,
    old_buffer: &ReadBuffer,
    new_buffer: &ReadBuffer,
    x: int,
)
    requires
        d.ranges_wf(),
        d.subranges_wf(),
        d.matches_buffer(old_buffer),
        d.padding_inserted(old_buffer, new_buffer),
    ensures
        ({
            let size = align::block_size(d.auth_tree_data_block_allocation_blocks_log2 as nat);
            let a = d.auth_tree_data_block_aligned_request_range;
            let buf = d.bufs@[x - d.aligned_request_range.begin.index];
            let (old_auth, new_auth) = (
                old_buffer.buf.auth_tree_data_block_buf,
                new_buffer.buf.auth_tree_data_block_buf,
            );
            // Either there's no change or everything buffered is from the request's padding.
            &&& new_auth == old_auth || (new_auth.buffered(x) matches Some(data) ==> data == buf && a.has(x)
                && !d.request_range.has(x))
            &&& d.authenticated_subrange_from_read_buf is None && d.request_range.end.index <= x < a.end.index
                ==> new_auth.buffered(x) == Some(buf)
            &&& d.authenticated_subrange_from_read_buf is None && a.begin.index <= x < d.request_range.begin.index && (
            d.request_range.end == a.end || a.end.index - a.begin.index == size) ==> new_auth.buffered(x) == Some(buf)
        }),
{
    let l = d.auth_log2();
    let size = align::block_size(l);
    d.lemma_ranges_nested();
    vstd::arithmetic::power2::lemma2_to64();
    align::lemma_block_size_pos(l);
    align::lemma_align_down_bounds(d.request_begin(), l);
    let _ = new_buffer.buf.auth_tree_data_block_buf.buffered(x);
    align::lemma_align_down_unique(d.auth_begin(), d.auth_begin(), l);
    if d.auth_begin() <= x < d.request_begin() {
        align::lemma_align_down_unique(x, d.auth_begin(), l);
    }
    if d.request_end() < d.auth_end() {
        align::lemma_aligned_next(d.auth_end(), l);
        let last = d.auth_end() - size;
        align::lemma_align_down_unique(d.request_end(), last, l);
        if d.request_end() <= x < d.auth_end() {
            align::lemma_align_down_unique(x, last, l);
        }
    }
    if l == 0 {
        assert(size == 1);
    }
}

/// Anything else read in excess of the request is buffered as unauthenticated upon
/// completion if reading is in larger units than authentication, each under its own
/// location, the part following the request taking precedence.
pub proof fn law_unauthenticated_padding_is_buffered(
    d: BufferedReadAuthenticatedDataFutureData,
    old_buffer: &ReadBuffer,
    new_buffer: &ReadBuffer,
    x: int,
)
    requires
        d.ranges_wf(),
        d.subranges_wf(),
        d.matches_buffer(old_buffer),
        d.padding_inserted(old_buffer, new_buffer),
    ensures
        ({
            let (auth_size, io_size) = (
                align::block_size(d.auth_tree_data_block_allocation_blocks_log2 as nat),
                align::block_size(d.min_io_block_allocation_blocks_log2 as nat),
            );
            let (a, b) = (d.auth_tree_data_block_aligned_request_range, d.aligned_request_range);
            let buf = d.bufs@[x - b.begin.index];
            let (old_io, new_io) = (old_buffer.buf.min_io_block_buf, new_buffer.buf.min_io_block_buf);
            &&& new_io == old_io || (new_io.buffered(x) matches Some(data) ==> data == buf && b.has(x)
                && !d.request_range.has(x))
            &&& new_io != old_io ==> io_size > auth_size
            &&& d.authenticated_subrange_from_read_buf is None && d.unauthenticated_subrange_from_read_buf is None
                && io_size > auth_size && buf@.len() != 0 && a.end.index <= x < b.end.index ==> new_io.buffered(x)
                == Some(buf)
            &&& d.authenticated_subrange_from_read_buf is None && d.unauthenticated_subrange_from_read_buf is None
                && io_size > auth_size && buf@.len() != 0 && b.begin.index <= x < a.begin.index && (d.request_range.end
                == b.end || b.end.index - b.begin.index == io_size) ==> new_io.buffered(x) == Some(buf)
        }),
{
    let (l, m) = (d.auth_log2(), d.io_log2());
    let (auth_size, io_size) = (align::block_size(l), align::block_size(m));
    d.lemma_ranges_nested();
    align::lemma_block_size_pos(l);
    align::lemma_block_size_pos(m);
    align::lemma_align_down_bounds(d.auth_begin(), m);
    let _ = new_buffer.buf.min_io_block_buf.buffered(x);
    if m > l {
        align::lemma_block_size_split(l, m);
        vstd::arithmetic::power2::lemma_pow2_strictly_increases(l, m);
    } else {
        align::lemma_block_size_split(m, l);
    }
    align::lemma_align_down_unique(d.io_begin(), d.io_begin(), m);
    if d.io_begin() <= x < d.io_begin() + io_size {
        align::lemma_align_down_unique(x, d.io_begin(), m);
    }
    if m > l && d.request_end() < d.io_end() {
        // The remainder following the request is within a single IO block, if its first part
        // is.
        align::lemma_aligned_next(d.io_end(), m);
        let last = d.io_end() - io_size;
        align::lemma_aligned_finer(last, l, m);
        if d.request_end() < last {
            align::lemma_aligned_gap(last, d.auth_end(), l);
            assert(false);
        }
        align::lemma_align_down_unique(d.request_end(), last, m);
        if d.request_end() <= x < d.io_end() {
            align::lemma_align_down_unique(x, last, m);
        }
    }
    if d.is_remaining(x) && d.buf_at(x)@.len() != 0 {
        if x >= d.request_end() {
            assert(d.any_remaining_allocated(d.request_end(), d.io_end()));
        } else if x < d.request_begin() {
            assert(d.any_remaining_allocated(d.io_begin(), d.request_begin()));
        }
    }
}

/// Buffers are allocated exactly for the allocated Allocation Blocks missing one, unless
/// not needed, and each is of the Allocation Block size. What's been obtained from the
/// read buffer is retained.
pub proof fn law_buffers_are_allocated_as_needed(
    old_d: BufferedReadAuthenticatedDataFutureData,
    d: BufferedReadAuthenticatedDataFutureData,
    alloc_bitmap: &AllocBitmap,
    x: int,
)
    requires
        d.bufs_allocated(&old_d, alloc_bitmap),
        old_d.aligned_request_range.has(x),
    ensures
        ({
            let (old_buf, buf) = (
                old_d.bufs@[x - old_d.aligned_request_range.begin.index],
                d.bufs@[x - old_d.aligned_request_range.begin.index],
            );
            &&& old_buf@.len() != 0 ==> buf == old_buf
            &&& old_buf@.len() == 0 && !alloc_bitmap.allocated(x) ==> buf@.len() == 0
            &&& old_buf@.len() == 0 && buf@.len() != 0 ==> buf@.len() == 128 * align::block_size(
                old_d.allocation_block_size_128b_log2 as nat,
            )
            &&& alloc_bitmap.allocated(x) && old_d.request_range.has(x) ==> buf@.len() != 0
            // The alignment padding is not needed in case the data next to it is from the read buffer.
            &&& (old_d.unauthenticated_subrange_from_read_buf matches Some(u) && u.begin
                == old_d.auth_tree_data_block_aligned_request_range.begin && x < old_d.request_range.begin.index)
                ==> buf == old_buf
            &&& (old_d.unauthenticated_subrange_from_read_buf matches Some(u) && u.end
                == old_d.auth_tree_data_block_aligned_request_range.end && x >= old_d.request_range.end.index)
                ==> buf == old_buf
            &&& (old_d.authenticated_subrange_from_read_buf matches Some(s) && s.begin == old_d.request_range.begin
                && s.end.index as int % align::block_size(old_d.min_io_block_allocation_blocks_log2 as nat) == 0 && x
                < old_d.request_range.begin.index) ==> buf == old_buf
            &&& (old_d.authenticated_subrange_from_read_buf matches Some(s) && s.end == old_d.request_range.end
                && s.begin.index as int % align::block_size(old_d.min_io_block_allocation_blocks_log2 as nat) == 0 && x
                >= old_d.request_range.end.index) ==> buf == old_buf
            // Otherwise it's needed.
            &&& old_d.unauthenticated_subrange_from_read_buf is None && old_d.authenticated_subrange_from_read_buf
                is None && alloc_bitmap.allocated(x) ==> buf@.len() != 0
        }),
{
    assert(d.buf_allocated_at(&old_d, alloc_bitmap, x));
    reveal(align::align_down);
    let n = old_d.allocation_block_size_128b_log2 as nat;
    align::lemma_block_size_pos(n + 7);
    align::lemma_block_size_split(n, n + 7);
    vstd::arithmetic::power2::lemma2_to64();
    assert(align::block_size(7) == 128);
    assert(align::block_size(n) * 128 == 128 * align::block_size(n));
}

/// A batch of data to authenticate ends where the request or the coverage of the
/// Authentication Tree leaf node does, whichever is first. Everything in between is
/// covered by that leaf node or had been obtained authenticated from the read buffer.
pub proof fn law_batches_extend_to_the_leaf_node_coverage(
    d: BufferedReadAuthenticatedDataFutureData,
    begin: int,
    leaf_log2: nat,
)
    requires
        d.ranges_wf(),
        d.subranges_wf(),
        d.auth_tree_data_block_aligned_request_range.begin.index <= begin < d.request_range.end.index,
        align::aligned(begin, d.auth_tree_data_block_allocation_blocks_log2 as nat),
        leaf_log2 >= d.auth_tree_data_block_allocation_blocks_log2,
    ensures
        ({
            let end = d.batch_end(begin, leaf_log2);
            &&& begin < end
            &&& end >= d.request_range.end.index || !d.same_leaf(begin, end, leaf_log2)
            &&& forall|x: int|
                begin <= x < end && #[trigger] align::aligned(x, d.auth_tree_data_block_allocation_blocks_log2 as nat)
                    ==> d.same_leaf(begin, x, leaf_log2) || (d.authenticated_subrange_from_read_buf matches Some(s)
                    && s.begin.index == x)
        }),
    decreases d.request_range.end.index - begin,
{
    let l = d.auth_log2();
    let size = align::block_size(l);
    let next = d.after_block(begin);
    d.lemma_ranges_nested();
    align::lemma_block_size_pos(l);
    d.lemma_batch_end(begin, leaf_log2);
    align::lemma_aligned_next(begin, l);
    assert forall|x: int| begin <= x < next && #[trigger] align::aligned(x, l) implies x == begin || (
    d.authenticated_subrange_from_read_buf matches Some(s) && s.begin.index == x) by {
        if x > begin {
            align::lemma_aligned_gap(begin, x, l);
            if x > begin + size {
                align::lemma_aligned_gap(begin + size, x, l);
                let s = d.authenticated_subrange_from_read_buf->Some_0;
                align::lemma_align_down_unique(begin + size, begin + size, l);
                align::lemma_align_down_bounds(s.end.index - 1, l);
                assert(false);
            }
        }
    }
    if !(next >= d.request_end() || !d.same_leaf(begin, next, leaf_log2)) {
        match d.authenticated_subrange_from_read_buf {
            Some(s) => {
                assert(align::aligned(next, l));
            },
            None => {},
        }
        law_batches_extend_to_the_leaf_node_coverage(d, next, leaf_log2);
    }
}

/// Regions to read are extended as far as possible: the next IO block would either be in
/// another preferred IO block, or not be covered by the same leaf node anymore, had been
/// obtained from the read buffer already or does not have anything to be read.
pub proof fn law_regions_extend_as_far_as_possible(
    d: BufferedReadAuthenticatedDataFutureData,
    location: int,
    leaf_log2: nat,
    begin: int,
    end: int,
    x: int,
)
    requires
        d.ranges_wf(),
        d.subranges_wf(),
        d.auth_tree_data_block_aligned_request_range.begin.index <= location,
        d.next_region(location, leaf_log2) == Ok::<Option<(int, int)>, crate::fs::NvFsError>(Some((begin, end))),
        end <= x < end + align::block_size(d.min_io_block_allocation_blocks_log2 as nat),
        x < d.aligned_request_range.end.index,
        is_to_be_read(d, x),
    ensures
        ({
            let bulk_size = align::block_size(d.preferred_chip_io_bulk_allocation_blocks_log2 as nat);
            ||| end / bulk_size != begin / bulk_size
            ||| !d.same_leaf(end, d.authenticated_allocation_blocks_end.index as int, leaf_log2)
            ||| d.unauthenticated_subrange_from_read_buf matches Some(u) && u.begin.index == end
        }),
{
    let m = d.io_log2();
    d.lemma_next_needed(location);
    lemma_region_ends(d, begin, begin + align::block_size(m), leaf_log2);
    let n = d.preferred_chip_io_bulk_allocation_blocks_log2 as nat;
    align::lemma_blocks_align_down(begin, n);
    align::lemma_blocks_align_down(end, n);
    reveal(align::blocks);
    assert(!d.in_authenticated_subrange(x));
    assert(d.io_block_needs_read(end));
}

proof fn lemma_region_ends(d: BufferedReadAuthenticatedDataFutureData, begin: int, end: int, leaf_log2: nat)
    ensures
        !d.extends_region(begin, d.region_end(begin, end, leaf_log2), leaf_log2),
    decreases
            if end < d.io_end() {
                d.io_end() - end
            } else {
                0
            },
{
    align::lemma_block_size_pos(d.io_log2());
    if d.extends_region(begin, end, leaf_log2) {
        lemma_region_ends(d, begin, end + align::block_size(d.io_log2()), leaf_log2);
    }
}

/// A leaf node is loaded only once all data found missing initially has been read for any
/// of the Authentication Tree Data Blocks to be authenticated by it.
pub proof fn law_leaf_nodes_are_loaded_once_data_is_read(
    d: BufferedReadAuthenticatedDataFutureData,
    location: int,
    covered_data_blocks_per_leaf_node_log2: nat,
    x: int,
)
    requires
        d.ranges_wf(),
        d.subranges_wf(),
        d.auth_tree_data_block_aligned_request_range.begin.index <= d.authenticated_allocation_blocks_end.index
            <= location <= x < d.auth_tree_data_block_aligned_request_range.end.index,
        align::aligned(
            d.authenticated_allocation_blocks_end.index as int,
            d.auth_tree_data_block_allocation_blocks_log2 as nat,
        ) || d.authenticated_allocation_blocks_end == d.request_range.end,
        d.bufs@[x - d.aligned_request_range.begin.index]@.len() != 0,
        d.unauthenticated_subrange_from_read_buf matches Some(u) ==> !(u.begin.index <= x < u.end.index),
        d.authenticated_subrange_from_read_buf matches Some(s) ==> {
            let size = align::block_size(d.auth_tree_data_block_allocation_blocks_log2 as nat);
            !(s.begin.index as int / size <= x / size <= (s.end.index - 1) / size)
        },
    ensures
        ({
            let (next, step) = d.next_step(
                location,
                d.auth_tree_data_block_allocation_blocks_log2 as nat + covered_data_blocks_per_leaf_node_log2,
            );
            let covered = align::block_size(covered_data_blocks_per_leaf_node_log2);
            step is LoadAuthTreeLeafNode ==> d.data_block_index(x) / covered != d.data_block_index(next) / covered
        }),
    decreases
            d.auth_tree_data_block_aligned_request_range.end.index - d.authenticated_allocation_blocks_end.index,
{
    let (l, c) = (d.auth_log2(), covered_data_blocks_per_leaf_node_log2);
    let (authenticated, next) = (d.authenticated_end(), d.skipped());
    d.lemma_ranges_nested();
    align::lemma_block_size_pos(l);
    match d.next_region(location, l + c) {
        Ok(None) => {
            law_everything_needed_is_read(d, location, c, x);
            if next != authenticated {
                let s = d.authenticated_subrange_from_read_buf->Some_0;
                lemma_outside_blocks(x, s.begin.index as int, s.end.index - 1, l);
                match d.authenticate_step(l + c) {
                    BufferedReadAuthenticateStep::PrepareNextSubrangeDataRead => {
                        let e = d.with_authenticated_end(next);
                        if authenticated < next <= d.auth_end() && next <= u64::MAX {
                            if x < next {
                                // It's from the same block.
                                align::lemma_align_down_bounds(s.begin.index as int, l);
                                if authenticated == d.auth_begin() {
                                    align::lemma_align_down_mono(d.auth_begin(), s.begin.index as int, l);
                                    align::lemma_align_down_bounds(d.request_begin(), l);
                                }
                                if x < s.begin.index {
                                    align::lemma_align_down_unique(x, d.auth_begin(), l);
                                    align::lemma_align_down_unique(s.begin.index as int, d.auth_begin(), l);
                                    lemma_same_quotient(x, s.begin.index as int, l);
                                    let size = align::block_size(l);
                                    vstd::arithmetic::div_mod::lemma_div_is_ordered(
                                        s.begin.index as int,
                                        s.end.index - 1,
                                        size,
                                    );
                                }
                                assert(false);
                            }
                            assert(e.ranges_wf() && e.subranges_wf());
                            law_leaf_nodes_are_loaded_once_data_is_read(e, next, c, x);
                            assert(e.data_block_index(x) == d.data_block_index(x));
                        }
                    },
                    BufferedReadAuthenticateStep::LoadAuthTreeLeafNode(_) => {
                        // What's been skipped over is covered by the same leaf node.
                        assert(d.same_leaf(s.begin.index as int, s.end.index as int, l + c));
                        law_leaf_nodes_cover_data_blocks(d, c, s.begin.index as int, s.end.index as int);
                        if authenticated != s.begin.index {
                            align::lemma_align_down_bounds(d.request_begin(), l);
                            lemma_same_data_block(d, authenticated, s.begin.index as int);
                        }
                    },
                    BufferedReadAuthenticateStep::Finish => {},
                }
            }
        },
        _ => {},
    }
}

/// Locations in the request's first Authentication Tree Data Block have a common index.
proof fn lemma_same_data_block(d: BufferedReadAuthenticatedDataFutureData, x: int, y: int)
    requires
        d.ranges_wf(),
        x == d.auth_begin(),
        x <= y < x + align::block_size(d.auth_log2()),
    ensures
        d.data_block_index(x) == d.data_block_index(y),
{
    let l = d.auth_log2();
    let base = d.request_range_auth_tree_data_allocation_blocks_begin as int;
    align::lemma_block_size_pos(l);
    align::lemma_align_down_unique(d.auth_tree_location(x), base, l);
    align::lemma_align_down_unique(d.auth_tree_location(y), base, l);
    align::lemma_blocks_align_down(d.auth_tree_location(x), l);
    align::lemma_blocks_align_down(d.auth_tree_location(y), l);
}

/// The smallest multiple of a block size not less than some value.
pub open spec fn rounded_up(x: int, size: int) -> int {
    if x % size == 0 {
        x
    } else {
        x - x % size + size
    }
}

/// A request is out of range exactly if its end, rounded up to the Authentication Tree
/// Data Block size and the unit of reading next, is not representable. Otherwise it's not
/// supported exactly if there are too many Allocation Blocks in the so aligned range.
pub proof fn law_requests_are_limited_by_their_alignment(request_range: PhysicalAllocBlockRange, auth_log2: nat, io_log2: nat)
    requires
        request_range.begin.index <= request_range.end.index,
    ensures
        ({
            let (auth_size, io_size) = (align::block_size(auth_log2), align::block_size(io_log2));
            let end = rounded_up(rounded_up(request_range.end.index as int, auth_size), io_size);
            let auth_begin = request_range.begin.index - request_range.begin.index as int % auth_size;
            let begin = auth_begin - auth_begin % io_size;
            &&& buffered_read::out_of_range(request_range, auth_log2, io_log2) <==> end > u64::MAX
            &&& end <= u64::MAX ==> (buffered_read::dimensions_unsupported(request_range, auth_log2, io_log2) <==> end
                - begin > usize::MAX)
        }),
{
    reveal(align::align_down);
    let (l, m) = (auth_log2, io_log2);
    let (auth_size, io_size) = (align::block_size(l), align::block_size(m));
    let (rb, re) = (request_range.begin.index as int, request_range.end.index as int);
    align::lemma_block_size_pos(l);
    align::lemma_block_size_pos(m);
    let ae = rounded_up(re, auth_size);
    let ab = rb - rb % auth_size;
    let ie = rounded_up(ae, io_size);
    let ib = ab - ab % io_size;
    align::lemma_align_down_bounds(rb, l);
    align::lemma_align_down_bounds(re, l);
    align::lemma_align_down_bounds(ab, m);
    align::lemma_align_down_bounds(ae, m);
    align::lemma_aligned_next(align::align_down(re, l), l);
    align::lemma_aligned_next(align::align_down(ae, m), m);
    align::lemma_aligned_unit(l);
    align::lemma_aligned_unit(m);
    // The ranges are uniquely determined.
    assert forall|a: PhysicalAllocBlockRange| #[trigger]
        buffered_read::aligned_range(request_range, l, a) implies a.begin.index == ab && a.end.index == ae by {
        if a.end.index < ae {
            align::lemma_aligned_gap(a.end.index as int, ae, l);
        }
        if a.end.index > ae {
            align::lemma_aligned_gap(ae, a.end.index as int, l);
        }
    }
    assert forall|a: PhysicalAllocBlockRange, b: PhysicalAllocBlockRange|
        a.begin.index == ab && a.end.index == ae && #[trigger] buffered_read::aligned_range(a, m, b) implies b.begin.index
        == ib && b.end.index == ie by {
        if b.end.index < ie {
            align::lemma_aligned_gap(b.end.index as int, ie, m);
        }
        if b.end.index > ie {
            align::lemma_aligned_gap(ie, b.end.index as int, m);
        }
    }
    if ae <= u64::MAX {
        let a = PhysicalAllocBlockRange {
            begin: PhysicalAllocBlockIndex { index: ab as u64 },
            end: PhysicalAllocBlockIndex { index: ae as u64 },
        };
        assert(buffered_read::aligned_range(request_range, l, a));
        if ie <= u64::MAX {
            let b = PhysicalAllocBlockRange {
                begin: PhysicalAllocBlockIndex { index: ib as u64 },
                end: PhysicalAllocBlockIndex { index: ie as u64 },
            };
            assert(buffered_read::aligned_range(a, m, b));
        }
    }
}

/// Data is obtained from the read buffer exactly if there's something buffered for any of
/// the locations in common with the buffered block, and then for all of these. That's for
/// locations from the request in case of authenticated data, and for locations from any of
/// the Authentication Tree Data Blocks to authenticate in case of unauthenticated data.
pub proof fn law_buffered_blocks_are_obtained_completely(
    d: BufferedReadAuthenticatedDataFutureData,
    buffer: &ReadBuffer,
    x: int,
)
    requires
        buffer.wf(),
    ensures
        ({
            let (auth, io) = (buffer.buf.auth_tree_data_block_buf, buffer.buf.min_io_block_buf);
            let a = d.auth_tree_data_block_aligned_request_range;
            &&& (d.authenticated_found(buffer) is Some <==> (exists|y: int| #[trigger]
                auth.covers(y) && d.request_range.has(y)) && forall|y: int| #[trigger]
                auth.covers(y) && d.request_range.has(y) ==> auth.buffered(y) is Some)
            &&& d.authenticated_found(buffer) matches Some(r) ==> (r.has(x) <==> auth.covers(x) && d.request_range.has(
                x,
            ))
            &&& (d.unauthenticated_found(buffer) is Some <==> (exists|y: int| #[trigger] io.covers(y) && a.has(y))
                && forall|y: int| #[trigger] io.covers(y) && a.has(y) ==> io.buffered(y) is Some)
            &&& d.unauthenticated_found(buffer) matches Some(r) ==> (r.has(x) <==> io.covers(x) && a.has(x))
        }),
{
    let (auth, io) = (buffer.buf.auth_tree_data_block_buf, buffer.buf.min_io_block_buf);
    lemma_found(auth, buffer.buffers_authenticated(), d.request_range, x);
    lemma_found(io, buffer.buffers_unauthenticated(), d.auth_tree_data_block_aligned_request_range, x);
}

proof fn lemma_found(buffer: BlockAllocationBlocksReadBuffer, enabled: bool, range: PhysicalAllocBlockRange, x: int)
    requires
        buffer.wf(),
        !enabled ==> buffer.buffered_block_allocation_blocks_begin is None,
    ensures
        ({
            let overlap = buffered_read_init::buffered_overlap(&buffer, enabled, range);
            let found = overlap is Some && read_buffer::all_buffered(&buffer, overlap->Some_0);
            &&& (found <==> (exists|y: int| #[trigger] buffer.covers(y) && range.has(y)) && forall|y: int| #[trigger]
                buffer.covers(y) && range.has(y) ==> buffer.buffered(y) is Some)
            &&& overlap matches Some(r) ==> (r.has(x) <==> buffer.covers(x) && range.has(x))
        }),
{
    let overlap = buffered_read_init::buffered_overlap(&buffer, enabled, range);
    align::lemma_block_size_pos(buffer.block_allocation_blocks_log2 as nat);
    match overlap {
        Some(r) => {
            assert forall|y: int| #[trigger] r.has(y) <==> buffer.covers(y) && range.has(y) by {}
            let y = choose|y: int| #[trigger] range.has(y) && buffer.buffered(y) is Some;
            assert(buffer.covers(y));
            if read_buffer::all_buffered(&buffer, r) {
                assert forall|y: int| #[trigger] buffer.covers(y) && range.has(y) implies buffer.buffered(y) is Some by {
                    assert(r.has(y));
                }
            } else {
                let z = choose|z: int| #[trigger] r.has(z) && !(buffer.buffered(z) is Some);
                assert(buffer.covers(z));
            }
        },
        None => {
            if exists|y: int| #[trigger] buffer.covers(y) && range.has(y) {
                let y = choose|y: int| #[trigger] buffer.covers(y) && range.has(y);
                if buffer.buffered(y) is Some {
                    assert(read_buffer::any_buffered(&buffer, range));
                }
            }
        },
    }
}

/// Authenticated data obtained from the read buffer is considered as such unless it's been
/// superseded, i.e. there's some location in common with unauthenticated data.
pub proof fn law_authenticated_data_is_retained_unless_superseded(
    old_d: BufferedReadAuthenticatedDataFutureData,
    d: BufferedReadAuthenticatedDataFutureData,
    old_buffer: &ReadBuffer,
    new_buffer: &ReadBuffer,
    s: PhysicalAllocBlockRange,
)
    requires
        d.buffered_data_obtained(&old_d, old_buffer, new_buffer),
        old_d.authenticated_found(old_buffer) == Some(s),
        forall|x: int| #[trigger]
            s.has(x) ==> !(old_d.unauthenticated_overlap(old_buffer) matches Some(u) && u.has(x)),
        s.begin.index < s.end.index,
        old_d.unauthenticated_overlap(old_buffer) matches Some(u) ==> u.begin.index < u.end.index,
    ensures
        d.authenticated_subrange_from_read_buf == Some(s),
{
    match old_d.unauthenticated_overlap(old_buffer) {
        Some(u) => {
            assert(s.has(s.begin.index as int));
            if s.has(u.begin.index as int) {
                assert(u.has(u.begin.index as int));
            }
        },
        None => {},
    }
}

} // verus!
