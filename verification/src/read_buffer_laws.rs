//! Relations between the operations on read buffers.
use crate::align;
use crate::block_buffer::{BlockAllocationBlocksReadBuffer, ReadBufferAllocationBlockUpdate};
use crate::layout::PhysicalAllocBlockRange;
use crate::read_buffer;
use crate::read_buffer::ReadBuffer;
use vstd::prelude::*;

verus! {

/// A buffer holds data from a single, aligned block only.
pub proof fn law_buffered_data_is_from_one_block(buffer: BlockAllocationBlocksReadBuffer, x: int, y: int)
    requires
        buffer.wf(),
        buffer.buffered(x) is Some,
        buffer.buffered(y) is Some,
    ensures
        x / align::block_size(buffer.block_allocation_blocks_log2 as nat) == y / align::block_size(
            buffer.block_allocation_blocks_log2 as nat,
        ),
{
    let l = buffer.block_allocation_blocks_log2 as nat;
    let begin = buffer.buffered_block_allocation_blocks_begin->Some_0.index as int;
    align::lemma_align_down_unique(x, begin, l);
    align::lemma_align_down_unique(y, begin, l);
    align::lemma_blocks_align_down(x, l);
    align::lemma_blocks_align_down(y, l);
    reveal(align::blocks);
}

/// A range trimmed to a block has exactly the locations they've got in common, and
/// there's an overlap exactly if there are any.
pub proof fn law_trimming_intersects(
    range: PhysicalAllocBlockRange,
    begin: int,
    log2: nat,
    trimmed: PhysicalAllocBlockRange,
    x: int,
)
    requires
        range.begin.index < range.end.index,
        read_buffer::trimmed_to_block(range, begin, log2, trimmed),
    ensures
        trimmed.has(x) <==> range.has(x) && begin <= x < begin + align::block_size(log2),
        range.has(x) && begin <= x < begin + align::block_size(log2) ==> read_buffer::overlaps_block(range, begin, log2),
        read_buffer::overlaps_block(range, begin, log2) ==> trimmed.has(trimmed.begin.index as int),
{
    align::lemma_block_size_pos(log2);
}

/// Buffers are taken from the read buffer in place: each location's is either handed out
/// exactly once or remains, and nothing else is overwritten.
pub proof fn law_taken_buffers_are_moved(
    old_buffer: BlockAllocationBlocksReadBuffer,
    new_buffer: BlockAllocationBlocksReadBuffer,
    range: PhysicalAllocBlockRange,
    old_dst: Seq<Vec<u8>>,
    new_dst: Seq<Vec<u8>>,
    dst_begin: int,
    r: Option<(PhysicalAllocBlockRange, bool)>,
    x: int,
)
    requires
        old_buffer.wf(),
        read_buffer::buffers_taken(&old_buffer, &new_buffer, range, old_dst, new_dst, dst_begin, r),
        0 <= dst_begin,
        dst_begin + (range.end.index - range.begin.index) <= old_dst.len(),
    ensures
        new_dst.len() == old_dst.len(),
        range.begin.index <= x < range.end.index ==> {
            let j = dst_begin + (x - range.begin.index);
            &&& new_buffer.buffered(x) is None
            &&& match old_buffer.buffered(x) {
                Some(data) => new_dst[j] == data,
                None => new_dst[j] == old_dst[j],
            }
        },
        !(range.begin.index <= x < range.end.index) ==> new_buffer.buffered(x) == old_buffer.buffered(x),
        forall|j: int|
            0 <= j < old_dst.len() && !(dst_begin <= j < dst_begin + (range.end.index - range.begin.index))
                ==> #[trigger] new_dst[j] == old_dst[j],
        // The data found is complete exactly if there's something for each location of the range
        // in the buffered block.
        r matches Some((subrange, complete)) ==> (complete <==> forall|y: int|
            range.begin.index <= y < range.end.index && #[trigger] old_buffer.covers(y) ==> old_buffer.buffered(y)
                is Some),
{
    align::lemma_block_size_pos(old_buffer.block_allocation_blocks_log2 as nat);
    let _ = new_buffer.buffered(x);
    if range.has(x) {
        let _ = new_dst[dst_begin + (x - range.begin.index)];
    }
    match r {
        Some((subrange, complete)) => {
            let begin = old_buffer.buffered_block_allocation_blocks_begin->Some_0;
            assert forall|y: int| #[trigger] subrange.has(y) <==> range.has(y) && old_buffer.covers(y) by {}
            if complete {
                assert forall|y: int|
                    range.begin.index <= y < range.end.index && #[trigger] old_buffer.covers(y) implies old_buffer.buffered(
                    y,
                ) is Some by {
                    assert(subrange.has(y));
                }
            } else {
                let y = choose|y: int| #[trigger] subrange.has(y) && !(old_buffer.buffered(y) is Some);
                assert(range.has(y) && old_buffer.covers(y));
            }
        },
        None => {},
    }
}

/// Insertion replaces all of the buffer's previous contents.
pub proof fn law_insertion_replaces_contents(
    buffer: BlockAllocationBlocksReadBuffer,
    src_begin: int,
    src: Seq<Option<Vec<u8>>>,
    x: int,
)
    requires
        read_buffer::buffers_inserted(&buffer, src_begin, src),
    ensures
        ({
            let size = align::block_size(buffer.block_allocation_blocks_log2 as nat);
            &&& buffer.buffered(x) matches Some(data) ==> {
                &&& src_begin <= x < src_begin + src.len()
                &&& src[x - src_begin] == Some(data)
                &&& x / size == src_begin / size
            }
            &&& src_begin <= x < src_begin + src.len() && x / size == src_begin / size ==> buffer.buffered(x) == src[x
                - src_begin]
        }),
{
    let l = buffer.block_allocation_blocks_log2 as nat;
    let _ = buffer.buffered(x);
    align::lemma_block_size_pos(l);
    align::lemma_blocks_align_down(x, l);
    align::lemma_blocks_align_down(src_begin, l);
    reveal(align::blocks);
}

/// Updates are in place: they're effective for the block being buffered already, and
/// only where specified.
pub proof fn law_updates_are_in_place(
    old_buffer: BlockAllocationBlocksReadBuffer,
    new_buffer: BlockAllocationBlocksReadBuffer,
    src_begin: int,
    src: Seq<ReadBufferAllocationBlockUpdate>,
    x: int,
)
    requires
        read_buffer::buffers_updated(&old_buffer, &new_buffer, src_begin, src),
    ensures
        !(src_begin <= x < src_begin + src.len()) ==> new_buffer.buffered(x) == old_buffer.buffered(x),
        !old_buffer.covers(x) ==> new_buffer.buffered(x) is None,
        src_begin <= x < src_begin + src.len() && old_buffer.covers(x) ==> match src[x - src_begin] {
            ReadBufferAllocationBlockUpdate::Unallocated => new_buffer.buffered(x) matches Some(data) && data@
                =~= Seq::<u8>::empty(),
            ReadBufferAllocationBlockUpdate::Invalidate => new_buffer.buffered(x) is None,
            ReadBufferAllocationBlockUpdate::Retain => new_buffer.buffered(x) == old_buffer.buffered(x),
            ReadBufferAllocationBlockUpdate::Update { data } => new_buffer.buffered(x) == Some(data),
        },
{
    assert(read_buffer::buffer_updated_at(&old_buffer, &new_buffer, src_begin, src, x));
}

/// Authenticated data is buffered only if there can be any in excess of a request, i.e.
/// if an Authentication Tree Data Block is larger than an Allocation Block, and
/// unauthenticated data only if reading is in larger units than authentication.
pub proof fn law_buffering_is_by_block_sizes(buffer: ReadBuffer)
    ensures
        ({
            let auth_size = align::block_size(buffer.auth_tree_data_block_allocation_blocks_log2 as nat);
            let io_size = align::block_size(buffer.min_io_block_allocation_blocks_log2 as nat);
            &&& buffer.buffers_authenticated() <==> auth_size > 1
            &&& buffer.buffers_unauthenticated() <==> io_size > auth_size
        }),
{
    let (a, m) = (
        buffer.auth_tree_data_block_allocation_blocks_log2 as nat,
        buffer.min_io_block_allocation_blocks_log2 as nat,
    );
    vstd::arithmetic::power2::lemma2_to64();
    if a > 0 {
        vstd::arithmetic::power2::lemma_pow2_strictly_increases(0, a);
    }
    if a < m {
        vstd::arithmetic::power2::lemma_pow2_strictly_increases(a, m);
    } else {
        align::lemma_block_size_split(m, a);
    }
}

} // verus!
