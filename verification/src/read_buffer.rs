//! Buffering of data read from storage.
use crate::align;
use crate::alloc_bitmap::AllocBitmap;
use crate::block_buffer;
use crate::block_buffer::{AllocationBlocksBufs, BlockAllocationBlocksReadBuffer, ReadBufferAllocationBlockUpdate};
use crate::fs::NvFsError;
use crate::layout::{PhysicalAllocBlockIndex, PhysicalAllocBlockRange};
use crate::transaction;
use vstd::prelude::*;

verus! {

/// A storage range overlaps with a block.
pub open spec fn overlaps_block(range: PhysicalAllocBlockRange, begin: int, log2: nat) -> bool {
    range.end.index > begin && range.begin.index < begin + align::block_size(log2)
}

/// A storage range's overlap with a block.
pub open spec fn trimmed_to_block(
    range: PhysicalAllocBlockRange,
    begin: int,
    log2: nat,
    r: PhysicalAllocBlockRange,
) -> bool {
    let end = begin + align::block_size(log2);
    &&& r.begin.index == if range.begin.index >= begin {
        range.begin.index as int
    } else {
        begin
    }
    &&& r.end.index == if range.end.index <= end {
        range.end.index as int
    } else {
        end
    }
}

/// There's something buffered for any location in a range.
pub open spec fn any_buffered(buffer: &BlockAllocationBlocksReadBuffer, range: PhysicalAllocBlockRange) -> bool {
    exists|location: int| #[trigger] range.has(location) && buffer.buffered(location) is Some
}

/// There's something buffered for everything in a range.
pub open spec fn all_buffered(buffer: &BlockAllocationBlocksReadBuffer, range: PhysicalAllocBlockRange) -> bool {
    forall|location: int| #[trigger] range.has(location) ==> buffer.buffered(location) is Some
}

/// Outcome of taking what's buffered for a storage range.
pub open spec fn buffers_taken(
    old_buffer: &BlockAllocationBlocksReadBuffer,
    new_buffer: &BlockAllocationBlocksReadBuffer,
    range: PhysicalAllocBlockRange,
    old_dst: Seq<Vec<u8>>,
    new_dst: Seq<Vec<u8>>,
    dst_begin: int,
    r: Option<(PhysicalAllocBlockRange, bool)>,
) -> bool {
    let log2 = old_buffer.block_allocation_blocks_log2 as nat;
    &&& new_dst.len() == old_dst.len()
    &&& match r {
        Some((subrange, complete)) => {
            &&& any_buffered(old_buffer, range)
            // The subrange is the overlap with the buffered block.
            &&& old_buffer.buffered_block_allocation_blocks_begin matches Some(begin) && overlaps_block(
                range,
                begin.index as int,
                log2,
            ) && trimmed_to_block(range, begin.index as int, log2, subrange)
            &&& complete == all_buffered(old_buffer, subrange)
            // Anything therein is consumed.
            &&& forall|location: int| #[trigger]
                new_buffer.buffered(location) == if subrange.has(location) {
                    None
                } else {
                    old_buffer.buffered(location)
                }
            // What's been buffered got transferred, everything else is left unmodified.
            &&& forall|j: int|
                0 <= j < old_dst.len() ==> #[trigger] new_dst[j] == {
                    let location = range.begin.index + (j - dst_begin);
                    if subrange.has(location) && old_buffer.buffered(location) is Some {
                        old_buffer.buffered(location)->Some_0
                    } else {
                        old_dst[j]
                    }
                }
        },
        None => {
            &&& !any_buffered(old_buffer, range)
            &&& *new_buffer == *old_buffer
            &&& new_dst == old_dst
        },
    }
}

/// A buffer is either empty, i.e. for an unallocated Allocation Block, or of a
/// given size.
pub open spec fn has_size(buf: Vec<u8>, size: int) -> bool {
    buf@.len() == 0 || buf@.len() == size
}

/// An Allocation Block is recorded as unallocated.
pub open spec fn recorded_as_unallocated(buffer: &BlockAllocationBlocksReadBuffer, location: int) -> bool {
    buffer.buffered(location) matches Some(data) && data@.len() == 0
}

/// Some sequence of buffers has been inserted, superseding anything else.
pub open spec fn buffers_inserted(
    buffer: &BlockAllocationBlocksReadBuffer,
    src_begin: int,
    src: Seq<Option<Vec<u8>>>,
) -> bool {
    forall|location: int| #[trigger]
        buffer.buffered(location) == if src_begin <= location < src_begin + src.len() && align::same_block(
            location,
            src_begin,
            buffer.block_allocation_blocks_log2 as nat,
        ) {
            src[location - src_begin]
        } else {
            None
        }
}

/// What's buffered for a location has been updated as specified, or retained if
/// unspecified.
pub open spec fn buffer_updated_at(
    old_buffer: &BlockAllocationBlocksReadBuffer,
    new_buffer: &BlockAllocationBlocksReadBuffer,
    src_begin: int,
    src: Seq<ReadBufferAllocationBlockUpdate>,
    location: int,
) -> bool {
    if old_buffer.covers(location) && src_begin <= location < src_begin + src.len() {
        src[location - src_begin].updates(old_buffer.buffered(location), new_buffer.buffered(location))
    } else {
        new_buffer.buffered(location) == old_buffer.buffered(location)
    }
}

/// What's buffered has been updated as specified, anything else is retained.
pub open spec fn buffers_updated(
    old_buffer: &BlockAllocationBlocksReadBuffer,
    new_buffer: &BlockAllocationBlocksReadBuffer,
    src_begin: int,
    src: Seq<ReadBufferAllocationBlockUpdate>,
) -> bool {
    forall|location: int| #[trigger] buffer_updated_at(old_buffer, new_buffer, src_begin, src, location)
}

/// A [`ReadBuffer`]'s buffered data.
pub struct ReadBufferBufferedData {
    /// Unauthenticated data buffered from the storage device's most recently
    /// read IO block.
    pub min_io_block_buf: BlockAllocationBlocksReadBuffer,
    /// Authenticated data buffered from the most recently read and
    /// authenticated Authentication Tree Data Block.
    pub auth_tree_data_block_buf: BlockAllocationBlocksReadBuffer,
}

impl ReadBufferBufferedData {
    /// Instantiate a [`ReadBufferBufferedData`].
    ///
    /// # Arguments:
    ///
    /// * `min_io_block_allocation_blocks_log2` - Base-2 logarithm of the storage
    ///   device's IO block size in units of Allocation Blocks.
    /// * `auth_tree_data_block_allocation_blocks_log2` - Base-2 logarithm of the
    ///   Authentication Tree Data Block size in units of Allocation Blocks.
    pub fn new(
        min_io_block_allocation_blocks_log2: u32,
        auth_tree_data_block_allocation_blocks_log2: u32,
    ) -> (r: Result<Self, NvFsError>)
        ensures
            match r {
                Ok(data) => {
                    &&& data.min_io_block_buf.wf()
                    &&& data.min_io_block_buf.block_allocation_blocks_log2 == min_io_block_allocation_blocks_log2
                    &&& data.min_io_block_buf.buffered_block_allocation_blocks_begin is None
                    &&& data.auth_tree_data_block_buf.wf()
                    &&& data.auth_tree_data_block_buf.block_allocation_blocks_log2
                        == auth_tree_data_block_allocation_blocks_log2
                    &&& data.auth_tree_data_block_buf.buffered_block_allocation_blocks_begin is None
                },
                Err(e) => new_failed(min_io_block_allocation_blocks_log2, auth_tree_data_block_allocation_blocks_log2, e),
            },
            min_io_block_allocation_blocks_log2 >= usize::BITS || auth_tree_data_block_allocation_blocks_log2
                >= usize::BITS ==> r is Err,
    {
        let min_io_block_buf = match BlockAllocationBlocksReadBuffer::new(min_io_block_allocation_blocks_log2) {
            Ok(min_io_block_buf) => min_io_block_buf,
            Err(e) => {
                return Err(e);
            },
        };
        let auth_tree_data_block_buf = match BlockAllocationBlocksReadBuffer::new(
            auth_tree_data_block_allocation_blocks_log2,
        ) {
            Ok(auth_tree_data_block_buf) => auth_tree_data_block_buf,
            Err(e) => {
                return Err(e);
            },
        };
        Ok(ReadBufferBufferedData { min_io_block_buf, auth_tree_data_block_buf })
    }
}

/// Reason for a failure to set up buffers for given dimensions.
///
/// A failure to allocate memory may happen for any dimensions, but unsupported
/// ones are reported as such if nothing else fails before.
pub open spec fn new_failed(
    min_io_block_allocation_blocks_log2: u32,
    auth_tree_data_block_allocation_blocks_log2: u32,
    e: NvFsError,
) -> bool {
    if min_io_block_allocation_blocks_log2 >= usize::BITS {
        e == NvFsError::DimensionsNotSupported
    } else if auth_tree_data_block_allocation_blocks_log2 >= usize::BITS {
        e == NvFsError::DimensionsNotSupported || e == NvFsError::MemoryAllocationFailure
    } else {
        e == NvFsError::MemoryAllocationFailure
    }
}

/// Data read buffer.
///
/// In general, read requests don't align with the storage device's IO block or
/// Authentication Tree Data Block boundaries, yet reads from physical storage
/// must get processed at a granularity of the former, and authentication at
/// that of the latter.
///
/// In order to exploit spatial locality, a `ReadBuffer` buffers the unused
/// portions from prior reads for potential consumption from subsequent ones.
///
/// More specifically, it maintains a buffer of Allocation Blocks authenticated
/// in the course of processing a prior read request but not consumed yet.
/// Furthermore, if the storage device's IO block size happens to exceed the
/// Authentication Tree Data Block size, then it also buffers not yet
/// authenticated Allocation Blocks read in as a byproduct in the course of
/// processing a prior read request.
pub struct ReadBuffer {
    /// Base-2 logarithm of the Allocation Block size in units of 128 Bytes.
    pub allocation_block_size_128b_log2: u8,
    /// Base-2 logarithm of the storage device's IO block size in units of
    /// Allocation Blocks.
    pub min_io_block_allocation_blocks_log2: u8,
    /// Base-2 logarithm of the Authentication Tree Data Block size in units of
    /// Allocation Blocks.
    pub auth_tree_data_block_allocation_blocks_log2: u8,
    /// The buffered data.
    pub buf: ReadBufferBufferedData,
}

impl ReadBuffer {
    /// The buffers are well-formed and have the configured dimensions. There's
    /// nothing in those not in use.
    pub open spec fn wf(&self) -> bool {
        &&& self.buf.min_io_block_buf.wf()
        &&& self.buf.min_io_block_buf.block_allocation_blocks_log2 == self.min_io_block_allocation_blocks_log2
        &&& self.buf.auth_tree_data_block_buf.wf()
        &&& self.buf.auth_tree_data_block_buf.block_allocation_blocks_log2
            == self.auth_tree_data_block_allocation_blocks_log2
        &&& !self.buffers_unauthenticated() ==> self.buf.min_io_block_buf.buffered_block_allocation_blocks_begin is None
        &&& !self.buffers_authenticated()
            ==> self.buf.auth_tree_data_block_buf.buffered_block_allocation_blocks_begin is None
    }

    /// The dimensions are the same.
    pub open spec fn same_layout(&self, other: &Self) -> bool {
        &&& self.allocation_block_size_128b_log2 == other.allocation_block_size_128b_log2
        &&& self.min_io_block_allocation_blocks_log2 == other.min_io_block_allocation_blocks_log2
        &&& self.auth_tree_data_block_allocation_blocks_log2 == other.auth_tree_data_block_allocation_blocks_log2
    }

    /// No allocated Allocation Block is recorded as unallocated.
    pub open spec fn tracks_allocations(&self, alloc_bitmap: &AllocBitmap) -> bool {
        forall|location: int| #[trigger]
            alloc_bitmap.allocated(location) ==> {
                &&& !recorded_as_unallocated(&self.buf.auth_tree_data_block_buf, location)
                &&& !recorded_as_unallocated(&self.buf.min_io_block_buf, location)
            }
    }

    /// Size of an Allocation Block in units of Bytes.
    pub open spec fn allocation_block_size(&self) -> int {
        align::block_size((self.allocation_block_size_128b_log2 + 7) as nat)
    }

    /// Everything buffered is either empty, i.e. unallocated, or has the size of
    /// an Allocation Block.
    pub open spec fn entries_sized(&self) -> bool {
        forall|location: int|
            #![trigger self.buf.auth_tree_data_block_buf.buffered(location)]
            #![trigger self.buf.min_io_block_buf.buffered(location)]
            {
                &&& self.buf.auth_tree_data_block_buf.buffered(location) matches Some(data) ==> has_size(
                    data,
                    self.allocation_block_size(),
                )
                &&& self.buf.min_io_block_buf.buffered(location) matches Some(data) ==> has_size(
                    data,
                    self.allocation_block_size(),
                )
            }
    }

    /// Unauthenticated data is to be buffered.
    pub open spec fn buffers_unauthenticated(&self) -> bool {
        self.min_io_block_allocation_blocks_log2 > self.auth_tree_data_block_allocation_blocks_log2
    }

    /// Authenticated data is to be buffered.
    pub open spec fn buffers_authenticated(&self) -> bool {
        self.auth_tree_data_block_allocation_blocks_log2 != 0
    }

    /// Instantiate a [`ReadBuffer`].
    ///
    /// # Arguments:
    ///
    /// * `allocation_block_size_128b_log2` - Base-2 logarithm of the Allocation
    ///   Block size in units of 128 Bytes.
    /// * `auth_tree_data_block_allocation_blocks_log2` - Base-2 logarithm of the
    ///   Authentication Tree Data Block size in units of Allocation Blocks.
    /// * `chip_io_block_size_128b_log2` - Base-2 logarithm of the storage
    ///   device's IO block size in units of 128 Bytes.
    pub fn new(
        allocation_block_size_128b_log2: u8,
        auth_tree_data_block_allocation_blocks_log2: u8,
        chip_io_block_size_128b_log2: u32,
    ) -> (r: Result<Self, NvFsError>)
        ensures
            ({
                let min_io_log2 = transaction::min_read_block_log2(
                    chip_io_block_size_128b_log2 as int,
                    allocation_block_size_128b_log2 as int,
                );
                match r {
                    Ok(buffer) => {
                        &&& buffer.wf()
                        &&& buffer.allocation_block_size_128b_log2 == allocation_block_size_128b_log2
                        &&& buffer.min_io_block_allocation_blocks_log2 == min_io_log2
                        &&& buffer.auth_tree_data_block_allocation_blocks_log2
                            == auth_tree_data_block_allocation_blocks_log2
                        &&& buffer.buf.min_io_block_buf.buffered_block_allocation_blocks_begin is None
                        &&& buffer.buf.auth_tree_data_block_buf.buffered_block_allocation_blocks_begin is None
                    },
                    Err(e) => if min_io_log2 > u8::MAX {
                        e == NvFsError::Internal
                    } else {
                        new_failed(min_io_log2 as u32, auth_tree_data_block_allocation_blocks_log2 as u32, e)
                    },
                }
            }),
            transaction::min_read_block_log2(
                chip_io_block_size_128b_log2 as int,
                allocation_block_size_128b_log2 as int,
            ) >= usize::BITS || auth_tree_data_block_allocation_blocks_log2 >= usize::BITS ==> r is Err,
    {
        let min_io_log2: u32 = transaction::get_min_read_block_log2(
            chip_io_block_size_128b_log2,
            allocation_block_size_128b_log2 as u32,
        );
        if min_io_log2 > u8::MAX as u32 {
            return Err(NvFsError::Internal);
        }
        match ReadBufferBufferedData::new(min_io_log2, auth_tree_data_block_allocation_blocks_log2 as u32) {
            Ok(buf) => Ok(
                ReadBuffer {
                    allocation_block_size_128b_log2,
                    min_io_block_allocation_blocks_log2: min_io_log2 as u8,
                    auth_tree_data_block_allocation_blocks_log2,
                    buf,
                },
            ),
            Err(e) => Err(e),
        }
    }

    /// Determine whether unauthenticated data from the storage device's IO block
    /// reads is to be buffered.
    pub fn min_io_blocks_are_buffered(&self) -> (r: bool)
        ensures
            r == self.buffers_unauthenticated(),
    {
        self.min_io_block_allocation_blocks_log2 > self.auth_tree_data_block_allocation_blocks_log2
    }

    /// Determine whether data from authenticated Authentication Tree Data
    /// Blocks is to be buffered.
    pub fn auth_tree_blocks_are_buffered(&self) -> (r: bool)
        ensures
            r == self.buffers_authenticated(),
    {
        self.auth_tree_data_block_allocation_blocks_log2 != 0
    }

    /// Test if a given storage range overlaps with some aligned, power-of-two
    /// sized block.
    ///
    /// # Arguments:
    ///
    /// * `range` - The extent on storage to test for an overlap with the block.
    /// * `block_allocation_blocks_begin` - The block's beginning on storage.
    ///   Must be aligned to the size as determined by
    ///   `block_allocation_blocks_log2`.
    /// * `block_allocation_blocks_log2` - Base-2 logarithm of the block's size
    ///   in units of Allocation Blocks.
    pub fn range_overlaps_block(
        range: &PhysicalAllocBlockRange,
        block_allocation_blocks_begin: PhysicalAllocBlockIndex,
        block_allocation_blocks_log2: u32,
    ) -> (r: bool)
        requires
            block_allocation_blocks_log2 < 64,
            align::aligned(block_allocation_blocks_begin.index as int, block_allocation_blocks_log2 as nat),
        ensures
            r == overlaps_block(
                *range,
                block_allocation_blocks_begin.index as int,
                block_allocation_blocks_log2 as nat,
            ),
    {
        let ghost (begin, log2) = (block_allocation_blocks_begin.index as int, block_allocation_blocks_log2 as nat);
        if range.end.index <= block_allocation_blocks_begin.index {
            return false;
        }
        proof {
            let x = range.begin.index as int;
            align::lemma_block_size_pos(log2);
            align::lemma_align_down_bounds(x, log2);
            if begin <= x < begin + align::block_size(log2) {
                align::lemma_align_down_unique(x, begin, log2);
            }
        }
        if range.begin.index > block_allocation_blocks_begin.index && !align::same_block_u64(
            range.begin.index,
            block_allocation_blocks_begin.index,
            block_allocation_blocks_log2,
        ) {
            // range comes after the block's beginning and there's a block boundary crossing
            // inbetween.
            return false;
        }
        true
    }

    /// Trim a given storage range to its overlap with some aligned,
    /// power-of-two sized block, if any.
    ///
    /// If the `range` doesn't overlap with the block, return `None`. Otherwise
    /// return the overlapping subrange wrapped in a `Some`.
    ///
    /// # Arguments:
    ///
    /// * `range` - The extent on storage to trim to overlap with the block.
    /// * `block_allocation_blocks_begin` - The block's beginning on storage.
    ///   Must be aligned to the size as determined by
    ///   `block_allocation_blocks_log2`.
    /// * `block_allocation_blocks_log2` - Base-2 logarithm of the block's size
    ///   in units of Allocation Blocks.
    pub fn trim_range_to_block(
        range: &PhysicalAllocBlockRange,
        block_allocation_blocks_begin: PhysicalAllocBlockIndex,
        block_allocation_blocks_log2: u32,
    ) -> (r: Option<PhysicalAllocBlockRange>)
        requires
            range.wf(),
            block_allocation_blocks_log2 < 64,
            align::aligned(block_allocation_blocks_begin.index as int, block_allocation_blocks_log2 as nat),
        ensures
            r is Some <==> overlaps_block(
                *range,
                block_allocation_blocks_begin.index as int,
                block_allocation_blocks_log2 as nat,
            ),
            r matches Some(trimmed) ==> trimmed.wf() && trimmed_to_block(
                *range,
                block_allocation_blocks_begin.index as int,
                block_allocation_blocks_log2 as nat,
                trimmed,
            ),
    {
        let ghost (begin, log2) = (block_allocation_blocks_begin.index as int, block_allocation_blocks_log2 as nat);
        if !Self::range_overlaps_block(range, block_allocation_blocks_begin, block_allocation_blocks_log2) {
            return None;
        }
        let trimmed_begin: u64 = if range.begin.index >= block_allocation_blocks_begin.index {
            range.begin.index
        } else {
            block_allocation_blocks_begin.index
        };
        proof {
            let x = range.end.index as int;
            align::lemma_block_size_pos(log2);
            align::lemma_align_down_bounds(x, log2);
            if x < begin + align::block_size(log2) {
                align::lemma_align_down_unique(x, begin, log2);
            }
        }
        let trimmed_end: u64 = if align::same_block_u64(
            range.end.index,
            block_allocation_blocks_begin.index,
            block_allocation_blocks_log2,
        ) {
            range.end.index
        } else {
            // Cannot overflow, it is known that the range's end comes after or at the block's
            // end, which means the latter is representable.
            block_allocation_blocks_begin.index + align::block_size_u64(block_allocation_blocks_log2)
        };
        Some(
            PhysicalAllocBlockRange::new(
                PhysicalAllocBlockIndex { index: trimmed_begin },
                PhysicalAllocBlockIndex { index: trimmed_end },
            ),
        )
    }

    /// Take what's buffered for a storage range.
    fn take_overlapping(
        buffer: &mut BlockAllocationBlocksReadBuffer,
        range: &PhysicalAllocBlockRange,
        dst_allocation_blocks_bufs: &mut AllocationBlocksBufs,
        dst_begin: usize,
    ) -> (r: Option<(PhysicalAllocBlockRange, bool)>)
        requires
            old(buffer).wf(),
            range.wf(),
            old(dst_allocation_blocks_bufs).wf(),
            dst_begin + (range.end.index - range.begin.index) <= old(dst_allocation_blocks_bufs)@.len(),
        ensures
            final(buffer).wf(),
            final(buffer).block_allocation_blocks_log2 == old(buffer).block_allocation_blocks_log2,
            final(dst_allocation_blocks_bufs).wf(),
            final(dst_allocation_blocks_bufs).same_shape(old(dst_allocation_blocks_bufs)),
            buffers_taken(
                old(buffer),
                final(buffer),
                *range,
                old(dst_allocation_blocks_bufs)@,
                final(dst_allocation_blocks_bufs)@,
                dst_begin as int,
                r,
            ),
            r matches Some((subrange, _)) ==> subrange.wf(),
            r is None ==> *final(dst_allocation_blocks_bufs) == *old(dst_allocation_blocks_bufs),
    {
        let ghost old_buffer = *buffer;
        let ghost old_dst = dst_allocation_blocks_bufs@;
        let begin = match buffer.buffered_block_allocation_blocks_begin {
            Some(begin) => begin,
            None => {
                return None;
            },
        };
        let subrange = match Self::trim_range_to_block(range, begin, buffer.block_allocation_blocks_log2) {
            Some(subrange) => subrange,
            None => {
                return None;
            },
        };
        proof {
            align::lemma_block_size_usize(buffer.block_allocation_blocks_log2 as nat);
        }
        let take_begin: usize = (subrange.begin.index - begin.index) as usize;
        let count: usize = (subrange.end.index - subrange.begin.index) as usize;
        let offset: usize = (subrange.begin.index - range.begin.index) as usize;
        if !block_buffer::test_any_buffered_in(&buffer.buffered_allocation_blocks, take_begin, take_begin + count) {
            proof {
                assert forall|location: int| #[trigger] range.has(location) implies buffer.buffered(location) is None by {
                    if buffer.covers(location) {
                        assert(buffer.buffered_allocation_blocks@[location - begin.index] is None);
                    }
                }
            }
            return None;
        }
        proof {
            let i = choose|i: int|
                take_begin <= i < take_begin + count && (#[trigger] buffer.buffered_allocation_blocks@[i]) is Some;
            assert(range.has(begin.index + i) && buffer.buffered(begin.index + i) is Some);
        }
        let (complete, _) = buffer.take_buffers(take_begin, dst_allocation_blocks_bufs, dst_begin + offset, count);
        proof {
            let (old_blocks, new_blocks) = (old_buffer.buffered_allocation_blocks@, buffer.buffered_allocation_blocks@);
            let b = begin.index as int;
            assert forall|location: int| #[trigger] buffer.buffered(location) == if subrange.has(location) {
                None
            } else {
                old_buffer.buffered(location)
            } by {
                if old_buffer.covers(location) {
                    assert(new_blocks[location - b] is Some ==> block_buffer::any_buffered(new_blocks));
                }
            }
            assert(complete == all_buffered(&old_buffer, subrange)) by {
                assert(forall|location: int| subrange.has(location) ==> #[trigger] old_buffer.covers(location));
                if complete {
                    assert forall|location: int| #[trigger] subrange.has(location) implies old_buffer.buffered(
                        location,
                    ) is Some by {
                        assert(old_blocks[location - b] is Some);
                    }
                } else {
                    let i = choose|i: int|
                        take_begin <= i < take_begin + count && !(i < old_blocks.len() && (#[trigger] old_blocks[i]) is Some);
                    assert(subrange.has(b + i));
                }
            }
        }
        proof {
            let old_blocks = old_buffer.buffered_allocation_blocks@;
            let new_dst = dst_allocation_blocks_bufs@;
            assert forall|j: int| 0 <= j < old_dst.len() implies #[trigger] new_dst[j] == ({
                let location = range.begin.index + (j - dst_begin);
                if subrange.has(location) && old_buffer.buffered(location) is Some {
                    old_buffer.buffered(location)->Some_0
                } else {
                    old_dst[j]
                }
            }) by {
                let location = range.begin.index + (j - dst_begin);
                let i = take_begin + (j - (dst_begin + offset));
                assert(location - begin.index == i);
                if subrange.has(location) {
                    assert(old_buffer.covers(location));
                }
            }
        }
        Some((subrange, complete))
    }

    /// Take a contiguous sequence of buffered authenticated Allocation Blocks,
    /// if any.
    ///
    /// Transfer any of the buffered authenticated Allocation Blocks to the
    /// corresponding entry from `dst_allocation_blocks_bufs`. For any
    /// Allocation Block buffered as unallocated, the corresponding
    /// `dst_allocation_blocks_bufs` entry will get reset to zero length. Any
    /// entry from `dst_allocation_blocks_bufs`, for which no Allocation Block
    /// is found in the buffer anymore, will be left unmodified.
    ///
    /// If no Allocation Block in the requested `range` was buffered, `None`
    /// will get returned. Otherwise, a pair of the subrange of `range` possibly
    /// populated with data from the buffer and a bool indicating whether
    /// buffered data for all of that subrange was transferred is returned,
    /// wrapped in a `Some`.
    ///
    /// # Arguments:
    ///
    /// * `range`  - The requested storage range.
    /// * `dst_allocation_blocks_bufs` - Destination buffers to transfer the
    ///   respective Allocation Block buffers to.
    /// * `dst_begin` - Index of the destination buffer for the `range`'s first
    ///   Allocation Block.
    pub fn take_authenticated_buffers(
        &mut self,
        range: &PhysicalAllocBlockRange,
        dst_allocation_blocks_bufs: &mut AllocationBlocksBufs,
        dst_begin: usize,
    ) -> (r: Option<(PhysicalAllocBlockRange, bool)>)
        requires
            old(self).wf(),
            range.wf(),
            old(dst_allocation_blocks_bufs).wf(),
            dst_begin + (range.end.index - range.begin.index) <= old(dst_allocation_blocks_bufs)@.len(),
        ensures
            final(self).wf(),
            final(self).same_layout(old(self)),
            final(self).buf.min_io_block_buf == old(self).buf.min_io_block_buf,
            final(dst_allocation_blocks_bufs).wf(),
            final(dst_allocation_blocks_bufs).same_shape(old(dst_allocation_blocks_bufs)),
            if old(self).buffers_authenticated() {
                buffers_taken(
                    &old(self).buf.auth_tree_data_block_buf,
                    &final(self).buf.auth_tree_data_block_buf,
                    *range,
                    old(dst_allocation_blocks_bufs)@,
                    final(dst_allocation_blocks_bufs)@,
                    dst_begin as int,
                    r,
                )
            } else {
                r is None && *final(self) == *old(self)
            },
            r matches Some((subrange, _)) ==> subrange.wf(),
            r is None ==> *final(dst_allocation_blocks_bufs) == *old(dst_allocation_blocks_bufs),
    {
        if !self.auth_tree_blocks_are_buffered() {
            return None;
        }
        Self::take_overlapping(
            &mut self.buf.auth_tree_data_block_buf,
            range,
            dst_allocation_blocks_bufs,
            dst_begin,
        )
    }

    /// Take a contiguous sequence of buffered unauthenticated Allocation
    /// Blocks, if any.
    ///
    /// Transfer any of the buffered unauthenticated Allocation Blocks to the
    /// corresponding entry from `dst_allocation_blocks_bufs`. For any
    /// Allocation Block buffered as unallocated, the corresponding
    /// `dst_allocation_blocks_bufs` entry will get reset to zero length. Any
    /// entry from `dst_allocation_blocks_bufs`, for which no Allocation Block
    /// is found in the buffer anymore, will be left unmodified.
    ///
    /// If no Allocation Block in the requested `range` was buffered, `None`
    /// will get returned. Otherwise, a pair of the subrange of `range` possibly
    /// populated with data from the buffer and a bool indicating whether
    /// buffered data for all of that subrange was transferred is returned,
    /// wrapped in a `Some`.
    ///
    /// # Arguments:
    ///
    /// * `range`  - The requested storage range.
    /// * `dst_allocation_blocks_bufs` - Destination buffers to transfer the
    ///   respective Allocation Block buffers to.
    /// * `dst_begin` - Index of the destination buffer for the `range`'s first
    ///   Allocation Block.
    pub fn take_unauthenticated_buffers(
        &mut self,
        range: &PhysicalAllocBlockRange,
        dst_allocation_blocks_bufs: &mut AllocationBlocksBufs,
        dst_begin: usize,
    ) -> (r: Option<(PhysicalAllocBlockRange, bool)>)
        requires
            old(self).wf(),
            range.wf(),
            old(dst_allocation_blocks_bufs).wf(),
            dst_begin + (range.end.index - range.begin.index) <= old(dst_allocation_blocks_bufs)@.len(),
        ensures
            final(self).wf(),
            final(self).same_layout(old(self)),
            final(self).buf.auth_tree_data_block_buf == old(self).buf.auth_tree_data_block_buf,
            final(dst_allocation_blocks_bufs).wf(),
            final(dst_allocation_blocks_bufs).same_shape(old(dst_allocation_blocks_bufs)),
            if old(self).buffers_unauthenticated() {
                buffers_taken(
                    &old(self).buf.min_io_block_buf,
                    &final(self).buf.min_io_block_buf,
                    *range,
                    old(dst_allocation_blocks_bufs)@,
                    final(dst_allocation_blocks_bufs)@,
                    dst_begin as int,
                    r,
                )
            } else {
                r is None && *final(self) == *old(self)
            },
            r matches Some((subrange, _)) ==> subrange.wf(),
            r is None ==> *final(dst_allocation_blocks_bufs) == *old(dst_allocation_blocks_bufs),
    {
        if !self.min_io_blocks_are_buffered() {
            return None;
        }
        Self::take_overlapping(&mut self.buf.min_io_block_buf, range, dst_allocation_blocks_bufs, dst_begin)
    }

    /// Insert buffers.
    fn insert(
        buffer: &mut BlockAllocationBlocksReadBuffer,
        src_allocation_blocks_begin: PhysicalAllocBlockIndex,
        src_allocation_blocks_bufs: Vec<Option<Vec<u8>>>,
    )
        requires
            old(buffer).wf(),
            align::align_down(
                src_allocation_blocks_begin.index as int,
                old(buffer).block_allocation_blocks_log2 as nat,
            ) + old(buffer).size() <= u64::MAX,
        ensures
            final(buffer).wf(),
            final(buffer).block_allocation_blocks_log2 == old(buffer).block_allocation_blocks_log2,
            buffers_inserted(
                final(buffer),
                src_allocation_blocks_begin.index as int,
                src_allocation_blocks_bufs@,
            ),
    {
        let ghost src = src_allocation_blocks_bufs@;
        let ghost src_begin = src_allocation_blocks_begin.index as int;
        let _ = buffer.insert_buffers(src_allocation_blocks_begin, src_allocation_blocks_bufs);
        proof {
            let log2 = buffer.block_allocation_blocks_log2 as nat;
            let begin = align::align_down(src_begin, log2);
            let blocks = buffer.buffered_allocation_blocks@;
            align::lemma_align_down_bounds(src_begin, log2);
            assert forall|location: int| #[trigger] buffer.buffered(location) == if src_begin <= location < src_begin
                + src.len() && align::same_block(location, src_begin, log2) {
                src[location - src_begin]
            } else {
                None
            } by {
                align::lemma_align_down_bounds(location, log2);
                if begin <= location < begin + buffer.size() {
                    align::lemma_align_down_unique(location, begin, log2);
                    let i = location - begin;
                    assert(blocks[i] is Some ==> block_buffer::any_buffered(blocks));
                }
            }
        }
    }

    /// Insert a contiguous sequence of authenticated Allocation Block buffers.
    ///
    /// Reset any existing authenticated Allocation Block buffer entries and
    /// transfer the ones from `src_allocation_blocks_bufs` into the buffer. The
    /// first entry from `src_allocation_blocks_bufs` corresponds to the storage
    /// location specified by `src_allocation_blocks_begin`.
    ///
    /// If an entry from `src_allocation_blocks_bufs` is `None`, then the
    /// Allocation Block will get tracked as unavailable. Otherwise, if it is
    /// empty, it gets buffered as unallocated. Otherwise the Allocation Block
    /// will get buffered with the data taken.
    ///
    /// # Arguments:
    ///
    /// * `src_allocation_blocks_begin` - Location of the first entry from
    ///   `src_allocation_blocks_bufs` on storage.
    /// * `src_allocation_blocks_bufs` - The Allocation Block buffers to insert.
    ///   The buffers must all have been authenticated!
    pub fn insert_authenticated_buffers(
        &mut self,
        src_allocation_blocks_begin: PhysicalAllocBlockIndex,
        src_allocation_blocks_bufs: Vec<Option<Vec<u8>>>,
    )
        requires
            old(self).wf(),
            align::align_down(
                src_allocation_blocks_begin.index as int,
                old(self).auth_tree_data_block_allocation_blocks_log2 as nat,
            ) + align::block_size(old(self).auth_tree_data_block_allocation_blocks_log2 as nat) <= u64::MAX,
        ensures
            final(self).wf(),
            final(self).same_layout(old(self)),
            final(self).buf.min_io_block_buf == old(self).buf.min_io_block_buf,
            if old(self).buffers_authenticated() {
                buffers_inserted(
                    &final(self).buf.auth_tree_data_block_buf,
                    src_allocation_blocks_begin.index as int,
                    src_allocation_blocks_bufs@,
                )
            } else {
                *final(self) == *old(self)
            },
    {
        if !self.auth_tree_blocks_are_buffered() {
            return;
        }
        Self::insert(&mut self.buf.auth_tree_data_block_buf, src_allocation_blocks_begin, src_allocation_blocks_bufs);
    }

    /// Insert a contiguous sequence of unauthenticated Allocation Block
    /// buffers.
    ///
    /// Reset any existing unauthenticated Allocation Block buffer entries and
    /// transfer the ones from `src_allocation_blocks_bufs` into the buffer. The
    /// first entry from `src_allocation_blocks_bufs` corresponds to the storage
    /// location specified by `src_allocation_blocks_begin`.
    ///
    /// If an entry from `src_allocation_blocks_bufs` is `None`, then the
    /// Allocation Block will get tracked as unavailable. Otherwise, if it is
    /// empty, it gets buffered as unallocated. Otherwise the Allocation Block
    /// will get buffered with the data taken.
    ///
    /// # Arguments:
    ///
    /// * `src_allocation_blocks_begin` - Location of the first entry from
    ///   `src_allocation_blocks_bufs` on storage.
    /// * `src_allocation_blocks_bufs` - The Allocation Block buffers to insert.
    pub fn insert_unauthenticated_buffers(
        &mut self,
        src_allocation_blocks_begin: PhysicalAllocBlockIndex,
        src_allocation_blocks_bufs: Vec<Option<Vec<u8>>>,
    )
        requires
            old(self).wf(),
            align::align_down(
                src_allocation_blocks_begin.index as int,
                old(self).min_io_block_allocation_blocks_log2 as nat,
            ) + align::block_size(old(self).min_io_block_allocation_blocks_log2 as nat) <= u64::MAX,
        ensures
            final(self).wf(),
            final(self).same_layout(old(self)),
            final(self).buf.auth_tree_data_block_buf == old(self).buf.auth_tree_data_block_buf,
            if old(self).buffers_unauthenticated() {
                buffers_inserted(
                    &final(self).buf.min_io_block_buf,
                    src_allocation_blocks_begin.index as int,
                    src_allocation_blocks_bufs@,
                )
            } else {
                *final(self) == *old(self)
            },
    {
        if !self.min_io_blocks_are_buffered() {
            return;
        }
        Self::insert(&mut self.buf.min_io_block_buf, src_allocation_blocks_begin, src_allocation_blocks_bufs);
    }

    /// Get the storage range spanned by a buffered block, if any.
    fn get_buffered_range(buffer: &BlockAllocationBlocksReadBuffer) -> (r: Option<PhysicalAllocBlockRange>)
        requires
            buffer.wf(),
        ensures
            r matches Some(range) ==> range.wf(),
            match buffer.buffered_block_allocation_blocks_begin {
                Some(begin) => r matches Some(range) && range.begin == begin && range.end.index == begin.index
                    + buffer.size(),
                None => r is None,
            },
    {
        match buffer.buffered_block_allocation_blocks_begin {
            Some(begin) => {
                let end: u64 = begin.index + align::block_size_u64(buffer.block_allocation_blocks_log2);
                Some(PhysicalAllocBlockRange::new(begin, PhysicalAllocBlockIndex { index: end }))
            },
            None => None,
        }
    }

    /// Get the current storage range window spanning all possibly buffered
    /// authenticated Allocation Blocks, if any.
    pub fn get_buffered_authenticated_range(&self) -> (r: Option<PhysicalAllocBlockRange>)
        requires
            self.wf(),
        ensures
            r is Some <==> self.buffers_authenticated()
                && self.buf.auth_tree_data_block_buf.buffered_block_allocation_blocks_begin is Some,
            r matches Some(range) ==> range.wf() && forall|location: int| #[trigger]
                range.has(location) <==> self.buf.auth_tree_data_block_buf.covers(location),
    {
        if !self.auth_tree_blocks_are_buffered() {
            return None;
        }
        Self::get_buffered_range(&self.buf.auth_tree_data_block_buf)
    }

    /// Get the current storage range window spanning all possibly buffered
    /// unauthenticated Allocation Blocks, if any.
    pub fn get_buffered_unauthenticated_range(&self) -> (r: Option<PhysicalAllocBlockRange>)
        requires
            self.wf(),
        ensures
            r is Some <==> self.buffers_unauthenticated()
                && self.buf.min_io_block_buf.buffered_block_allocation_blocks_begin is Some,
            r matches Some(range) ==> range.wf() && forall|location: int| #[trigger]
                range.has(location) <==> self.buf.min_io_block_buf.covers(location),
    {
        if !self.min_io_blocks_are_buffered() {
            return None;
        }
        Self::get_buffered_range(&self.buf.min_io_block_buf)
    }

    /// Update buffers.
    fn update(
        buffer: &mut BlockAllocationBlocksReadBuffer,
        src_allocation_blocks_begin: PhysicalAllocBlockIndex,
        src_allocation_blocks_bufs: Vec<ReadBufferAllocationBlockUpdate>,
    )
        requires
            old(buffer).wf(),
        ensures
            final(buffer).wf(),
            final(buffer).block_allocation_blocks_log2 == old(buffer).block_allocation_blocks_log2,
            buffers_updated(
                old(buffer),
                final(buffer),
                src_allocation_blocks_begin.index as int,
                src_allocation_blocks_bufs@,
            ),
    {
        let ghost o = *buffer;
        let ghost src = src_allocation_blocks_bufs@;
        let ghost src_begin = src_allocation_blocks_begin.index as int;
        let _ = buffer.update_buffers(src_allocation_blocks_begin, src_allocation_blocks_bufs);
        proof {
            assert forall|location: int| #[trigger] buffer_updated_at(&o, buffer, src_begin, src, location) by {
                if o.covers(location) {
                    let i = location - o.buffered_block_allocation_blocks_begin->Some_0.index;
                    let blocks = buffer.buffered_allocation_blocks@;
                    assert(blocks[i] is Some ==> block_buffer::any_buffered(blocks));
                }
            }
        }
    }

    /// Update buffered authenticated Allocation Blocks.
    ///
    /// Update authenticated Allocation Block buffer entries as specified by
    /// `src_allocation_blocks_bufs`. The first entry from
    /// `src_allocation_blocks_bufs` corresponds to the storage location
    /// specified by `src_allocation_blocks_begin`. Existing entries not in
    /// range of the `src_allocation_blocks_bufs` will be left unmodified.
    ///
    /// # Arguments:
    ///
    /// * `src_allocation_blocks_begin` - Location of the first entry from
    ///   `src_allocation_blocks_bufs` on storage.
    /// * `src_allocation_blocks_bufs` - The Allocation Block buffer update
    ///   specifications. Except for the
    ///   [`Invalidate`](ReadBufferAllocationBlockUpdate::Invalidate) case, all
    ///   update entries must be authenticated!
    pub fn update_authenticated_buffers(
        &mut self,
        src_allocation_blocks_begin: PhysicalAllocBlockIndex,
        src_allocation_blocks_bufs: Vec<ReadBufferAllocationBlockUpdate>,
    )
        requires
            old(self).wf(),
        ensures
            final(self).wf(),
            final(self).same_layout(old(self)),
            final(self).buf.min_io_block_buf == old(self).buf.min_io_block_buf,
            if old(self).buffers_authenticated() {
                buffers_updated(
                    &old(self).buf.auth_tree_data_block_buf,
                    &final(self).buf.auth_tree_data_block_buf,
                    src_allocation_blocks_begin.index as int,
                    src_allocation_blocks_bufs@,
                )
            } else {
                *final(self) == *old(self)
            },
    {
        if !self.auth_tree_blocks_are_buffered() {
            return;
        }
        Self::update(&mut self.buf.auth_tree_data_block_buf, src_allocation_blocks_begin, src_allocation_blocks_bufs);
    }

    /// Update buffered unauthenticated Allocation Blocks.
    ///
    /// Update unauthenticated Allocation Block buffer entries as specified by
    /// `src_allocation_blocks_bufs`. The first entry from
    /// `src_allocation_blocks_bufs` corresponds to the storage location
    /// specified by `src_allocation_blocks_begin`. Existing entries not in
    /// range of the `src_allocation_blocks_bufs` will be left unmodified.
    ///
    /// # Arguments:
    ///
    /// * `src_allocation_blocks_begin` - Location of the first entry from
    ///   `src_allocation_blocks_bufs` on storage.
    /// * `src_allocation_blocks_bufs` - The Allocation Block buffer update
    ///   specifications.
    pub fn update_unauthenticated_buffers(
        &mut self,
        src_allocation_blocks_begin: PhysicalAllocBlockIndex,
        src_allocation_blocks_bufs: Vec<ReadBufferAllocationBlockUpdate>,
    )
        requires
            old(self).wf(),
        ensures
            final(self).wf(),
            final(self).same_layout(old(self)),
            final(self).buf.auth_tree_data_block_buf == old(self).buf.auth_tree_data_block_buf,
            if old(self).buffers_unauthenticated() {
                buffers_updated(
                    &old(self).buf.min_io_block_buf,
                    &final(self).buf.min_io_block_buf,
                    src_allocation_blocks_begin.index as int,
                    src_allocation_blocks_bufs@,
                )
            } else {
                *final(self) == *old(self)
            },
    {
        if !self.min_io_blocks_are_buffered() {
            return;
        }
        Self::update(&mut self.buf.min_io_block_buf, src_allocation_blocks_begin, src_allocation_blocks_bufs);
    }

    /// Clear all buffered data.
    pub fn clear_caches(&mut self)
        requires
            old(self).wf(),
        ensures
            final(self).wf(),
            final(self).same_layout(old(self)),
            final(self).buf.min_io_block_buf.buffered_block_allocation_blocks_begin is None,
            final(self).buf.auth_tree_data_block_buf.buffered_block_allocation_blocks_begin is None,
    {
        self.buf.auth_tree_data_block_buf.clear();
        self.buf.min_io_block_buf.clear();
    }
}

/// What's been inserted is handed out again, but only once.
pub proof fn law_inserted_buffers_are_taken(
    inserted: BlockAllocationBlocksReadBuffer,
    src_begin: int,
    src: Seq<Option<Vec<u8>>>,
    after: BlockAllocationBlocksReadBuffer,
    range: PhysicalAllocBlockRange,
    old_dst: Seq<Vec<u8>>,
    new_dst: Seq<Vec<u8>>,
    dst_begin: int,
    r: Option<(PhysicalAllocBlockRange, bool)>,
    location: int,
)
    requires
        inserted.wf(),
        buffers_inserted(&inserted, src_begin, src),
        buffers_taken(&inserted, &after, range, old_dst, new_dst, dst_begin, r),
        range.has(location),
        src_begin <= location < src_begin + src.len(),
        align::same_block(location, src_begin, inserted.block_allocation_blocks_log2 as nat),
        src[location - src_begin] is Some,
        0 <= dst_begin + (location - range.begin.index) < old_dst.len(),
    ensures
        r is Some,
        Some(new_dst[dst_begin + (location - range.begin.index)]) == src[location - src_begin],
        after.buffered(location) is None,
{
    assert(inserted.buffered(location) is Some);
    assert(inserted.covers(location));
    match r {
        Some((subrange, _)) => {
            assert(subrange.has(location));
            let j = dst_begin + (location - range.begin.index);
            assert(new_dst[j] == inserted.buffered(location)->Some_0);
        },
        None => {},
    }
}

/// What's been invalidated is not found anymore, and what's been superseded only
/// with the new contents.
pub proof fn law_stale_buffers_are_not_taken(
    old_buffer: BlockAllocationBlocksReadBuffer,
    new_buffer: BlockAllocationBlocksReadBuffer,
    src_begin: int,
    src: Seq<ReadBufferAllocationBlockUpdate>,
    location: int,
)
    requires
        buffers_updated(&old_buffer, &new_buffer, src_begin, src),
        src_begin <= location < src_begin + src.len(),
    ensures
        src[location - src_begin] is Invalidate ==> new_buffer.buffered(location) is None,
        src[location - src_begin] matches ReadBufferAllocationBlockUpdate::Update { data } ==> (
        new_buffer.buffered(location) is None || new_buffer.buffered(location) == Some(data)),
        src[location - src_begin] is Unallocated ==> (new_buffer.buffered(location) matches Some(data)
            ==> data@.len() == 0),
{
    assert(buffer_updated_at(&old_buffer, &new_buffer, src_begin, src, location));
}

} // verus!
