//! Buffering of a storage block's individual Allocation Blocks.
use crate::align;
use crate::fs::NvFsError;
use crate::layout::PhysicalAllocBlockIndex;
use vstd::prelude::*;

verus! {

/// Buffered Allocation Block update specification.
pub enum ReadBufferAllocationBlockUpdate {
    /// The Allocation Block is known to be unallocated.
    Unallocated,
    /// Invalidate any state buffered for the Allocation Block.
    Invalidate,
    /// Retain what's buffered for the Allocation Block.
    Retain,
    /// Update the Allocation Block's buffered data.
    Update {
        /// The updated data.
        data: Vec<u8>,
    },
}

impl ReadBufferAllocationBlockUpdate {
    /// What's buffered for an Allocation Block gets updated from one state to
    /// another.
    ///
    /// An empty buffer represents an unallocated Allocation Block.
    pub open spec fn updates(&self, from: Option<Vec<u8>>, to: Option<Vec<u8>>) -> bool {
        match *self {
            ReadBufferAllocationBlockUpdate::Unallocated => to matches Some(data) && data@.len() == 0,
            ReadBufferAllocationBlockUpdate::Invalidate => to is None,
            ReadBufferAllocationBlockUpdate::Retain => to == from,
            ReadBufferAllocationBlockUpdate::Update { data } => to == Some(data),
        }
    }
}

/// Destination buffers for a contiguous sequence of Allocation Blocks.
///
/// The buffers for those Allocation Blocks that had been requested originally
/// are maintained separate from any needed only for extending the sequence to
/// alignment boundaries at either end.
pub struct AllocationBlocksBufs {
    /// Buffers for the requested Allocation Blocks.
    pub dst_allocation_blocks_bufs: Vec<Vec<u8>>,
    /// Buffers for the alignment padding at the head and tail, fused together.
    pub alignment_scratch_allocation_blocks_bufs: Vec<Vec<u8>>,
    /// Number of Allocation Blocks in the alignment padding at the head.
    pub head_alignment_scratch_allocation_blocks: usize,
}

impl AllocationBlocksBufs {
    /// There are buffers for all of the alignment padding at the head, and the
    /// number of all buffers altogether is representable.
    pub open spec fn wf(&self) -> bool {
        &&& self.head_alignment_scratch_allocation_blocks <= self.alignment_scratch_allocation_blocks_bufs@.len()
        &&& self@.len() <= usize::MAX
    }

    /// All the buffers, in storage order.
    ///
    /// Where among them the requested Allocation Blocks' buffers are located is
    /// subject to [`same_shape()`](Self::same_shape).
    pub open spec fn view(&self) -> Seq<Vec<u8>> {
        let head = self.head_alignment_scratch_allocation_blocks as int;
        self.alignment_scratch_allocation_blocks_bufs@.take(head) + self.dst_allocation_blocks_bufs@
            + self.alignment_scratch_allocation_blocks_bufs@.skip(head)
    }

    /// The dimensions are the same.
    pub open spec fn same_shape(&self, other: &Self) -> bool {
        &&& self.head_alignment_scratch_allocation_blocks == other.head_alignment_scratch_allocation_blocks
        &&& self.dst_allocation_blocks_bufs@.len() == other.dst_allocation_blocks_bufs@.len()
        &&& self.alignment_scratch_allocation_blocks_bufs@.len()
            == other.alignment_scratch_allocation_blocks_bufs@.len()
    }

    /// Total number of buffers.
    pub fn len(&self) -> (r: usize)
        requires
            self.wf(),
        ensures
            r == self@.len(),
    {
        self.dst_allocation_blocks_bufs.len() + self.alignment_scratch_allocation_blocks_bufs.len()
    }

    /// Access a buffer.
    pub fn get(&self, i: usize) -> (r: &Vec<u8>)
        requires
            self.wf(),
            i < self@.len(),
        ensures
            *r == self@[i as int],
    {
        let head: usize = self.head_alignment_scratch_allocation_blocks;
        let dst: usize = self.dst_allocation_blocks_bufs.len();
        if i < head {
            &self.alignment_scratch_allocation_blocks_bufs[i]
        } else if i - head < dst {
            &self.dst_allocation_blocks_bufs[i - head]
        } else {
            &self.alignment_scratch_allocation_blocks_bufs[i - dst]
        }
    }

    /// Access a buffer for modification.
    pub fn get_mut(&mut self, i: usize) -> (r: &mut Vec<u8>)
        requires
            old(self).wf(),
            i < old(self)@.len(),
        ensures
            *r == old(self)@[i as int],
            final(self).wf(),
            final(self).same_shape(old(self)),
            final(self)@ =~= old(self)@.update(i as int, *final(r)),
    {
        let head: usize = self.head_alignment_scratch_allocation_blocks;
        let dst: usize = self.dst_allocation_blocks_bufs.len();
        if i < head {
            &mut self.alignment_scratch_allocation_blocks_bufs[i]
        } else if i - head < dst {
            &mut self.dst_allocation_blocks_bufs[i - head]
        } else {
            &mut self.alignment_scratch_allocation_blocks_bufs[i - dst]
        }
    }

    /// Replace a buffer.
    pub fn set(&mut self, i: usize, buf: Vec<u8>)
        requires
            old(self).wf(),
            i < old(self)@.len(),
        ensures
            final(self).wf(),
            final(self).same_shape(old(self)),
            final(self)@ == old(self)@.update(i as int, buf),
    {
        let ghost old_bufs = self@;
        let head: usize = self.head_alignment_scratch_allocation_blocks;
        let dst: usize = self.dst_allocation_blocks_bufs.len();
        if i < head {
            self.alignment_scratch_allocation_blocks_bufs.set(i, buf);
        } else if i - head < dst {
            self.dst_allocation_blocks_bufs.set(i - head, buf);
        } else {
            self.alignment_scratch_allocation_blocks_bufs.set(i - dst, buf);
        }
        assert(self@ =~= old_bufs.update(i as int, buf));
    }

    /// Take a buffer, leaving an empty one in its place.
    pub fn take(&mut self, i: usize) -> (r: Vec<u8>)
        requires
            old(self).wf(),
            i < old(self)@.len(),
        ensures
            final(self).wf(),
            final(self).same_shape(old(self)),
            r == old(self)@[i as int],
            final(self)@[i as int]@.len() == 0,
            final(self)@ == old(self)@.update(i as int, final(self)@[i as int]),
    {
        let ghost old_bufs = self@;
        let head: usize = self.head_alignment_scratch_allocation_blocks;
        let dst: usize = self.dst_allocation_blocks_bufs.len();
        let mut buf: Vec<u8> = Vec::new();
        if i < head {
            core::mem::swap(&mut buf, &mut self.alignment_scratch_allocation_blocks_bufs[i]);
        } else if i - head < dst {
            core::mem::swap(&mut buf, &mut self.dst_allocation_blocks_bufs[i - head]);
        } else {
            core::mem::swap(&mut buf, &mut self.alignment_scratch_allocation_blocks_bufs[i - dst]);
        }
        assert(self@ =~= old_bufs.update(i as int, self@[i as int]));
        buf
    }
}

/// Buffer for some power-of-two size block's individual Allocation Blocks.
///
/// The read buffer maintains one for the most recently read Authentication Tree
/// Data Block as well as for the storage device's IO block respectively each.
pub struct BlockAllocationBlocksReadBuffer {
    /// Beginning of the currently buffered block on storage, if any.
    pub buffered_block_allocation_blocks_begin: Option<PhysicalAllocBlockIndex>,
    /// Buffered Allocation Blocks.
    ///
    /// - `None` means the Allocation Block has been consumed,
    /// - an empty buffer means the Allocation Block has not been consumed, but
    ///   is unallocated.
    pub buffered_allocation_blocks: Vec<Option<Vec<u8>>>,
    /// Base-2 logarithm of the buffered block's size in units of Allocation
    /// Blocks.
    pub block_allocation_blocks_log2: u32,
}

/// There's anything buffered.
pub open spec fn any_buffered(blocks: Seq<Option<Vec<u8>>>) -> bool {
    exists|i: int| 0 <= i < blocks.len() && (#[trigger] blocks[i]) is Some
}

/// Determine whether there's anything buffered.
fn test_any_buffered(blocks: &Vec<Option<Vec<u8>>>) -> (r: bool)
    ensures
        r == any_buffered(blocks@),
{
    let mut i: usize = 0;
    while i < blocks.len()
        invariant
            i <= blocks@.len(),
            forall|j: int| 0 <= j < i ==> (#[trigger] blocks@[j]) is None,
        decreases blocks@.len() - i,
    {
        if blocks[i].is_some() {
            assert(blocks@[i as int] is Some);
            return true;
        }
        i = i + 1;
    }
    false
}

/// Determine whether there's anything buffered in a range of indices.
pub(crate) fn test_any_buffered_in(blocks: &Vec<Option<Vec<u8>>>, begin: usize, end: usize) -> (r: bool)
    requires
        begin <= end <= blocks@.len(),
    ensures
        r ==> exists|i: int| begin <= i < end && (#[trigger] blocks@[i]) is Some,
        !r ==> forall|i: int| begin <= i < end ==> (#[trigger] blocks@[i]) is None,
{
    let mut i: usize = begin;
    while i < end
        invariant
            begin <= i <= end <= blocks@.len(),
            forall|j: int| begin <= j < i ==> (#[trigger] blocks@[j]) is None,
        decreases end - i,
    {
        if blocks[i].is_some() {
            assert(blocks@[i as int] is Some);
            return true;
        }
        i = i + 1;
    }
    false
}

impl BlockAllocationBlocksReadBuffer {
    /// The block's size in units of Allocation Blocks.
    pub open spec fn size(&self) -> int {
        align::block_size(self.block_allocation_blocks_log2 as nat)
    }

    /// The buffered block is aligned, and a location is associated with it if
    /// and only if there's something buffered.
    pub open spec fn wf(&self) -> bool {
        &&& self.block_allocation_blocks_log2 < usize::BITS
        &&& self.buffered_allocation_blocks@.len() == self.size()
        &&& self.buffered_block_allocation_blocks_begin matches Some(begin) ==> {
            &&& align::aligned(begin.index as int, self.block_allocation_blocks_log2 as nat)
            &&& begin.index + self.size() <= u64::MAX
        }
        &&& self.buffered_block_allocation_blocks_begin is Some <==> any_buffered(self.buffered_allocation_blocks@)
    }

    /// The location is within the buffered block.
    pub open spec fn covers(&self, location: int) -> bool {
        self.buffered_block_allocation_blocks_begin matches Some(begin) && begin.index <= location < begin.index
            + self.size()
    }

    /// What's buffered for a given location.
    pub open spec fn buffered(&self, location: int) -> Option<Vec<u8>> {
        if self.covers(location) {
            self.buffered_allocation_blocks@[location
                - self.buffered_block_allocation_blocks_begin->Some_0.index]
        } else {
            None
        }
    }

    /// Instantiate a new [`BlockAllocationBlocksReadBuffer`].
    ///
    /// # Arguments:
    ///
    /// `block_allocation_blocks_log2` - Base-2 logarithm of the buffered
    /// block's size in units of Allocation Blocks.
    pub fn new(block_allocation_blocks_log2: u32) -> (r: Result<Self, NvFsError>)
        ensures
            match r {
                Ok(buffer) => {
                    &&& buffer.wf()
                    &&& buffer.block_allocation_blocks_log2 == block_allocation_blocks_log2
                    &&& buffer.buffered_block_allocation_blocks_begin is None
                },
                Err(e) => e == if block_allocation_blocks_log2 >= usize::BITS {
                    NvFsError::DimensionsNotSupported
                } else {
                    NvFsError::MemoryAllocationFailure
                },
            },
            block_allocation_blocks_log2 >= usize::BITS ==> r is Err,
    {
        if block_allocation_blocks_log2 >= usize::BITS {
            return Err(NvFsError::DimensionsNotSupported);
        }
        let len: usize = align::block_size_usize(block_allocation_blocks_log2);
        let mut blocks: Vec<Option<Vec<u8>>> = Vec::new();
        match blocks.try_reserve(len) {
            Ok(()) => (),
            Err(e) => {
                return Err(NvFsError::from(e));
            },
        }
        let mut i: usize = 0;
        while i < len
            invariant
                i <= len,
                blocks@.len() == i,
                forall|j: int| 0 <= j < i ==> (#[trigger] blocks@[j]) is None,
            decreases len - i,
        {
            blocks.push(None);
            i = i + 1;
        }
        Ok(
            BlockAllocationBlocksReadBuffer {
                buffered_block_allocation_blocks_begin: None,
                buffered_allocation_blocks: blocks,
                block_allocation_blocks_log2,
            },
        )
    }

    /// Take a contiguous sequence of buffered Allocation Blocks.
    ///
    /// Transfer any of the buffered block's Allocation Blocks starting at index
    /// `take_begin` to the corresponding entry from
    /// `dst_allocation_blocks_bufs`. For any Allocation Block buffered as
    /// unallocated, the corresponding `dst_allocation_blocks_bufs` entry will
    /// get reset to zero length. Any entry from `dst_allocation_blocks_bufs`,
    /// for which no Allocation Block is found in the buffer anymore, will be
    /// left unmodified.
    ///
    /// A pair of two `bool`s is returned:
    /// * The first entry is set to `true` if and only if all entries from
    ///   `dst_allocation_blocks_bufs` received an assignment from the buffer.
    /// * The second entry is set to `true` if no more entries are remaining in
    ///   the buffer after the transfer.
    ///
    /// # Arguments:
    ///
    /// * `take_begin` - Index of the first Allocation Block in the buffered
    ///   block to transfer (if present).
    /// * `dst_allocation_blocks_bufs` - Destination buffers to transfer the
    ///   respective Allocation Block buffers to.
    /// * `dst_begin` - Index of the first destination buffer.
    /// * `count` - Number of destination buffers.
    pub fn take_buffers(
        &mut self,
        take_begin: usize,
        dst_allocation_blocks_bufs: &mut AllocationBlocksBufs,
        dst_begin: usize,
        count: usize,
    ) -> (r: (bool, bool))
        requires
            old(self).wf(),
            take_begin <= old(self).buffered_allocation_blocks.len(),
            old(dst_allocation_blocks_bufs).wf(),
            dst_begin + count <= old(dst_allocation_blocks_bufs)@.len(),
        ensures
            final(self).wf(),
            final(self).block_allocation_blocks_log2 == old(self).block_allocation_blocks_log2,
            final(dst_allocation_blocks_bufs).wf(),
            final(dst_allocation_blocks_bufs).same_shape(old(dst_allocation_blocks_bufs)),
            ({
                let old_blocks = old(self).buffered_allocation_blocks@;
                let new_blocks = final(self).buffered_allocation_blocks@;
                let old_dst = old(dst_allocation_blocks_bufs)@;
                let new_dst = final(dst_allocation_blocks_bufs)@;
                &&& forall|i: int|
                    0 <= i < old_blocks.len() ==> #[trigger] new_blocks[i] == if take_begin <= i < take_begin + count {
                        None
                    } else {
                        old_blocks[i]
                    }
                &&& forall|j: int|
                    0 <= j < old_dst.len() ==> #[trigger] new_dst[j] == taken(
                        old_blocks,
                        take_begin as int,
                        old_dst,
                        dst_begin as int,
                        count as int,
                        j,
                    )
                &&& r.0 == forall|i: int|
                    take_begin <= i < take_begin + count ==> i < old_blocks.len() && (#[trigger] old_blocks[i]) is Some
                &&& r.1 == !any_buffered(new_blocks)
            }),
            final(self).buffered_block_allocation_blocks_begin == if r.1 {
                None
            } else {
                old(self).buffered_block_allocation_blocks_begin
            },
    {
        let ghost old_blocks = self.buffered_allocation_blocks@;
        let ghost old_dst = dst_allocation_blocks_bufs@;
        let len: usize = self.buffered_allocation_blocks.len();
        let avail: usize = if count <= len - take_begin {
            count
        } else {
            len - take_begin
        };
        let mut any_missing: bool = avail < count;
        let mut k: usize = 0;
        while k < avail
            invariant
                k <= avail <= count,
                take_begin + avail <= len,
                len == old_blocks.len(),
                self.buffered_allocation_blocks@.len() == len,
                self.block_allocation_blocks_log2 == old(self).block_allocation_blocks_log2,
                self.buffered_block_allocation_blocks_begin == old(self).buffered_block_allocation_blocks_begin,
                dst_begin + count <= old_dst.len(),
                dst_allocation_blocks_bufs.wf(),
                dst_allocation_blocks_bufs.same_shape(old(dst_allocation_blocks_bufs)),
                dst_allocation_blocks_bufs@.len() == old_dst.len(),
                forall|i: int|
                    0 <= i < len ==> #[trigger] self.buffered_allocation_blocks@[i] == if take_begin <= i < take_begin
                        + k {
                        None
                    } else {
                        old_blocks[i]
                    },
                forall|j: int|
                    0 <= j < old_dst.len() ==> #[trigger] dst_allocation_blocks_bufs@[j] == taken(
                        old_blocks,
                        take_begin as int,
                        old_dst,
                        dst_begin as int,
                        k as int,
                        j,
                    ),
                any_missing <==> avail < count || exists|i: int|
                    take_begin <= i < take_begin + k && (#[trigger] old_blocks[i]) is None,
            decreases avail - k,
        {
            let mut slot: Option<Vec<u8>> = None;
            core::mem::swap(&mut slot, &mut self.buffered_allocation_blocks[take_begin + k]);
            assert(slot == old_blocks[take_begin + k]);
            match slot {
                Some(buf) => {
                    dst_allocation_blocks_bufs.set(dst_begin + k, buf);
                },
                None => {
                    any_missing = true;
                },
            }
            k = k + 1;
        }
        let any_remaining: bool = test_any_buffered(&self.buffered_allocation_blocks);
        if !any_remaining {
            self.buffered_block_allocation_blocks_begin = None;
        }
        proof {
            let new_blocks = self.buffered_allocation_blocks@;
            if any_buffered(new_blocks) {
                let i = choose|i: int| 0 <= i < new_blocks.len() && (#[trigger] new_blocks[i]) is Some;
                assert(old_blocks[i] is Some);
            }
            if avail < count {
                let i = take_begin + avail;
                assert(old_blocks[i] == old_blocks[i] && i >= old_blocks.len());
            }
        }
        (!any_missing, !any_remaining)
    }

    /// Clear the buffer.
    pub fn clear(&mut self)
        requires
            old(self).wf(),
        ensures
            final(self).wf(),
            final(self).block_allocation_blocks_log2 == old(self).block_allocation_blocks_log2,
            final(self).buffered_block_allocation_blocks_begin is None,
    {
        let len: usize = self.buffered_allocation_blocks.len();
        self.clear_range(0, len);
        self.buffered_block_allocation_blocks_begin = None;
    }

    /// Clear a range of buffered Allocation Blocks.
    fn clear_range(&mut self, begin: usize, end: usize)
        requires
            begin <= end <= old(self).buffered_allocation_blocks.len(),
        ensures
            final(self).block_allocation_blocks_log2 == old(self).block_allocation_blocks_log2,
            final(self).buffered_block_allocation_blocks_begin == old(self).buffered_block_allocation_blocks_begin,
            final(self).buffered_allocation_blocks@.len() == old(self).buffered_allocation_blocks@.len(),
            forall|i: int|
                0 <= i < old(self).buffered_allocation_blocks@.len()
                    ==> #[trigger] final(self).buffered_allocation_blocks@[i] == if begin <= i < end {
                    None
                } else {
                    old(self).buffered_allocation_blocks@[i]
                },
    {
        let ghost old_blocks = self.buffered_allocation_blocks@;
        let mut k: usize = begin;
        while k < end
            invariant
                begin <= k <= end <= old_blocks.len(),
                self.buffered_allocation_blocks@.len() == old_blocks.len(),
                self.block_allocation_blocks_log2 == old(self).block_allocation_blocks_log2,
                self.buffered_block_allocation_blocks_begin == old(self).buffered_block_allocation_blocks_begin,
                forall|i: int|
                    0 <= i < old_blocks.len() ==> #[trigger] self.buffered_allocation_blocks@[i] == if begin <= i < k {
                        None
                    } else {
                        old_blocks[i]
                    },
            decreases end - k,
        {
            self.buffered_allocation_blocks.set(k, None);
            k = k + 1;
        }
    }

    /// Insert a contiguous sequence of Allocation Block buffers.
    ///
    /// Reset any existing Allocation Block buffer entries and transfer the ones
    /// from `src_allocation_blocks_bufs` into the buffer. The first entry from
    /// `src_allocation_blocks_bufs` corresponds to the storage location
    /// specified by `src_allocation_blocks_begin`.
    ///
    /// If an entry from `src_allocation_blocks_bufs` is `None`, then the
    /// Allocation Block will get tracked as unavailable. Otherwise, if it is
    /// empty, it gets buffered as unallocated. Otherwise the Allocation Block
    /// will get buffered with the data taken.
    ///
    /// The location of the buffered block will get returned, if any.
    ///
    /// # Arguments:
    ///
    /// * `src_allocation_blocks_begin` - Location of the first entry from
    ///   `src_allocation_blocks_bufs` on storage.
    /// * `src_allocation_blocks_bufs` - The Allocation Block buffers to insert.
    pub fn insert_buffers(
        &mut self,
        src_allocation_blocks_begin: PhysicalAllocBlockIndex,
        src_allocation_blocks_bufs: Vec<Option<Vec<u8>>>,
    ) -> (r: Option<PhysicalAllocBlockIndex>)
        requires
            old(self).wf(),
            align::align_down(
                src_allocation_blocks_begin.index as int,
                old(self).block_allocation_blocks_log2 as nat,
            ) + old(self).size() <= u64::MAX,
        ensures
            final(self).wf(),
            final(self).block_allocation_blocks_log2 == old(self).block_allocation_blocks_log2,
            r == final(self).buffered_block_allocation_blocks_begin,
            ({
                let begin = align::align_down(
                    src_allocation_blocks_begin.index as int,
                    old(self).block_allocation_blocks_log2 as nat,
                );
                let offset = src_allocation_blocks_begin.index - begin;
                let src = src_allocation_blocks_bufs@;
                let new_blocks = final(self).buffered_allocation_blocks@;
                &&& forall|i: int|
                    0 <= i < old(self).size() ==> #[trigger] new_blocks[i] == if offset <= i < offset + src.len() {
                        src[i - offset]
                    } else {
                        None
                    }
                &&& r matches Some(location) ==> location.index == begin
            }),
    {
        let log2: u32 = self.block_allocation_blocks_log2;
        let len: usize = self.buffered_allocation_blocks.len();
        proof {
            align::lemma_align_down_bounds(src_allocation_blocks_begin.index as int, log2 as nat);
            align::lemma_block_size_usize(log2 as nat);
        }
        let begin: u64 = align::align_down_u64(src_allocation_blocks_begin.index, log2);
        let offset: usize = (src_allocation_blocks_begin.index - begin) as usize;
        let mut src = src_allocation_blocks_bufs;
        let count: usize = if src.len() <= len - offset {
            src.len()
        } else {
            len - offset
        };
        self.clear_range(0, len);
        let mut any_inserted: bool = false;
        let mut k: usize = 0;
        while k < count
            invariant
                k <= count <= src_allocation_blocks_bufs@.len(),
                offset + count <= len,
                src@.len() == src_allocation_blocks_bufs@.len(),
                forall|j: int| k <= j < src@.len() ==> #[trigger] src@[j] == src_allocation_blocks_bufs@[j],
                self.buffered_allocation_blocks@.len() == len,
                self.block_allocation_blocks_log2 == log2,
                forall|i: int|
                    0 <= i < len ==> #[trigger] self.buffered_allocation_blocks@[i] == if offset <= i < offset + k {
                        src_allocation_blocks_bufs@[i - offset]
                    } else {
                        None
                    },
                any_inserted <==> exists|j: int|
                    0 <= j < k && (#[trigger] src_allocation_blocks_bufs@[j]) is Some,
            decreases count - k,
        {
            let mut slot: Option<Vec<u8>> = None;
            core::mem::swap(&mut slot, &mut src[k]);
            assert(slot == src_allocation_blocks_bufs@[k as int]);
            if slot.is_some() {
                any_inserted = true;
            }
            self.buffered_allocation_blocks.set(offset + k, slot);
            k = k + 1;
        }
        self.buffered_block_allocation_blocks_begin = if any_inserted {
            Some(PhysicalAllocBlockIndex { index: begin })
        } else {
            None
        };
        proof {
            let blocks = self.buffered_allocation_blocks@;
            if any_inserted {
                let j = choose|j: int| 0 <= j < k && (#[trigger] src_allocation_blocks_bufs@[j]) is Some;
                assert(blocks[offset + j] is Some);
            }
            if any_buffered(blocks) {
                let i = choose|i: int| 0 <= i < blocks.len() && (#[trigger] blocks[i]) is Some;
                assert(src_allocation_blocks_bufs@[i - offset] is Some);
            }
        }
        self.buffered_block_allocation_blocks_begin
    }

    /// Update buffered Allocation Blocks.
    ///
    /// Update Allocation Block buffer entries as specified by
    /// `src_allocation_blocks_bufs`. The first entry from
    /// `src_allocation_blocks_bufs` corresponds to the storage location
    /// specified by `src_allocation_blocks_begin`. Existing entries not in
    /// range of the `src_allocation_blocks_bufs` will be left unmodified.
    ///
    /// The location of the buffered block will get returned, if any.
    ///
    /// # Arguments:
    ///
    /// * `src_allocation_blocks_begin` - Location of the first entry from
    ///   `src_allocation_blocks_bufs` on storage.
    /// * `src_allocation_blocks_bufs` - The Allocation Block buffer update
    ///   specifications.
    pub fn update_buffers(
        &mut self,
        src_allocation_blocks_begin: PhysicalAllocBlockIndex,
        src_allocation_blocks_bufs: Vec<ReadBufferAllocationBlockUpdate>,
    ) -> (r: Option<PhysicalAllocBlockIndex>)
        requires
            old(self).wf(),
        ensures
            final(self).wf(),
            final(self).block_allocation_blocks_log2 == old(self).block_allocation_blocks_log2,
            r == final(self).buffered_block_allocation_blocks_begin,
            match old(self).buffered_block_allocation_blocks_begin {
                Some(begin) => {
                    let old_blocks = old(self).buffered_allocation_blocks@;
                    let new_blocks = final(self).buffered_allocation_blocks@;
                    let src_begin = src_allocation_blocks_begin.index as int;
                    let src = src_allocation_blocks_bufs@;
                    &&& forall|i: int|
                        0 <= i < old_blocks.len() ==> {
                            let location = begin.index + i;
                            if src_begin <= location < src_begin + src.len() {
                                src[location - src_begin].updates(old_blocks[i], #[trigger] new_blocks[i])
                            } else {
                                new_blocks[i] == old_blocks[i]
                            }
                        }
                    &&& r matches Some(location) ==> location == begin
                },
                None => *final(self) == *old(self),
            },
    {
        // If no block is currently being buffered, return.
        let begin: u64 = match self.buffered_block_allocation_blocks_begin {
            Some(begin) => begin.index,
            None => {
                return None;
            },
        };
        let ghost old_blocks = self.buffered_allocation_blocks@;
        let src_begin: u64 = src_allocation_blocks_begin.index;
        let ghost updates = src_allocation_blocks_bufs@;
        let mut src = src_allocation_blocks_bufs;
        let len: usize = self.buffered_allocation_blocks.len();
        proof {
            align::lemma_block_size_usize(self.block_allocation_blocks_log2 as nat);
        }
        // Indices corresponding to each other.
        let (mut i, mut j): (usize, usize) = if src_begin >= begin {
            if src_begin - begin < len as u64 {
                ((src_begin - begin) as usize, 0)
            } else {
                (len, 0)
            }
        } else if begin - src_begin < src.len() as u64 {
            (0, (begin - src_begin) as usize)
        } else {
            (len, 0)
        };
        let ghost first = i as int;
        while i < len && j < src.len()
            invariant
                0 <= first <= i <= len,
                len == old_blocks.len(),
                self.buffered_allocation_blocks@.len() == len,
                self.block_allocation_blocks_log2 == old(self).block_allocation_blocks_log2,
                self.buffered_block_allocation_blocks_begin == old(self).buffered_block_allocation_blocks_begin,
                src@.len() == updates.len(),
                j <= src@.len(),
                i < len ==> begin + i == src_begin + j,
                first < len ==> i - first <= j && begin + i == src_begin + j && (first == 0 || src_begin == begin + first),
                first == len ==> (forall|k: int|
                    0 <= k < len ==> !(src_begin <= #[trigger] (begin + k) < src_begin + updates.len())),
                forall|k: int| j <= k < src@.len() ==> #[trigger] src@[k] == updates[k],
                forall|k: int| i <= k < len ==> #[trigger] self.buffered_allocation_blocks@[k] == old_blocks[k],
                forall|k: int| 0 <= k < first && k < len ==> #[trigger] self.buffered_allocation_blocks@[k] == old_blocks[k],
                forall|k: int|
                    first <= k < i ==> updates[begin + k - src_begin].updates(
                        old_blocks[k],
                        #[trigger] self.buffered_allocation_blocks@[k],
                    ),
            decreases len - i,
        {
            let mut update = ReadBufferAllocationBlockUpdate::Retain;
            core::mem::swap(&mut update, &mut src[j]);
            assert(update == updates[begin + i - src_begin]);
            match update {
                ReadBufferAllocationBlockUpdate::Unallocated => {
                    // An empty buffer represents an unallocated Allocation Block.
                    self.buffered_allocation_blocks.set(i, Some(Vec::new()));
                },
                ReadBufferAllocationBlockUpdate::Invalidate => {
                    self.buffered_allocation_blocks.set(i, None);
                },
                ReadBufferAllocationBlockUpdate::Retain => {},
                ReadBufferAllocationBlockUpdate::Update { data } => {
                    self.buffered_allocation_blocks.set(i, Some(data));
                },
            }
            i = i + 1;
            j = j + 1;
        }
        if !test_any_buffered(&self.buffered_allocation_blocks) {
            self.buffered_block_allocation_blocks_begin = None;
        }
        self.buffered_block_allocation_blocks_begin
    }
}

/// Destination buffer contents after a transfer.
pub open spec fn taken(
    blocks: Seq<Option<Vec<u8>>>,
    take_begin: int,
    dst: Seq<Vec<u8>>,
    dst_begin: int,
    count: int,
    j: int,
) -> Vec<u8> {
    let i = take_begin + (j - dst_begin);
    if dst_begin <= j < dst_begin + count && i < blocks.len() && blocks[i] is Some {
        blocks[i]->Some_0
    } else {
        dst[j]
    }
}

} // verus!
