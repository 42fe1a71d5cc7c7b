//! Storage read requests for reading data through a read buffer.
use crate::align;
use crate::block_buffer::AllocationBlocksBufs;
use crate::buffered_read::BufferedReadAuthenticatedDataFutureData;
use crate::fs::{NvBlkDevIoError, NvFsError};
use crate::layout::{PhysicalAllocBlockIndex, PhysicalAllocBlockRange};
use crate::read_request::ChunkedIoRegion;
use vstd::prelude::*;

verus! {

/// Storage read request issued on behalf of reading data through a read buffer.
///
/// The read request assumes ownership of all IO buffers for the duration it's
/// pending.
pub struct BufferedReadAuthenticateDataFutureNvChipReadRequest {
    /// Beginning of the area of operation.
    pub aligned_request_range_allocation_blocks_begin: PhysicalAllocBlockIndex,
    /// Destination buffers for all of the area of operation.
    pub bufs: AllocationBlocksBufs,
    /// Subrange for which authenticated data has been obtained from the read
    /// buffer. Must not get overwritten.
    pub authenticated_subrange_from_read_buf: Option<PhysicalAllocBlockRange>,
    /// Beginning of the region to read.
    pub read_request_allocation_blocks_begin: PhysicalAllocBlockIndex,
    /// Region to read from.
    pub read_request_io_region: ChunkedIoRegion,
    /// The destination buffers as of the request's submission.
    pub submitted: Ghost<Seq<Vec<u8>>>,
}

impl BufferedReadAuthenticateDataFutureNvChipReadRequest {
    /// Location of a given chunk.
    pub open spec fn location(&self, chunk: int) -> int {
        self.read_request_allocation_blocks_begin.index + chunk
    }

    /// The chunk at a location is to get read into its destination buffer.
    pub open spec fn reads(&self, location: int) -> bool {
        let i = location - self.aligned_request_range_allocation_blocks_begin.index;
        &&& self.read_request_allocation_blocks_begin.index <= location
        &&& 0 <= i < self.submitted@.len()
        &&& self.submitted@[i]@.len() != 0
        &&& !(self.authenticated_subrange_from_read_buf matches Some(s) && s.has(location))
    }

    /// Nothing but what's to get read has been modified.
    pub open spec fn wf(&self) -> bool {
        let begin = self.aligned_request_range_allocation_blocks_begin.index;
        &&& self.bufs.wf()
        &&& self.bufs@.len() == self.submitted@.len()
        &&& begin <= self.read_request_allocation_blocks_begin.index
        &&& forall|i: int|
            0 <= i < self.submitted@.len() && !self.reads(begin + i) ==> #[trigger] self.bufs@[i]
                == self.submitted@[i]
    }

    /// Buffers have been filled in place, i.e. none has been resized.
    pub open spec fn sizes_retained(&self) -> bool {
        forall|i: int|
            0 <= i < self.submitted@.len() ==> (#[trigger] self.bufs@[i])@.len() == self.submitted@[i]@.len()
    }

    /// Obtain the storage region to read from.
    pub fn region(&self) -> (r: &ChunkedIoRegion)
        ensures
            *r == self.read_request_io_region,
    {
        &self.read_request_io_region
    }

    /// Obtain the destination buffer for some part of a chunk, if the chunk is
    /// to get read.
    ///
    /// # Arguments:
    ///
    /// * `chunk` - The chunk's index in the region.
    /// * `begin` - Beginning of the range within the chunk.
    /// * `end` - End of the range within the chunk.
    pub fn get_destination_buffer(
        &mut self,
        chunk: usize,
        begin: usize,
        end: usize,
    ) -> (r: Result<Option<&mut [u8]>, NvBlkDevIoError>)
        requires
            old(self).wf(),
            old(self).location(chunk as int) <= u64::MAX,
            begin <= end,
            old(self).reads(old(self).location(chunk as int)) ==> end <= old(self).bufs@[old(self).location(
                chunk as int,
            ) - old(self).aligned_request_range_allocation_blocks_begin.index]@.len(),
        ensures
            final(self).wf(),
            final(self).aligned_request_range_allocation_blocks_begin
                == old(self).aligned_request_range_allocation_blocks_begin,
            final(self).authenticated_subrange_from_read_buf == old(self).authenticated_subrange_from_read_buf,
            final(self).read_request_allocation_blocks_begin == old(self).read_request_allocation_blocks_begin,
            final(self).read_request_io_region == old(self).read_request_io_region,
            final(self).submitted == old(self).submitted,
            final(self).bufs.same_shape(&old(self).bufs),
            ({
                let location = old(self).location(chunk as int);
                let i = location - old(self).aligned_request_range_allocation_blocks_begin.index;
                &&& (r matches Ok(Some(_))) == (old(self).reads(location) && old(self).bufs@[i]@.len() != 0)
                &&& r matches Ok(Some(slice)) ==> {
                    &&& slice@ == old(self).bufs@[i]@.subrange(begin as int, end as int)
                    &&& final(self).bufs@[i]@ == old(self).bufs@[i]@.take(begin as int) + final(slice)@
                        + old(self).bufs@[i]@.skip(end as int)
                    &&& forall|j: int|
                        0 <= j < old(self).bufs@.len() && j != i ==> final(self).bufs@[j] == #[trigger] old(
                            self,
                        ).bufs@[j]
                }
                &&& !(r matches Ok(Some(_))) ==> *final(self) == *old(self)
                &&& old(self).sizes_retained() && (r matches Ok(Some(slice)) ==> final(slice)@.len() == slice@.len())
                    ==> final(self).sizes_retained()
                &&& r matches Err(e) ==> e == NvBlkDevIoError::Internal
                // There's no destination buffer for what's out of the area of operation.
                &&& r is Err <==> i >= old(self).bufs@.len() && !(old(self).authenticated_subrange_from_read_buf matches Some(
                    s,
                ) && s.has(location))
            }),
    {
        let ghost o = *self;
        let location: u64 = self.read_request_allocation_blocks_begin.index + chunk as u64;
        // Do not overwrite already authenticated allocation blocks initially obtained from the
        // read buffer.
        match self.authenticated_subrange_from_read_buf {
            Some(s) => if s.begin.index <= location && location < s.end.index {
                return Ok(None);
            },
            None => (),
        }
        let i: u64 = location - self.aligned_request_range_allocation_blocks_begin.index;
        if i >= self.bufs.len() as u64 {
            return Err(NvBlkDevIoError::Internal);
        }
        assert(!o.reads(location as int) ==> o.bufs@[i as int] == o.submitted@[i as int]);
        if self.bufs.get(i as usize).is_empty() {
            // The Allocation Block is unallocated and its contents are not needed.
            return Ok(None);
        }
        let buf = self.bufs.get_mut(i as usize);
        let ghost contents = buf@;
        let (preceding, remaining) = buf.as_mut_slice().split_at_mut(begin);
        let (slice, following) = remaining.split_at_mut(end - begin);
        assert(slice@ == contents.subrange(begin as int, end as int));
        assert(preceding@ == contents.take(begin as int));
        assert(following@ == contents.skip(end as int));
        Ok(Some(slice))
    }
}

impl BufferedReadAuthenticatedDataFutureData {
    /// Storage position of some Allocation Block in units of 128 Bytes.
    pub open spec fn storage_position(&self, location: int) -> int {
        location * align::block_size(self.allocation_block_size_128b_log2 as nat)
    }

    /// The read request's been set up for reading a given region.
    pub open spec fn request_set_up(
        &self,
        request: &BufferedReadAuthenticateDataFutureNvChipReadRequest,
        read_range: PhysicalAllocBlockRange,
    ) -> bool {
        &&& request.aligned_request_range_allocation_blocks_begin == self.aligned_request_range.begin
        &&& request.authenticated_subrange_from_read_buf == self.authenticated_subrange_from_read_buf
        &&& request.read_request_allocation_blocks_begin == read_range.begin
        &&& request.read_request_io_region.physical_begin_128b == self.storage_position(
            read_range.begin.index as int,
        )
        &&& request.read_request_io_region.physical_end_128b == self.storage_position(read_range.end.index as int)
        &&& request.read_request_io_region.chunk_size_128b_log2 == self.allocation_block_size_128b_log2
    }

    /// Nothing but the buffers is different.
    pub open spec fn same_progress(&self, other: &Self) -> bool {
        *self == (Self { bufs: self.bufs, ..*other })
    }

    /// Set up a storage read request for a region.
    ///
    /// Ownership of the buffers is transferred to the request.
    ///
    /// # Arguments:
    ///
    /// * `read_range` - The region to read.
    pub fn set_up_read_request(
        &mut self,
        read_range: PhysicalAllocBlockRange,
    ) -> (r: Result<BufferedReadAuthenticateDataFutureNvChipReadRequest, NvFsError>)
        requires
            old(self).ranges_wf(),
            old(self).bufs_wf(),
            old(self).io_begin() <= read_range.begin.index <= read_range.end.index <= old(self).io_end(),
        ensures
            final(self).same_progress(old(self)),
            match r {
                Ok(request) => {
                    &&& old(self).request_set_up(&request, read_range)
                    &&& request.wf()
                    &&& request.bufs == old(self).bufs
                    &&& request.submitted@ == old(self).bufs@
                },
                Err(e) => e == NvFsError::Internal && *final(self) == *old(self),
            },
            r is Err <==> old(self).storage_position(read_range.end.index as int) > u64::MAX,
    {
        let log2: u32 = self.allocation_block_size_128b_log2 as u32;
        let size: u64 = align::block_size_u64(log2);
        proof {
            align::lemma_block_size_pos(log2 as nat);
            let (x, y, z) = (read_range.begin.index as int, read_range.end.index as int, size as int);
            assert(x * z <= y * z) by (nonlinear_arith)
                requires
                    x <= y,
                    0 <= z,
            ;
            assert(0 <= x * z) by (nonlinear_arith)
                requires
                    0 <= x,
                    0 <= z,
            ;
        }
        let (physical_begin_128b, physical_end_128b): (u64, u64) = match (
            read_range.begin.index.checked_mul(size),
            read_range.end.index.checked_mul(size),
        ) {
            (Some(begin), Some(end)) => (begin, end),
            _ => {
                return Err(NvFsError::Internal);
            },
        };
        let mut bufs = AllocationBlocksBufs {
            dst_allocation_blocks_bufs: Vec::new(),
            alignment_scratch_allocation_blocks_bufs: Vec::new(),
            head_alignment_scratch_allocation_blocks: 0,
        };
        core::mem::swap(&mut bufs, &mut self.bufs);
        Ok(
            BufferedReadAuthenticateDataFutureNvChipReadRequest {
                aligned_request_range_allocation_blocks_begin: self.aligned_request_range.begin,
                submitted: Ghost(bufs@),
                bufs,
                authenticated_subrange_from_read_buf: self.authenticated_subrange_from_read_buf,
                read_request_allocation_blocks_begin: read_range.begin,
                read_request_io_region: ChunkedIoRegion {
                    physical_begin_128b,
                    physical_end_128b,
                    chunk_size_128b_log2: log2,
                },
            },
        )
    }
}

} // verus!
