//! Reading and authentication of committed data through a read buffer.
use crate::align;
use crate::block_buffer::AllocationBlocksBufs;
use crate::fs::NvFsError;
use crate::layout::{PhysicalAllocBlockIndex, PhysicalAllocBlockRange};
use crate::transaction;
use vstd::prelude::*;

verus! {

/// A range's extension to the boundaries of blocks of a given size.
pub open spec fn aligned_range(range: PhysicalAllocBlockRange, log2: nat, r: PhysicalAllocBlockRange) -> bool {
    &&& r.begin.index == align::align_down(range.begin.index as int, log2)
    &&& align::aligned(r.end.index as int, log2)
    &&& range.end.index <= r.end.index < range.end.index + align::block_size(log2)
}

/// A range data may get read and authenticated for.
///
/// It extends to at least one Authentication Tree Data Block.
pub open spec fn requestable(range: PhysicalAllocBlockRange, auth_log2: nat) -> bool {
    ||| range.begin.index < range.end.index
    ||| range.begin == range.end && !align::aligned(range.begin.index as int, auth_log2)
}

/// Internal state of reading and authenticating data through a read buffer.
pub struct BufferedReadAuthenticatedDataFutureData {
    /// The requested storage range.
    pub request_range: PhysicalAllocBlockRange,
    /// The request region aligned to the Authentication Tree Data Block size.
    pub auth_tree_data_block_aligned_request_range: PhysicalAllocBlockRange,
    /// The beginning of the `auth_tree_data_block_aligned_request_range` as
    /// represented in the Authentication Tree Data domain.
    pub request_range_auth_tree_data_allocation_blocks_begin: u64,
    /// The request range aligned to the larger of the storage device's IO block
    /// and an Authentication Tree Data Block.
    ///
    /// This is the area of operation.
    pub aligned_request_range: PhysicalAllocBlockRange,
    /// Destination buffers for the `request_range` as well as those needed to
    /// fill it up to the `aligned_request_range`, one for each Allocation
    /// Block.
    pub bufs: AllocationBlocksBufs,
    /// Subrange of `request_range` for which authenticated data has been
    /// obtained from the read buffer.
    pub authenticated_subrange_from_read_buf: Option<PhysicalAllocBlockRange>,
    /// Subrange of `auth_tree_data_block_aligned_request_range` for which
    /// unauthenticated data has been obtained from the read buffer.
    pub unauthenticated_subrange_from_read_buf: Option<PhysicalAllocBlockRange>,
    /// End of the `auth_tree_data_block_aligned_request_range` head subrange
    /// authenticated so far.
    pub authenticated_allocation_blocks_end: PhysicalAllocBlockIndex,
    /// Base-2 logarithm of the storage device's IO block size in units of
    /// Allocation Blocks.
    pub min_io_block_allocation_blocks_log2: u8,
    /// Base-2 logarithm of the storage device's preferred bulk IO size in units
    /// of Allocation Blocks.
    pub preferred_chip_io_bulk_allocation_blocks_log2: u8,
    /// Base-2 logarithm of the Authentication Tree Data Block size in units of
    /// Allocation Blocks.
    pub auth_tree_data_block_allocation_blocks_log2: u8,
    /// Base-2 logarithm of the Allocation Block size in units of 128 Bytes.
    pub allocation_block_size_128b_log2: u8,
}

impl BufferedReadAuthenticatedDataFutureData {
    /// Base-2 logarithm of the Authentication Tree Data Block size.
    pub open spec fn auth_log2(&self) -> nat {
        self.auth_tree_data_block_allocation_blocks_log2 as nat
    }

    /// Base-2 logarithm of the storage device's IO block size.
    pub open spec fn io_log2(&self) -> nat {
        self.min_io_block_allocation_blocks_log2 as nat
    }

    /// Beginning of the requested range.
    pub open spec fn request_begin(&self) -> int {
        self.request_range.begin.index as int
    }

    /// End of the requested range.
    pub open spec fn request_end(&self) -> int {
        self.request_range.end.index as int
    }

    /// Beginning of the requested range aligned to the Authentication Tree Data
    /// Block size.
    pub open spec fn auth_begin(&self) -> int {
        self.auth_tree_data_block_aligned_request_range.begin.index as int
    }

    /// End of the requested range aligned to the Authentication Tree Data Block
    /// size.
    pub open spec fn auth_end(&self) -> int {
        self.auth_tree_data_block_aligned_request_range.end.index as int
    }

    /// Beginning of the area of operation.
    pub open spec fn io_begin(&self) -> int {
        self.aligned_request_range.begin.index as int
    }

    /// End of the area of operation.
    pub open spec fn io_end(&self) -> int {
        self.aligned_request_range.end.index as int
    }

    /// The request's position and dimensions are consistent.
    pub open spec fn ranges_wf(&self) -> bool {
        &&& requestable(self.request_range, self.auth_log2())
        &&& aligned_range(self.request_range, self.auth_log2(), self.auth_tree_data_block_aligned_request_range)
        &&& aligned_range(
            self.auth_tree_data_block_aligned_request_range,
            self.io_log2(),
            self.aligned_request_range,
        )
        &&& self.io_end() - self.io_begin() <= usize::MAX
        &&& self.request_range_auth_tree_data_allocation_blocks_begin + (self.auth_end() - self.auth_begin())
            <= u64::MAX
        &&& align::aligned(self.request_range_auth_tree_data_allocation_blocks_begin as int, self.auth_log2())
        &&& self.auth_log2() < usize::BITS
        &&& self.io_log2() < usize::BITS
        &&& self.preferred_chip_io_bulk_allocation_blocks_log2 < usize::BITS
        &&& self.preferred_chip_io_bulk_allocation_blocks_log2 >= self.auth_tree_data_block_allocation_blocks_log2
        &&& self.allocation_block_size_128b_log2 + 7 < usize::BITS
    }

    /// There's a buffer for each Allocation Block in the area of operation.
    pub open spec fn bufs_wf(&self) -> bool {
        &&& self.bufs.wf()
        &&& self.bufs.head_alignment_scratch_allocation_blocks == self.request_begin() - self.io_begin()
        &&& self.bufs.dst_allocation_blocks_bufs@.len() == self.request_end() - self.request_begin()
        &&& self.bufs@.len() == self.io_end() - self.io_begin()
    }

    /// The subranges obtained from the read buffer are what's overlapping with
    /// a single block each.
    pub open spec fn subranges_wf(&self) -> bool {
        &&& self.authenticated_subrange_from_read_buf matches Some(s) ==> {
            &&& self.request_begin() <= s.begin.index < s.end.index <= self.request_end()
            &&& s != self.request_range
            &&& s.begin == self.request_range.begin || align::aligned(s.begin.index as int, self.auth_log2())
            &&& s.end == self.request_range.end || align::aligned(s.end.index as int, self.auth_log2())
            &&& align::same_block(s.begin.index as int, s.end.index - 1, self.auth_log2())
        }
        &&& self.unauthenticated_subrange_from_read_buf matches Some(u) ==> {
            &&& self.auth_begin() <= u.begin.index < u.end.index <= self.auth_end()
            &&& u.begin.index == self.auth_begin() || align::aligned(u.begin.index as int, self.io_log2())
            &&& u.end.index == self.auth_end() || align::aligned(u.end.index as int, self.io_log2())
            &&& self.io_log2() > self.auth_log2()
        }
    }

    /// Location in the Authentication Tree Data domain.
    ///
    /// The request extent is contiguous on physical storage, hence not
    /// interspersed with extents from the Authentication Tree and the mapping
    /// from physical to the Authentication Tree Data domain is linear.
    pub open spec fn auth_tree_location(&self, location: int) -> int {
        self.request_range_auth_tree_data_allocation_blocks_begin + (location - self.auth_begin())
    }

    /// Two locations are covered by the same Authentication Tree leaf node.
    pub open spec fn same_leaf(&self, a: int, b: int, leaf_log2: nat) -> bool {
        align::same_block(self.auth_tree_location(a), self.auth_tree_location(b), leaf_log2)
    }

    /// Buffer for the Allocation Block at a given location.
    pub open spec fn buf_at(&self, location: int) -> Vec<u8> {
        self.bufs@[location - self.io_begin()]
    }

    /// The location's data has been obtained authenticated from the read buffer.
    pub open spec fn in_authenticated_subrange(&self, location: int) -> bool {
        self.authenticated_subrange_from_read_buf matches Some(s) && s.has(location)
    }

    /// The location's data has been obtained unauthenticated from the read
    /// buffer.
    pub open spec fn in_unauthenticated_subrange(&self, location: int) -> bool {
        self.unauthenticated_subrange_from_read_buf matches Some(u) && u.has(location)
    }

    /// The location is allocated and its data must get read from storage.
    pub open spec fn needs_read(&self, location: int) -> bool {
        &&& self.buf_at(location)@.len() != 0
        &&& !self.in_authenticated_subrange(location)
        &&& !self.in_unauthenticated_subrange(location)
    }

    /// End of what needs to be available for completing the request.
    ///
    /// If authenticated data up to the end of the request had been obtained from
    /// the read buffer, then nothing from its Authentication Tree Data Block is
    /// needed.
    pub open spec fn needed_end(&self) -> int {
        match self.authenticated_subrange_from_read_buf {
            Some(s) => if s.end == self.request_range.end {
                s.begin.index as int
            } else {
                self.auth_end()
            },
            None => self.auth_end(),
        }
    }

    /// The first location at or after a given one that must get read.
    pub open spec fn next_needed(&self, location: int) -> Option<int>
        decreases self.needed_end() - location,
    {
        if location >= self.needed_end() {
            None
        } else if self.needs_read(location) {
            Some(location)
        } else {
            self.next_needed(location + 1)
        }
    }

    /// There's something that must get read from the IO block at a location.
    pub open spec fn io_block_needs_read(&self, begin: int) -> bool {
        exists|location: int|
            begin <= location < begin + align::block_size(self.io_log2()) && location < self.io_end()
                && self.buf_at(location)@.len() != 0 && !#[trigger] self.in_authenticated_subrange(location)
    }

    /// A region to read is to get extended by the next IO block.
    pub open spec fn extends_region(&self, begin: int, end: int, leaf_log2: nat) -> bool {
        &&& end < self.io_end()
        // Don't leave a region covered by a single Authentication Tree leaf node.
        &&& self.same_leaf(end, self.authenticated_allocation_blocks_end.index as int, leaf_log2)
        // Don't cross preferred bulk IO block boundaries.
        &&& align::same_block(end, begin, self.preferred_chip_io_bulk_allocation_blocks_log2 as nat)
        // Don't re-read what had initially been retrieved from the read buffer.
        &&& self.unauthenticated_subrange_from_read_buf matches Some(u) ==> u.begin.index != end
        &&& self.io_block_needs_read(end)
    }

    /// End of the maximal region to read in one go.
    pub open spec fn region_end(&self, begin: int, end: int, leaf_log2: nat) -> int
        decreases
                if end < self.io_end() {
                    self.io_end() - end
                } else {
                    0
                },
    {
        if self.extends_region(begin, end, leaf_log2) {
            proof {
                align::lemma_block_size_pos(self.io_log2());
            }
            self.region_end(begin, end + align::block_size(self.io_log2()), leaf_log2)
        } else {
            end
        }
    }

    /// The next region to read, if any.
    pub open spec fn next_region(&self, location: int, leaf_log2: nat) -> Result<Option<(int, int)>, NvFsError> {
        let authenticated = self.authenticated_allocation_blocks_end.index as int;
        match self.next_needed(location) {
            Some(needed) => {
                let begin = align::align_down(needed, self.io_log2());
                if !self.same_leaf(needed, authenticated, leaf_log2) {
                    // Let the caller authenticate what's there first.
                    Ok(None)
                } else if authenticated != self.auth_begin() && authenticated > begin {
                    // Be extra cautious to never ever invalidate any authentication status by
                    // re-reading from storage.
                    Err(NvFsError::Internal)
                } else {
                    Ok(
                        Some(
                            (
                                begin,
                                self.region_end(begin, begin + align::block_size(self.io_log2()), leaf_log2),
                            ),
                        ),
                    )
                }
            },
            None => Ok(None),
        }
    }

    /// Translate a physical location within the (aligned) request range into the
    /// Authentication Tree Data domain.
    ///
    /// # Arguments:
    ///
    /// * `request_range_allocation_block_index` - The physical location to
    ///   translate. Must be within the Authentication Tree Data Block aligned
    ///   request range.
    pub fn translate_physical_to_auth_tree_data_allocation_block_index(
        &self,
        request_range_allocation_block_index: PhysicalAllocBlockIndex,
    ) -> (r: u64)
        requires
            self.ranges_wf(),
            self.auth_begin() <= request_range_allocation_block_index.index <= self.auth_end(),
        ensures
            r == self.auth_tree_location(request_range_allocation_block_index.index as int),
            r - self.request_range_auth_tree_data_allocation_blocks_begin == request_range_allocation_block_index.index
                - self.auth_tree_data_block_aligned_request_range.begin.index,
    {
        self.request_range_auth_tree_data_allocation_blocks_begin + (request_range_allocation_block_index.index
            - self.auth_tree_data_block_aligned_request_range.begin.index)
    }

    /// Determine whether two locations are covered by the same Authentication
    /// Tree leaf node.
    pub(crate) fn test_same_leaf(&self, a: u64, b: u64, leaf_log2: u32) -> (r: bool)
        requires
            self.ranges_wf(),
            leaf_log2 < 64,
            self.auth_begin() <= a <= self.auth_end(),
            self.auth_begin() <= b <= self.auth_end(),
        ensures
            r == self.same_leaf(a as int, b as int, leaf_log2 as nat),
    {
        let x: u64 = self.translate_physical_to_auth_tree_data_allocation_block_index(
            PhysicalAllocBlockIndex { index: a },
        );
        let y: u64 = self.translate_physical_to_auth_tree_data_allocation_block_index(
            PhysicalAllocBlockIndex { index: b },
        );
        align::same_block_u64(x, y, leaf_log2)
    }

    /// Access the buffer for a given location.
    pub(crate) fn get_buf(&self, location: u64) -> (r: &Vec<u8>)
        requires
            self.ranges_wf(),
            self.bufs_wf(),
            self.io_begin() <= location < self.io_end(),
        ensures
            *r == self.buf_at(location as int),
    {
        self.bufs.get((location - self.aligned_request_range.begin.index) as usize)
    }

    /// Test whether a location's data has been obtained authenticated from the
    /// read buffer.
    pub(crate) fn test_in_authenticated_subrange(&self, location: u64) -> (r: bool)
        ensures
            r == self.in_authenticated_subrange(location as int),
    {
        match self.authenticated_subrange_from_read_buf {
            Some(s) => s.begin.index <= location && location < s.end.index,
            None => false,
        }
    }

    /// Test whether a location's data has been obtained unauthenticated from the
    /// read buffer.
    fn test_in_unauthenticated_subrange(&self, location: u64) -> (r: bool)
        ensures
            r == self.in_unauthenticated_subrange(location as int),
    {
        match self.unauthenticated_subrange_from_read_buf {
            Some(u) => u.begin.index <= location && location < u.end.index,
            None => false,
        }
    }

    /// The request's various ranges are contained in each other.
    pub proof fn lemma_ranges_nested(&self)
        requires
            self.ranges_wf(),
        ensures
            0 <= self.io_begin() <= self.auth_begin() <= self.request_begin() <= self.request_end() <= self.auth_end()
                <= self.io_end() <= u64::MAX,
            self.auth_begin() < self.request_end(),
            self.request_begin() < self.auth_end(),
            align::aligned(self.auth_begin(), self.auth_log2()),
            align::aligned(self.auth_end(), self.auth_log2()),
            align::aligned(self.io_begin(), self.io_log2()),
            align::aligned(self.io_end(), self.io_log2()),
    {
        align::lemma_align_down_bounds(self.request_begin(), self.auth_log2());
        align::lemma_align_down_bounds(self.auth_begin(), self.io_log2());
    }

    /// Determine whether there's something that must get read from the IO block
    /// at a location.
    fn test_io_block_needs_read(&self, begin: u64) -> (r: bool)
        requires
            self.ranges_wf(),
            self.bufs_wf(),
            self.io_begin() <= begin,
            begin + align::block_size(self.io_log2()) <= self.io_end(),
        ensures
            r == self.io_block_needs_read(begin as int),
    {
        let end: u64 = begin + align::block_size_u64(self.min_io_block_allocation_blocks_log2 as u32);
        let mut location: u64 = begin;
        while location < end
            invariant
                self.ranges_wf(),
                self.bufs_wf(),
                self.io_begin() <= begin <= location <= end <= self.io_end(),
                end == begin + align::block_size(self.io_log2()),
                forall|x: int|
                    begin <= x < location ==> self.buf_at(x)@.len() == 0 || #[trigger] self.in_authenticated_subrange(x),
            decreases end - location,
        {
            if !self.get_buf(location).is_empty() && !self.test_in_authenticated_subrange(location) {
                // The Allocation Block destination buffer is not empty, meaning the Allocation
                // Block is allocated and needs a read.
                assert(!self.in_authenticated_subrange(location as int));
                return true;
            }
            location = location + 1;
        }
        false
    }

    /// Determine the next region to read from physical storage.
    ///
    /// Depending on the current progress, return the next region to read in
    /// from storage. If `None` is returned, the caller is supposed to
    /// authenticate the currently accumulated batch read in so far but not
    /// authenticated yet and invoke `determine_next_read_region()` again
    /// afterwards in case the the request hasn't been completed by then.
    /// Otherwise the caller will proceed to read the returned range from
    /// storage and invoke `determine_next_read_region()` again.
    ///
    /// # Arguments:
    ///
    /// * `cur_request_allocation_block_index` - Current read position in the
    ///   area of operation.
    /// * `auth_tree_covered_data_blocks_per_leaf_node_log2` - Base-2 logarithm
    ///   of the number of Authentication Tree Data Blocks covered by an
    ///   Authentication Tree leaf node.
    pub fn determine_next_read_region(
        &self,
        cur_request_allocation_block_index: PhysicalAllocBlockIndex,
        auth_tree_covered_data_blocks_per_leaf_node_log2: u32,
    ) -> (r: Result<Option<PhysicalAllocBlockRange>, NvFsError>)
        requires
            self.ranges_wf(),
            self.bufs_wf(),
            self.subranges_wf(),
            self.auth_begin() <= self.authenticated_allocation_blocks_end.index <= self.auth_end(),
            self.auth_begin() <= cur_request_allocation_block_index.index,
            auth_tree_covered_data_blocks_per_leaf_node_log2 + self.auth_log2() < 64,
        ensures
            match self.next_region(
                cur_request_allocation_block_index.index as int,
                (auth_tree_covered_data_blocks_per_leaf_node_log2 + self.auth_log2()) as nat,
            ) {
                Ok(Some((begin, end))) => r matches Ok(Some(range)) && range.begin.index == begin && range.end.index
                    == end && range.wf(),
                Ok(None) => r matches Ok(None),
                Err(e) => r matches Err(err) && err == e,
            },
    {
        let leaf_log2: u32 = auth_tree_covered_data_blocks_per_leaf_node_log2
            + self.auth_tree_data_block_allocation_blocks_log2 as u32;
        let io_log2: u32 = self.min_io_block_allocation_blocks_log2 as u32;
        let authenticated: u64 = self.authenticated_allocation_blocks_end.index;
        proof {
            self.lemma_ranges_nested();
        }
        let needed_end: u64 = match self.authenticated_subrange_from_read_buf {
            Some(s) => if s.end == self.request_range.end {
                s.begin.index
            } else {
                self.auth_tree_data_block_aligned_request_range.end.index
            },
            None => self.auth_tree_data_block_aligned_request_range.end.index,
        };
        // Start by skipping over regions which
        // - correspond to fully unallocated IO blocks,
        // - over the head alignment scratch if unneeded,
        // - over any authenticated or unauthenticated regions initially retrieved from the read
        //   buffer.
        let mut needed: u64 = cur_request_allocation_block_index.index;
        while needed < needed_end && (self.get_buf(needed).is_empty() || self.test_in_authenticated_subrange(needed)
            || self.test_in_unauthenticated_subrange(needed))
            invariant
                self.ranges_wf(),
                self.bufs_wf(),
                self.io_begin() <= self.auth_begin() <= needed,
                needed_end == self.needed_end(),
                needed_end <= self.auth_end() <= self.io_end(),
                self.next_needed(cur_request_allocation_block_index.index as int) == self.next_needed(needed as int),
            decreases needed_end - needed,
        {
            needed = needed + 1;
        }
        if needed >= needed_end {
            return Ok(None);
        }
        if !self.test_same_leaf(needed, authenticated, leaf_log2) {
            // The current read position would advance past the region of what's covered by a
            // single Authentication Tree leaf node. Return and let the caller authenticate
            // what's there.
            return Ok(None);
        }
        // It is known that the IO block at the current position needs a read by now.
        let begin: u64 = align::align_down_u64(needed, io_log2);
        if authenticated != self.auth_tree_data_block_aligned_request_range.begin.index && authenticated > begin {
            return Err(NvFsError::Internal);
        }
        // Search for the read range's end. Advance the current position to past the first IO
        // block.
        let io_block_len: u64 = align::block_size_u64(io_log2);
        proof {
            self.lemma_io_block_bounds(needed as int);
        }
        let mut end: u64 = begin + io_block_len;
        loop
            invariant
                self.ranges_wf(),
                self.bufs_wf(),
                self.io_begin() <= begin < end <= self.io_end(),
                self.auth_begin() <= authenticated <= self.auth_end(),
                self.auth_begin() < end,
                authenticated == self.authenticated_allocation_blocks_end.index,
                leaf_log2 < 64,
                io_block_len == align::block_size(self.io_log2()),
                align::aligned(end as int, self.io_log2()),
                self.region_end(
                    begin as int,
                    begin + align::block_size(self.io_log2()),
                    leaf_log2 as nat,
                ) == self.region_end(begin as int, end as int, leaf_log2 as nat),
            ensures
                end == self.region_end(begin as int, begin + align::block_size(self.io_log2()), leaf_log2 as nat),
                begin < end,
            decreases self.io_end() - end,
        {
            if end == self.aligned_request_range.end.index {
                break;
            }
            proof {
                self.lemma_ranges_nested();
                // The end of the area of operation is within less than an IO block's distance.
                align::lemma_aligned_gap(end as int, self.io_end(), self.io_log2());
            }
            if !self.test_same_leaf(end, authenticated, leaf_log2) || !align::same_block_u64(
                end,
                begin,
                self.preferred_chip_io_bulk_allocation_blocks_log2 as u32,
            ) {
                break;
            }
            let at_unauthenticated: bool = match self.unauthenticated_subrange_from_read_buf {
                Some(u) => u.begin.index == end,
                None => false,
            };
            if at_unauthenticated || !self.test_io_block_needs_read(end) {
                break;
            }
            proof {
                align::lemma_aligned_next(end as int, self.io_log2());
            }
            end = end + io_block_len;
        }
        Ok(
            Some(
                PhysicalAllocBlockRange::new(
                    PhysicalAllocBlockIndex { index: begin },
                    PhysicalAllocBlockIndex { index: end },
                ),
            ),
        )
    }

    /// An IO block with some part of it in the requested range is within the
    /// area of operation.
    pub proof fn lemma_io_block_bounds(&self, location: int)
        requires
            self.ranges_wf(),
            self.auth_begin() <= location < self.auth_end(),
        ensures
            ({
                let begin = align::align_down(location, self.io_log2());
                &&& align::aligned(begin, self.io_log2())
                &&& align::aligned(begin + align::block_size(self.io_log2()), self.io_log2())
                &&& self.io_begin() <= begin <= location < begin + align::block_size(self.io_log2())
                &&& begin + align::block_size(self.io_log2()) <= self.io_end()
            }),
    {
        let m = self.io_log2();
        self.lemma_ranges_nested();
        align::lemma_align_down_bounds(location, m);
        align::lemma_align_down_mono(self.auth_begin(), location, m);
        let begin = align::align_down(location, m);
        align::lemma_aligned_next(begin, m);
        align::lemma_aligned_gap(begin, self.io_end(), m);
    }

    /// The first location that must get read.
    pub proof fn lemma_next_needed(&self, location: int)
        ensures
            match self.next_needed(location) {
                Some(needed) => {
                    &&& location <= needed < self.needed_end()
                    &&& self.needs_read(needed)
                    &&& forall|x: int| location <= x < needed ==> !#[trigger] self.needs_read(x)
                },
                None => forall|x: int| location <= x < self.needed_end() ==> !#[trigger] self.needs_read(x),
            },
        decreases self.needed_end() - location,
    {
        if location < self.needed_end() && !self.needs_read(location) {
            self.lemma_next_needed(location + 1);
        }
    }

    /// Bounds on a region to read.
    proof fn lemma_region_end(&self, begin: int, end: int, leaf_log2: nat)
        requires
            self.ranges_wf(),
            self.io_begin() <= begin < end <= self.io_end(),
            align::aligned(end, self.io_log2()),
        ensures
            end <= self.region_end(begin, end, leaf_log2) <= self.io_end(),
            align::aligned(self.region_end(begin, end, leaf_log2), self.io_log2()),
        decreases self.io_end() - end,
    {
        if self.extends_region(begin, end, leaf_log2) {
            let m = self.io_log2();
            self.lemma_ranges_nested();
            align::lemma_block_size_pos(m);
            align::lemma_aligned_gap(end, self.io_end(), m);
            align::lemma_aligned_next(end, m);
            self.lemma_region_end(begin, end + align::block_size(m), leaf_log2);
        }
    }

    /// Regions to read are located within the area of operation and aligned to
    /// IO block boundaries. Progress is made each time, and nothing
    /// authenticated already gets read again.
    pub proof fn law_read_region_bounds(&self, location: int, leaf_log2: nat)
        requires
            self.ranges_wf(),
            self.subranges_wf(),
            self.auth_begin() <= location,
        ensures
            self.next_region(location, leaf_log2) matches Ok(Some((begin, end))) ==> {
                &&& self.io_begin() <= begin < end <= self.io_end()
                &&& align::aligned(begin, self.io_log2())
                &&& align::aligned(end, self.io_log2())
                &&& location < end
                &&& self.authenticated_allocation_blocks_end.index == self.auth_begin() || begin
                    >= self.authenticated_allocation_blocks_end.index
            },
    {
        self.lemma_next_needed(location);
        self.lemma_ranges_nested();
        match self.next_needed(location) {
            Some(needed) => {
                self.lemma_io_block_bounds(needed);
                let begin = align::align_down(needed, self.io_log2());
                self.lemma_region_end(begin, begin + align::block_size(self.io_log2()), leaf_log2);
            },
            None => {},
        }
    }

    /// Whatever needs a read up to the end of the next region to read is part of
    /// that region.
    pub proof fn law_read_regions_cover_needed_data(&self, location: int, leaf_log2: nat, x: int)
        requires
            self.ranges_wf(),
            self.subranges_wf(),
            self.auth_begin() <= location <= x < self.needed_end(),
            self.next_region(location, leaf_log2) matches Ok(Some((begin, end))) && x < end,
            self.needs_read(x),
        ensures
            self.next_region(location, leaf_log2)->Ok_0->Some_0.0 <= x,
    {
        self.lemma_next_needed(location);
        let needed = self.next_needed(location)->Some_0;
        if x < needed {
            assert(!self.needs_read(x));
        }
        self.lemma_ranges_nested();
        self.lemma_io_block_bounds(needed);
    }

    /// If there's no region to read next, then everything needed for
    /// authenticating what's covered by the current Authentication Tree leaf
    /// node has been read.
    pub proof fn law_authentication_batch_is_complete(&self, location: int, leaf_log2: nat, x: int)
        requires
            self.ranges_wf(),
            self.auth_begin() <= self.authenticated_allocation_blocks_end.index <= location <= x < self.needed_end(),
            self.next_region(location, leaf_log2) matches Ok(None),
            self.needs_read(x),
        ensures
            !self.same_leaf(x, self.authenticated_allocation_blocks_end.index as int, leaf_log2),
    {
        self.lemma_next_needed(location);
        match self.next_needed(location) {
            Some(needed) => {
                if x < needed {
                    assert(!self.needs_read(x));
                }
                let authenticated = self.authenticated_allocation_blocks_end.index as int;
                let a = self.auth_tree_location(authenticated);
                let b = self.auth_tree_location(needed);
                let c = self.auth_tree_location(x);
                align::lemma_align_down_mono(a, b, leaf_log2);
                align::lemma_align_down_mono(b, c, leaf_log2);
            },
            None => {
                assert(!self.needs_read(x));
            },
        }
    }

    /// Instantiate for a given request.
    ///
    /// # Arguments:
    ///
    /// * `request_range` - The data storage range to read and authenticate. Must
    ///   all be allocated. If empty, it must be located in the interior of an
    ///   Authentication Tree Data Block.
    /// * `allocation_block_size_128b_log2` - Base-2 logarithm of the Allocation
    ///   Block size in units of 128 Bytes.
    /// * `auth_tree_data_block_allocation_blocks_log2` - Base-2 logarithm of the
    ///   Authentication Tree Data Block size in units of Allocation Blocks.
    /// * `chip_io_block_size_128b_log2` - Base-2 logarithm of the storage
    ///   device's IO block size in units of 128 Bytes.
    /// * `preferred_chip_io_blocks_bulk_log2` - Base-2 logarithm of the storage
    ///   device's preferred bulk IO size in units of its IO blocks.
    /// * `translate` - Translation of a physical location into the associated
    ///   Authentication Tree Data Block index.
    pub fn new<F: Fn(PhysicalAllocBlockIndex) -> u64>(
        request_range: &PhysicalAllocBlockRange,
        allocation_block_size_128b_log2: u8,
        auth_tree_data_block_allocation_blocks_log2: u8,
        chip_io_block_size_128b_log2: u32,
        preferred_chip_io_blocks_bulk_log2: u32,
        translate: &F,
    ) -> (r: Result<Self, BufferedReadSetupError>)
        requires
            requestable(*request_range, auth_tree_data_block_allocation_blocks_log2 as nat),
            allocation_block_size_128b_log2 + 7 < usize::BITS,
            auth_tree_data_block_allocation_blocks_log2 < usize::BITS,
            io_block_size_handled(chip_io_block_size_128b_log2 as int, allocation_block_size_128b_log2 as int),
            translates(*translate, auth_tree_data_block_allocation_blocks_log2 as nat),
        ensures
            set_up(
                request_range,
                allocation_block_size_128b_log2,
                auth_tree_data_block_allocation_blocks_log2,
                chip_io_block_size_128b_log2,
                preferred_chip_io_blocks_bulk_log2,
                *translate,
                r,
            ),
    {
        let l: u32 = auth_tree_data_block_allocation_blocks_log2 as u32;
        let m: u32 = transaction::get_min_read_block_log2(
            chip_io_block_size_128b_log2,
            allocation_block_size_128b_log2 as u32,
        );
        let request_len: u64 = request_range.end.index - request_range.begin.index;
        if request_len > usize::MAX as u64 {
            return Err(BufferedReadSetupError::FsError(NvFsError::DimensionsNotSupported));
        }
        if m > u8::MAX as u32 {
            return Err(BufferedReadSetupError::FsError(NvFsError::Internal));
        }
        let preferred: u32 = get_preferred_bulk_log2(
            chip_io_block_size_128b_log2,
            preferred_chip_io_blocks_bulk_log2,
            allocation_block_size_128b_log2,
            auth_tree_data_block_allocation_blocks_log2,
        );
        let auth_aligned = match request_range.align(l) {
            Some(auth_aligned) => auth_aligned,
            None => {
                return Err(BufferedReadSetupError::BlockOutOfRange);
            },
        };
        assert(aligned_range(*request_range, l as nat, auth_aligned));
        proof {
            assert forall|a: PhysicalAllocBlockRange| #[trigger] aligned_range(
                *request_range,
                l as nat,
                a,
            ) implies a == auth_aligned by {
                lemma_aligned_range_unique(*request_range, l as nat, a, auth_aligned);
            }
        }
        let index: u64 = translate(auth_aligned.begin);
        let io_aligned = match auth_aligned.align(m) {
            Some(io_aligned) => io_aligned,
            None => {
                return Err(BufferedReadSetupError::BlockOutOfRange);
            },
        };
        assert(aligned_range(auth_aligned, m as nat, io_aligned));
        proof {
            assert forall|b: PhysicalAllocBlockRange| #[trigger] aligned_range(
                auth_aligned,
                m as nat,
                b,
            ) implies b == io_aligned by {
                lemma_aligned_range_unique(auth_aligned, m as nat, b, io_aligned);
            }
        }
        // Check that the total IO range's length in units of Allocation Blocks fits an usize, the
        // rest of the code relies on that without conducting any further checks.
        if io_aligned.end.index - io_aligned.begin.index > usize::MAX as u64 {
            return Err(BufferedReadSetupError::FsError(NvFsError::DimensionsNotSupported));
        }
        let dst_allocation_blocks_bufs = match try_new_empty_bufs(request_len as usize) {
            Ok(bufs) => bufs,
            Err(e) => {
                return Err(BufferedReadSetupError::FsError(e));
            },
        };
        proof {
            align::lemma_align_down_bounds(request_range.begin.index as int, l as nat);
            align::lemma_align_down_bounds(auth_aligned.begin.index as int, m as nat);
            align::lemma_multiple_is_aligned(index as int, l as nat);
            let size = align::block_size(l as nat);
            align::lemma_block_size_pos(l as nat);
            assert(index * size >= 0) by (nonlinear_arith)
                requires
                    index >= 0,
                    size >= 1,
            ;
        }
        let auth_tree_begin: u64 = index * align::block_size_u64(l);
        let d =
            BufferedReadAuthenticatedDataFutureData {
                request_range: *request_range,
                auth_tree_data_block_aligned_request_range: auth_aligned,
                request_range_auth_tree_data_allocation_blocks_begin: auth_tree_begin,
                aligned_request_range: io_aligned,
                bufs: AllocationBlocksBufs {
                    dst_allocation_blocks_bufs,
                    // Will get allocated lazily if needed.
                    alignment_scratch_allocation_blocks_bufs: Vec::new(),
                    head_alignment_scratch_allocation_blocks: 0,
                },
                authenticated_subrange_from_read_buf: None,
                unauthenticated_subrange_from_read_buf: None,
                authenticated_allocation_blocks_end: auth_aligned.begin,
                min_io_block_allocation_blocks_log2: m as u8,
                preferred_chip_io_bulk_allocation_blocks_log2: preferred as u8,
                auth_tree_data_block_allocation_blocks_log2,
                allocation_block_size_128b_log2,
            };
        proof {
            let begin = align::align_down(request_range.begin.index as int, l as nat);
            assert(auth_aligned.begin == PhysicalAllocBlockIndex { index: begin as u64 });
            assert(call_ensures(*translate, (PhysicalAllocBlockIndex { index: begin as u64 },), index));
            assert(d.bufs@ =~= d.bufs.dst_allocation_blocks_bufs@);
        }
        Ok(d)
    }

    /// There's an empty buffer for each of the requested Allocation Blocks.
    pub open spec fn bufs_initial(&self) -> bool {
        &&& self.bufs.wf()
        &&& self.bufs.head_alignment_scratch_allocation_blocks == 0
        &&& self.bufs.alignment_scratch_allocation_blocks_bufs@.len() == 0
        &&& self.bufs.dst_allocation_blocks_bufs@.len() == self.request_end() - self.request_begin()
        &&& forall|i: int| 0 <= i < self.bufs@.len() ==> (#[trigger] self.bufs@[i])@.len() == 0
    }
}

/// Reason for a failure to set up a request for reading and authenticating data.
#[derive(Clone, Copy, Debug, PartialEq, Eq, Structural)]
pub enum BufferedReadSetupError {
    /// The aligned request range exceeds the storage address space.
    BlockOutOfRange,
    /// Any other error.
    FsError(NvFsError),
}

/// Extending a range to alignment boundaries would exceed the storage address
/// space.
pub open spec fn align_overflows(range: PhysicalAllocBlockRange, log2: nat) -> bool {
    &&& !align::aligned(range.end.index as int, log2)
    &&& align::align_down(range.end.index as int, log2) + align::block_size(log2) > u64::MAX
}

/// Extending a range to the boundaries of Authentication Tree Data Blocks first
/// and to those of IO blocks subsequently would exceed the storage address space.
pub open spec fn out_of_range(range: PhysicalAllocBlockRange, auth_log2: nat, io_log2: nat) -> bool {
    ||| align_overflows(range, auth_log2)
    ||| exists|a: PhysicalAllocBlockRange| #[trigger]
        aligned_range(range, auth_log2, a) && align_overflows(a, io_log2)
}

/// A range's extension to block boundaries is unique.
proof fn lemma_aligned_range_unique(
    range: PhysicalAllocBlockRange,
    log2: nat,
    a: PhysicalAllocBlockRange,
    b: PhysicalAllocBlockRange,
)
    requires
        aligned_range(range, log2, a),
        aligned_range(range, log2, b),
    ensures
        a == b,
{
    if a.end.index < b.end.index {
        align::lemma_aligned_gap(a.end.index as int, b.end.index as int, log2);
    }
    if b.end.index < a.end.index {
        align::lemma_aligned_gap(b.end.index as int, a.end.index as int, log2);
    }
}

/// Extending a range to alignment boundaries would yield more Allocation Blocks
/// than supported.
pub open spec fn dimensions_unsupported(range: PhysicalAllocBlockRange, auth_log2: nat, io_log2: nat) -> bool {
    ||| range.end.index - range.begin.index > usize::MAX
    ||| exists|a: PhysicalAllocBlockRange, b: PhysicalAllocBlockRange| #[trigger]
        aligned_range(range, auth_log2, a) && #[trigger] aligned_range(a, io_log2, b) && b.end.index - b.begin.index
            > usize::MAX
}

/// The translation into the Authentication Tree Data domain is defined for any
/// location. As the Authentication Tree nodes are not part of it, translated
/// locations don't exceed the physical ones.
pub open spec fn translates<F: Fn(PhysicalAllocBlockIndex) -> u64>(translate: F, auth_log2: nat) -> bool {
    &&& forall|location: PhysicalAllocBlockIndex| #[trigger] call_requires(translate, (location,))
    &&& forall|location: PhysicalAllocBlockIndex, index: u64| #[trigger]
        call_ensures(translate, (location,), index) ==> index * align::block_size(auth_log2) <= location.index
}

/// A request has been set up, or failed to get set up respectively.
pub open spec fn set_up<F: Fn(PhysicalAllocBlockIndex) -> u64>(
    request_range: &PhysicalAllocBlockRange,
    allocation_block_size_128b_log2: u8,
    auth_tree_data_block_allocation_blocks_log2: u8,
    chip_io_block_size_128b_log2: u32,
    preferred_chip_io_blocks_bulk_log2: u32,
    translate: F,
    r: Result<BufferedReadAuthenticatedDataFutureData, BufferedReadSetupError>,
) -> bool {
    let l = auth_tree_data_block_allocation_blocks_log2 as nat;
    let m = transaction::min_read_block_log2(
        chip_io_block_size_128b_log2 as int,
        allocation_block_size_128b_log2 as int,
    );
    let begin = align::align_down(request_range.begin.index as int, l);
    // What's wrong with the request gets reported, in order. Otherwise it's only the memory
    // allocation, if any, which can fail.
    &&& if request_range.end.index - request_range.begin.index > usize::MAX {
        r == Err::<BufferedReadAuthenticatedDataFutureData, BufferedReadSetupError>(
            BufferedReadSetupError::FsError(NvFsError::DimensionsNotSupported),
        )
    } else if m > u8::MAX {
        r == Err::<BufferedReadAuthenticatedDataFutureData, BufferedReadSetupError>(
            BufferedReadSetupError::FsError(NvFsError::Internal),
        )
    } else if out_of_range(*request_range, l, m) {
        r == Err::<BufferedReadAuthenticatedDataFutureData, BufferedReadSetupError>(
            BufferedReadSetupError::BlockOutOfRange,
        )
    } else if dimensions_unsupported(*request_range, l, m) {
        r == Err::<BufferedReadAuthenticatedDataFutureData, BufferedReadSetupError>(
            BufferedReadSetupError::FsError(NvFsError::DimensionsNotSupported),
        )
    } else {
        r matches Err(e) ==> e == BufferedReadSetupError::FsError(NvFsError::MemoryAllocationFailure)
            && request_range.begin != request_range.end
    }
    &&& r matches Ok(d) ==> {
        &&& d.ranges_wf()
        &&& d.request_range == *request_range
        &&& d.auth_log2() == l
        &&& d.io_log2() == m
        &&& d.allocation_block_size_128b_log2 == allocation_block_size_128b_log2
        &&& d.preferred_chip_io_bulk_allocation_blocks_log2 == preferred_bulk_log2(
            chip_io_block_size_128b_log2 as int,
            preferred_chip_io_blocks_bulk_log2 as int,
            allocation_block_size_128b_log2 as int,
            l,
        )
        &&& exists|index: u64|
            #![trigger call_ensures(translate, (PhysicalAllocBlockIndex { index: begin as u64 },), index)]
            call_ensures(translate, (PhysicalAllocBlockIndex { index: begin as u64 },), index)
                && d.request_range_auth_tree_data_allocation_blocks_begin == index * align::block_size(l)
        &&& d.bufs_initial()
        &&& d.authenticated_subrange_from_read_buf is None
        &&& d.unauthenticated_subrange_from_read_buf is None
        &&& d.authenticated_allocation_blocks_end.index == begin
    }
}

/// The storage device's IO block size is either supported, or is so large that
/// it gets rejected.
pub open spec fn io_block_size_handled(
    chip_io_block_size_128b_log2: int,
    allocation_block_size_128b_log2: int,
) -> bool {
    let m = transaction::min_read_block_log2(chip_io_block_size_128b_log2, allocation_block_size_128b_log2);
    m < usize::BITS || m > u8::MAX
}

/// Base-2 logarithm of the preferred bulk IO size in units of Allocation Blocks.
///
/// Possibly ramped up to some reasonable value in order to reduce the overall
/// number of IO requests.
pub open spec fn preferred_bulk_log2(
    chip_io_block_size_128b_log2: int,
    preferred_chip_io_blocks_bulk_log2: int,
    allocation_block_size_128b_log2: int,
    auth_log2: nat,
) -> nat {
    let announced = transaction::min_read_block_log2(
        preferred_chip_io_blocks_bulk_log2 + chip_io_block_size_128b_log2,
        allocation_block_size_128b_log2,
    );
    let capped = if announced < usize::BITS {
        announced
    } else {
        (usize::BITS - 1) as nat
    };
    align::coarser(capped, auth_log2)
}

/// Determine the preferred bulk IO size.
fn get_preferred_bulk_log2(
    chip_io_block_size_128b_log2: u32,
    preferred_chip_io_blocks_bulk_log2: u32,
    allocation_block_size_128b_log2: u8,
    auth_tree_data_block_allocation_blocks_log2: u8,
) -> (r: u32)
    requires
        auth_tree_data_block_allocation_blocks_log2 < usize::BITS,
    ensures
        r == preferred_bulk_log2(
            chip_io_block_size_128b_log2 as int,
            preferred_chip_io_blocks_bulk_log2 as int,
            allocation_block_size_128b_log2 as int,
            auth_tree_data_block_allocation_blocks_log2 as nat,
        ),
        r < usize::BITS,
        r >= auth_tree_data_block_allocation_blocks_log2,
{
    let total: u64 = chip_io_block_size_128b_log2 as u64 + preferred_chip_io_blocks_bulk_log2 as u64;
    let announced: u64 = if total >= allocation_block_size_128b_log2 as u64 {
        total - allocation_block_size_128b_log2 as u64
    } else {
        0
    };
    let capped: u32 = if announced < usize::BITS as u64 {
        announced as u32
    } else {
        usize::BITS - 1
    };
    if capped >= auth_tree_data_block_allocation_blocks_log2 as u32 {
        capped
    } else {
        auth_tree_data_block_allocation_blocks_log2 as u32
    }
}

/// Allocate a sequence of empty buffers.
pub(crate) fn try_new_empty_bufs(len: usize) -> (r: Result<Vec<Vec<u8>>, NvFsError>)
    ensures
        match r {
            Ok(bufs) => bufs@.len() == len && forall|i: int|
                0 <= i < len ==> (#[trigger] bufs@[i])@.len() == 0,
            Err(e) => e == NvFsError::MemoryAllocationFailure && len != 0,
        },
{
    if len == 0 {
        return Ok(Vec::new());
    }
    let mut bufs: Vec<Vec<u8>> = Vec::new();
    match bufs.try_reserve(len) {
        Ok(()) => (),
        Err(e) => {
            return Err(NvFsError::from(e));
        },
    }
    let mut i: usize = 0;
    while i < len
        invariant
            i <= len,
            bufs@.len() == i,
            forall|j: int| 0 <= j < i ==> (#[trigger] bufs@[j])@.len() == 0,
        decreases len - i,
    {
        bufs.push(Vec::new());
        i = i + 1;
    }
    Ok(bufs)
}

} // verus!
