//! Setup of reading data through a read buffer with what's found in there.
use crate::align;
use crate::alloc_bitmap::AllocBitmap;
use crate::apply;
use crate::block_buffer::BlockAllocationBlocksReadBuffer;
use crate::buffered_read;
use crate::buffered_read::BufferedReadAuthenticatedDataFutureData;
use crate::fs::NvFsError;
use crate::layout::{PhysicalAllocBlockIndex, PhysicalAllocBlockRange};
use crate::read_buffer;
use crate::read_buffer::ReadBuffer;
use vstd::prelude::*;

verus! {

/// A storage range's overlap with a buffered block, if there's anything buffered
/// for it.
pub open spec fn buffered_overlap(
    buffer: &BlockAllocationBlocksReadBuffer,
    enabled: bool,
    range: PhysicalAllocBlockRange,
) -> Option<PhysicalAllocBlockRange> {
    match buffer.buffered_block_allocation_blocks_begin {
        Some(begin) => {
            let end = begin.index + buffer.size();
            if enabled && read_buffer::any_buffered(buffer, range) {
                Some(
                    PhysicalAllocBlockRange {
                        begin: if range.begin.index >= begin.index {
                            range.begin
                        } else {
                            begin
                        },
                        end: if range.end.index <= end {
                            range.end
                        } else {
                            PhysicalAllocBlockIndex { index: end as u64 }
                        },
                    },
                )
            } else {
                None
            }
        },
        None => None,
    }
}

/// What's been taken for a range is not buffered anymore.
pub open spec fn consumed(
    old_buffer: &BlockAllocationBlocksReadBuffer,
    new_buffer: &BlockAllocationBlocksReadBuffer,
    overlap: Option<PhysicalAllocBlockRange>,
) -> bool {
    match overlap {
        Some(range) => forall|location: int| #[trigger]
            new_buffer.buffered(location) == if range.has(location) {
                None
            } else {
                old_buffer.buffered(location)
            },
        None => *new_buffer == *old_buffer,
    }
}

impl BufferedReadAuthenticatedDataFutureData {
    /// The request, its position and dimensions are the same.
    pub open spec fn same_request(&self, other: &Self) -> bool {
        &&& self.request_range == other.request_range
        &&& self.auth_tree_data_block_aligned_request_range == other.auth_tree_data_block_aligned_request_range
        &&& self.request_range_auth_tree_data_allocation_blocks_begin
            == other.request_range_auth_tree_data_allocation_blocks_begin
        &&& self.aligned_request_range == other.aligned_request_range
        &&& self.min_io_block_allocation_blocks_log2 == other.min_io_block_allocation_blocks_log2
        &&& self.preferred_chip_io_bulk_allocation_blocks_log2 == other.preferred_chip_io_bulk_allocation_blocks_log2
        &&& self.auth_tree_data_block_allocation_blocks_log2 == other.auth_tree_data_block_allocation_blocks_log2
        &&& self.allocation_block_size_128b_log2 == other.allocation_block_size_128b_log2
    }

    /// The read buffer is for the same dimensions.
    pub open spec fn matches_buffer(&self, buffer: &ReadBuffer) -> bool {
        &&& buffer.wf()
        &&& self.min_io_block_allocation_blocks_log2 == buffer.min_io_block_allocation_blocks_log2
        &&& self.auth_tree_data_block_allocation_blocks_log2 == buffer.auth_tree_data_block_allocation_blocks_log2
        &&& self.allocation_block_size_128b_log2 == buffer.allocation_block_size_128b_log2
    }

    /// Part of the request range with authenticated data in the read buffer.
    pub open spec fn authenticated_overlap(&self, buffer: &ReadBuffer) -> Option<PhysicalAllocBlockRange> {
        buffered_overlap(
            &buffer.buf.auth_tree_data_block_buf,
            buffer.buffers_authenticated(),
            self.request_range,
        )
    }

    /// Any authenticated data taken for the request is not buffered anymore,
    /// everything else is retained.
    pub open spec fn authenticated_data_consumed(&self, old_buffer: &ReadBuffer, new_buffer: &ReadBuffer) -> bool {
        &&& consumed(
            &old_buffer.buf.auth_tree_data_block_buf,
            &new_buffer.buf.auth_tree_data_block_buf,
            self.authenticated_overlap(old_buffer),
        )
        &&& new_buffer.buf.min_io_block_buf == old_buffer.buf.min_io_block_buf
    }

    /// Part of the request range authenticated data has been found for, provided
    /// there's nothing missing.
    ///
    /// Partial Authentication Tree Data Blocks don't help, because the
    /// authentication needs to be re-done anyway.
    pub open spec fn authenticated_found(&self, buffer: &ReadBuffer) -> Option<PhysicalAllocBlockRange> {
        match self.authenticated_overlap(buffer) {
            Some(range) => if read_buffer::all_buffered(&buffer.buf.auth_tree_data_block_buf, range) {
                Some(range)
            } else {
                None
            },
            None => None,
        }
    }

    /// Part of the aligned request range with unauthenticated data in the read
    /// buffer.
    pub open spec fn unauthenticated_overlap(&self, buffer: &ReadBuffer) -> Option<PhysicalAllocBlockRange> {
        buffered_overlap(
            &buffer.buf.min_io_block_buf,
            buffer.buffers_unauthenticated(),
            self.auth_tree_data_block_aligned_request_range,
        )
    }

    /// Part of the aligned request range unauthenticated data has been found
    /// for, provided there's nothing missing.
    pub open spec fn unauthenticated_found(&self, buffer: &ReadBuffer) -> Option<PhysicalAllocBlockRange> {
        match self.unauthenticated_overlap(buffer) {
            Some(range) => if read_buffer::all_buffered(&buffer.buf.min_io_block_buf, range) {
                Some(range)
            } else {
                None
            },
            None => None,
        }
    }

    /// What's obtained for a location from the read buffer.
    pub open spec fn obtained(&self, buffer: &ReadBuffer, location: int, data: Vec<u8>) -> bool {
        if self.unauthenticated_overlap(buffer) matches Some(range) && range.has(location) {
            if self.unauthenticated_found(buffer) is Some {
                Some(data) == buffer.buf.min_io_block_buf.buffered(location)
            } else {
                data@.len() == 0
            }
        } else if self.authenticated_found(buffer) matches Some(range) && range.has(location) {
            Some(data) == buffer.buf.auth_tree_data_block_buf.buffered(location)
        } else {
            data@.len() == 0
        }
    }

    /// Take authenticated data from the read buffer.
    fn take_authenticated(&mut self, buffer: &mut ReadBuffer) -> (r: Option<PhysicalAllocBlockRange>)
        requires
            old(self).ranges_wf(),
            old(self).bufs_initial(),
            old(self).matches_buffer(old(buffer)),
        ensures
            final(self).same_request(old(self)),
            final(self).authenticated_subrange_from_read_buf == old(self).authenticated_subrange_from_read_buf,
            final(self).unauthenticated_subrange_from_read_buf == old(self).unauthenticated_subrange_from_read_buf,
            final(self).authenticated_allocation_blocks_end == old(self).authenticated_allocation_blocks_end,
            final(self).bufs.wf(),
            final(self).bufs.same_shape(&old(self).bufs),
            final(buffer).wf(),
            final(buffer).same_layout(old(buffer)),
            final(buffer).buf.min_io_block_buf == old(buffer).buf.min_io_block_buf,
            consumed(
                &old(buffer).buf.auth_tree_data_block_buf,
                &final(buffer).buf.auth_tree_data_block_buf,
                old(self).authenticated_overlap(old(buffer)),
            ),
            r == old(self).authenticated_found(old(buffer)),
            forall|location: int|
                old(self).request_range.has(location) ==> {
                    let data = #[trigger] final(self).bufs.dst_allocation_blocks_bufs@[location
                        - old(self).request_begin()];
                    if r matches Some(range) && range.has(location) {
                        Some(data) == old(buffer).buf.auth_tree_data_block_buf.buffered(location)
                    } else {
                        data@.len() == 0
                    }
                },
    {
        let ghost o = *buffer;
        let ghost d = *self;
        let request_range = self.request_range;
        let taken = buffer.take_authenticated_buffers(&request_range, &mut self.bufs, 0);
        let ghost mid = self.bufs@;
        proof {
            assert(self.bufs@ =~= self.bufs.dst_allocation_blocks_bufs@);
        }
        match taken {
            Some((found, complete)) => {
                proof {
                    lemma_overlap(&o.buf.auth_tree_data_block_buf, true, request_range, found);
                }
                if complete {
                    assert(self.authenticated_found(&o) == Some(found));
                    return Some(found);
                }
                // Some authenticated allocation blocks had been found in the read buffer, but
                // some had been missing. Clear the range again to simplify matters everywhere
                // else.
                let begin: usize = (found.begin.index - request_range.begin.index) as usize;
                let end: usize = (found.end.index - request_range.begin.index) as usize;
                let mut i: usize = begin;
                while i < end
                    invariant
                        begin <= i <= end <= mid.len(),
                        self.same_request(&d),
                        self.authenticated_subrange_from_read_buf == d.authenticated_subrange_from_read_buf,
                        self.unauthenticated_subrange_from_read_buf == d.unauthenticated_subrange_from_read_buf,
                        self.authenticated_allocation_blocks_end == d.authenticated_allocation_blocks_end,
                        self.bufs.wf(),
                        self.bufs.same_shape(&d.bufs),
                        self.bufs@.len() == mid.len(),
                        forall|j: int| begin <= j < i ==> (#[trigger] self.bufs@[j])@.len() == 0,
                        forall|j: int|
                            0 <= j < mid.len() && !(begin <= j < i) ==> #[trigger] self.bufs@[j] == mid[j],
                    decreases end - i,
                {
                    self.bufs.set(i, Vec::new());
                    i = i + 1;
                }
                proof {
                    assert(self.bufs.alignment_scratch_allocation_blocks_bufs@.len() == 0);
                    assert(self.bufs@ =~= self.bufs.dst_allocation_blocks_bufs@);
                }
                None
            },
            None => None,
        }
    }

    /// Allocate the alignment scratch buffers.
    pub fn allocate_alignment_scratch_allocation_blocks_buf(&mut self) -> (r: Result<(), NvFsError>)
        requires
            old(self).ranges_wf(),
            old(self).bufs.wf(),
            old(self).bufs.dst_allocation_blocks_bufs@.len() == old(self).request_end() - old(self).request_begin(),
        ensures
            final(self).same_request(old(self)),
            final(self).authenticated_subrange_from_read_buf == old(self).authenticated_subrange_from_read_buf,
            final(self).unauthenticated_subrange_from_read_buf == old(self).unauthenticated_subrange_from_read_buf,
            final(self).authenticated_allocation_blocks_end == old(self).authenticated_allocation_blocks_end,
            final(self).bufs.dst_allocation_blocks_bufs == old(self).bufs.dst_allocation_blocks_bufs,
            match r {
                Ok(()) => {
                    &&& final(self).bufs_wf()
                    &&& forall|location: int|
                        old(self).aligned_request_range.has(location) && !old(self).request_range.has(location)
                            ==> (#[trigger] final(self).buf_at(location))@.len() == 0
                    &&& forall|location: int|
                        old(self).request_range.has(location) ==> #[trigger] final(self).buf_at(location)
                            == old(self).bufs.dst_allocation_blocks_bufs@[location - old(self).request_begin()]
                },
                Err(e) => {
                    &&& e == NvFsError::MemoryAllocationFailure
                    &&& *final(self) == *old(self)
                    &&& old(self).aligned_request_range != old(self).request_range
                },
            },
    {
        proof {
            self.lemma_ranges_nested();
        }
        let head: usize = (self.request_range.begin.index - self.aligned_request_range.begin.index) as usize;
        let tail: usize = (self.aligned_request_range.end.index - self.request_range.end.index) as usize;
        match buffered_read::try_new_empty_bufs(head + tail) {
            Ok(bufs) => {
                self.bufs.alignment_scratch_allocation_blocks_bufs = bufs;
                self.bufs.head_alignment_scratch_allocation_blocks = head;
                Ok(())
            },
            Err(e) => Err(e),
        }
    }

    /// As much of the requested data as possible has been obtained from the read
    /// buffer.
    pub open spec fn buffered_data_obtained(
        &self,
        old_self: &Self,
        old_buffer: &ReadBuffer,
        new_buffer: &ReadBuffer,
    ) -> bool {
        &&& self.same_request(old_self)
        &&& self.authenticated_allocation_blocks_end == old_self.authenticated_allocation_blocks_end
        &&& self.bufs_wf()
        &&& self.subranges_wf()
        &&& consumed(
            &old_buffer.buf.auth_tree_data_block_buf,
            &new_buffer.buf.auth_tree_data_block_buf,
            old_self.authenticated_overlap(old_buffer),
        )
        &&& consumed(
            &old_buffer.buf.min_io_block_buf,
            &new_buffer.buf.min_io_block_buf,
            old_self.unauthenticated_overlap(old_buffer),
        )
        &&& self.unauthenticated_subrange_from_read_buf == old_self.unauthenticated_found(old_buffer)
        // Anything authenticated superseded by unauthenticated data is not considered
        // authenticated anymore.
        &&& self.authenticated_subrange_from_read_buf == match (
            old_self.authenticated_found(old_buffer),
            old_self.unauthenticated_overlap(old_buffer),
        ) {
            (Some(s), Some(u)) => if s.begin.index < u.end.index && u.begin.index < s.end.index {
                None
            } else {
                Some(s)
            },
            (s, _) => s,
        }
        &&& forall|location: int|
            old_self.aligned_request_range.has(location) ==> old_self.obtained(
                old_buffer,
                location,
                #[trigger] self.buf_at(location),
            )
    }

    /// Obtain as much of the requested data as possible from the read buffer.
    ///
    /// If all of it has been found authenticated, return true.
    pub fn obtain_buffered_data(&mut self, buffer: &mut ReadBuffer) -> (r: Result<bool, NvFsError>)
        requires
            old(self).ranges_wf(),
            old(self).bufs_initial(),
            old(self).matches_buffer(old(buffer)),
            old(self).authenticated_subrange_from_read_buf is None,
            old(self).unauthenticated_subrange_from_read_buf is None,
        ensures
            final(self).same_request(old(self)),
            final(self).authenticated_allocation_blocks_end == old(self).authenticated_allocation_blocks_end,
            final(buffer).wf(),
            final(buffer).same_layout(old(buffer)),
            consumed(
                &old(buffer).buf.auth_tree_data_block_buf,
                &final(buffer).buf.auth_tree_data_block_buf,
                old(self).authenticated_overlap(old(buffer)),
            ),
            r matches Ok(complete) ==> complete == (old(self).authenticated_found(old(buffer)) == Some(
                old(self).request_range,
            )),
            r matches Err(e) ==> {
                &&& e == NvFsError::MemoryAllocationFailure
                &&& old(self).authenticated_found(old(buffer)) != Some(old(self).request_range)
                &&& old(self).aligned_request_range != old(self).request_range
                &&& final(buffer).buf.min_io_block_buf == old(buffer).buf.min_io_block_buf
            },
            // If everything is there already, be done.
            r matches Ok(true) ==> {
                &&& final(buffer).buf.min_io_block_buf == old(buffer).buf.min_io_block_buf
                &&& final(self).bufs.dst_allocation_blocks_bufs@.len() == old(self).request_end()
                    - old(self).request_begin()
                &&& forall|location: int|
                    old(self).request_range.has(location) ==> Some(
                        #[trigger] final(self).bufs.dst_allocation_blocks_bufs@[location - old(self).request_begin()],
                    ) == old(buffer).buf.auth_tree_data_block_buf.buffered(location)
            },
            r matches Ok(false) ==> final(self).buffered_data_obtained(old(self), old(buffer), final(buffer)),
    {
        let ghost o = *buffer;
        let ghost d = *self;
        proof {
            self.lemma_ranges_nested();
        }
        // First try to obtain anything already authenticated from the read buffer.
        let authenticated = self.take_authenticated(buffer);
        let ghost dst = self.bufs.dst_allocation_blocks_bufs@;
        match authenticated {
            Some(found) => {
                proof {
                    lemma_overlap(
                        &o.buf.auth_tree_data_block_buf,
                        o.buffers_authenticated(),
                        d.request_range,
                        found,
                    );
                }
                if found == self.request_range {
                    // All found authenticated in the read buffer -> done.
                    return Ok(true);
                }
            },
            None => (),
        }
        // Now it is known that the alignment scratch buffers will probably be needed.
        match self.allocate_alignment_scratch_allocation_blocks_buf() {
            Ok(()) => (),
            Err(e) => {
                return Err(e);
            },
        }
        let ghost scratch = *self;
        let ghost before = self.bufs@;
        // Try to obtain unauthenticated data overlapping with the aligned request range from the
        // read buffer.
        let aligned = self.auth_tree_data_block_aligned_request_range;
        let offset: usize = (aligned.begin.index - self.aligned_request_range.begin.index) as usize;
        let taken = buffer.take_unauthenticated_buffers(&aligned, &mut self.bufs, offset);
        let ghost after = self.bufs@;
        self.authenticated_subrange_from_read_buf = authenticated;
        let ghost mut settled = *self;
        match taken {
            Some((found, complete)) => {
                proof {
                    lemma_overlap(&o.buf.min_io_block_buf, true, aligned, found);
                }
                if !complete {
                    // There are some Allocation Blocks missing. That means that the containing IO
                    // block needs to get re-read anyway, and what has just been obtained from the
                    // read buffer will be of no value. Clear that out again in order to simplify
                    // the logic.
                    self.clear_range(found);
                } else {
                    self.unauthenticated_subrange_from_read_buf = Some(found);
                }
                proof {
                    settled = *self;
                }
                // In the highly unlikely event that the unauthenticated buffers just retrieved
                // alias with any authenticated ones obtained above, invalidate the authentication
                // status -- the authenticated buffers would have been overwritten with
                // unauthenticated ones then.
                match authenticated {
                    Some(s) => if s.begin.index < found.end.index && found.begin.index < s.end.index {
                        self.authenticated_subrange_from_read_buf = None;
                    },
                    None => (),
                }
            },
            None => (),
        }
        proof {
            assert forall|location: int| d.request_range.has(location) implies #[trigger] before[location
                - d.io_begin()] == dst[location - d.request_begin()] by {
                assert(scratch.buf_at(location) == before[location - d.io_begin()]);
            }
            assert forall|location: int|
                d.aligned_request_range.has(location) && !d.request_range.has(location) implies (#[trigger] before[location
                - d.io_begin()])@.len() == 0 by {
                assert(scratch.buf_at(location) == before[location - d.io_begin()]);
            }
            assert forall|location: int| d.aligned_request_range.has(location) implies #[trigger] self.buf_at(location)
                == settled.buf_at(location) by {}
            self.lemma_obtained(&d, &o, before, after, dst, offset as int, taken);
        }
        Ok(false)
    }

    /// Clear the buffers in a range.
    fn clear_range(&mut self, range: PhysicalAllocBlockRange)
        requires
            old(self).ranges_wf(),
            old(self).bufs_wf(),
            old(self).io_begin() <= range.begin.index <= range.end.index <= old(self).io_end(),
        ensures
            final(self).same_request(old(self)),
            final(self).bufs_wf(),
            final(self).authenticated_subrange_from_read_buf == old(self).authenticated_subrange_from_read_buf,
            final(self).unauthenticated_subrange_from_read_buf == old(self).unauthenticated_subrange_from_read_buf,
            final(self).authenticated_allocation_blocks_end == old(self).authenticated_allocation_blocks_end,
            forall|location: int|
                old(self).aligned_request_range.has(location) ==> if range.has(location) {
                    (#[trigger] final(self).buf_at(location))@.len() == 0
                } else {
                    final(self).buf_at(location) == old(self).buf_at(location)
                },
    {
        let ghost d = *self;
        let begin: usize = (range.begin.index - self.aligned_request_range.begin.index) as usize;
        let end: usize = (range.end.index - self.aligned_request_range.begin.index) as usize;
        let mut i: usize = begin;
        while i < end
            invariant
                begin <= i <= end <= d.bufs@.len(),
                self.same_request(&d),
                self.authenticated_subrange_from_read_buf == d.authenticated_subrange_from_read_buf,
                self.unauthenticated_subrange_from_read_buf == d.unauthenticated_subrange_from_read_buf,
                self.authenticated_allocation_blocks_end == d.authenticated_allocation_blocks_end,
                self.bufs_wf(),
                self.bufs@.len() == d.bufs@.len(),
                forall|j: int| begin <= j < i ==> (#[trigger] self.bufs@[j])@.len() == 0,
                forall|j: int|
                    0 <= j < d.bufs@.len() && !(begin <= j < i) ==> #[trigger] self.bufs@[j] == d.bufs@[j],
            decreases end - i,
        {
            self.bufs.set(i, Vec::new());
            i = i + 1;
        }
    }

    /// Summary of what's been obtained from the read buffer.
    proof fn lemma_obtained(
        &self,
        d: &Self,
        o: &ReadBuffer,
        before: Seq<Vec<u8>>,
        after: Seq<Vec<u8>>,
        dst: Seq<Vec<u8>>,
        offset: int,
        taken: Option<(PhysicalAllocBlockRange, bool)>,
    )
        requires
            d.ranges_wf(),
            d.matches_buffer(o),
            self.same_request(d),
            self.bufs_wf(),
            offset == d.auth_begin() - d.io_begin(),
            before.len() == d.io_end() - d.io_begin(),
            after.len() == before.len(),
            d.authenticated_found(o) != Some(d.request_range),
            dst.len() == d.request_end() - d.request_begin(),
            // Initial take.
            forall|location: int|
                d.request_range.has(location) ==> {
                    let data = #[trigger] dst[location - d.request_begin()];
                    if d.authenticated_found(o) matches Some(range) && range.has(location) {
                        Some(data) == o.buf.auth_tree_data_block_buf.buffered(location)
                    } else {
                        data@.len() == 0
                    }
                },
            forall|location: int|
                d.request_range.has(location) ==> #[trigger] before[location - d.io_begin()] == dst[location
                    - d.request_begin()],
            forall|location: int|
                d.aligned_request_range.has(location) && !d.request_range.has(location)
                    ==> (#[trigger] before[location - d.io_begin()])@.len() == 0,
            // Second take.
            match taken {
                Some((range, complete)) => {
                    &&& d.unauthenticated_overlap(o) == Some(range)
                    &&& complete == read_buffer::all_buffered(&o.buf.min_io_block_buf, range)
                    &&& forall|j: int|
                        0 <= j < before.len() ==> #[trigger] after[j] == {
                            let location = d.auth_begin() + (j - offset);
                            if range.has(location) && o.buf.min_io_block_buf.buffered(location) is Some {
                                o.buf.min_io_block_buf.buffered(location)->Some_0
                            } else {
                                before[j]
                            }
                        }
                    &&& forall|location: int|
                        d.aligned_request_range.has(location) ==> if range.has(location) && !complete {
                            (#[trigger] self.buf_at(location))@.len() == 0
                        } else {
                            self.buf_at(location) == after[location - d.io_begin()]
                        }
                },
                None => {
                    &&& d.unauthenticated_overlap(o) is None
                    &&& self.bufs@ == before
                },
            },
            self.unauthenticated_subrange_from_read_buf == d.unauthenticated_found(o),
            self.authenticated_subrange_from_read_buf is Some ==> self.authenticated_subrange_from_read_buf
                == d.authenticated_found(o),
        ensures
            self.subranges_wf(),
            forall|location: int|
                d.aligned_request_range.has(location) ==> d.obtained(o, location, #[trigger] self.buf_at(location)),
    {
        d.lemma_ranges_nested();
        assert forall|location: int| d.aligned_request_range.has(location) implies d.obtained(
            o,
            location,
            #[trigger] self.buf_at(location),
        ) by {
            let j = location - d.io_begin();
            assert(self.buf_at(location) == self.bufs@[j]);
            assert(before[j] == before[location - d.io_begin()]);
            if d.request_range.has(location) {
                assert(dst[location - d.request_begin()] == before[j]);
            } else {
                assert(before[j]@.len() == 0);
                match d.authenticated_found(o) {
                    Some(range) => {
                        lemma_overlap(
                            &o.buf.auth_tree_data_block_buf,
                            o.buffers_authenticated(),
                            d.request_range,
                            range,
                        );
                    },
                    None => {},
                }
            }
            match taken {
                Some((range, complete)) => {
                    assert(d.auth_begin() + (j - offset) == location);
                    assert(after[j] == after[location - d.io_begin()]);
                    if range.has(location) && complete {
                        assert(o.buf.min_io_block_buf.buffered(location) is Some);
                    }
                },
                None => {},
            }
        }
        match self.authenticated_subrange_from_read_buf {
            Some(s) => {
                lemma_overlap(&o.buf.auth_tree_data_block_buf, o.buffers_authenticated(), d.request_range, s);
            },
            None => {},
        }
        match self.unauthenticated_subrange_from_read_buf {
            Some(u) => {
                lemma_overlap(
                    &o.buf.min_io_block_buf,
                    o.buffers_unauthenticated(),
                    d.auth_tree_data_block_aligned_request_range,
                    u,
                );
            },
            None => {},
        }
    }
}

impl BufferedReadAuthenticatedDataFutureData {
    /// Whether the alignment padding at the head won't ever get accessed.
    ///
    /// - If some unauthenticated data had been obtained from the read buffer and
    ///   that range aligns to the left of the range to authenticate, then there's
    ///   no need to read its IO block.
    /// - Likewise, if some authenticated data had been obtained from the read
    ///   buffer, that range aligns to the beginning of the request range, and
    ///   its boundary in the interior of the request range happens to be aligned
    ///   to the IO block size.
    pub open spec fn head_is_unused(&self) -> bool {
        ||| self.unauthenticated_subrange_from_read_buf matches Some(u) && u.begin.index == self.auth_begin()
        ||| self.authenticated_subrange_from_read_buf matches Some(s) && s.begin == self.request_range.begin
            && align::aligned(s.end.index as int, self.io_log2())
    }

    /// Whether the alignment padding at the tail won't ever get accessed.
    pub open spec fn tail_is_unused(&self) -> bool {
        ||| self.unauthenticated_subrange_from_read_buf matches Some(u) && u.end.index == self.auth_end()
        ||| self.authenticated_subrange_from_read_buf matches Some(s) && s.end == self.request_range.end
            && align::aligned(s.begin.index as int, self.io_log2())
    }

    /// The buffer at a location possibly gets accessed.
    pub open spec fn is_used(&self, location: int) -> bool {
        &&& self.io_begin() <= location < self.io_end()
        &&& location < self.request_begin() ==> !self.head_is_unused()
        &&& location >= self.request_end() ==> !self.tail_is_unused()
    }

    /// Size of an Allocation Block in units of Bytes.
    pub open spec fn allocation_block_size(&self) -> int {
        align::block_size((self.allocation_block_size_128b_log2 + 7) as nat)
    }

    /// Determine the range of buffers possibly accessed.
    pub fn split_off_unused_alignment_scratch_allocation_blocks_bufs(&self) -> (r: PhysicalAllocBlockRange)
        requires
            self.ranges_wf(),
            self.subranges_wf(),
        ensures
            forall|location: int| #[trigger] r.has(location) <==> self.is_used(location),
            self.io_begin() <= r.begin.index <= self.request_begin(),
            self.request_end() <= r.end.index <= self.io_end(),
    {
        proof {
            self.lemma_ranges_nested();
        }
        let io_log2: u32 = self.min_io_block_allocation_blocks_log2 as u32;
        let (mut head_is_unused, mut tail_is_unused): (bool, bool) = match self.unauthenticated_subrange_from_read_buf {
            Some(u) => (
                u.begin.index == self.auth_tree_data_block_aligned_request_range.begin.index,
                u.end.index == self.auth_tree_data_block_aligned_request_range.end.index,
            ),
            None => (false, false),
        };
        match self.authenticated_subrange_from_read_buf {
            Some(s) => {
                head_is_unused = head_is_unused || (s.begin.index == self.request_range.begin.index
                    && align::align_down_u64(s.end.index, io_log2) == s.end.index);
                tail_is_unused = tail_is_unused || (s.end.index == self.request_range.end.index
                    && align::align_down_u64(s.begin.index, io_log2) == s.begin.index);
            },
            None => (),
        }
        PhysicalAllocBlockRange {
            begin: if head_is_unused {
                self.request_range.begin
            } else {
                self.aligned_request_range.begin
            },
            end: if tail_is_unused {
                self.request_range.end
            } else {
                self.aligned_request_range.end
            },
        }
    }

    /// The buffer at a location after allocation of destination buffers.
    pub open spec fn buf_allocated_at(&self, old_self: &Self, alloc_bitmap: &AllocBitmap, location: int) -> bool {
        if old_self.is_used(location) && alloc_bitmap.allocated(location) && old_self.buf_at(location)@.len() == 0 {
            self.buf_at(location)@ == Seq::new(old_self.allocation_block_size() as nat, |i: int| 0u8)
        } else {
            self.buf_at(location) == old_self.buf_at(location)
        }
    }

    /// Destination buffers have been allocated for anything not obtained from
    /// the read buffer.
    pub open spec fn bufs_allocated(&self, old_self: &Self, alloc_bitmap: &AllocBitmap) -> bool {
        &&& self.same_request(old_self)
        &&& self.bufs_wf()
        &&& self.authenticated_subrange_from_read_buf == old_self.authenticated_subrange_from_read_buf
        &&& self.unauthenticated_subrange_from_read_buf == old_self.unauthenticated_subrange_from_read_buf
        &&& self.authenticated_allocation_blocks_end == old_self.authenticated_allocation_blocks_end
        &&& forall|location: int|
            old_self.aligned_request_range.has(location) ==> #[trigger] self.buf_allocated_at(
                old_self,
                alloc_bitmap,
                location,
            )
    }

    /// There's some location missing a destination buffer.
    pub open spec fn any_buf_missing(&self, alloc_bitmap: &AllocBitmap) -> bool {
        exists|location: int| #[trigger]
            self.is_used(location) && alloc_bitmap.allocated(location) && self.buf_at(location)@.len() == 0
    }

    /// Allocate Allocation Block destination buffers for anything not obtained
    /// from the read buffer.
    ///
    /// # Arguments:
    ///
    /// * `fs_sync_state_alloc_bitmap` - The filesystem instance's allocation
    ///   bitmap.
    pub fn allocate_bufs(&mut self, fs_sync_state_alloc_bitmap: &AllocBitmap) -> (r: Result<(), NvFsError>)
        requires
            old(self).ranges_wf(),
            old(self).bufs_wf(),
            old(self).subranges_wf(),
        ensures
            final(self).same_request(old(self)),
            match r {
                Ok(()) => final(self).bufs_allocated(old(self), fs_sync_state_alloc_bitmap),
                Err(e) => e == NvFsError::MemoryAllocationFailure && old(self).any_buf_missing(
                    fs_sync_state_alloc_bitmap,
                ),
            },
    {
        let ghost d = *self;
        proof {
            self.lemma_ranges_nested();
        }
        let used = self.split_off_unused_alignment_scratch_allocation_blocks_bufs();
        let allocation_block_size: usize = align::block_size_usize(self.allocation_block_size_128b_log2 as u32 + 7);
        let begin: u64 = self.aligned_request_range.begin.index;
        let mut location: u64 = used.begin.index;
        proof {
            assert forall|x: int| d.aligned_request_range.has(x) && x < location implies #[trigger] self.buf_allocated_at(
                &d,
                fs_sync_state_alloc_bitmap,
                x,
            ) by {
                assert(!used.has(x));
            }
        }
        while location < used.end.index
            invariant
                d == *old(self),
                d.io_begin() == begin,
                begin <= used.begin.index <= location <= used.end.index <= d.io_end(),
                forall|x: int| #[trigger] used.has(x) <==> d.is_used(x),
                allocation_block_size == d.allocation_block_size(),
                self.same_request(&d),
                self.bufs_wf(),
                d.bufs_wf(),
                d.io_end() - d.io_begin() <= usize::MAX,
                self.authenticated_subrange_from_read_buf == d.authenticated_subrange_from_read_buf,
                self.unauthenticated_subrange_from_read_buf == d.unauthenticated_subrange_from_read_buf,
                self.authenticated_allocation_blocks_end == d.authenticated_allocation_blocks_end,
                forall|x: int|
                    d.aligned_request_range.has(x) && x < location ==> #[trigger] self.buf_allocated_at(
                        &d,
                        fs_sync_state_alloc_bitmap,
                        x,
                    ),
                forall|x: int|
                    d.aligned_request_range.has(x) && x >= location ==> #[trigger] self.buf_at(x) == d.buf_at(x),
            decreases used.end.index - location,
        {
            let ghost before = *self;
            let i: usize = (location - begin) as usize;
            assert(used.has(location as int));
            assert(self.buf_at(location as int) == d.buf_at(location as int));
            if fs_sync_state_alloc_bitmap.is_allocated(PhysicalAllocBlockIndex { index: location }) && self.bufs.get(
                i,
            ).is_empty() {
                match apply::try_new_zeroed(allocation_block_size) {
                    Ok(buf) => {
                        self.bufs.set(i, buf);
                    },
                    Err(e) => {
                        assert(d.is_used(location as int));
                        return Err(e);
                    },
                }
            }
            proof {
                assert forall|x: int| d.aligned_request_range.has(x) && x < location + 1 implies #[trigger] self.buf_allocated_at(
                    &d,
                    fs_sync_state_alloc_bitmap,
                    x,
                ) by {
                    if x < location {
                        assert(before.buf_allocated_at(&d, fs_sync_state_alloc_bitmap, x));
                        assert(self.buf_at(x) == before.buf_at(x));
                    }
                }
                assert forall|x: int| d.aligned_request_range.has(x) && x >= location + 1 implies #[trigger] self.buf_at(
                    x,
                ) == d.buf_at(x) by {
                    assert(before.buf_at(x) == d.buf_at(x));
                }
            }
            location = location + 1;
        }
        proof {
            assert forall|x: int| d.aligned_request_range.has(x) implies #[trigger] self.buf_allocated_at(
                &d,
                fs_sync_state_alloc_bitmap,
                x,
            ) by {
                if x >= used.end.index {
                    assert(!used.has(x));
                    assert(self.buf_at(x) == d.buf_at(x));
                }
            }
        }
        Ok(())
    }
}

/// A range's overlap with a buffered block.
proof fn lemma_overlap(
    buffer: &BlockAllocationBlocksReadBuffer,
    enabled: bool,
    range: PhysicalAllocBlockRange,
    overlap: PhysicalAllocBlockRange,
)
    requires
        buffer.wf(),
        enabled,
        range.begin.index < range.end.index,
        buffered_overlap(buffer, enabled, range) == Some(overlap) || {
            &&& read_buffer::any_buffered(buffer, range)
            &&& buffer.buffered_block_allocation_blocks_begin matches Some(begin) && read_buffer::trimmed_to_block(
                range,
                begin.index as int,
                buffer.block_allocation_blocks_log2 as nat,
                overlap,
            )
        },
    ensures
        buffered_overlap(buffer, enabled, range) == Some(overlap),
        range.begin.index <= overlap.begin.index < overlap.end.index <= range.end.index,
        overlap.begin == range.begin || align::aligned(
            overlap.begin.index as int,
            buffer.block_allocation_blocks_log2 as nat,
        ),
        overlap.end == range.end || align::aligned(
            overlap.end.index as int,
            buffer.block_allocation_blocks_log2 as nat,
        ),
        align::same_block(
            overlap.begin.index as int,
            overlap.end.index - 1,
            buffer.block_allocation_blocks_log2 as nat,
        ),
{
    let log2 = buffer.block_allocation_blocks_log2 as nat;
    let begin = buffer.buffered_block_allocation_blocks_begin->Some_0.index as int;
    let location = choose|location: int| #[trigger] range.has(location) && buffer.buffered(location) is Some;
    assert(buffer.covers(location));
    align::lemma_block_size_pos(log2);
    align::lemma_aligned_next(begin, log2);
    align::lemma_align_down_unique(overlap.begin.index as int, begin, log2);
    align::lemma_align_down_unique(overlap.end.index - 1, begin, log2);
}

} // verus!
