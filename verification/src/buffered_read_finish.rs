//! Completion of reading and authenticating data through a read buffer.
use crate::align;
use crate::alloc_bitmap::AllocBitmap;
use crate::buffered_read::BufferedReadAuthenticatedDataFutureData;
use crate::layout::PhysicalAllocBlockRange;
use crate::read_buffer;
use crate::read_buffer::ReadBuffer;
use vstd::prelude::*;

verus! {

/// Entries to insert into a read buffer.
pub open spec fn entries(begin: int, end: int, entry: spec_fn(int) -> Option<Vec<u8>>) -> Seq<Option<Vec<u8>>> {
    Seq::new((end - begin) as nat, |i: int| entry(begin + i))
}

impl BufferedReadAuthenticatedDataFutureData {
    /// The alignment padding at the head has been authenticated as a by-product.
    ///
    /// That's not the case if an authenticated region aligning with the request
    /// range's beginning had initially been obtained from the read buffer.
    pub open spec fn head_is_authenticated(&self) -> bool {
        self.authenticated_subrange_from_read_buf matches Some(s) ==> s.begin != self.request_range.begin
    }

    /// The alignment padding at the tail has been authenticated as a by-product.
    pub open spec fn tail_is_authenticated(&self) -> bool {
        self.authenticated_subrange_from_read_buf matches Some(s) ==> s.end != self.request_range.end
    }

    /// The request spans a single Authentication Tree Data Block.
    pub open spec fn is_single_auth_block(&self) -> bool {
        self.auth_end() - self.auth_begin() == align::block_size(self.auth_log2())
    }

    /// The request spans a single IO block.
    pub open spec fn is_single_io_block(&self) -> bool {
        self.io_end() - self.io_begin() == align::block_size(self.io_log2())
    }

    /// Range to insert authenticated alignment padding for into the read buffer.
    ///
    /// If the head and tail are contained in the same Authentication Tree Data
    /// Block, insert them together at once. Otherwise prefer the tail.
    pub open spec fn authenticated_padding(&self) -> Option<(int, int)> {
        let head = self.auth_begin() < self.request_begin() && self.head_is_authenticated();
        let tail = self.request_end() < self.auth_end() && self.tail_is_authenticated();
        if !head && !tail {
            None
        } else if self.is_single_auth_block() {
            Some((self.auth_begin(), self.auth_end()))
        } else if tail {
            Some((self.request_end(), self.auth_end()))
        } else {
            Some((self.auth_begin(), self.request_begin()))
        }
    }

    /// The authenticated alignment padding at a location is to get inserted into
    /// the read buffer.
    pub open spec fn is_padding_inserted(&self, location: int) -> bool {
        &&& self.authenticated_padding() matches Some((begin, end)) && begin <= location < end
        &&& location < self.request_begin() && self.head_is_authenticated() || location >= self.request_end()
            && self.tail_is_authenticated()
    }

    /// What's to get inserted for a location as authenticated data.
    pub open spec fn padding_entry(&self, location: int) -> Option<Vec<u8>> {
        if self.is_padding_inserted(location) {
            Some(self.buf_at(location))
        } else {
            None
        }
    }

    /// There's something left at a location that's been read, but not
    /// authenticated.
    pub open spec fn is_remaining(&self, location: int) -> bool {
        &&& self.is_used(location)
        &&& !self.request_range.has(location)
        &&& !self.is_padding_inserted(location)
    }

    /// What's to get inserted for a location as unauthenticated data.
    ///
    /// If any of the authenticated Allocation Block buffers had been inserted as
    /// authenticated data already, then they're not available.
    pub open spec fn remaining_entry(&self, location: int) -> Option<Vec<u8>> {
        if self.is_remaining(location) {
            Some(self.buf_at(location))
        } else {
            None
        }
    }

    /// There's anything allocated among what's remaining in some range.
    pub open spec fn any_remaining_allocated(&self, begin: int, end: int) -> bool {
        exists|location: int|
            begin <= location < end && #[trigger] self.is_remaining(location) && self.buf_at(location)@.len() != 0
    }

    /// Range to insert unauthenticated alignment padding for into the read
    /// buffer.
    ///
    /// Don't bother inserting if all are unallocated. If the head and tail are
    /// contained in the same IO block, insert them together at once. Otherwise
    /// prefer the tail.
    pub open spec fn unauthenticated_padding(&self) -> Option<(int, int)> {
        let head = self.any_remaining_allocated(self.io_begin(), self.request_begin());
        let tail = self.any_remaining_allocated(self.request_end(), self.io_end());
        if !head && !tail {
            None
        } else if self.is_single_io_block() {
            Some((self.io_begin(), self.io_end()))
        } else if tail {
            Some((self.request_end(), self.io_end()))
        } else {
            Some((self.io_begin(), self.request_begin()))
        }
    }

    /// Anything not needed for fulfilling the request has been inserted into the
    /// read buffer.
    pub open spec fn padding_inserted(&self, old_buffer: &ReadBuffer, new_buffer: &ReadBuffer) -> bool {
        &&& new_buffer.wf()
        &&& new_buffer.same_layout(old_buffer)
        &&& match self.authenticated_padding() {
            Some((begin, end)) => if old_buffer.buffers_authenticated() {
                read_buffer::buffers_inserted(
                    &new_buffer.buf.auth_tree_data_block_buf,
                    begin,
                    entries(begin, end, |location: int| self.padding_entry(location)),
                )
            } else {
                new_buffer.buf.auth_tree_data_block_buf == old_buffer.buf.auth_tree_data_block_buf
            },
            None => new_buffer.buf.auth_tree_data_block_buf == old_buffer.buf.auth_tree_data_block_buf,
        }
        &&& match self.unauthenticated_padding() {
            Some((begin, end)) => if old_buffer.buffers_unauthenticated() {
                read_buffer::buffers_inserted(
                    &new_buffer.buf.min_io_block_buf,
                    begin,
                    entries(begin, end, |location: int| self.remaining_entry(location)),
                )
            } else {
                new_buffer.buf.min_io_block_buf == old_buffer.buf.min_io_block_buf
            },
            None => new_buffer.buf.min_io_block_buf == old_buffer.buf.min_io_block_buf,
        }
    }

    /// There's a nonempty buffer for every allocated Allocation Block possibly
    /// accessed.
    pub open spec fn tracks_allocations(&self, alloc_bitmap: &AllocBitmap) -> bool {
        forall|location: int| #[trigger]
            alloc_bitmap.allocated(location) && (self.is_used(location) || self.in_unauthenticated_subrange(location))
                ==> self.buf_at(location)@.len() != 0
    }

    /// There's data returned for every allocated Allocation Block requested.
    pub open spec fn outcome_tracks_allocations(&self, data: Seq<Vec<u8>>, alloc_bitmap: &AllocBitmap) -> bool {
        forall|location: int| #[trigger]
            alloc_bitmap.allocated(location) && self.request_range.has(location) ==> data[location
                - self.request_begin()]@.len() != 0
    }

    /// Any authenticated alignment padding is either read from storage or had
    /// been obtained from the read buffer.
    proof fn lemma_inserted_padding_is_available(&self, location: int)
        requires
            self.ranges_wf(),
            self.subranges_wf(),
            self.is_padding_inserted(location),
        ensures
            self.is_used(location) || self.in_unauthenticated_subrange(location),
    {
        let l = self.auth_log2();
        self.lemma_ranges_nested();
        align::lemma_align_down_bounds(self.request_begin(), l);
        align::lemma_align_down_bounds(self.request_end() - 1, l);
        match self.unauthenticated_subrange_from_read_buf {
            Some(u) => {
                if u.begin.index == self.auth_begin() && u.end.index != self.auth_end() {
                    align::lemma_aligned_finer(u.end.index as int, l, self.io_log2());
                    align::lemma_aligned_gap(self.auth_begin(), u.end.index as int, l);
                }
                if u.end.index == self.auth_end() && u.begin.index != self.auth_begin() {
                    align::lemma_aligned_finer(u.begin.index as int, l, self.io_log2());
                    align::lemma_aligned_gap(u.begin.index as int, self.auth_end(), l);
                }
            },
            None => {},
        }
    }

    /// Completing a request does not record any allocated Allocation Block as
    /// unallocated in the read buffer.
    pub proof fn law_no_allocated_padding_is_recorded_as_unallocated(
        &self,
        old_buffer: &ReadBuffer,
        new_buffer: &ReadBuffer,
        alloc_bitmap: &AllocBitmap,
    )
        requires
            self.ranges_wf(),
            self.subranges_wf(),
            self.tracks_allocations(alloc_bitmap),
            old_buffer.tracks_allocations(alloc_bitmap),
            self.padding_inserted(old_buffer, new_buffer),
        ensures
            new_buffer.tracks_allocations(alloc_bitmap),
    {
        assert forall|location: int| #[trigger] alloc_bitmap.allocated(location) implies {
            &&& !read_buffer::recorded_as_unallocated(&new_buffer.buf.auth_tree_data_block_buf, location)
            &&& !read_buffer::recorded_as_unallocated(&new_buffer.buf.min_io_block_buf, location)
        } by {
            if self.is_padding_inserted(location) {
                self.lemma_inserted_padding_is_available(location);
            }
            let (a, u) = (new_buffer.buf.auth_tree_data_block_buf, new_buffer.buf.min_io_block_buf);
            match self.authenticated_padding() {
                Some((begin, end)) => {
                    if a.buffered(location) is Some && begin <= location < end && old_buffer.buffers_authenticated() {
                        assert(a.buffered(location) == self.padding_entry(location));
                    }
                },
                None => {},
            }
            match self.unauthenticated_padding() {
                Some((begin, end)) => {
                    if u.buffered(location) is Some && begin <= location < end
                        && old_buffer.buffers_unauthenticated() {
                        assert(u.buffered(location) == self.remaining_entry(location));
                    }
                },
                None => {},
            }
        }
    }

    /// Alignment padding inserted as authenticated data is not available as
    /// unauthenticated data at the same time.
    pub proof fn law_inserted_padding_is_unique(
        &self,
        old_buffer: &ReadBuffer,
        new_buffer: &ReadBuffer,
        location: int,
    )
        requires
            self.padding_inserted(old_buffer, new_buffer),
            old_buffer.buffers_unauthenticated(),
            self.unauthenticated_padding() is Some,
            self.is_padding_inserted(location),
        ensures
            new_buffer.buf.min_io_block_buf.buffered(location) is None,
    {
        let (begin, end) = self.unauthenticated_padding()->Some_0;
        if begin <= location < end {
            assert(self.remaining_entry(location) is None);
        }
    }

    /// Test whether there's anything allocated among what's remaining in some
    /// range.
    fn test_any_remaining_allocated(
        &self,
        used: &PhysicalAllocBlockRange,
        inserted: Option<PhysicalAllocBlockRange>,
        head_is_authenticated: bool,
        tail_is_authenticated: bool,
        begin: u64,
        end: u64,
    ) -> (r: bool)
        requires
            self.ranges_wf(),
            self.bufs_wf(),
            self.is_classified(used, inserted, head_is_authenticated, tail_is_authenticated),
            self.io_begin() <= begin <= end <= self.io_end(),
        ensures
            r == self.any_remaining_allocated(begin as int, end as int),
    {
        let mut location: u64 = begin;
        while location < end
            invariant
                self.ranges_wf(),
                self.bufs_wf(),
                self.is_classified(used, inserted, head_is_authenticated, tail_is_authenticated),
                self.io_begin() <= begin <= location <= end <= self.io_end(),
                forall|x: int|
                    begin <= x < location && #[trigger] self.is_remaining(x) ==> self.buf_at(x)@.len() == 0,
            decreases end - location,
        {
            if self.test_is_remaining(used, inserted, head_is_authenticated, tail_is_authenticated, location)
                && !self.get_buf(location).is_empty() {
                assert(self.is_remaining(location as int));
                return true;
            }
            location = location + 1;
        }
        false
    }

    /// The individual parameters determining how to handle some buffer.
    pub open spec fn is_classified(
        &self,
        used: &PhysicalAllocBlockRange,
        inserted: Option<PhysicalAllocBlockRange>,
        head_is_authenticated: bool,
        tail_is_authenticated: bool,
    ) -> bool {
        &&& forall|location: int| #[trigger] used.has(location) <==> self.is_used(location)
        &&& head_is_authenticated == self.head_is_authenticated()
        &&& tail_is_authenticated == self.tail_is_authenticated()
        &&& match inserted {
            Some(range) => self.authenticated_padding() == Some((range.begin.index as int, range.end.index as int)),
            None => self.authenticated_padding() is None,
        }
    }

    /// Test whether there's something left at a location that's been read, but
    /// not authenticated.
    fn test_is_remaining(
        &self,
        used: &PhysicalAllocBlockRange,
        inserted: Option<PhysicalAllocBlockRange>,
        head_is_authenticated: bool,
        tail_is_authenticated: bool,
        location: u64,
    ) -> (r: bool)
        requires
            self.is_classified(used, inserted, head_is_authenticated, tail_is_authenticated),
        ensures
            r == self.is_remaining(location as int),
    {
        assert(used.has(location as int) <==> self.is_used(location as int));
        let is_head: bool = location < self.request_range.begin.index;
        let is_tail: bool = location >= self.request_range.end.index;
        let is_used: bool = used.begin.index <= location && location < used.end.index;
        is_used && (is_head || is_tail) && !self.test_is_padding_inserted(
            inserted,
            head_is_authenticated,
            tail_is_authenticated,
            location,
        )
    }
}

impl BufferedReadAuthenticatedDataFutureData {
    /// Take buffers to insert them into the read buffer.
    fn take_entries(
        &mut self,
        used: &PhysicalAllocBlockRange,
        inserted: Option<PhysicalAllocBlockRange>,
        head_is_authenticated: bool,
        tail_is_authenticated: bool,
        authenticated: bool,
        range: &PhysicalAllocBlockRange,
    ) -> (r: Vec<Option<Vec<u8>>>)
        requires
            old(self).ranges_wf(),
            old(self).bufs_wf(),
            old(self).is_classified(used, inserted, head_is_authenticated, tail_is_authenticated),
            old(self).io_begin() <= range.begin.index <= range.end.index <= old(self).io_end(),
        ensures
            final(self).same_progress(old(self)),
            final(self).bufs_wf(),
            r@.len() == range.end.index - range.begin.index,
            forall|i: int|
                0 <= i < r@.len() ==> #[trigger] r@[i] == if authenticated {
                    old(self).padding_entry(range.begin.index + i)
                } else {
                    old(self).remaining_entry(range.begin.index + i)
                },
            forall|location: int|
                old(self).aligned_request_range.has(location) && (if authenticated {
                    !old(self).is_padding_inserted(location)
                } else {
                    !old(self).is_remaining(location)
                }) ==> #[trigger] final(self).buf_at(location) == old(self).buf_at(location),
    {
        let ghost d = *self;
        let begin: u64 = self.aligned_request_range.begin.index;
        let mut r: Vec<Option<Vec<u8>>> = Vec::new();
        let mut location: u64 = range.begin.index;
        proof {
            self.lemma_ranges_nested();
        }
        while location < range.end.index
            invariant
                d.ranges_wf(),
                d.bufs_wf(),
                d.is_classified(used, inserted, head_is_authenticated, tail_is_authenticated),
                self.same_progress(&d),
                self.bufs_wf(),
                d.io_begin() == begin,
                d.io_begin() <= range.begin.index <= location <= range.end.index <= d.io_end(),
                r@.len() == location - range.begin.index,
                forall|i: int|
                    0 <= i < r@.len() ==> #[trigger] r@[i] == if authenticated {
                        d.padding_entry(range.begin.index + i)
                    } else {
                        d.remaining_entry(range.begin.index + i)
                    },
                forall|x: int|
                    d.aligned_request_range.has(x) && (x >= location || (if authenticated {
                        !d.is_padding_inserted(x)
                    } else {
                        !d.is_remaining(x)
                    })) ==> #[trigger] self.buf_at(x) == d.buf_at(x),
            decreases range.end.index - location,
        {
            let ghost before = *self;
            let take: bool = if authenticated {
                self.test_is_padding_inserted(inserted, head_is_authenticated, tail_is_authenticated, location)
            } else {
                self.test_is_remaining(used, inserted, head_is_authenticated, tail_is_authenticated, location)
            };
            assert(self.buf_at(location as int) == d.buf_at(location as int));
            if take {
                let buf = self.bufs.take((location - begin) as usize);
                r.push(Some(buf));
            } else {
                r.push(None);
            }
            proof {
                assert forall|x: int|
                    d.aligned_request_range.has(x) && (x >= location + 1 || (if authenticated {
                        !d.is_padding_inserted(x)
                    } else {
                        !d.is_remaining(x)
                    })) implies #[trigger] self.buf_at(x) == d.buf_at(x) by {
                    assert(before.buf_at(x) == d.buf_at(x));
                }
            }
            location = location + 1;
        }
        r
    }

    /// Test whether the authenticated alignment padding at a location is to get
    /// inserted into the read buffer.
    fn test_is_padding_inserted(
        &self,
        inserted: Option<PhysicalAllocBlockRange>,
        head_is_authenticated: bool,
        tail_is_authenticated: bool,
        location: u64,
    ) -> (r: bool)
        requires
            head_is_authenticated == self.head_is_authenticated(),
            tail_is_authenticated == self.tail_is_authenticated(),
            match inserted {
                Some(range) => self.authenticated_padding() == Some(
                    (range.begin.index as int, range.end.index as int),
                ),
                None => self.authenticated_padding() is None,
            },
        ensures
            r == self.is_padding_inserted(location as int),
    {
        let is_head: bool = location < self.request_range.begin.index;
        let is_tail: bool = location >= self.request_range.end.index;
        match inserted {
            Some(range) => range.begin.index <= location && location < range.end.index && (is_head
                && head_is_authenticated || is_tail && tail_is_authenticated),
            None => false,
        }
    }

    /// Determine the range to insert authenticated alignment padding for into
    /// the read buffer.
    fn get_authenticated_padding(
        &self,
        head_is_authenticated: bool,
        tail_is_authenticated: bool,
    ) -> (r: Option<PhysicalAllocBlockRange>)
        requires
            self.ranges_wf(),
            head_is_authenticated == self.head_is_authenticated(),
            tail_is_authenticated == self.tail_is_authenticated(),
        ensures
            match r {
                Some(range) => {
                    &&& self.authenticated_padding() == Some((range.begin.index as int, range.end.index as int))
                    &&& self.auth_begin() <= range.begin.index < range.end.index <= self.auth_end()
                },
                None => self.authenticated_padding() is None,
            },
    {
        proof {
            self.lemma_ranges_nested();
        }
        let aligned = self.auth_tree_data_block_aligned_request_range;
        let head: bool = aligned.begin.index < self.request_range.begin.index && head_is_authenticated;
        let tail: bool = self.request_range.end.index < aligned.end.index && tail_is_authenticated;
        if !head && !tail {
            None
        } else if aligned.end.index - aligned.begin.index == align::block_size_u64(
            self.auth_tree_data_block_allocation_blocks_log2 as u32,
        ) {
            // The head and tail are contained in the same Authentication Tree Data Block, insert
            // them together at once.
            Some(aligned)
        } else if tail {
            Some(PhysicalAllocBlockRange { begin: self.request_range.end, end: aligned.end })
        } else {
            Some(PhysicalAllocBlockRange { begin: aligned.begin, end: self.request_range.begin })
        }
    }

    /// Complete the request.
    ///
    /// Insert anything from the alignment padding, i.e. everything not needed
    /// for fulfilling the request, into the read buffer for consumption in
    /// future requests.
    ///
    /// # Arguments:
    ///
    /// * `fs_sync_state_read_buffer` - The filesystem instance's read buffer.
    pub fn finish(&mut self, fs_sync_state_read_buffer: &mut ReadBuffer) -> (r: Vec<Vec<u8>>)
        requires
            old(self).ranges_wf(),
            old(self).bufs_wf(),
            old(self).subranges_wf(),
            old(self).matches_buffer(old(fs_sync_state_read_buffer)),
        ensures
            final(self).same_progress(old(self)),
            old(self).padding_inserted(old(fs_sync_state_read_buffer), final(fs_sync_state_read_buffer)),
            r@ =~= old(self).bufs.dst_allocation_blocks_bufs@,
    {
        let ghost d = *self;
        proof {
            self.lemma_ranges_nested();
        }
        // Careful, the alignment padding at either end might not have been authenticated if an
        // authenticated region aligning with the original left or right end had initially been
        // obtained from the read buffer.
        let (head_is_authenticated, tail_is_authenticated): (bool, bool) = match self.authenticated_subrange_from_read_buf {
            Some(s) => (
                s.begin.index != self.request_range.begin.index,
                s.end.index != self.request_range.end.index,
            ),
            None => (true, true),
        };
        let used = self.split_off_unused_alignment_scratch_allocation_blocks_bufs();
        let inserted = self.get_authenticated_padding(head_is_authenticated, tail_is_authenticated);
        let any_allocated_at_head: bool = self.test_any_remaining_allocated(
            &used,
            inserted,
            head_is_authenticated,
            tail_is_authenticated,
            self.aligned_request_range.begin.index,
            self.request_range.begin.index,
        );
        let any_allocated_at_tail: bool = self.test_any_remaining_allocated(
            &used,
            inserted,
            head_is_authenticated,
            tail_is_authenticated,
            self.request_range.end.index,
            self.aligned_request_range.end.index,
        );
        // First do any Allocation Blocks not in the original request range authenticated as a
        // by-product.
        match inserted {
            Some(range) => {
                let src = self.take_entries(
                    &used,
                    inserted,
                    head_is_authenticated,
                    tail_is_authenticated,
                    true,
                    &range,
                );
                proof {
                    lemma_block_within(range.begin.index as int, d.auth_end(), d.auth_log2());
                    assert(src@ =~= entries(
                        range.begin.index as int,
                        range.end.index as int,
                        |location: int| d.padding_entry(location),
                    ));
                }
                fs_sync_state_read_buffer.insert_authenticated_buffers(range.begin, src);
            },
            None => (),
        }
        let ghost e = *self;
        // And insert the remaining alignment padding read but not authenticated into the read
        // buffer. Don't bother inserting if all are unallocated.
        if any_allocated_at_head || any_allocated_at_tail {
            let aligned = self.aligned_request_range;
            let range: PhysicalAllocBlockRange = if aligned.end.index - aligned.begin.index == align::block_size_u64(
                self.min_io_block_allocation_blocks_log2 as u32,
            ) {
                // The head and tail are contained in the same IO block, insert them together at
                // once.
                aligned
            } else if any_allocated_at_tail {
                PhysicalAllocBlockRange { begin: self.request_range.end, end: aligned.end }
            } else {
                PhysicalAllocBlockRange { begin: aligned.begin, end: self.request_range.begin }
            };
            assert(d.unauthenticated_padding() == Some((range.begin.index as int, range.end.index as int)));
            let src = self.take_entries(
                &used,
                inserted,
                head_is_authenticated,
                tail_is_authenticated,
                false,
                &range,
            );
            proof {
                lemma_block_within(range.begin.index as int, d.io_end(), d.io_log2());
                assert forall|location: int| range.has(location) implies #[trigger] e.remaining_entry(location)
                    == d.remaining_entry(location) by {
                    if d.is_remaining(location) {
                        assert(e.buf_at(location) == d.buf_at(location));
                    }
                }
                assert(src@ =~= entries(
                    range.begin.index as int,
                    range.end.index as int,
                    |location: int| d.remaining_entry(location),
                )) by {
                    assert forall|i: int| 0 <= i < src@.len() implies #[trigger] src@[i] == d.remaining_entry(
                        range.begin.index + i,
                    ) by {
                        assert(range.has(range.begin.index + i));
                    }
                }
            }
            fs_sync_state_read_buffer.insert_unauthenticated_buffers(range.begin, src);
        }
        proof {
            let head = d.bufs.head_alignment_scratch_allocation_blocks as int;
            let old_dst = d.bufs.dst_allocation_blocks_bufs@;
            let new_dst = self.bufs.dst_allocation_blocks_bufs@;
            assert forall|k: int| 0 <= k < old_dst.len() implies #[trigger] new_dst[k] == old_dst[k] by {
                let location = d.request_begin() + k;
                assert(d.buf_at(location) == old_dst[k]);
                assert(e.buf_at(location) == d.buf_at(location));
                assert(self.buf_at(location) == e.buf_at(location));
                assert(self.buf_at(location) == new_dst[k]);
            }
        }
        let mut dst: Vec<Vec<u8>> = Vec::new();
        core::mem::swap(&mut dst, &mut self.bufs.dst_allocation_blocks_bufs);
        dst
    }
}

/// A block containing a location before some multiple of the block size ends at
/// the latter at the latest.
proof fn lemma_block_within(x: int, end: int, log2: nat)
    requires
        x < end,
        align::aligned(end, log2),
    ensures
        align::align_down(x, log2) + align::block_size(log2) <= end,
{
    align::lemma_align_down_bounds(x, log2);
    align::lemma_aligned_gap(align::align_down(x, log2), end, log2);
}

} // verus!
