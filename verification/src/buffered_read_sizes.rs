//! Sizes of the buffers involved in reading data through a read buffer.
use crate::align;
use crate::alloc_bitmap::AllocBitmap;
use crate::buffered_read::BufferedReadAuthenticatedDataFutureData;
use crate::buffered_read_authenticate::AuthTreeDataBlockData;
use crate::buffered_read_init;
use crate::buffered_read_poll::{
    BufferedReadAuthenticateDataFuture, BufferedReadAuthenticateDataFuturePoll, BufferedReadStep,
};
use crate::fs::NvFsError;
use crate::layout::PhysicalAllocBlockRange;
use crate::read_buffer;
use crate::read_buffer::ReadBuffer;
use vstd::prelude::*;

verus! {

/// All buffers are either empty or of a given size.
pub open spec fn all_have_size(bufs: Seq<Vec<u8>>, size: int) -> bool {
    forall|i: int| 0 <= i < bufs.len() ==> read_buffer::has_size(#[trigger] bufs[i], size)
}

impl BufferedReadAuthenticatedDataFutureData {
    /// All buffers are either empty or have the size of an Allocation Block.
    pub open spec fn bufs_sized(&self) -> bool {
        all_have_size(self.bufs@, self.allocation_block_size())
    }

    /// Completing a request leaves nothing but buffers of an Allocation Block's
    /// size behind, in the read buffer as well as in the outcome.
    pub proof fn law_completed_request_has_block_sizes(&self, old_buffer: &ReadBuffer, new_buffer: &ReadBuffer)
        requires
            self.ranges_wf(),
            self.bufs_wf(),
            self.bufs_sized(),
            self.matches_buffer(old_buffer),
            old_buffer.entries_sized(),
            self.padding_inserted(old_buffer, new_buffer),
        ensures
            new_buffer.entries_sized(),
            all_have_size(self.bufs.dst_allocation_blocks_bufs@, self.allocation_block_size()),
    {
        let size = self.allocation_block_size();
        let (a, u) = (new_buffer.buf.auth_tree_data_block_buf, new_buffer.buf.min_io_block_buf);
        let (old_a, old_u) = (old_buffer.buf.auth_tree_data_block_buf, old_buffer.buf.min_io_block_buf);
        self.lemma_ranges_nested();
        assert(old_buffer.allocation_block_size() == size);
        assert forall|location: int|
            self.io_begin() <= location < self.io_end() implies read_buffer::has_size(
            #[trigger] self.buf_at(location),
            size,
        ) by {}
        assert forall|location: int|
            #![trigger a.buffered(location)]
            #![trigger u.buffered(location)]
            {
                &&& a.buffered(location) matches Some(data) ==> read_buffer::has_size(data, size)
                &&& u.buffered(location) matches Some(data) ==> read_buffer::has_size(data, size)
            } by {
            assert(old_a.buffered(location) == old_a.buffered(location));
            if a.buffered(location) is Some && a.buffered(location) != old_a.buffered(location) {
                assert(a.buffered(location) == self.padding_entry(location));
                assert(read_buffer::has_size(self.buf_at(location), size));
            }
            if u.buffered(location) is Some && u.buffered(location) != old_u.buffered(location) {
                assert(u.buffered(location) == self.remaining_entry(location));
                assert(read_buffer::has_size(self.buf_at(location), size));
            }
        }
        let data = self.bufs.dst_allocation_blocks_bufs@;
        assert forall|i: int| 0 <= i < data.len() implies read_buffer::has_size(#[trigger] data[i], size) by {
            assert(self.buf_at(self.request_begin() + i) == data[i]);
        }
    }
}

impl BufferedReadAuthenticateDataFuture {
    /// All buffers are either empty or have the size of an Allocation Block, once
    /// they've been set up.
    pub open spec fn bufs_sized(&self) -> bool {
        ||| self.fut_state is Init
        ||| self.fut_state is Done
        ||| self.data().bufs_sized()
    }

    /// Advancing the operation retains the sizes of buffers.
    pub proof fn lemma_advanced_bufs_sized(
        &self,
        d: &BufferedReadAuthenticatedDataFutureData,
        location: int,
        leaf_log2: nat,
        old_buffer: &ReadBuffer,
        new_buffer: &ReadBuffer,
        r: &BufferedReadAuthenticateDataFuturePoll,
    )
        requires
            d.ranges_wf(),
            d.bufs_wf(),
            d.bufs_sized(),
            d.matches_buffer(old_buffer),
            old_buffer.entries_sized(),
            self.advanced(d, location, leaf_log2, old_buffer, new_buffer, r),
        ensures
            self.bufs_sized(),
            new_buffer.entries_sized(),
            *r matches BufferedReadAuthenticateDataFuturePoll::Ready(Ok(data)) ==> all_have_size(
                data@,
                d.allocation_block_size(),
            ),
    {
        let next = d.with_authenticated_end(d.next_step(location, leaf_log2).0);
        match d.next_step(location, leaf_log2).1 {
            BufferedReadStep::Failed(_) => {},
            BufferedReadStep::Read(_) => {
                assert(self.data() == next);
            },
            BufferedReadStep::LoadAuthTreeLeafNode(_) => {},
            BufferedReadStep::Finish => {
                next.law_completed_request_has_block_sizes(old_buffer, new_buffer);
            },
        }
    }

    /// Taking data from the read buffer retains the sizes of what's remaining
    /// there.
    proof fn lemma_consumed_entries_sized(
        d: &BufferedReadAuthenticatedDataFutureData,
        old_buffer: &ReadBuffer,
        new_buffer: &ReadBuffer,
        unauthenticated: Option<PhysicalAllocBlockRange>,
    )
        requires
            old_buffer.entries_sized(),
            new_buffer.same_layout(old_buffer),
            buffered_read_init::consumed(
                &old_buffer.buf.auth_tree_data_block_buf,
                &new_buffer.buf.auth_tree_data_block_buf,
                d.authenticated_overlap(old_buffer),
            ),
            buffered_read_init::consumed(
                &old_buffer.buf.min_io_block_buf,
                &new_buffer.buf.min_io_block_buf,
                unauthenticated,
            ),
        ensures
            new_buffer.entries_sized(),
    {
    }

    /// Starting the operation gives buffers of an Allocation Block's size.
    proof fn lemma_started_bufs_sized(
        d: &BufferedReadAuthenticatedDataFutureData,
        e: &BufferedReadAuthenticatedDataFutureData,
        old_buffer: &ReadBuffer,
        new_buffer: &ReadBuffer,
        alloc_bitmap: &AllocBitmap,
    )
        requires
            d.ranges_wf(),
            d.matches_buffer(old_buffer),
            new_buffer.same_layout(old_buffer),
            old_buffer.entries_sized(),
            Self::started(d, e, old_buffer, new_buffer, alloc_bitmap),
        ensures
            e.same_request(d),
            e.bufs_wf(),
            e.bufs_sized(),
            new_buffer.entries_sized(),
    {
        let obtained = choose|obtained: BufferedReadAuthenticatedDataFutureData|
            {
                &&& #[trigger] obtained.buffered_data_obtained(d, old_buffer, new_buffer)
                &&& if obtained.unauthenticated_subrange_from_read_buf == Some(
                    d.auth_tree_data_block_aligned_request_range,
                ) {
                    *e == obtained
                } else {
                    e.bufs_allocated(&obtained, alloc_bitmap)
                }
            };
        Self::lemma_consumed_entries_sized(d, old_buffer, new_buffer, d.unauthenticated_overlap(old_buffer));
        d.lemma_ranges_nested();
        align::lemma_block_size_pos((d.allocation_block_size_128b_log2 + 7) as nat);
        let size = d.allocation_block_size();
        assert forall|i: int| 0 <= i < e.bufs@.len() implies read_buffer::has_size(#[trigger] e.bufs@[i], size) by {
            let x = d.io_begin() + i;
            assert(d.aligned_request_range.has(x));
            assert(e.buf_at(x) == e.bufs@[i]);
            assert(d.obtained(old_buffer, x, obtained.buf_at(x)));
            assert(old_buffer.buf.min_io_block_buf.buffered(x) matches Some(data) ==> read_buffer::has_size(data, size));
            if obtained.unauthenticated_subrange_from_read_buf != Some(d.auth_tree_data_block_aligned_request_range) {
                assert(e.buf_allocated_at(&obtained, alloc_bitmap, x));
            }
        }
    }

    /// Handling the operation's start gives buffers of an Allocation Block's
    /// size.
    pub proof fn lemma_start_bufs_sized(
        &self,
        new_self: &Self,
        covered_data_blocks_per_leaf_node_log2: nat,
        alloc_bitmap: &AllocBitmap,
        old_buffer: &ReadBuffer,
        new_buffer: &ReadBuffer,
        r: &BufferedReadAuthenticateDataFuturePoll,
    )
        requires
            self.d.ranges_wf(),
            self.d.matches_buffer(old_buffer),
            new_buffer.same_layout(old_buffer),
            old_buffer.entries_sized(),
            self.start_completed(
                new_self,
                covered_data_blocks_per_leaf_node_log2,
                alloc_bitmap,
                old_buffer,
                new_buffer,
                r,
            ),
        ensures
            new_self.bufs_sized(),
            new_buffer.entries_sized(),
            *r matches BufferedReadAuthenticateDataFuturePoll::Ready(Ok(data)) ==> all_have_size(
                data@,
                self.d.allocation_block_size(),
            ),
    {
        let d = self.d;
        let leaf_log2 = d.auth_log2() + covered_data_blocks_per_leaf_node_log2;
        if d.authenticated_data_consumed(old_buffer, new_buffer) {
            Self::lemma_consumed_entries_sized(&d, old_buffer, new_buffer, None);
        }
        if d.authenticated_found(old_buffer) == Some(d.request_range) {
            let data = r->Ready_0->Ok_0@;
            assert forall|i: int| 0 <= i < data.len() implies read_buffer::has_size(
                #[trigger] data[i],
                d.allocation_block_size(),
            ) by {
                let x = d.request_begin() + i;
                assert(d.request_range.has(x));
                assert(data[x - d.request_begin()] == data[i]);
            }
        } else if exists|e: BufferedReadAuthenticatedDataFutureData, buffer: ReadBuffer|
            {
                &&& #[trigger] Self::started(&d, &e, old_buffer, &buffer, alloc_bitmap)
                &&& buffer.wf() && buffer.same_layout(old_buffer)
                &&& new_self.advanced(&e, d.auth_begin(), leaf_log2, &buffer, new_buffer, r)
            } {
            let (e, buffer) = choose|e: BufferedReadAuthenticatedDataFutureData, buffer: ReadBuffer|
                {
                    &&& #[trigger] Self::started(&d, &e, old_buffer, &buffer, alloc_bitmap)
                    &&& buffer.wf() && buffer.same_layout(old_buffer)
                    &&& new_self.advanced(&e, d.auth_begin(), leaf_log2, &buffer, new_buffer, r)
                };
            Self::lemma_started_bufs_sized(&d, &e, old_buffer, &buffer, alloc_bitmap);
            new_self.lemma_advanced_bufs_sized(&e, d.auth_begin(), leaf_log2, &buffer, new_buffer, r);
        } else if exists|obtained: BufferedReadAuthenticatedDataFutureData|
            #[trigger] obtained.buffered_data_obtained(&d, old_buffer, new_buffer) {
            Self::lemma_consumed_entries_sized(&d, old_buffer, new_buffer, d.unauthenticated_overlap(old_buffer));
        }
    }

    /// Authenticating a batch of data retains the sizes of buffers.
    pub proof fn lemma_batch_bufs_sized<L, F: Fn(&L, u64, AuthTreeDataBlockData) -> Result<(), NvFsError>>(
        &self,
        new_self: &Self,
        authenticate: F,
        leaf_node: L,
        covered_data_blocks_per_leaf_node_log2: nat,
        old_buffer: &ReadBuffer,
        new_buffer: &ReadBuffer,
        r: &BufferedReadAuthenticateDataFuturePoll,
    )
        requires
            self.d.ranges_wf(),
            self.d.bufs_wf(),
            self.d.bufs_sized(),
            self.d.matches_buffer(old_buffer),
            old_buffer.entries_sized(),
            self.batch_completed(
                new_self,
                authenticate,
                leaf_node,
                covered_data_blocks_per_leaf_node_log2,
                old_buffer,
                new_buffer,
                r,
            ),
        ensures
            new_self.bufs_sized(),
            new_buffer.entries_sized(),
            *r matches BufferedReadAuthenticateDataFuturePoll::Ready(Ok(data)) ==> all_have_size(
                data@,
                self.d.allocation_block_size(),
            ),
    {
        let leaf_log2 = self.d.auth_log2() + covered_data_blocks_per_leaf_node_log2;
        let end = self.d.batch_end(self.d.authenticated_end(), leaf_log2);
        let e = self.d.with_authenticated_end(end);
        if !(*new_buffer == *old_buffer && new_self.fut_state is Done && *r matches BufferedReadAuthenticateDataFuturePoll::Ready(
            Err(_),
        )) {
            if end >= self.d.request_end() {
                e.law_completed_request_has_block_sizes(old_buffer, new_buffer);
            } else {
                new_self.lemma_advanced_bufs_sized(&e, end, leaf_log2, old_buffer, new_buffer, r);
            }
        }
    }
}

} // verus!
