//! Control flow of reading and authenticating data through a read buffer.
use crate::align;
use crate::alloc_bitmap::AllocBitmap;
use crate::block_buffer::AllocationBlocksBufs;
use crate::buffered_read;
use crate::buffered_read::{BufferedReadAuthenticatedDataFutureData, BufferedReadSetupError};
use crate::buffered_read_authenticate;
use crate::buffered_read_authenticate::{AuthTreeDataBlockData, BufferedReadAuthenticateStep};
use crate::buffered_read_init;
use crate::buffered_read_request::BufferedReadAuthenticateDataFutureNvChipReadRequest;
use crate::buffered_read_sizes;
use crate::fs::{NvBlkDevIoError, NvFsError};
use crate::layout::{PhysicalAllocBlockIndex, PhysicalAllocBlockRange};
use crate::read_buffer;
use crate::read_buffer::ReadBuffer;
use vstd::prelude::*;

verus! {

/// [`BufferedReadAuthenticateDataFuture`] state-machine state.
pub enum BufferedReadAuthenticateDataFutureState {
    /// Not started yet.
    Init,
    /// A storage read request is pending.
    ReadSubrangeData {
        /// The region being read.
        read_range: PhysicalAllocBlockRange,
        /// The buffers as of the request's submission.
        submitted: Ghost<AllocationBlocksBufs>,
    },
    /// Waiting for an Authentication Tree leaf node.
    LoadAuthTreeLeafNode {
        /// Index of the next Authentication Tree Data Block to authenticate.
        auth_tree_data_block_index: u64,
    },
    /// The operation is complete.
    Done,
}

/// Read and authenticate data through a read buffer.
pub struct BufferedReadAuthenticateDataFuture {
    /// The request and its progress.
    pub d: BufferedReadAuthenticatedDataFutureData,
    /// The state-machine state.
    pub fut_state: BufferedReadAuthenticateDataFutureState,
    /// The read buffer as of the operation's start.
    pub origin: Ghost<ReadBuffer>,
}

/// What the operation has been waiting for.
pub enum BufferedReadAuthenticateDataFutureEvent<'a, L> {
    /// The operation is to get started.
    Start,
    /// A storage read request has completed.
    ReadCompleted(Result<BufferedReadAuthenticateDataFutureNvChipReadRequest, NvBlkDevIoError>),
    /// An Authentication Tree leaf node has been loaded.
    AuthTreeLeafNodeLoaded(Result<&'a L, NvFsError>),
}

/// What to do next in the course of reading and authenticating data.
pub enum BufferedReadAuthenticateDataFuturePoll {
    /// Submit a read request to storage, and get back with the result.
    Read(BufferedReadAuthenticateDataFutureNvChipReadRequest),
    /// Load the Authentication Tree leaf node covering the given Authentication
    /// Tree Data Block, and get back with the result.
    LoadAuthTreeLeafNode(u64),
    /// The operation is complete.
    Ready(Result<Vec<Vec<u8>>, NvFsError>),
}

/// What's to get done next.
pub enum BufferedReadStep {
    /// The operation has failed.
    Failed(NvFsError),
    /// Read a region from storage.
    Read(PhysicalAllocBlockRange),
    /// Load the Authentication Tree leaf node covering the given Authentication
    /// Tree Data Block.
    LoadAuthTreeLeafNode(u64),
    /// All of the request has been authenticated.
    Finish,
}

/// What had been obtained authenticated from the read buffer for a location.
///
/// An empty buffer is possibly replaced in case the location has become
/// allocated since.
pub open spec fn obtained_authenticated(origin: &ReadBuffer, location: int, data: Vec<u8>) -> bool {
    origin.buf.auth_tree_data_block_buf.buffered(location) matches Some(buffered) && (buffered@.len() != 0 ==> data
        == buffered)
}

impl BufferedReadAuthenticatedDataFutureData {
    /// The state with a different authentication progress.
    pub open spec fn with_authenticated_end(&self, end: int) -> Self {
        Self { authenticated_allocation_blocks_end: PhysicalAllocBlockIndex { index: end as u64 }, ..*self }
    }

    /// The state with different buffers.
    pub open spec fn with_bufs(&self, bufs: AllocationBlocksBufs) -> Self {
        Self { bufs, ..*self }
    }

    /// What's to get done next and the authentication progress thereupon.
    pub open spec fn next_step(&self, location: int, leaf_log2: nat) -> (int, BufferedReadStep)
        decreases
                if self.authenticated_end() < self.auth_end() {
                    self.auth_end() - self.authenticated_end()
                } else {
                    0
                },
    {
        let authenticated = self.authenticated_end();
        let next = self.skipped();
        match self.next_region(location, leaf_log2) {
            Err(e) => (authenticated, BufferedReadStep::Failed(e)),
            Ok(Some((begin, end))) => if self.storage_position(end) > u64::MAX {
                (authenticated, BufferedReadStep::Failed(NvFsError::Internal))
            } else {
                (
                    authenticated,
                    BufferedReadStep::Read(
                        PhysicalAllocBlockRange {
                            begin: PhysicalAllocBlockIndex { index: begin as u64 },
                            end: PhysicalAllocBlockIndex { index: end as u64 },
                        },
                    ),
                )
            },
            // Everything needed for authenticating a batch of data is there.
            Ok(None) => match self.authenticate_step(leaf_log2) {
                BufferedReadAuthenticateStep::Finish => (next, BufferedReadStep::Finish),
                BufferedReadAuthenticateStep::LoadAuthTreeLeafNode(index) => (
                    next,
                    BufferedReadStep::LoadAuthTreeLeafNode(index),
                ),
                BufferedReadAuthenticateStep::PrepareNextSubrangeDataRead => if authenticated < next
                    <= self.auth_end() && next <= u64::MAX {
                    self.with_authenticated_end(next).next_step(next, leaf_log2)
                } else {
                    (authenticated, BufferedReadStep::Failed(NvFsError::Internal))
                },
            },
        }
    }

    /// The request is not complete yet.
    pub open spec fn in_progress(&self) -> bool {
        &&& self.ranges_wf()
        &&& self.subranges_wf()
        &&& self.auth_begin() <= self.authenticated_end() < self.request_end()
        &&& align::aligned(self.authenticated_end(), self.auth_log2())
    }

    /// The data obtained authenticated from the read buffer is still there.
    pub open spec fn retains_authenticated(&self, origin: &ReadBuffer) -> bool {
        forall|location: int| #[trigger]
            self.in_authenticated_subrange(location) ==> obtained_authenticated(
                origin,
                location,
                self.buf_at(location),
            )
    }

    /// The outcome is all authentic.
    ///
    /// Any of the requested data is either part of an Authentication Tree Data
    /// Block which had been found authentic, or had been obtained authenticated
    /// from the read buffer.
    pub open spec fn is_outcome<L, F: Fn(&L, u64, AuthTreeDataBlockData) -> Result<(), NvFsError>>(
        &self,
        authenticate: F,
        origin: &ReadBuffer,
        data: Seq<Vec<u8>>,
    ) -> bool {
        &&& data.len() == self.request_end() - self.request_begin()
        &&& forall|location: int| #[trigger]
            self.request_range.has(location) ==> if self.in_authenticated_subrange(location) {
                obtained_authenticated(origin, location, data[location - self.request_begin()])
            } else {
                &&& self.is_authentic(authenticate, align::align_down(location, self.auth_log2()))
                &&& data[location - self.request_begin()] == self.buf_at(location)
            }
    }

    /// The data returned for the request is all authentic.
    pub open spec fn outcome_is_authentic<L, F: Fn(&L, u64, AuthTreeDataBlockData) -> Result<(), NvFsError>>(
        &self,
        authenticate: F,
        origin: &ReadBuffer,
        data: Seq<Vec<u8>>,
    ) -> bool {
        exists|d: BufferedReadAuthenticatedDataFutureData|
            d.same_request(self) && #[trigger] d.is_outcome(authenticate, origin, data)
    }

    /// The data at a location is part of an Authentication Tree Data Block which
    /// had been found authentic.
    pub open spec fn holds_authentic<L, F: Fn(&L, u64, AuthTreeDataBlockData) -> Result<(), NvFsError>>(
        &self,
        authenticate: F,
        location: int,
        data: Vec<u8>,
    ) -> bool {
        &&& self.is_authentic(authenticate, align::align_down(location, self.auth_log2()))
        &&& data == self.buf_at(location)
    }

    /// The data at a location had been found authentic in the course of serving
    /// the request.
    pub open spec fn found_authentic<L, F: Fn(&L, u64, AuthTreeDataBlockData) -> Result<(), NvFsError>>(
        &self,
        authenticate: F,
        location: int,
        data: Vec<u8>,
    ) -> bool {
        exists|d: BufferedReadAuthenticatedDataFutureData|
            d.same_request(self) && #[trigger] d.holds_authentic(authenticate, location, data)
    }

    /// Anything available from the read buffer as authenticated data had been
    /// there before, or has been found authentic in the course of serving the
    /// request.
    pub open spec fn only_authentic_inserted<L, F: Fn(&L, u64, AuthTreeDataBlockData) -> Result<(), NvFsError>>(
        &self,
        authenticate: F,
        old_buffer: &ReadBuffer,
        new_buffer: &ReadBuffer,
    ) -> bool {
        forall|location: int|
            (#[trigger] new_buffer.buf.auth_tree_data_block_buf.buffered(location)) matches Some(data) ==> {
                ||| old_buffer.buf.auth_tree_data_block_buf.buffered(location) == Some(data)
                ||| self.found_authentic(authenticate, location, data)
            }
    }

    /// Completing a request leaves nothing but authentic data in the read buffer
    /// as authenticated data, other than what had been there before.
    pub proof fn law_only_authentic_data_is_inserted<
        L,
        F: Fn(&L, u64, AuthTreeDataBlockData) -> Result<(), NvFsError>,
    >(&self, authenticate: F, old_buffer: &ReadBuffer, new_buffer: &ReadBuffer)
        requires
            self.ranges_wf(),
            self.subranges_wf(),
            self.authenticated_by(authenticate),
            self.authenticated_end() >= self.request_end(),
            self.padding_inserted(old_buffer, new_buffer),
        ensures
            self.only_authentic_inserted(authenticate, old_buffer, new_buffer),
    {
        let (o, n) = (old_buffer.buf.auth_tree_data_block_buf, new_buffer.buf.auth_tree_data_block_buf);
        assert forall|location: int| (#[trigger] n.buffered(location)) is Some implies {
            ||| o.buffered(location) == n.buffered(location)
            ||| self.found_authentic(authenticate, location, n.buffered(location)->Some_0)
        } by {
            let data = n.buffered(location)->Some_0;
            if n.buffered(location) != o.buffered(location) {
                assert(n.buffered(location) == self.padding_entry(location));
                self.law_inserted_padding_is_authentic(authenticate, location);
                assert(self.holds_authentic(authenticate, location, data));
            }
        }
    }

    /// Once the authentication progress has passed the request, all of the
    /// requested data is known to be authentic, either because its
    /// Authentication Tree Data Block had been authenticated or it had been
    /// obtained authenticated from the read buffer.
    pub proof fn law_completed_request_is_authentic<
        L,
        F: Fn(&L, u64, AuthTreeDataBlockData) -> Result<(), NvFsError>,
    >(&self, authenticate: F, location: int)
        requires
            self.ranges_wf(),
            self.subranges_wf(),
            self.authenticated_by(authenticate),
            self.authenticated_end() >= self.request_end(),
            self.request_range.has(location),
        ensures
            self.in_authenticated_subrange(location) || self.is_authentic(
                authenticate,
                align::align_down(location, self.auth_log2()),
            ),
    {
        let l = self.auth_log2();
        let begin = align::align_down(location, l);
        self.lemma_ranges_nested();
        align::lemma_align_down_bounds(location, l);
        align::lemma_align_down_mono(self.auth_begin(), location, l);
        assert(self.is_settled(authenticate, begin));
        if self.is_from_read_buffer(begin) {
            self.lemma_from_read_buffer(begin, location);
        }
    }

    /// Only authenticated data gets inserted into the read buffer as such.
    pub proof fn law_inserted_padding_is_authentic<
        L,
        F: Fn(&L, u64, AuthTreeDataBlockData) -> Result<(), NvFsError>,
    >(&self, authenticate: F, location: int)
        requires
            self.ranges_wf(),
            self.subranges_wf(),
            self.authenticated_by(authenticate),
            self.authenticated_end() >= self.request_end(),
            self.is_padding_inserted(location),
        ensures
            self.is_authentic(authenticate, align::align_down(location, self.auth_log2())),
    {
        let l = self.auth_log2();
        let begin = align::align_down(location, l);
        self.lemma_ranges_nested();
        align::lemma_block_size_pos(l);
        align::lemma_align_down_bounds(location, l);
        align::lemma_align_down_mono(self.auth_begin(), location, l);
        align::lemma_aligned_gap(begin, self.auth_end(), l);
        align::lemma_align_down_bounds(self.request_end() - 1, l);
        align::lemma_align_down_bounds(self.request_begin(), l);
        // The block extends into the request.
        if location >= self.request_end() {
            if begin >= self.request_end() {
                align::lemma_aligned_next(begin, l);
                assert(begin + align::block_size(l) <= self.auth_end());
            }
        }
        assert(begin < self.request_end());
        assert(self.is_settled(authenticate, begin));
        if self.is_from_read_buffer(begin) {
            let s = self.authenticated_subrange_from_read_buf->Some_0;
            if location < self.request_begin() {
                align::lemma_align_down_unique(location, self.auth_begin(), l);
                if align::aligned(s.begin.index as int, l) {
                    align::lemma_aligned_gap(begin, s.begin.index as int, l);
                }
            } else {
                if align::aligned(s.end.index as int, l) {
                    align::lemma_aligned_gap(s.end.index as int, self.auth_end(), l);
                    align::lemma_aligned_gap(begin, s.end.index as int, l);
                }
            }
        }
    }

    /// If any of a block's data had been obtained authenticated from the read
    /// buffer, then all of it that's been requested had.
    proof fn lemma_from_read_buffer(&self, begin: int, location: int)
        requires
            self.ranges_wf(),
            self.subranges_wf(),
            align::aligned(begin, self.auth_log2()),
            self.is_from_read_buffer(begin),
            begin <= location < begin + self.auth_size(),
            self.request_range.has(location),
        ensures
            self.in_authenticated_subrange(location),
    {
        let l = self.auth_log2();
        let s = self.authenticated_subrange_from_read_buf->Some_0;
        let (x, y) = (s.begin.index as int, s.end.index as int);
        if align::aligned(x, l) && begin < x {
            align::lemma_aligned_gap(begin, x, l);
        }
        if align::aligned(y, l) && y < begin + self.auth_size() {
            align::lemma_aligned_gap(begin, y, l);
        }
    }

    /// What's been found authentic is for the same request.
    proof fn lemma_only_authentic_inserted<L, F: Fn(&L, u64, AuthTreeDataBlockData) -> Result<(), NvFsError>>(
        &self,
        other: &Self,
        authenticate: F,
        old_buffer: &ReadBuffer,
        new_buffer: &ReadBuffer,
    )
        requires
            self.same_request(other),
            self.only_authentic_inserted(authenticate, old_buffer, new_buffer),
        ensures
            other.only_authentic_inserted(authenticate, old_buffer, new_buffer),
    {
        assert forall|location: int|
            (#[trigger] new_buffer.buf.auth_tree_data_block_buf.buffered(location)) is Some implies {
            let data = new_buffer.buf.auth_tree_data_block_buf.buffered(location)->Some_0;
            ||| old_buffer.buf.auth_tree_data_block_buf.buffered(location) == Some(data)
            ||| other.found_authentic(authenticate, location, data)
        } by {
            let data = new_buffer.buf.auth_tree_data_block_buf.buffered(location)->Some_0;
            if self.found_authentic(authenticate, location, data) {
                let d = choose|d: BufferedReadAuthenticatedDataFutureData|
                    d.same_request(self) && #[trigger] d.holds_authentic(authenticate, location, data);
                assert(d.same_request(other));
            }
        }
    }

    /// There's data for every allocated Allocation Block requested.
    proof fn lemma_outcome_tracks_allocations(&self, alloc_bitmap: &AllocBitmap)
        requires
            self.ranges_wf(),
            self.bufs_wf(),
            self.tracks_allocations(alloc_bitmap),
        ensures
            self.outcome_tracks_allocations(self.bufs.dst_allocation_blocks_bufs@, alloc_bitmap),
    {
        self.lemma_ranges_nested();
        let data = self.bufs.dst_allocation_blocks_bufs@;
        assert forall|location: int| #[trigger]
            alloc_bitmap.allocated(location) && self.request_range.has(location) implies data[location
            - self.request_begin()]@.len() != 0 by {
            assert(self.buf_at(location) == data[location - self.request_begin()]);
        }
    }

    /// What's been settled for some block remains so if its data is unmodified.
    proof fn lemma_settled_retained<L, F: Fn(&L, u64, AuthTreeDataBlockData) -> Result<(), NvFsError>>(
        &self,
        other: &Self,
        authenticate: F,
        begin: int,
    )
        requires
            other.same_request(self),
            other.authenticated_subrange_from_read_buf == self.authenticated_subrange_from_read_buf,
            self.is_settled(authenticate, begin),
            !self.is_from_read_buffer(begin) ==> forall|i: int|
                0 <= i < self.auth_size() ==> #[trigger] other.buf_at(begin + i) == self.buf_at(begin + i),
        ensures
            other.is_settled(authenticate, begin),
    {
        if !self.is_from_read_buffer(begin) {
            let leaf = choose|leaf: L| #[trigger] self.block_checked(authenticate, leaf, begin, Ok(()));
            assert(other.block_contents(begin) =~= self.block_contents(begin));
            assert(other.block_checked(authenticate, leaf, begin, Ok(())));
        }
    }
}

impl BufferedReadAuthenticateDataFuture {
    /// The request and its progress, including any buffers submitted with a
    /// pending storage read request.
    pub open spec fn data(&self) -> BufferedReadAuthenticatedDataFutureData {
        match self.fut_state {
            BufferedReadAuthenticateDataFutureState::ReadSubrangeData { submitted, .. } => self.d.with_bufs(
                submitted@,
            ),
            _ => self.d,
        }
    }

    /// The state is consistent, and everything up to the authentication progress
    /// is known to be authentic.
    pub open spec fn wf<L, F: Fn(&L, u64, AuthTreeDataBlockData) -> Result<(), NvFsError>>(
        &self,
        authenticate: F,
    ) -> bool {
        &&& self.fut_state is Done || {
            &&& self.data().in_progress()
            &&& self.data().authenticated_by(authenticate)
        }
        &&& match self.fut_state {
            BufferedReadAuthenticateDataFutureState::Init => {
                &&& self.d.bufs_initial()
                &&& self.d.authenticated_subrange_from_read_buf is None
                &&& self.d.unauthenticated_subrange_from_read_buf is None
                &&& self.d.authenticated_end() == self.d.auth_begin()
            },
            BufferedReadAuthenticateDataFutureState::ReadSubrangeData { read_range, .. } => {
                &&& self.data().bufs_wf()
                &&& self.data().retains_authenticated(&self.origin@)
                &&& self.d.io_begin() <= read_range.begin.index < read_range.end.index <= self.d.io_end()
                &&& self.d.auth_begin() <= read_range.end.index
                &&& self.d.authenticated_end() == self.d.auth_begin() || self.d.authenticated_end()
                    <= read_range.begin.index
            },
            BufferedReadAuthenticateDataFutureState::LoadAuthTreeLeafNode { auth_tree_data_block_index } => {
                &&& self.d.bufs_wf()
                &&& self.d.retains_authenticated(&self.origin@)
                &&& auth_tree_data_block_index == self.d.data_block_index(self.d.authenticated_end())
                &&& !self.d.is_from_read_buffer(self.d.authenticated_end())
            },
            BufferedReadAuthenticateDataFutureState::Done => true,
        }
    }

    /// There's a nonempty buffer for every allocated Allocation Block possibly
    /// accessed, once the buffers have been set up.
    pub open spec fn tracks_allocations(&self, alloc_bitmap: &AllocBitmap) -> bool {
        ||| self.fut_state is Init
        ||| self.fut_state is Done
        ||| self.data().tracks_allocations(alloc_bitmap)
    }

    /// The operation has been advanced to where it has to wait for something, or
    /// to its completion.
    pub open spec fn advanced(
        &self,
        d: &BufferedReadAuthenticatedDataFutureData,
        location: int,
        leaf_log2: nat,
        old_buffer: &ReadBuffer,
        new_buffer: &ReadBuffer,
        r: &BufferedReadAuthenticateDataFuturePoll,
    ) -> bool {
        let authenticated = d.next_step(location, leaf_log2).0;
        let step = d.next_step(location, leaf_log2).1;
        let next = d.with_authenticated_end(authenticated);
        &&& !(step is Finish) ==> *new_buffer == *old_buffer
        &&& match step {
            BufferedReadStep::Failed(e) => {
                &&& self.fut_state is Done
                &&& *r matches BufferedReadAuthenticateDataFuturePoll::Ready(Err(err)) && err == e
            },
            BufferedReadStep::Read(range) => {
                &&& self.fut_state matches BufferedReadAuthenticateDataFutureState::ReadSubrangeData {
                    read_range,
                    submitted,
                } && read_range == range && submitted@ == d.bufs
                &&& self.d.same_progress(&next)
                &&& *r matches BufferedReadAuthenticateDataFuturePoll::Read(request) && {
                    &&& next.request_set_up(&request, range)
                    &&& request.wf()
                    &&& request.bufs == d.bufs
                    &&& request.submitted@ == d.bufs@
                }
            },
            BufferedReadStep::LoadAuthTreeLeafNode(index) => {
                &&& self.fut_state == BufferedReadAuthenticateDataFutureState::LoadAuthTreeLeafNode {
                    auth_tree_data_block_index: index,
                }
                &&& self.d == next
                &&& *r == BufferedReadAuthenticateDataFuturePoll::LoadAuthTreeLeafNode(index)
            },
            BufferedReadStep::Finish => self.finished(&next, old_buffer, new_buffer, r),
        }
    }

    /// The operation has been completed successfully.
    pub open spec fn finished(
        &self,
        d: &BufferedReadAuthenticatedDataFutureData,
        old_buffer: &ReadBuffer,
        new_buffer: &ReadBuffer,
        r: &BufferedReadAuthenticateDataFuturePoll,
    ) -> bool {
        &&& self.fut_state is Done
        &&& d.padding_inserted(old_buffer, new_buffer)
        &&& *r matches BufferedReadAuthenticateDataFuturePoll::Ready(Ok(data)) && data@
            =~= d.bufs.dst_allocation_blocks_bufs@
    }

    /// End of what's been submitted to storage for reading since the last
    /// authentication progress.
    pub open spec fn submitted_end(&self) -> int {
        match self.fut_state {
            BufferedReadAuthenticateDataFutureState::Init => self.d.io_begin(),
            BufferedReadAuthenticateDataFutureState::ReadSubrangeData { read_range, .. } => {
                read_range.end.index as int
            },
            _ => self.d.io_end() + 1,
        }
    }

    /// Some progress has been made, be it with the authentication, or with
    /// reading the data for it.
    pub open spec fn progressed(&self, old_self: &Self) -> bool {
        ||| self.d.authenticated_end() > old_self.d.authenticated_end()
        ||| self.d.authenticated_end() == old_self.d.authenticated_end() && self.submitted_end()
            > old_self.submitted_end()
    }

    /// Advance to where the operation has to wait for something, or to its
    /// completion.
    fn advance<L, F: Fn(&L, u64, AuthTreeDataBlockData) -> Result<(), NvFsError>>(
        &mut self,
        read_subrange_allocation_blocks_begin: PhysicalAllocBlockIndex,
        covered_data_blocks_per_leaf_node_log2: u32,
        fs_sync_state_read_buffer: &mut ReadBuffer,
        authenticate: &F,
    ) -> (r: BufferedReadAuthenticateDataFuturePoll)
        requires
            old(self).d.in_progress(),
            old(self).d.bufs_wf(),
            old(self).d.authenticated_by(*authenticate),
            old(self).d.retains_authenticated(&old(self).origin@),
            old(self).d.matches_buffer(old(fs_sync_state_read_buffer)),
            old(self).d.auth_begin() <= read_subrange_allocation_blocks_begin.index <= old(self).d.io_end(),
            old(self).d.auth_log2() + covered_data_blocks_per_leaf_node_log2 < 64,
        ensures
            final(self).origin == old(self).origin,
            final(self).wf(*authenticate),
            final(self).d.same_request(&old(self).d),
            final(fs_sync_state_read_buffer).wf(),
            final(fs_sync_state_read_buffer).same_layout(old(fs_sync_state_read_buffer)),
            final(self).advanced(
                &old(self).d,
                read_subrange_allocation_blocks_begin.index as int,
                old(self).d.auth_log2() + covered_data_blocks_per_leaf_node_log2 as nat,
                old(fs_sync_state_read_buffer),
                final(fs_sync_state_read_buffer),
                &r,
            ),
            r matches BufferedReadAuthenticateDataFuturePoll::Ready(Ok(data)) ==> old(self).d.outcome_is_authentic(
                *authenticate,
                &old(self).origin@,
                data@,
            ),
            !(r is Ready) ==> {
                ||| final(self).d.authenticated_end() > old(self).d.authenticated_end()
                ||| final(self).d.authenticated_end() == old(self).d.authenticated_end()
                    && final(self).submitted_end() > read_subrange_allocation_blocks_begin.index
            },
            old(self).d.only_authentic_inserted(
                *authenticate,
                old(fs_sync_state_read_buffer),
                final(fs_sync_state_read_buffer),
            ),
    {
        let ghost d = self.d;
        let ghost o = *fs_sync_state_read_buffer;
        let ghost leaf_log2 = d.auth_log2() + covered_data_blocks_per_leaf_node_log2 as nat;
        let ghost result = d.next_step(read_subrange_allocation_blocks_begin.index as int, leaf_log2);
        let mut begin = read_subrange_allocation_blocks_begin;
        loop
            invariant
                self.d.same_data(&d),
                self.origin == old(self).origin,
                self.d.in_progress(),
                self.d.bufs_wf(),
                self.d.authenticated_by(*authenticate),
                self.d.retains_authenticated(&self.origin@),
                d == old(self).d,
                o == *old(fs_sync_state_read_buffer),
                *fs_sync_state_read_buffer == o,
                d.matches_buffer(&o),
                d.auth_begin() <= begin.index,
                self.d.authenticated_end() > d.authenticated_end() || self.d == d && begin
                    == read_subrange_allocation_blocks_begin,
                read_subrange_allocation_blocks_begin.index <= d.io_end(),
                leaf_log2 == d.auth_log2() + covered_data_blocks_per_leaf_node_log2 as nat,
                leaf_log2 < 64,
                self.d.next_step(begin.index as int, leaf_log2) == result,
                result == d.next_step(read_subrange_allocation_blocks_begin.index as int, leaf_log2),
            decreases d.auth_end() - self.d.authenticated_end(),
        {
            let ghost before = self.d;
            proof {
                self.d.lemma_ranges_nested();
                self.d.law_read_region_bounds(begin.index as int, leaf_log2);
            }
            match self.d.determine_next_read_region(begin, covered_data_blocks_per_leaf_node_log2) {
                Ok(Some(read_range)) => {
                    // Read what's missing for authenticating a batch of data.
                    match self.d.set_up_read_request(read_range) {
                        Ok(request) => {
                            self.fut_state = BufferedReadAuthenticateDataFutureState::ReadSubrangeData {
                                read_range,
                                submitted: Ghost(before.bufs),
                            };
                            assert(self.data() == before);
                            return BufferedReadAuthenticateDataFuturePoll::Read(request);
                        },
                        Err(e) => {
                            self.fut_state = BufferedReadAuthenticateDataFutureState::Done;
                            return BufferedReadAuthenticateDataFuturePoll::Ready(Err(e));
                        },
                    }
                },
                Ok(None) => (),
                Err(e) => {
                    self.fut_state = BufferedReadAuthenticateDataFutureState::Done;
                    return BufferedReadAuthenticateDataFuturePoll::Ready(Err(e));
                },
            }
            // Everything needed for authenticating a batch of data is there.
            let step = self.d.determine_authenticate_step(covered_data_blocks_per_leaf_node_log2);
            proof {
                before.lemma_skip_is_settled(&self.d, *authenticate);
                assert(self.d == before.with_authenticated_end(before.skipped()));
                assert forall|location: int| #[trigger] self.d.in_authenticated_subrange(
                    location,
                ) implies obtained_authenticated(&self.origin@, location, self.d.buf_at(location)) by {
                    assert(before.in_authenticated_subrange(location));
                }
            }
            match step {
                BufferedReadAuthenticateStep::Finish => {
                    let ghost done = self.d;
                    let data = self.d.finish(fs_sync_state_read_buffer);
                    self.fut_state = BufferedReadAuthenticateDataFutureState::Done;
                    proof {
                        done.lemma_outcome(*authenticate, &self.origin@);
                        assert(data@ =~= done.bufs.dst_allocation_blocks_bufs@);
                        assert(done.is_outcome(*authenticate, &self.origin@, data@));
                        done.law_only_authentic_data_is_inserted(*authenticate, &o, fs_sync_state_read_buffer);
                        done.lemma_only_authentic_inserted(&d, *authenticate, &o, fs_sync_state_read_buffer);
                        assert(d.outcome_is_authentic(*authenticate, &self.origin@, data@));
                    }
                    return BufferedReadAuthenticateDataFuturePoll::Ready(Ok(data));
                },
                BufferedReadAuthenticateStep::PrepareNextSubrangeDataRead => {
                    begin = self.d.authenticated_allocation_blocks_end;
                },
                BufferedReadAuthenticateStep::LoadAuthTreeLeafNode(auth_tree_data_block_index) => {
                    self.fut_state = BufferedReadAuthenticateDataFutureState::LoadAuthTreeLeafNode {
                        auth_tree_data_block_index,
                    };
                    return BufferedReadAuthenticateDataFuturePoll::LoadAuthTreeLeafNode(auth_tree_data_block_index);
                },
            }
        }
    }
}

impl BufferedReadAuthenticatedDataFutureData {
    /// Skipping over what had been obtained authenticated from the read buffer
    /// retains the authentication status.
    proof fn lemma_skip_is_settled<L, F: Fn(&L, u64, AuthTreeDataBlockData) -> Result<(), NvFsError>>(
        &self,
        other: &Self,
        authenticate: F,
    )
        requires
            self.in_progress(),
            self.authenticated_by(authenticate),
            other.same_data(self),
            other.authenticated_end() == self.skipped(),
        ensures
            other.authenticated_by(authenticate),
            self.skipped() < self.request_end() ==> other.in_progress(),
    {
        let l = self.auth_log2();
        self.lemma_ranges_nested();
        assert forall|begin: int|
            other.auth_begin() <= begin < other.authenticated_end() && align::aligned(begin, l) implies #[trigger] other.is_settled(
            authenticate,
            begin,
        ) by {
            if begin < self.authenticated_end() {
                assert(self.is_settled(authenticate, begin));
                self.lemma_settled_retained(other, authenticate, begin);
            } else {
                let s = self.authenticated_subrange_from_read_buf->Some_0;
                align::lemma_align_down_bounds(s.end.index - 1, l);
                align::lemma_align_down_mono(begin, s.end.index - 1, l);
                align::lemma_align_down_bounds(s.begin.index as int, l);
                assert(begin <= align::align_down(s.begin.index as int, l));
                assert(other.is_from_read_buffer(begin));
            }
        }
    }

    /// The outcome of a completed request.
    proof fn lemma_outcome<L, F: Fn(&L, u64, AuthTreeDataBlockData) -> Result<(), NvFsError>>(
        &self,
        authenticate: F,
        origin: &ReadBuffer,
    )
        requires
            self.ranges_wf(),
            self.bufs_wf(),
            self.subranges_wf(),
            self.authenticated_by(authenticate),
            self.authenticated_end() >= self.request_end(),
            self.retains_authenticated(origin),
        ensures
            self.is_outcome(authenticate, origin, self.bufs.dst_allocation_blocks_bufs@),
    {
        self.lemma_ranges_nested();
        let data = self.bufs.dst_allocation_blocks_bufs@;
        assert forall|location: int| #[trigger] self.request_range.has(location) implies if self.in_authenticated_subrange(
            location,
        ) {
            obtained_authenticated(origin, location, data[location - self.request_begin()])
        } else {
            &&& self.is_authentic(authenticate, align::align_down(location, self.auth_log2()))
            &&& data[location - self.request_begin()] == self.buf_at(location)
        } by {
            assert(self.buf_at(location) == data[location - self.request_begin()]);
            self.law_completed_request_is_authentic(authenticate, location);
        }
    }
}

impl BufferedReadAuthenticateDataFuture {
    /// The operation hasn't been started yet.
    pub open spec fn is_initial(&self) -> bool {
        &&& self.fut_state is Init
        &&& self.d.ranges_wf()
        &&& self.d.bufs_initial()
        &&& self.d.authenticated_subrange_from_read_buf is None
        &&& self.d.unauthenticated_subrange_from_read_buf is None
        &&& self.d.authenticated_end() == self.d.auth_begin()
    }

    /// A newly instantiated future may get polled with any means of
    /// authentication, as there's nothing claimed to be authentic yet.
    pub proof fn law_new_future_may_be_polled<L, F: Fn(&L, u64, AuthTreeDataBlockData) -> Result<(), NvFsError>>(
        &self,
        authenticate: F,
    )
        requires
            self.is_initial(),
        ensures
            self.wf(authenticate),
    {
        self.d.lemma_ranges_nested();
    }

    /// Instantiate a future for reading and authenticating data through a read
    /// buffer.
    ///
    /// # Arguments:
    ///
    /// * `request_range` - The data storage range to read and authenticate. Must
    ///   all be allocated. If empty, it must be located in the interior of an
    ///   Authentication Tree Data Block.
    /// * `allocation_block_size_128b_log2` - Base-2 logarithm of the Allocation
    ///   Block size in units of 128 Bytes.
    /// * `auth_tree_data_block_allocation_blocks_log2` - Base-2 logarithm of the
    ///   Authentication Tree Data Block size in units of Allocation Blocks.
    /// * `chip_io_block_size_128b_log2` - Base-2 logarithm of the storage
    ///   device's IO block size in units of 128 Bytes.
    /// * `preferred_chip_io_blocks_bulk_log2` - Base-2 logarithm of the storage
    ///   device's preferred bulk IO size in units of its IO blocks.
    /// * `translate` - Translation of a physical location into the associated
    ///   Authentication Tree Data Block index.
    pub fn new<F: Fn(PhysicalAllocBlockIndex) -> u64>(
        request_range: &PhysicalAllocBlockRange,
        allocation_block_size_128b_log2: u8,
        auth_tree_data_block_allocation_blocks_log2: u8,
        chip_io_block_size_128b_log2: u32,
        preferred_chip_io_blocks_bulk_log2: u32,
        translate: &F,
    ) -> (r: Result<Self, BufferedReadSetupError>)
        requires
            buffered_read::requestable(*request_range, auth_tree_data_block_allocation_blocks_log2 as nat),
            allocation_block_size_128b_log2 + 7 < usize::BITS,
            auth_tree_data_block_allocation_blocks_log2 < usize::BITS,
            buffered_read::io_block_size_handled(chip_io_block_size_128b_log2 as int, allocation_block_size_128b_log2 as int),
            buffered_read::translates(*translate, auth_tree_data_block_allocation_blocks_log2 as nat),
        ensures
            r matches Ok(future) ==> future.is_initial(),
            buffered_read::set_up(
                request_range,
                allocation_block_size_128b_log2,
                auth_tree_data_block_allocation_blocks_log2,
                chip_io_block_size_128b_log2,
                preferred_chip_io_blocks_bulk_log2,
                *translate,
                match r {
                    Ok(future) => Ok(future.d),
                    Err(e) => Err(e),
                },
            ),
    {
        match BufferedReadAuthenticatedDataFutureData::new(
            request_range,
            allocation_block_size_128b_log2,
            auth_tree_data_block_allocation_blocks_log2,
            chip_io_block_size_128b_log2,
            preferred_chip_io_blocks_bulk_log2,
            translate,
        ) {
            Ok(d) => {
                let origin: Ghost<ReadBuffer> = Ghost(arbitrary());
                Ok(
                    BufferedReadAuthenticateDataFuture {
                        d,
                        fut_state: BufferedReadAuthenticateDataFutureState::Init,
                        origin,
                    },
                )
            },
            Err(e) => Err(e),
        }
    }

    /// A completed storage read request is the one submitted before.
    pub open spec fn is_pending(&self, request: &BufferedReadAuthenticateDataFutureNvChipReadRequest) -> bool {
        &&& request.wf()
        &&& self.fut_state matches BufferedReadAuthenticateDataFutureState::ReadSubrangeData { read_range, submitted }
            && {
            &&& self.d.request_set_up(request, read_range)
            &&& request.submitted@ == submitted@@
            &&& request.bufs.same_shape(&submitted@)
        }
    }

    /// The event is what the operation has been waiting for.
    pub open spec fn is_awaiting<L>(&self, event: BufferedReadAuthenticateDataFutureEvent<L>) -> bool {
        match event {
            BufferedReadAuthenticateDataFutureEvent::Start => self.fut_state is Init,
            BufferedReadAuthenticateDataFutureEvent::ReadCompleted(result) => {
                &&& self.fut_state is ReadSubrangeData
                &&& result matches Ok(request) ==> self.is_pending(&request)
            },
            BufferedReadAuthenticateDataFutureEvent::AuthTreeLeafNodeLoaded(_) => {
                self.fut_state is LoadAuthTreeLeafNode
            },
        }
    }

    /// What the operation is started with if not everything has been found
    /// authenticated in the read buffer.
    pub open spec fn started(
        d: &BufferedReadAuthenticatedDataFutureData,
        e: &BufferedReadAuthenticatedDataFutureData,
        old_buffer: &ReadBuffer,
        new_buffer: &ReadBuffer,
        alloc_bitmap: &AllocBitmap,
    ) -> bool {
        exists|obtained: BufferedReadAuthenticatedDataFutureData|
            {
                &&& #[trigger] obtained.buffered_data_obtained(d, old_buffer, new_buffer)
                // All the data is there, proceed to the authentication.
                &&& if obtained.unauthenticated_subrange_from_read_buf == Some(
                    d.auth_tree_data_block_aligned_request_range,
                ) {
                    *e == obtained
                } else {
                    e.bufs_allocated(&obtained, alloc_bitmap)
                }
            }
    }

    /// Start the operation.
    fn start<L, F: Fn(&L, u64, AuthTreeDataBlockData) -> Result<(), NvFsError>>(
        &mut self,
        covered_data_blocks_per_leaf_node_log2: u32,
        fs_sync_state_alloc_bitmap: &AllocBitmap,
        fs_sync_state_read_buffer: &mut ReadBuffer,
        authenticate: &F,
    ) -> (r: BufferedReadAuthenticateDataFuturePoll)
        requires
            old(self).wf(*authenticate),
            old(self).fut_state is Init,
            old(self).d.matches_buffer(old(fs_sync_state_read_buffer)),
            old(self).d.auth_log2() + covered_data_blocks_per_leaf_node_log2 < 64,
        ensures
            final(self).wf(*authenticate),
            final(self).d.same_request(&old(self).d),
            final(fs_sync_state_read_buffer).wf(),
            final(fs_sync_state_read_buffer).same_layout(old(fs_sync_state_read_buffer)),
            final(self).origin@ == *old(fs_sync_state_read_buffer),
            old(self).start_completed(
                final(self),
                covered_data_blocks_per_leaf_node_log2 as nat,
                fs_sync_state_alloc_bitmap,
                old(fs_sync_state_read_buffer),
                final(fs_sync_state_read_buffer),
                &r,
            ),
            r matches BufferedReadAuthenticateDataFuturePoll::Ready(Ok(data)) ==> old(self).d.outcome_is_authentic(
                *authenticate,
                &final(self).origin@,
                data@,
            ),
            !(r is Ready) ==> final(self).progressed(old(self)),
            old(self).d.only_authentic_inserted(
                *authenticate,
                old(fs_sync_state_read_buffer),
                final(fs_sync_state_read_buffer),
            ),
    {
        let ghost d = self.d;
        let ghost o = *fs_sync_state_read_buffer;
        let origin: Ghost<ReadBuffer> = Ghost(*fs_sync_state_read_buffer);
        self.origin = origin;
        match self.d.obtain_buffered_data(fs_sync_state_read_buffer) {
            Ok(true) => {
                // All found authenticated in the read buffer -> done.
                let ghost found = self.d;
                self.fut_state = BufferedReadAuthenticateDataFutureState::Done;
                let mut data: Vec<Vec<u8>> = Vec::new();
                core::mem::swap(&mut data, &mut self.d.bufs.dst_allocation_blocks_bufs);
                proof {
                    let outcome = BufferedReadAuthenticatedDataFutureData {
                        authenticated_subrange_from_read_buf: Some(d.request_range),
                        ..d
                    };
                    assert forall|location: int| #[trigger] outcome.request_range.has(location) implies obtained_authenticated(
                        &o,
                        location,
                        data@[location - d.request_begin()],
                    ) by {
                        assert(found.bufs.dst_allocation_blocks_bufs@[location - d.request_begin()] == data@[location
                            - d.request_begin()]);
                    }
                    assert(outcome.is_outcome(*authenticate, &o, data@));
                }
                return BufferedReadAuthenticateDataFuturePoll::Ready(Ok(data));
            },
            Ok(false) => (),
            Err(e) => {
                self.fut_state = BufferedReadAuthenticateDataFutureState::Done;
                return BufferedReadAuthenticateDataFuturePoll::Ready(Err(e));
            },
        }
        let ghost obtained = self.d;
        let ghost rb = *fs_sync_state_read_buffer;
        let complete: bool = match self.d.unauthenticated_subrange_from_read_buf {
            Some(u) => u == self.d.auth_tree_data_block_aligned_request_range,
            None => false,
        };
        if !complete {
            // Finally allocate Allocation Block destination buffers for anything not obtained
            // from the read buffer.
            match self.d.allocate_bufs(fs_sync_state_alloc_bitmap) {
                Ok(()) => (),
                Err(e) => {
                    self.fut_state = BufferedReadAuthenticateDataFutureState::Done;
                    assert(obtained.buffered_data_obtained(&d, &o, &rb));
                    return BufferedReadAuthenticateDataFuturePoll::Ready(Err(e));
                },
            }
        }
        let ghost e = self.d;
        proof {
            assert(obtained.buffered_data_obtained(&d, &o, &rb));
            assert(Self::started(&d, &e, &o, &rb, fs_sync_state_alloc_bitmap));
            d.lemma_ranges_nested();
            assert(e.retains_authenticated(&o)) by {
                assert forall|location: int| #[trigger] e.in_authenticated_subrange(location) implies obtained_authenticated(
                    &o,
                    location,
                    e.buf_at(location),
                ) by {
                    let s = e.authenticated_subrange_from_read_buf->Some_0;
                    assert(d.aligned_request_range.has(location));
                    assert(d.obtained(&o, location, obtained.buf_at(location)));
                    if !complete {
                        assert(e.buf_allocated_at(&obtained, fs_sync_state_alloc_bitmap, location));
                    }
                }
            }
        }
        let begin = self.d.authenticated_allocation_blocks_end;
        let r = self.advance(begin, covered_data_blocks_per_leaf_node_log2, fs_sync_state_read_buffer, authenticate);
        proof {
            e.lemma_only_authentic_inserted(&d, *authenticate, &rb, fs_sync_state_read_buffer);
        }
        r
    }

    /// The operation's start has been handled.
    pub open spec fn start_completed(
        &self,
        new_self: &Self,
        covered_data_blocks_per_leaf_node_log2: nat,
        alloc_bitmap: &AllocBitmap,
        old_buffer: &ReadBuffer,
        new_buffer: &ReadBuffer,
        r: &BufferedReadAuthenticateDataFuturePoll,
    ) -> bool {
        let leaf_log2 = self.d.auth_log2() + covered_data_blocks_per_leaf_node_log2;
        if self.d.authenticated_found(old_buffer) == Some(self.d.request_range) {
            // Everything is found authenticated in the read buffer.
            &&& *r matches BufferedReadAuthenticateDataFuturePoll::Ready(Ok(data)) && {
                &&& data@.len() == self.d.request_end() - self.d.request_begin()
                &&& forall|location: int| #[trigger]
                    self.d.request_range.has(location) ==> Some(data@[location - self.d.request_begin()])
                        == old_buffer.buf.auth_tree_data_block_buf.buffered(location)
            }
            &&& new_self.fut_state is Done
            // What's been handed out is gone from the read buffer, everything else is retained.
            &&& self.d.authenticated_data_consumed(old_buffer, new_buffer)
        } else {
            // There's something to allocate, and that failed.
            ||| {
                &&& *r matches BufferedReadAuthenticateDataFuturePoll::Ready(Err(e)) && e
                    == NvFsError::MemoryAllocationFailure
                &&& new_self.fut_state is Done
                &&& {
                    ||| {
                        &&& self.d.aligned_request_range != self.d.request_range
                        &&& self.d.authenticated_data_consumed(old_buffer, new_buffer)
                    }
                    ||| exists|obtained: BufferedReadAuthenticatedDataFutureData|
                        #[trigger] obtained.buffered_data_obtained(&self.d, old_buffer, new_buffer)
                            && obtained.any_buf_missing(alloc_bitmap)
                }
            }
            ||| exists|e: BufferedReadAuthenticatedDataFutureData, buffer: ReadBuffer|
                {
                    &&& #[trigger] Self::started(&self.d, &e, old_buffer, &buffer, alloc_bitmap)
                    &&& buffer.wf() && buffer.same_layout(old_buffer)
                    &&& new_self.advanced(&e, self.d.auth_begin(), leaf_log2, &buffer, new_buffer, r)
                }
        }
    }
}

impl BufferedReadAuthenticateDataFuture {
    /// Continue with the data read from storage.
    fn complete_read<L, F: Fn(&L, u64, AuthTreeDataBlockData) -> Result<(), NvFsError>>(
        &mut self,
        request: BufferedReadAuthenticateDataFutureNvChipReadRequest,
        read_range: PhysicalAllocBlockRange,
        covered_data_blocks_per_leaf_node_log2: u32,
        fs_sync_state_read_buffer: &mut ReadBuffer,
        authenticate: &F,
    ) -> (r: BufferedReadAuthenticateDataFuturePoll)
        requires
            old(self).wf(*authenticate),
            old(self).is_pending(&request),
            old(self).fut_state->ReadSubrangeData_read_range == read_range,
            old(self).d.matches_buffer(old(fs_sync_state_read_buffer)),
            old(self).d.auth_log2() + covered_data_blocks_per_leaf_node_log2 < 64,
        ensures
            final(self).wf(*authenticate),
            final(self).d.same_request(&old(self).d),
            final(fs_sync_state_read_buffer).wf(),
            final(fs_sync_state_read_buffer).same_layout(old(fs_sync_state_read_buffer)),
            final(self).origin == old(self).origin,
            final(self).advanced(
                &old(self).d.with_bufs(request.bufs),
                read_range.end.index as int,
                old(self).d.auth_log2() + covered_data_blocks_per_leaf_node_log2 as nat,
                old(fs_sync_state_read_buffer),
                final(fs_sync_state_read_buffer),
                &r,
            ),
            r matches BufferedReadAuthenticateDataFuturePoll::Ready(Ok(data)) ==> old(self).d.outcome_is_authentic(
                *authenticate,
                &old(self).origin@,
                data@,
            ),
            !(r is Ready) ==> final(self).progressed(old(self)),
            old(self).d.only_authentic_inserted(
                *authenticate,
                old(fs_sync_state_read_buffer),
                final(fs_sync_state_read_buffer),
            ),
    {
        let ghost before = self.data();
        let ghost d = self.d;
        let ghost returned = request;
        // Return IO buffer ownership back from the request.
        self.d.bufs = request.bufs;
        proof {
            let l = d.auth_log2();
            let e = self.d;
            d.lemma_ranges_nested();
            align::lemma_block_size_pos(l);
            assert forall|begin: int|
                e.auth_begin() <= begin < e.authenticated_end() && align::aligned(begin, l) implies #[trigger] e.is_settled(
                *authenticate,
                begin,
            ) by {
                assert(before.is_settled(*authenticate, begin));
                align::lemma_aligned_gap(begin, e.authenticated_end(), l);
                assert forall|i: int| 0 <= i < before.auth_size() implies #[trigger] e.buf_at(begin + i)
                    == before.buf_at(begin + i) by {
                    let k = begin + i - d.io_begin();
                    assert(!returned.reads(returned.aligned_request_range_allocation_blocks_begin.index + k));
                    assert(returned.bufs@[k] == returned.submitted@[k]);
                }
                before.lemma_settled_retained(&e, *authenticate, begin);
            }
            assert forall|location: int| #[trigger] e.in_authenticated_subrange(location) implies obtained_authenticated(
                &self.origin@,
                location,
                e.buf_at(location),
            ) by {
                assert(before.in_authenticated_subrange(location));
                let k = location - d.io_begin();
                assert(!returned.reads(returned.aligned_request_range_allocation_blocks_begin.index + k));
                assert(returned.bufs@[k] == returned.submitted@[k]);
            }
            assert(e == d.with_bufs(returned.bufs));
        }
        let ghost (e, o) = (self.d, *fs_sync_state_read_buffer);
        let r = self.advance(
            read_range.end,
            covered_data_blocks_per_leaf_node_log2,
            fs_sync_state_read_buffer,
            authenticate,
        );
        proof {
            e.lemma_only_authentic_inserted(&d, *authenticate, &o, fs_sync_state_read_buffer);
        }
        r
    }

    /// A batch of data has been checked against an Authentication Tree leaf
    /// node.
    pub open spec fn batch_completed<L, F: Fn(&L, u64, AuthTreeDataBlockData) -> Result<(), NvFsError>>(
        &self,
        new_self: &Self,
        authenticate: F,
        leaf_node: L,
        covered_data_blocks_per_leaf_node_log2: nat,
        old_buffer: &ReadBuffer,
        new_buffer: &ReadBuffer,
        r: &BufferedReadAuthenticateDataFuturePoll,
    ) -> bool {
        let d = self.d;
        let leaf_log2 = d.auth_log2() + covered_data_blocks_per_leaf_node_log2;
        let end = d.batch_end(d.authenticated_end(), leaf_log2);
        ||| {
            // The data is not authentic, or checking it failed.
            &&& new_self.fut_state is Done
            &&& *new_buffer == *old_buffer
            &&& *r matches BufferedReadAuthenticateDataFuturePoll::Ready(Err(e)) && exists|begin: int|
                {
                    &&& d.authenticated_end() <= begin < end && begin < d.request_end()
                    &&& align::aligned(begin, d.auth_log2()) && !d.is_from_read_buffer(begin)
                    &&& #[trigger] d.block_checked(authenticate, leaf_node, begin, Err(e))
                    &&& d.batch_checked(authenticate, leaf_node, d.authenticated_end(), begin)
                }
        }
        ||| {
            &&& d.batch_checked(authenticate, leaf_node, d.authenticated_end(), end)
            &&& if end >= d.request_end() {
                new_self.finished(&d.with_authenticated_end(end), old_buffer, new_buffer, r)
            } else {
                new_self.advanced(&d.with_authenticated_end(end), end, leaf_log2, old_buffer, new_buffer, r)
            }
        }
    }

    /// Authenticate a batch of data.
    fn complete_batch<L, F: Fn(&L, u64, AuthTreeDataBlockData) -> Result<(), NvFsError>>(
        &mut self,
        leaf_node: &L,
        covered_data_blocks_per_leaf_node_log2: u32,
        fs_sync_state_read_buffer: &mut ReadBuffer,
        authenticate: &F,
    ) -> (r: BufferedReadAuthenticateDataFuturePoll)
        requires
            old(self).wf(*authenticate),
            old(self).fut_state is LoadAuthTreeLeafNode,
            old(self).d.matches_buffer(old(fs_sync_state_read_buffer)),
            old(self).d.auth_log2() + covered_data_blocks_per_leaf_node_log2 < 64,
            buffered_read_authenticate::authenticates(*authenticate, old(self).d.auth_size()),
        ensures
            final(self).wf(*authenticate),
            final(self).d.same_request(&old(self).d),
            final(fs_sync_state_read_buffer).wf(),
            final(fs_sync_state_read_buffer).same_layout(old(fs_sync_state_read_buffer)),
            final(self).origin == old(self).origin,
            old(self).batch_completed(
                final(self),
                *authenticate,
                *leaf_node,
                covered_data_blocks_per_leaf_node_log2 as nat,
                old(fs_sync_state_read_buffer),
                final(fs_sync_state_read_buffer),
                &r,
            ),
            r matches BufferedReadAuthenticateDataFuturePoll::Ready(Ok(data)) ==> old(self).d.outcome_is_authentic(
                *authenticate,
                &old(self).origin@,
                data@,
            ),
            !(r is Ready) ==> final(self).progressed(old(self)),
            old(self).d.only_authentic_inserted(
                *authenticate,
                old(fs_sync_state_read_buffer),
                final(fs_sync_state_read_buffer),
            ),
    {
        let ghost d = self.d;
        let ghost o = *fs_sync_state_read_buffer;
        match self.d.authenticate_batch(leaf_node, covered_data_blocks_per_leaf_node_log2, authenticate) {
            Ok(()) => (),
            Err(e) => {
                self.fut_state = BufferedReadAuthenticateDataFutureState::Done;
                return BufferedReadAuthenticateDataFuturePoll::Ready(Err(e));
            },
        }
        let ghost e = self.d;
        proof {
            d.lemma_batch_end(
                d.authenticated_end(),
                d.auth_log2() + covered_data_blocks_per_leaf_node_log2 as nat,
            );
            assert(e == d.with_authenticated_end(e.authenticated_end()));
            assert forall|begin: int|
                e.auth_begin() <= begin < e.authenticated_end() && align::aligned(begin, e.auth_log2()) implies #[trigger] e.is_settled(
                *authenticate,
                begin,
            ) by {
                if begin >= d.authenticated_end() {
                    if !d.is_from_read_buffer(begin) {
                        assert(d.block_checked(*authenticate, *leaf_node, begin, Ok(())));
                        assert(d.is_authentic(*authenticate, begin));
                    }
                }
                assert(d.is_settled(*authenticate, begin));
                d.lemma_settled_retained(&e, *authenticate, begin);
            }
            assert forall|location: int| #[trigger] e.in_authenticated_subrange(location) implies obtained_authenticated(
                &self.origin@,
                location,
                e.buf_at(location),
            ) by {
                assert(d.in_authenticated_subrange(location));
            }
        }
        if self.d.authenticated_allocation_blocks_end.index >= self.d.request_range.end.index {
            let data = self.d.finish(fs_sync_state_read_buffer);
            self.fut_state = BufferedReadAuthenticateDataFutureState::Done;
            proof {
                e.lemma_outcome(*authenticate, &self.origin@);
                assert(data@ =~= e.bufs.dst_allocation_blocks_bufs@);
                assert(e.is_outcome(*authenticate, &self.origin@, data@));
                e.law_only_authentic_data_is_inserted(*authenticate, &o, fs_sync_state_read_buffer);
                e.lemma_only_authentic_inserted(&d, *authenticate, &o, fs_sync_state_read_buffer);
                assert(d.outcome_is_authentic(*authenticate, &self.origin@, data@));
            }
            return BufferedReadAuthenticateDataFuturePoll::Ready(Ok(data));
        }
        let begin = self.d.authenticated_allocation_blocks_end;
        let r = self.advance(begin, covered_data_blocks_per_leaf_node_log2, fs_sync_state_read_buffer, authenticate);
        proof {
            e.lemma_only_authentic_inserted(&d, *authenticate, &o, fs_sync_state_read_buffer);
        }
        r
    }

    /// Advancing the operation does not record any allocated Allocation Block as
    /// unallocated.
    proof fn lemma_advanced_tracks_allocations(
        &self,
        d: &BufferedReadAuthenticatedDataFutureData,
        location: int,
        leaf_log2: nat,
        old_buffer: &ReadBuffer,
        new_buffer: &ReadBuffer,
        r: &BufferedReadAuthenticateDataFuturePoll,
        alloc_bitmap: &AllocBitmap,
    )
        requires
            d.ranges_wf(),
            d.bufs_wf(),
            d.subranges_wf(),
            d.tracks_allocations(alloc_bitmap),
            old_buffer.tracks_allocations(alloc_bitmap),
            self.advanced(d, location, leaf_log2, old_buffer, new_buffer, r),
        ensures
            self.tracks_allocations(alloc_bitmap),
            new_buffer.tracks_allocations(alloc_bitmap),
            *r matches BufferedReadAuthenticateDataFuturePoll::Ready(Ok(data)) ==> d.outcome_tracks_allocations(
                data@,
                alloc_bitmap,
            ),
    {
        let next = d.with_authenticated_end(d.next_step(location, leaf_log2).0);
        assert(next.tracks_allocations(alloc_bitmap)) by {
            assert forall|x: int| #[trigger]
                alloc_bitmap.allocated(x) && (next.is_used(x) || next.in_unauthenticated_subrange(x)) implies next.buf_at(
                x,
            )@.len() != 0 by {
                assert(d.buf_at(x)@.len() != 0);
            }
        }
        match d.next_step(location, leaf_log2).1 {
            BufferedReadStep::Failed(_) => {},
            BufferedReadStep::Read(_) => {
                assert(self.data() == next);
            },
            BufferedReadStep::LoadAuthTreeLeafNode(_) => {},
            BufferedReadStep::Finish => {
                next.law_no_allocated_padding_is_recorded_as_unallocated(old_buffer, new_buffer, alloc_bitmap);
                next.lemma_outcome_tracks_allocations(alloc_bitmap);
            },
        }
    }

    /// Taking data from the read buffer does not record any allocated Allocation
    /// Block as unallocated.
    proof fn lemma_consumed_tracks_allocations(
        d: &BufferedReadAuthenticatedDataFutureData,
        old_buffer: &ReadBuffer,
        new_buffer: &ReadBuffer,
        unauthenticated: Option<PhysicalAllocBlockRange>,
        alloc_bitmap: &AllocBitmap,
    )
        requires
            old_buffer.tracks_allocations(alloc_bitmap),
            buffered_read_init::consumed(
                &old_buffer.buf.auth_tree_data_block_buf,
                &new_buffer.buf.auth_tree_data_block_buf,
                d.authenticated_overlap(old_buffer),
            ),
            buffered_read_init::consumed(
                &old_buffer.buf.min_io_block_buf,
                &new_buffer.buf.min_io_block_buf,
                unauthenticated,
            ),
        ensures
            new_buffer.tracks_allocations(alloc_bitmap),
    {
    }

    /// Starting the operation does not record any allocated Allocation Block as
    /// unallocated.
    proof fn lemma_started_tracks_allocations(
        d: &BufferedReadAuthenticatedDataFutureData,
        e: &BufferedReadAuthenticatedDataFutureData,
        old_buffer: &ReadBuffer,
        new_buffer: &ReadBuffer,
        alloc_bitmap: &AllocBitmap,
    )
        requires
            d.ranges_wf(),
            old_buffer.tracks_allocations(alloc_bitmap),
            Self::started(d, e, old_buffer, new_buffer, alloc_bitmap),
        ensures
            e.same_request(d),
            e.ranges_wf(),
            e.bufs_wf(),
            e.subranges_wf(),
            e.tracks_allocations(alloc_bitmap),
            new_buffer.tracks_allocations(alloc_bitmap),
    {
        let obtained = choose|obtained: BufferedReadAuthenticatedDataFutureData|
            {
                &&& #[trigger] obtained.buffered_data_obtained(d, old_buffer, new_buffer)
                &&& if obtained.unauthenticated_subrange_from_read_buf == Some(
                    d.auth_tree_data_block_aligned_request_range,
                ) {
                    *e == obtained
                } else {
                    e.bufs_allocated(&obtained, alloc_bitmap)
                }
            };
        Self::lemma_consumed_tracks_allocations(
            d,
            old_buffer,
            new_buffer,
            d.unauthenticated_overlap(old_buffer),
            alloc_bitmap,
        );
        d.lemma_ranges_nested();
        align::lemma_block_size_pos((d.allocation_block_size_128b_log2 + 7) as nat);
        assert forall|x: int| #[trigger]
            alloc_bitmap.allocated(x) && (e.is_used(x) || e.in_unauthenticated_subrange(x)) implies e.buf_at(
            x,
        )@.len() != 0 by {
            assert(d.aligned_request_range.has(x));
            assert(d.obtained(old_buffer, x, obtained.buf_at(x)));
            if obtained.unauthenticated_subrange_from_read_buf != Some(d.auth_tree_data_block_aligned_request_range) {
                assert(e.buf_allocated_at(&obtained, alloc_bitmap, x));
            }
        }
    }

    /// Handling the operation's start does not record any allocated Allocation
    /// Block as unallocated.
    proof fn lemma_start_tracks_allocations(
        &self,
        new_self: &Self,
        covered_data_blocks_per_leaf_node_log2: nat,
        alloc_bitmap: &AllocBitmap,
        old_buffer: &ReadBuffer,
        new_buffer: &ReadBuffer,
        r: &BufferedReadAuthenticateDataFuturePoll,
    )
        requires
            self.d.ranges_wf(),
            old_buffer.tracks_allocations(alloc_bitmap),
            self.start_completed(
                new_self,
                covered_data_blocks_per_leaf_node_log2,
                alloc_bitmap,
                old_buffer,
                new_buffer,
                r,
            ),
        ensures
            new_self.tracks_allocations(alloc_bitmap),
            new_buffer.tracks_allocations(alloc_bitmap),
            *r matches BufferedReadAuthenticateDataFuturePoll::Ready(Ok(data)) ==> self.d.outcome_tracks_allocations(
                data@,
                alloc_bitmap,
            ),
    {
        let d = self.d;
        let leaf_log2 = d.auth_log2() + covered_data_blocks_per_leaf_node_log2;
        if d.authenticated_data_consumed(old_buffer, new_buffer) {
            Self::lemma_consumed_tracks_allocations(&d, old_buffer, new_buffer, None, alloc_bitmap);
        }
        if exists|e: BufferedReadAuthenticatedDataFutureData, buffer: ReadBuffer|
            {
                &&& #[trigger] Self::started(&d, &e, old_buffer, &buffer, alloc_bitmap)
                &&& new_self.advanced(&e, d.auth_begin(), leaf_log2, &buffer, new_buffer, r)
            } {
            let (e, buffer) = choose|e: BufferedReadAuthenticatedDataFutureData, buffer: ReadBuffer|
                {
                    &&& #[trigger] Self::started(&d, &e, old_buffer, &buffer, alloc_bitmap)
                    &&& new_self.advanced(&e, d.auth_begin(), leaf_log2, &buffer, new_buffer, r)
                };
            Self::lemma_started_tracks_allocations(&d, &e, old_buffer, &buffer, alloc_bitmap);
            new_self.lemma_advanced_tracks_allocations(
                &e,
                d.auth_begin(),
                leaf_log2,
                &buffer,
                new_buffer,
                r,
                alloc_bitmap,
            );
        } else if exists|obtained: BufferedReadAuthenticatedDataFutureData|
            #[trigger] obtained.buffered_data_obtained(&d, old_buffer, new_buffer) {
            Self::lemma_consumed_tracks_allocations(
                &d,
                old_buffer,
                new_buffer,
                d.unauthenticated_overlap(old_buffer),
                alloc_bitmap,
            );
        }
    }

    /// Authenticating a batch of data does not record any allocated Allocation
    /// Block as unallocated.
    proof fn lemma_batch_tracks_allocations<L, F: Fn(&L, u64, AuthTreeDataBlockData) -> Result<(), NvFsError>>(
        &self,
        new_self: &Self,
        authenticate: F,
        leaf_node: L,
        covered_data_blocks_per_leaf_node_log2: nat,
        old_buffer: &ReadBuffer,
        new_buffer: &ReadBuffer,
        r: &BufferedReadAuthenticateDataFuturePoll,
        alloc_bitmap: &AllocBitmap,
    )
        requires
            self.d.ranges_wf(),
            self.d.bufs_wf(),
            self.d.subranges_wf(),
            self.d.tracks_allocations(alloc_bitmap),
            old_buffer.tracks_allocations(alloc_bitmap),
            self.batch_completed(
                new_self,
                authenticate,
                leaf_node,
                covered_data_blocks_per_leaf_node_log2,
                old_buffer,
                new_buffer,
                r,
            ),
        ensures
            new_self.tracks_allocations(alloc_bitmap),
            new_buffer.tracks_allocations(alloc_bitmap),
            *r matches BufferedReadAuthenticateDataFuturePoll::Ready(Ok(data)) ==> self.d.outcome_tracks_allocations(
                data@,
                alloc_bitmap,
            ),
    {
        let leaf_log2 = self.d.auth_log2() + covered_data_blocks_per_leaf_node_log2;
        let end = self.d.batch_end(self.d.authenticated_end(), leaf_log2);
        let e = self.d.with_authenticated_end(end);
        assert forall|x: int| #[trigger]
            alloc_bitmap.allocated(x) && (e.is_used(x) || e.in_unauthenticated_subrange(x)) implies e.buf_at(
            x,
        )@.len() != 0 by {
            assert(self.d.buf_at(x)@.len() != 0);
        }
        if !(*new_buffer == *old_buffer && new_self.fut_state is Done
            && *r matches BufferedReadAuthenticateDataFuturePoll::Ready(Err(_))) {
            if end >= self.d.request_end() {
                e.law_no_allocated_padding_is_recorded_as_unallocated(old_buffer, new_buffer, alloc_bitmap);
                e.lemma_outcome_tracks_allocations(alloc_bitmap);
            } else {
                new_self.lemma_advanced_tracks_allocations(
                    &e,
                    end,
                    leaf_log2,
                    old_buffer,
                    new_buffer,
                    r,
                    alloc_bitmap,
                );
            }
        }
    }

    /// Advance the operation upon some event.
    ///
    /// On successful completion, buffers are being returned, one for each
    /// Allocation Block in the requested range.
    ///
    /// # Arguments:
    ///
    /// * `event` - The event.
    /// * `covered_data_blocks_per_leaf_node_log2` - Base-2 logarithm of the
    ///   number of Authentication Tree Data Blocks covered by an Authentication
    ///   Tree leaf node.
    /// * `fs_sync_state_alloc_bitmap` - The filesystem instance's allocation
    ///   bitmap.
    /// * `fs_sync_state_read_buffer` - The filesystem instance's read buffer.
    /// * `authenticate` - Function checking the data from the Authentication
    ///   Tree Data Block at a given index against an Authentication Tree leaf
    ///   node.
    pub fn poll<L, F: Fn(&L, u64, AuthTreeDataBlockData) -> Result<(), NvFsError>>(
        &mut self,
        event: BufferedReadAuthenticateDataFutureEvent<L>,
        covered_data_blocks_per_leaf_node_log2: u32,
        fs_sync_state_alloc_bitmap: &AllocBitmap,
        fs_sync_state_read_buffer: &mut ReadBuffer,
        authenticate: &F,
    ) -> (r: BufferedReadAuthenticateDataFuturePoll)
        requires
            old(self).wf(*authenticate),
            old(self).is_awaiting(event),
            old(self).d.matches_buffer(old(fs_sync_state_read_buffer)),
            old(self).d.auth_log2() + covered_data_blocks_per_leaf_node_log2 < 64,
            buffered_read_authenticate::authenticates(*authenticate, old(self).d.auth_size()),
        ensures
            final(self).wf(*authenticate),
            final(self).d.same_request(&old(self).d),
            final(fs_sync_state_read_buffer).wf(),
            final(fs_sync_state_read_buffer).same_layout(old(fs_sync_state_read_buffer)),
            final(self).origin@ == if event is Start {
                *old(fs_sync_state_read_buffer)
            } else {
                old(self).origin@
            },
            match event {
                BufferedReadAuthenticateDataFutureEvent::Start => old(self).start_completed(
                    final(self),
                    covered_data_blocks_per_leaf_node_log2 as nat,
                    fs_sync_state_alloc_bitmap,
                    old(fs_sync_state_read_buffer),
                    final(fs_sync_state_read_buffer),
                    &r,
                ),
                BufferedReadAuthenticateDataFutureEvent::ReadCompleted(Ok(request)) => final(self).advanced(
                    &old(self).d.with_bufs(request.bufs),
                    old(self).fut_state->ReadSubrangeData_read_range.end.index as int,
                    old(self).d.auth_log2() + covered_data_blocks_per_leaf_node_log2 as nat,
                    old(fs_sync_state_read_buffer),
                    final(fs_sync_state_read_buffer),
                    &r,
                ),
                BufferedReadAuthenticateDataFutureEvent::ReadCompleted(Err(e)) => {
                    &&& r == BufferedReadAuthenticateDataFuturePoll::Ready(
                        Err(<NvFsError as vstd::std_specs::convert::FromSpec<NvBlkDevIoError>>::from_spec(e)),
                    )
                    &&& final(self).fut_state is Done
                    &&& *final(fs_sync_state_read_buffer) == *old(fs_sync_state_read_buffer)
                },
                BufferedReadAuthenticateDataFutureEvent::AuthTreeLeafNodeLoaded(Ok(leaf_node)) => old(
                    self,
                ).batch_completed(
                    final(self),
                    *authenticate,
                    *leaf_node,
                    covered_data_blocks_per_leaf_node_log2 as nat,
                    old(fs_sync_state_read_buffer),
                    final(fs_sync_state_read_buffer),
                    &r,
                ),
                BufferedReadAuthenticateDataFutureEvent::AuthTreeLeafNodeLoaded(Err(e)) => {
                    &&& r == BufferedReadAuthenticateDataFuturePoll::Ready(Err(e))
                    &&& final(self).fut_state is Done
                    &&& *final(fs_sync_state_read_buffer) == *old(fs_sync_state_read_buffer)
                },
            },
            // It's always the leaf node covering the next block to authenticate which is getting loaded.
            r matches BufferedReadAuthenticateDataFuturePoll::LoadAuthTreeLeafNode(index) ==> {
                let d = final(self).d;
                &&& final(self).fut_state == (BufferedReadAuthenticateDataFutureState::LoadAuthTreeLeafNode {
                    auth_tree_data_block_index: index,
                })
                &&& index == align::blocks(
                    d.request_range_auth_tree_data_allocation_blocks_begin + (
                    d.authenticated_allocation_blocks_end.index
                        - d.auth_tree_data_block_aligned_request_range.begin.index),
                    d.auth_tree_data_block_allocation_blocks_log2 as nat,
                )
            },
            // The number of requests is limited.
            !(r is Ready) ==> {
                &&& final(self).progressed(old(self))
                &&& final(self).d.authenticated_end() < final(self).d.request_end()
                &&& final(self).submitted_end() <= final(self).d.io_end() + 1
            },
            // Nothing but authentic data is left in the read buffer as authenticated data.
            old(self).d.only_authentic_inserted(
                *authenticate,
                old(fs_sync_state_read_buffer),
                final(fs_sync_state_read_buffer),
            ),
            // No allocated Allocation Block gets recorded as unallocated in the read buffer.
            ({
                &&& old(self).tracks_allocations(fs_sync_state_alloc_bitmap)
                &&& old(fs_sync_state_read_buffer).tracks_allocations(fs_sync_state_alloc_bitmap)
                &&& event matches BufferedReadAuthenticateDataFutureEvent::ReadCompleted(Ok(request))
                    ==> request.sizes_retained()
            }) ==> {
                &&& final(self).tracks_allocations(fs_sync_state_alloc_bitmap)
                &&& final(fs_sync_state_read_buffer).tracks_allocations(fs_sync_state_alloc_bitmap)
                // And there's data returned for any of those requested.
                &&& r matches BufferedReadAuthenticateDataFuturePoll::Ready(Ok(data)) ==> old(
                    self,
                ).d.outcome_tracks_allocations(data@, fs_sync_state_alloc_bitmap)
            },
            // All buffers have the size of an Allocation Block or are empty.
            ({
                &&& old(self).bufs_sized()
                &&& old(fs_sync_state_read_buffer).entries_sized()
                &&& event matches BufferedReadAuthenticateDataFutureEvent::ReadCompleted(Ok(request))
                    ==> request.sizes_retained()
            }) ==> {
                &&& final(self).bufs_sized()
                &&& final(fs_sync_state_read_buffer).entries_sized()
                &&& r matches BufferedReadAuthenticateDataFuturePoll::Ready(Ok(data))
                    ==> buffered_read_sizes::all_have_size(data@, old(self).d.allocation_block_size())
            },
            // Nothing but authentic data is returned ever.
            r matches BufferedReadAuthenticateDataFuturePoll::Ready(Ok(data)) ==> old(self).d.outcome_is_authentic(
                *authenticate,
                &final(self).origin@,
                data@,
            ),
    {
        let ghost old_self = *self;
        let ghost o = *fs_sync_state_read_buffer;
        let ghost leaf_log2 = self.d.auth_log2() + covered_data_blocks_per_leaf_node_log2 as nat;
        match event {
            BufferedReadAuthenticateDataFutureEvent::Start => {
                let r = self.start(
                    covered_data_blocks_per_leaf_node_log2,
                    fs_sync_state_alloc_bitmap,
                    fs_sync_state_read_buffer,
                    authenticate,
                );
                proof {
                    if o.tracks_allocations(fs_sync_state_alloc_bitmap) {
                        old_self.lemma_start_tracks_allocations(
                            self,
                            covered_data_blocks_per_leaf_node_log2 as nat,
                            fs_sync_state_alloc_bitmap,
                            &o,
                            fs_sync_state_read_buffer,
                            &r,
                        );
                    }
                    if o.entries_sized() {
                        old_self.lemma_start_bufs_sized(
                            self,
                            covered_data_blocks_per_leaf_node_log2 as nat,
                            fs_sync_state_alloc_bitmap,
                            &o,
                            fs_sync_state_read_buffer,
                            &r,
                        );
                    }
                }
                r
            },
            BufferedReadAuthenticateDataFutureEvent::ReadCompleted(result) => match result {
                Ok(request) => {
                    let read_range: PhysicalAllocBlockRange = match &self.fut_state {
                        BufferedReadAuthenticateDataFutureState::ReadSubrangeData { read_range, .. } => *read_range,
                        _ => self.d.request_range,
                    };
                    let ghost d = self.d.with_bufs(request.bufs);
                    let ghost returned = request;
                    let r = self.complete_read(
                        request,
                        read_range,
                        covered_data_blocks_per_leaf_node_log2,
                        fs_sync_state_read_buffer,
                        authenticate,
                    );
                    proof {
                        if o.tracks_allocations(fs_sync_state_alloc_bitmap) && old_self.tracks_allocations(
                            fs_sync_state_alloc_bitmap,
                        ) && returned.sizes_retained() {
                            let before = old_self.data();
                            before.lemma_ranges_nested();
                            assert forall|x: int| #[trigger]
                                fs_sync_state_alloc_bitmap.allocated(x) && (d.is_used(x)
                                    || d.in_unauthenticated_subrange(x)) implies d.buf_at(x)@.len() != 0 by {
                                assert(before.buf_at(x)@.len() != 0);
                                assert(returned.bufs@[x - d.io_begin()]@.len() == returned.submitted@[x
                                    - d.io_begin()]@.len());
                            }
                            self.lemma_advanced_tracks_allocations(
                                &d,
                                read_range.end.index as int,
                                leaf_log2,
                                &o,
                                fs_sync_state_read_buffer,
                                &r,
                                fs_sync_state_alloc_bitmap,
                            );
                        }
                        if o.entries_sized() && old_self.bufs_sized() && returned.sizes_retained() {
                            assert forall|i: int| 0 <= i < d.bufs@.len() implies read_buffer::has_size(
                                #[trigger] d.bufs@[i],
                                d.allocation_block_size(),
                            ) by {
                                assert(read_buffer::has_size(
                                    old_self.data().bufs@[i],
                                    d.allocation_block_size(),
                                ));
                            }
                            self.lemma_advanced_bufs_sized(
                                &d,
                                read_range.end.index as int,
                                leaf_log2,
                                &o,
                                fs_sync_state_read_buffer,
                                &r,
                            );
                        }
                    }
                    r
                },
                Err(e) => {
                    self.fut_state = BufferedReadAuthenticateDataFutureState::Done;
                    BufferedReadAuthenticateDataFuturePoll::Ready(Err(NvFsError::from(e)))
                },
            },
            BufferedReadAuthenticateDataFutureEvent::AuthTreeLeafNodeLoaded(result) => match result {
                Ok(leaf_node) => {
                    let r = self.complete_batch(
                        leaf_node,
                        covered_data_blocks_per_leaf_node_log2,
                        fs_sync_state_read_buffer,
                        authenticate,
                    );
                    proof {
                        if o.tracks_allocations(fs_sync_state_alloc_bitmap) && old_self.tracks_allocations(
                            fs_sync_state_alloc_bitmap,
                        ) {
                            old_self.lemma_batch_tracks_allocations(
                                self,
                                *authenticate,
                                *leaf_node,
                                covered_data_blocks_per_leaf_node_log2 as nat,
                                &o,
                                fs_sync_state_read_buffer,
                                &r,
                                fs_sync_state_alloc_bitmap,
                            );
                        }
                        if o.entries_sized() && old_self.bufs_sized() {
                            old_self.lemma_batch_bufs_sized(
                                self,
                                *authenticate,
                                *leaf_node,
                                covered_data_blocks_per_leaf_node_log2 as nat,
                                &o,
                                fs_sync_state_read_buffer,
                                &r,
                            );
                        }
                    }
                    r
                },
                Err(e) => {
                    self.fut_state = BufferedReadAuthenticateDataFutureState::Done;
                    BufferedReadAuthenticateDataFuturePoll::Ready(Err(e))
                },
            },
        }
    }
}

} // verus!
