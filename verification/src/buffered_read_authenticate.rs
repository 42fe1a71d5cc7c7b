//! Authentication of data read through a read buffer.
use crate::align;
use crate::block_buffer::AllocationBlocksBufs;
use crate::buffered_read::BufferedReadAuthenticatedDataFutureData;
use crate::fs::NvFsError;
use crate::layout::PhysicalAllocBlockIndex;
use vstd::prelude::*;

verus! {

/// The data of a single Authentication Tree Data Block, by Allocation Block.
pub struct AuthTreeDataBlockData<'a> {
    /// Buffers to find the data in.
    pub bufs: &'a AllocationBlocksBufs,
    /// Index of the first Allocation Block's buffer.
    pub begin: usize,
    /// Number of Allocation Blocks.
    pub len: usize,
}

/// What's to be considered for authenticating an Allocation Block.
pub open spec fn block_data(buf: Vec<u8>) -> Option<Seq<u8>> {
    if buf@.len() == 0 {
        None
    } else {
        Some(buf@)
    }
}

impl<'a> AuthTreeDataBlockData<'a> {
    /// The buffers are all there.
    pub open spec fn wf(&self) -> bool {
        &&& self.bufs.wf()
        &&& self.begin + self.len <= self.bufs@.len()
    }

    /// The individual Allocation Blocks' data, or `None` if unallocated.
    pub open spec fn view(&self) -> Seq<Option<Seq<u8>>> {
        Seq::new(self.len as nat, |i: int| block_data(self.bufs@[self.begin + i]))
    }

    /// Number of Allocation Blocks.
    pub fn len(&self) -> (r: usize)
        ensures
            r == self@.len(),
    {
        self.len
    }

    /// Data of an individual Allocation Block, or `None` if unallocated.
    pub fn get(&self, i: usize) -> (r: Option<&[u8]>)
        requires
            self.wf(),
            i < self@.len(),
        ensures
            match self@[i as int] {
                Some(data) => r matches Some(slice) && slice@ == data,
                None => r is None,
            },
    {
        let buf = self.bufs.get(self.begin + i);
        if buf.is_empty() {
            None
        } else {
            Some(buf.as_slice())
        }
    }
}

/// What to do next after a batch of data has been read.
pub enum BufferedReadAuthenticateStep {
    /// All of the requested data has been authenticated.
    Finish,
    /// Proceed to read the next batch.
    PrepareNextSubrangeDataRead,
    /// Authenticate the batch, starting with the specified Authentication Tree
    /// Data Block, by means of the Authentication Tree leaf node covering it.
    LoadAuthTreeLeafNode(u64),
}

impl BufferedReadAuthenticatedDataFutureData {
    /// Size of an Authentication Tree Data Block in units of Allocation Blocks.
    pub open spec fn auth_size(&self) -> int {
        align::block_size(self.auth_log2())
    }

    /// End of what's been authenticated so far.
    pub open spec fn authenticated_end(&self) -> int {
        self.authenticated_allocation_blocks_end.index as int
    }

    /// The progress is at an Authentication Tree Data Block boundary, or past
    /// the request.
    pub open spec fn progress_wf(&self) -> bool {
        &&& self.auth_begin() <= self.authenticated_end() <= self.auth_end()
        &&& align::aligned(self.authenticated_end(), self.auth_log2()) || self.authenticated_end()
            == self.request_end()
    }

    /// Position when skipping over what had been obtained authenticated from the
    /// read buffer.
    ///
    /// An authenticated subrange initially obtained from the read buffer
    /// aligning to the left boundary of the request range is not necessarily
    /// aligned to the Authentication Tree Data Block size.
    pub open spec fn skipped(&self) -> int {
        match self.authenticated_subrange_from_read_buf {
            Some(s) => if self.authenticated_end() == s.begin.index || (self.authenticated_end()
                == self.auth_begin() && s.begin == self.request_range.begin) {
                s.end.index as int
            } else {
                self.authenticated_end()
            },
            None => self.authenticated_end(),
        }
    }

    /// What had been obtained authenticated from the read buffer is where an
    /// Authentication Tree leaf node's coverage ends.
    pub open spec fn skip_leaves_leaf(&self, leaf_log2: nat) -> bool {
        self.authenticated_subrange_from_read_buf matches Some(s) && !self.same_leaf(
            s.begin.index as int,
            s.end.index as int,
            leaf_log2,
        )
    }

    /// Index of the Authentication Tree Data Block at a location.
    pub open spec fn data_block_index(&self, location: int) -> int {
        align::blocks(self.auth_tree_location(location), self.auth_log2())
    }

    /// What to do next after a batch of data has been read.
    pub open spec fn authenticate_step(&self, leaf_log2: nat) -> BufferedReadAuthenticateStep {
        let next = self.skipped();
        if next != self.authenticated_end() && next >= self.request_end() {
            BufferedReadAuthenticateStep::Finish
        } else if next != self.authenticated_end() && self.skip_leaves_leaf(leaf_log2) {
            // Exhausted the region covered by a single Authentication Tree leaf node, read the
            // next one.
            BufferedReadAuthenticateStep::PrepareNextSubrangeDataRead
        } else if next == self.auth_end() {
            BufferedReadAuthenticateStep::Finish
        } else {
            BufferedReadAuthenticateStep::LoadAuthTreeLeafNode(self.data_block_index(next) as u64)
        }
    }

    /// Nothing but the authentication progress is different.
    pub open spec fn same_data(&self, other: &Self) -> bool {
        *self == (Self {
            authenticated_allocation_blocks_end: self.authenticated_allocation_blocks_end,
            ..*other
        })
    }

    /// Where to continue with the authentication if at the region obtained
    /// authenticated from the read buffer.
    proof fn lemma_skipped(&self)
        requires
            self.ranges_wf(),
            self.subranges_wf(),
            self.progress_wf(),
        ensures
            self.authenticated_end() <= self.skipped() <= self.auth_end(),
            align::aligned(self.skipped(), self.auth_log2()) || self.skipped() == self.request_end(),
    {
        self.lemma_ranges_nested();
    }

    /// Whatever had been obtained authenticated from the read buffer is skipped
    /// over.
    proof fn lemma_skip_is_past_read_buffer(&self)
        requires
            self.ranges_wf(),
            self.subranges_wf(),
            self.auth_begin() <= self.authenticated_end(),
            align::aligned(self.authenticated_end(), self.auth_log2()),
        ensures
            !self.is_from_read_buffer(self.skipped()),
    {
        let l = self.auth_log2();
        self.lemma_ranges_nested();
        align::lemma_block_size_pos(l);
        match self.authenticated_subrange_from_read_buf {
            Some(s) => {
                if self.is_from_read_buffer(self.authenticated_end()) {
                    if align::aligned(s.begin.index as int, l) {
                        // It's within a single block.
                        align::lemma_align_down_bounds(s.begin.index as int, l);
                        align::lemma_align_down_bounds(s.end.index - 1, l);
                        align::lemma_align_down_unique(s.begin.index as int, s.begin.index as int, l);
                        if self.authenticated_end() < s.begin.index {
                            align::lemma_aligned_gap(self.authenticated_end(), s.begin.index as int, l);
                        }
                        if s.begin.index < self.authenticated_end() {
                            align::lemma_aligned_gap(s.begin.index as int, self.authenticated_end(), l);
                        }
                    } else {
                        align::lemma_align_down_bounds(self.request_begin(), l);
                        align::lemma_align_down_bounds(s.end.index - 1, l);
                        if self.auth_begin() < self.authenticated_end() {
                            align::lemma_aligned_gap(self.auth_begin(), self.authenticated_end(), l);
                        }
                    }
                }
            },
            None => {},
        }
    }

    /// Determine what to do next after a batch of data has been read.
    ///
    /// # Arguments:
    ///
    /// * `covered_data_blocks_per_leaf_node_log2` - Base-2 logarithm of the
    ///   number of Authentication Tree Data Blocks covered by an Authentication
    ///   Tree leaf node.
    pub fn determine_authenticate_step(
        &mut self,
        covered_data_blocks_per_leaf_node_log2: u32,
    ) -> (r: BufferedReadAuthenticateStep)
        requires
            old(self).ranges_wf(),
            old(self).subranges_wf(),
            old(self).progress_wf(),
            old(self).authenticated_end() < old(self).request_end(),
            old(self).auth_log2() + covered_data_blocks_per_leaf_node_log2 < 64,
        ensures
            final(self).same_data(old(self)),
            final(self).authenticated_end() == old(self).skipped(),
            final(self).progress_wf(),
            r == old(self).authenticate_step(
                old(self).auth_log2() + covered_data_blocks_per_leaf_node_log2 as nat,
            ),
            r matches BufferedReadAuthenticateStep::LoadAuthTreeLeafNode(index) ==> {
                &&& index == final(self).data_block_index(final(self).authenticated_end())
                &&& final(self).authenticated_end() < final(self).request_end()
                &&& !final(self).is_from_read_buffer(final(self).authenticated_end())
            },
    {
        proof {
            self.lemma_ranges_nested();
            self.lemma_skipped();
            if align::aligned(self.authenticated_end(), self.auth_log2()) {
                self.lemma_skip_is_past_read_buffer();
            }
        }
        let auth_log2: u32 = self.auth_tree_data_block_allocation_blocks_log2 as u32;
        let leaf_log2: u32 = auth_log2 + covered_data_blocks_per_leaf_node_log2;
        match self.authenticated_subrange_from_read_buf {
            Some(s) => {
                let end: u64 = self.authenticated_allocation_blocks_end.index;
                if end == s.begin.index || (end == self.auth_tree_data_block_aligned_request_range.begin.index
                    && s.begin.index == self.request_range.begin.index) {
                    self.authenticated_allocation_blocks_end = s.end;
                    if s.end.index >= self.request_range.end.index {
                        return BufferedReadAuthenticateStep::Finish;
                    }
                    if !self.test_same_leaf(s.begin.index, s.end.index, leaf_log2) {
                        return BufferedReadAuthenticateStep::PrepareNextSubrangeDataRead;
                    }
                }
            },
            None => (),
        }
        if self.authenticated_allocation_blocks_end.index == self.auth_tree_data_block_aligned_request_range.end.index {
            return BufferedReadAuthenticateStep::Finish;
        }
        let location: u64 = self.translate_physical_to_auth_tree_data_allocation_block_index(
            self.authenticated_allocation_blocks_end,
        );
        BufferedReadAuthenticateStep::LoadAuthTreeLeafNode(align::blocks_u64(location, auth_log2))
    }
}

/// The authentication function is applicable to any Authentication Tree Data
/// Block's data.
pub open spec fn authenticates<L, F: Fn(&L, u64, AuthTreeDataBlockData) -> Result<(), NvFsError>>(
    authenticate: F,
    auth_size: int,
) -> bool {
    forall|leaf: L, index: u64, data: AuthTreeDataBlockData|
        data.wf() && data@.len() == auth_size ==> #[trigger] call_requires(authenticate, (&leaf, index, data))
}

impl BufferedReadAuthenticatedDataFutureData {
    /// The data found at some Authentication Tree Data Block.
    pub open spec fn block_contents(&self, begin: int) -> Seq<Option<Seq<u8>>> {
        Seq::new(self.auth_size() as nat, |i: int| block_data(self.buf_at(begin + i)))
    }

    /// Outcome of checking some Authentication Tree Data Block's data against an
    /// Authentication Tree leaf node.
    pub open spec fn block_checked<L, F: Fn(&L, u64, AuthTreeDataBlockData) -> Result<(), NvFsError>>(
        &self,
        authenticate: F,
        leaf: L,
        begin: int,
        r: Result<(), NvFsError>,
    ) -> bool {
        exists|data: AuthTreeDataBlockData|
            data@ =~= self.block_contents(begin) && #[trigger] call_ensures(
                authenticate,
                (&leaf, self.data_block_index(begin) as u64, data),
                r,
            )
    }

    /// The Authentication Tree Data Block's data has been found authentic.
    pub open spec fn is_authentic<L, F: Fn(&L, u64, AuthTreeDataBlockData) -> Result<(), NvFsError>>(
        &self,
        authenticate: F,
        begin: int,
    ) -> bool {
        exists|leaf: L| #[trigger] self.block_checked(authenticate, leaf, begin, Ok(()))
    }

    /// All Authentication Tree Data Blocks in a range had been found authentic by
    /// means of an Authentication Tree leaf node, except for those obtained
    /// authenticated from the read buffer.
    pub open spec fn batch_checked<L, F: Fn(&L, u64, AuthTreeDataBlockData) -> Result<(), NvFsError>>(
        &self,
        authenticate: F,
        leaf: L,
        batch_begin: int,
        batch_end: int,
    ) -> bool {
        forall|begin: int|
            batch_begin <= begin < batch_end && #[trigger] align::aligned(begin, self.auth_log2())
                ==> self.is_from_read_buffer(begin) || self.block_checked(authenticate, leaf, begin, Ok(()))
    }

    /// Data from some Authentication Tree Data Block had been obtained
    /// authenticated from the read buffer.
    pub open spec fn is_from_read_buffer(&self, begin: int) -> bool {
        self.authenticated_subrange_from_read_buf matches Some(s) && s.begin.index < begin + self.auth_size() && begin
            < s.end.index
    }

    /// An Authentication Tree Data Block is either authentic or its data had
    /// been obtained authenticated from the read buffer.
    pub open spec fn is_settled<L, F: Fn(&L, u64, AuthTreeDataBlockData) -> Result<(), NvFsError>>(
        &self,
        authenticate: F,
        begin: int,
    ) -> bool {
        self.is_from_read_buffer(begin) || self.is_authentic(authenticate, begin)
    }

    /// Everything up to the authentication progress is known to be authentic.
    pub open spec fn authenticated_by<L, F: Fn(&L, u64, AuthTreeDataBlockData) -> Result<(), NvFsError>>(
        &self,
        authenticate: F,
    ) -> bool {
        forall|begin: int|
            self.auth_begin() <= begin < self.authenticated_end() && align::aligned(begin, self.auth_log2())
                ==> #[trigger] self.is_settled(authenticate, begin)
    }

    /// Position after an Authentication Tree Data Block has been authenticated.
    pub open spec fn after_block(&self, begin: int) -> int {
        let end = begin + self.auth_size();
        match self.authenticated_subrange_from_read_buf {
            Some(s) => if s.begin.index == end {
                s.end.index as int
            } else {
                end
            },
            None => end,
        }
    }

    /// End of what's covered by a single Authentication Tree leaf node.
    pub open spec fn batch_end(&self, begin: int, leaf_log2: nat) -> int
        decreases
                if begin < self.request_end() {
                    self.request_end() - begin
                } else {
                    0
                },
    {
        let next = self.after_block(begin);
        if next <= begin || next >= self.request_end() || !self.same_leaf(begin, next, leaf_log2) {
            next
        } else {
            self.batch_end(next, leaf_log2)
        }
    }

    /// A batch is not empty.
    pub proof fn lemma_batch_end(&self, begin: int, leaf_log2: nat)
        requires
            self.ranges_wf(),
            self.subranges_wf(),
            self.auth_begin() <= begin < self.request_end(),
            align::aligned(begin, self.auth_log2()),
        ensures
            begin < self.after_block(begin) <= self.batch_end(begin, leaf_log2) <= self.auth_end(),
        decreases self.request_end() - begin,
    {
        align::lemma_block_size_pos(self.auth_log2());
        self.lemma_after_block(begin);
        let next = self.after_block(begin);
        if !(next >= self.request_end() || !self.same_leaf(begin, next, leaf_log2)) {
            self.lemma_batch_end(next, leaf_log2);
        }
    }

    /// The next Authentication Tree Data Block to authenticate is part of the
    /// request.
    proof fn lemma_after_block(&self, begin: int)
        requires
            self.ranges_wf(),
            self.subranges_wf(),
            self.auth_begin() <= begin < self.request_end(),
            align::aligned(begin, self.auth_log2()),
        ensures
            begin + self.auth_size() <= self.auth_end(),
            begin + self.auth_size() <= self.after_block(begin) <= self.auth_end(),
            align::aligned(begin + self.auth_size(), self.auth_log2()),
            align::aligned(self.after_block(begin), self.auth_log2()) || self.after_block(begin)
                == self.request_end(),
            align::aligned(self.auth_tree_location(begin), self.auth_log2()),
            self.data_block_index(begin + self.auth_size()) == self.data_block_index(begin) + 1,
            self.after_block(begin) != begin + self.auth_size() && align::aligned(
                self.after_block(begin),
                self.auth_log2(),
            ) ==> self.after_block(begin) == begin + 2 * self.auth_size(),
            // Whatever is being skipped over had been obtained authenticated.
            forall|b: int|
                begin < b < self.after_block(begin) && #[trigger] align::aligned(b, self.auth_log2())
                    ==> self.is_from_read_buffer(b),
            !self.is_from_read_buffer(self.after_block(begin)),
    {
        let l = self.auth_log2();
        let size = self.auth_size();
        let end = begin + size;
        self.lemma_ranges_nested();
        align::lemma_block_size_pos(l);
        align::lemma_aligned_next(begin, l);
        align::lemma_aligned_gap(begin, self.auth_end(), l);
        let base = self.request_range_auth_tree_data_allocation_blocks_begin as int;
        align::lemma_aligned_sum(begin, self.auth_begin(), l);
        align::lemma_aligned_sum(base, begin - self.auth_begin(), l);
        align::lemma_aligned_next(self.auth_tree_location(begin), l);
        match self.authenticated_subrange_from_read_buf {
            Some(s) => {
                if s.begin.index == end {
                    // It's within a single block.
                    align::lemma_align_down_bounds(s.end.index - 1, l);
                    align::lemma_align_down_bounds(end, l);
                    assert(s.end.index <= end + size);
                    if align::aligned(s.end.index as int, l) {
                        align::lemma_aligned_gap(end, s.end.index as int, l);
                    }
                }
            },
            None => {},
        }
        assert forall|b: int| begin < b < self.after_block(begin) && #[trigger] align::aligned(b, l) implies self.is_from_read_buffer(
            b,
        ) by {
            align::lemma_aligned_gap(begin, b, l);
        }
        if self.is_from_read_buffer(end) {
            let s = self.authenticated_subrange_from_read_buf->Some_0;
            if align::aligned(s.begin.index as int, l) {
                align::lemma_align_down_bounds(s.end.index - 1, l);
                align::lemma_align_down_unique(s.begin.index as int, s.begin.index as int, l);
                if s.begin.index < end {
                    align::lemma_aligned_gap(s.begin.index as int, end, l);
                }
                if end < s.begin.index {
                    align::lemma_aligned_gap(end, s.begin.index as int, l);
                }
            } else {
                align::lemma_align_down_bounds(self.request_begin(), l);
                align::lemma_align_down_bounds(s.end.index - 1, l);
            }
        }
    }
}

impl BufferedReadAuthenticatedDataFutureData {
    /// Authenticate a batch of data covered by a single Authentication Tree leaf
    /// node.
    ///
    /// All data covered by the leaf node must have been read in by now.
    ///
    /// # Arguments:
    ///
    /// * `leaf_node` - The Authentication Tree leaf node covering the data at
    ///   the current authentication progress.
    /// * `covered_data_blocks_per_leaf_node_log2` - Base-2 logarithm of the
    ///   number of Authentication Tree Data Blocks covered by an Authentication
    ///   Tree leaf node.
    /// * `authenticate` - Function checking the data from the Authentication
    ///   Tree Data Block at a given index against a leaf node.
    pub fn authenticate_batch<L, F: Fn(&L, u64, AuthTreeDataBlockData) -> Result<(), NvFsError>>(
        &mut self,
        leaf_node: &L,
        covered_data_blocks_per_leaf_node_log2: u32,
        authenticate: &F,
    ) -> (r: Result<(), NvFsError>)
        requires
            old(self).ranges_wf(),
            old(self).bufs_wf(),
            old(self).subranges_wf(),
            align::aligned(old(self).authenticated_end(), old(self).auth_log2()),
            old(self).auth_begin() <= old(self).authenticated_end() < old(self).request_end(),
            !old(self).is_from_read_buffer(old(self).authenticated_end()),
            old(self).auth_log2() + covered_data_blocks_per_leaf_node_log2 < 64,
            authenticates(*authenticate, old(self).auth_size()),
        ensures
            final(self).same_data(old(self)),
            final(self).progress_wf(),
            old(self).authenticated_end() <= final(self).authenticated_end() <= old(self).batch_end(
                old(self).authenticated_end(),
                old(self).auth_log2() + covered_data_blocks_per_leaf_node_log2 as nat,
            ),
            old(self).batch_checked(
                *authenticate,
                *leaf_node,
                old(self).authenticated_end(),
                final(self).authenticated_end(),
            ),
            match r {
                Ok(()) => final(self).authenticated_end() == old(self).batch_end(
                    old(self).authenticated_end(),
                    old(self).auth_log2() + covered_data_blocks_per_leaf_node_log2 as nat,
                ),
                // One of the data blocks covered is not authentic, or checking it failed. Nothing
                // obtained authenticated from the read buffer is checked again.
                Err(e) => {
                    &&& final(self).authenticated_end() < old(self).batch_end(
                        old(self).authenticated_end(),
                        old(self).auth_log2() + covered_data_blocks_per_leaf_node_log2 as nat,
                    )
                    &&& final(self).authenticated_end() < old(self).request_end()
                    &&& !old(self).is_from_read_buffer(final(self).authenticated_end())
                    &&& old(self).block_checked(
                        *authenticate,
                        *leaf_node,
                        final(self).authenticated_end(),
                        Err(e),
                    )
                },
            },
    {
        let ghost d = *self;
        let auth_log2: u32 = self.auth_tree_data_block_allocation_blocks_log2 as u32;
        let leaf_log2: u32 = auth_log2 + covered_data_blocks_per_leaf_node_log2;
        let ghost end = d.batch_end(d.authenticated_end(), leaf_log2 as nat);
        let auth_size: usize = align::block_size_usize(auth_log2);
        proof {
            self.lemma_ranges_nested();
            self.lemma_after_block(self.authenticated_end());
        }
        proof {
            self.lemma_batch_end(self.authenticated_end(), leaf_log2 as nat);
        }
        loop
            invariant
                d == *old(self),
                self.same_data(&d),
                d.ranges_wf(),
                d.bufs_wf(),
                d.subranges_wf(),
                auth_log2 == d.auth_log2(),
                auth_size == d.auth_size(),
                leaf_log2 < 64,
                leaf_log2 == auth_log2 + covered_data_blocks_per_leaf_node_log2,
                align::aligned(self.authenticated_end(), d.auth_log2()),
                d.auth_begin() <= d.authenticated_end() <= self.authenticated_end() < d.request_end(),
                self.authenticated_end() < end,
                !d.is_from_read_buffer(self.authenticated_end()),
                d.batch_end(self.authenticated_end(), leaf_log2 as nat) == end,
                end == d.batch_end(d.authenticated_end(), leaf_log2 as nat),
                authenticates(*authenticate, d.auth_size()),
                forall|begin: int|
                    d.authenticated_end() <= begin < self.authenticated_end() && #[trigger] align::aligned(
                        begin,
                        d.auth_log2(),
                    ) ==> d.is_from_read_buffer(begin) || d.block_checked(*authenticate, *leaf_node, begin, Ok(())),
            decreases d.auth_end() - self.authenticated_end(),
        {
            let ghost begin = self.authenticated_end();
            proof {
                d.lemma_ranges_nested();
                d.lemma_after_block(begin);
                d.lemma_batch_end(begin, leaf_log2 as nat);
                align::lemma_block_size_pos(d.auth_log2());
            }
            let begin_location: u64 = self.authenticated_allocation_blocks_end.index;
            let auth_tree_data_block_index: u64 = align::blocks_u64(
                self.translate_physical_to_auth_tree_data_allocation_block_index(
                    self.authenticated_allocation_blocks_end,
                ),
                auth_log2,
            );
            let data = AuthTreeDataBlockData {
                bufs: &self.bufs,
                begin: (self.authenticated_allocation_blocks_end.index - self.aligned_request_range.begin.index) as usize,
                len: auth_size,
            };
            assert(data@ =~= d.block_contents(begin));
            let ghost g = data;
            let r = authenticate(leaf_node, auth_tree_data_block_index, data);
            assert(call_ensures(*authenticate, (leaf_node, d.data_block_index(begin) as u64, g), r));
            assert(d.block_checked(*authenticate, *leaf_node, begin, r));
            match r {
                Ok(unit) => {
                    assert(unit == ());
                },
                Err(e) => {
                    return Err(e);
                },
            }
            // Advance the current position.
            self.authenticated_allocation_blocks_end = PhysicalAllocBlockIndex {
                index: self.authenticated_allocation_blocks_end.index + auth_size as u64,
            };
            // Skip over the authenticated region at point initially obtained from the read buffer,
            // if any.
            match self.authenticated_subrange_from_read_buf {
                Some(s) => if s.begin.index == self.authenticated_allocation_blocks_end.index {
                    self.authenticated_allocation_blocks_end = s.end;
                },
                None => (),
            }
            proof {
                assert(self.authenticated_end() == d.after_block(begin));
                assert forall|b: int| d.authenticated_end() <= b < self.authenticated_end() && #[trigger] align::aligned(
                    b,
                    d.auth_log2(),
                ) implies d.is_from_read_buffer(b) || d.block_checked(*authenticate, *leaf_node, b, Ok(())) by {}
            }
            if self.authenticated_allocation_blocks_end.index >= self.request_range.end.index {
                return Ok(());
            }
            if !self.test_same_leaf(begin_location, self.authenticated_allocation_blocks_end.index, leaf_log2) {
                // Exhausted the region covered by a single Authentication Tree leaf node. Stop
                // authenticating for now and proceed with reading data for the next one.
                return Ok(());
            }
            proof {
                d.lemma_batch_end(self.authenticated_end(), leaf_log2 as nat);
            }
        }
    }
}

} // verus!
