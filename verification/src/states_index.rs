//! Indices into and index ranges over the collection of update tracking
//! states.
use crate::align;
use crate::layout::AllocBlockCount;
use vstd::prelude::*;

verus! {

/// Index referring to a single Authentication Tree Data Block level entry.
#[derive(Clone, Copy, PartialEq, Eq, PartialOrd, Ord, Debug, Structural)]
pub struct AuthTreeDataBlocksUpdateStatesIndex {
    pub index: usize,
}

impl AuthTreeDataBlocksUpdateStatesIndex {
    /// Increment the index.
    pub fn step(&self) -> (r: Self)
        requires
            self.index < usize::MAX,
        ensures
            r.index == self.index + 1,
    {
        AuthTreeDataBlocksUpdateStatesIndex { index: self.index + 1 }
    }

    /// Decrement the index.
    ///
    /// Return `None` if already at the beginning.
    pub fn step_back(&self) -> (r: Option<Self>)
        ensures
            r is None <==> self.index == 0,
            r matches Some(i) ==> i.index == self.index - 1,
    {
        if self.index == 0 {
            None
        } else {
            Some(AuthTreeDataBlocksUpdateStatesIndex { index: self.index - 1 })
        }
    }
}

impl From<usize> for AuthTreeDataBlocksUpdateStatesIndex {
    fn from(value: usize) -> (r: Self) {
        AuthTreeDataBlocksUpdateStatesIndex { index: value }
    }
}

impl vstd::std_specs::convert::FromSpecImpl<usize> for AuthTreeDataBlocksUpdateStatesIndex {
    open spec fn obeys_from_spec() -> bool {
        true
    }

    open spec fn from_spec(value: usize) -> Self {
        AuthTreeDataBlocksUpdateStatesIndex { index: value }
    }
}

impl From<AuthTreeDataBlocksUpdateStatesIndex> for usize {
    fn from(value: AuthTreeDataBlocksUpdateStatesIndex) -> (r: usize) {
        value.index
    }
}

impl vstd::std_specs::convert::FromSpecImpl<AuthTreeDataBlocksUpdateStatesIndex> for usize {
    open spec fn obeys_from_spec() -> bool {
        true
    }

    open spec fn from_spec(value: AuthTreeDataBlocksUpdateStatesIndex) -> Self {
        value.index
    }
}

impl From<AuthTreeDataBlocksUpdateStatesAllocationBlockIndex> for AuthTreeDataBlocksUpdateStatesIndex {
    fn from(value: AuthTreeDataBlocksUpdateStatesAllocationBlockIndex) -> (r: Self) {
        value.auth_tree_data_blocks_update_states_index
    }
}

impl vstd::std_specs::convert::FromSpecImpl<AuthTreeDataBlocksUpdateStatesAllocationBlockIndex> for AuthTreeDataBlocksUpdateStatesIndex {
    open spec fn obeys_from_spec() -> bool {
        true
    }

    open spec fn from_spec(value: AuthTreeDataBlocksUpdateStatesAllocationBlockIndex) -> Self {
        value.auth_tree_data_blocks_update_states_index
    }
}

/// Index range of Authentication Tree Data Block level entries.
///
/// Note that the Authentication Tree Data Blocks described by such an index
/// range are ordered by their location on storage, but not necessarily
/// contiguous because there might be some entries missing.
#[derive(Clone, Copy, Debug, PartialEq, Eq, Structural)]
pub struct AuthTreeDataBlocksUpdateStatesIndexRange {
    pub begin: AuthTreeDataBlocksUpdateStatesIndex,
    pub end: AuthTreeDataBlocksUpdateStatesIndex,
}

impl AuthTreeDataBlocksUpdateStatesIndexRange {
    /// The range's end is not located before its beginning.
    pub open spec fn wf(&self) -> bool {
        self.begin.index <= self.end.index
    }

    /// Instantiate a new [`AuthTreeDataBlocksUpdateStatesIndexRange`].
    pub fn new(begin: AuthTreeDataBlocksUpdateStatesIndex, end: AuthTreeDataBlocksUpdateStatesIndex) -> (r: Self)
        requires
            begin.index <= end.index,
        ensures
            r.wf(),
            r.begin == begin,
            r.end == end,
    {
        AuthTreeDataBlocksUpdateStatesIndexRange { begin, end }
    }

    /// Number of entries in the range.
    pub fn len(&self) -> (r: usize)
        requires
            self.wf(),
        ensures
            r == self.end.index - self.begin.index,
    {
        self.end.index - self.begin.index
    }

    /// Whether or not the range is empty.
    pub fn is_empty(&self) -> (r: bool)
        ensures
            r == (self.begin == self.end),
    {
        self.end.index == self.begin.index
    }

    /// Get the range's beginning.
    pub fn begin(&self) -> (r: AuthTreeDataBlocksUpdateStatesIndex)
        ensures
            r == self.begin,
    {
        self.begin
    }

    /// Get the range's end.
    pub fn end(&self) -> (r: AuthTreeDataBlocksUpdateStatesIndex)
        ensures
            r == self.end,
    {
        self.end
    }

    /// Iterate over the indices in the range.
    pub fn iter(&self) -> (r: AuthTreeDataBlocksUpdateStatesIndexRangeIter)
        requires
            self.wf(),
        ensures
            r.wf(),
            r.next_index == self.begin,
            r.end == self.end,
    {
        AuthTreeDataBlocksUpdateStatesIndexRangeIter { next_index: self.begin, end: self.end }
    }

    /// Apply correction offsets to account for entry insertions.
    ///
    /// # Arguments:
    ///
    /// * `states_inserted_before_count` - Number of new entries inserted before
    ///   the range.
    /// * `states_inserted_within_count` - Number of new entries inserted within
    ///   the range.
    pub fn apply_states_insertions_offsets(
        &self,
        states_inserted_before_count: usize,
        states_inserted_within_count: usize,
    ) -> (r: Self)
        requires
            self.wf(),
            self.end.index + states_inserted_before_count + states_inserted_within_count <= usize::MAX,
        ensures
            r.wf(),
            r.begin.index == self.begin.index + states_inserted_before_count,
            r.end.index == self.end.index + states_inserted_before_count + states_inserted_within_count,
    {
        AuthTreeDataBlocksUpdateStatesIndexRange {
            begin: AuthTreeDataBlocksUpdateStatesIndex {
                index: self.begin.index + states_inserted_before_count,
            },
            end: AuthTreeDataBlocksUpdateStatesIndex {
                index: self.end.index + states_inserted_before_count + states_inserted_within_count,
            },
        }
    }

    /// The smallest range of Authentication Tree Data Block level entries
    /// covering an Allocation Block level range.
    pub open spec fn covering(value: AuthTreeDataBlocksUpdateStatesAllocationBlocksIndexRange) -> (int, int) {
        (
            value.begin.auth_tree_data_blocks_update_states_index.index as int,
            if value.end.allocation_block_index_in_auth_tree_data_block == 0 {
                value.end.auth_tree_data_blocks_update_states_index.index as int
            } else {
                value.end.auth_tree_data_blocks_update_states_index.index + 1
            },
        )
    }

    /// Convert from an Allocation Block level index range.
    ///
    /// The result covers all entries which have at least one of their
    /// Allocation Blocks in the specified range.
    pub fn from(value: AuthTreeDataBlocksUpdateStatesAllocationBlocksIndexRange) -> (r: Self)
        requires
            Self::covering(value).1 <= usize::MAX,
        ensures
            r.begin.index == Self::covering(value).0,
            r.end.index == Self::covering(value).1,
    {
        let end = if value.end.allocation_block_index_in_auth_tree_data_block == 0 {
            value.end.auth_tree_data_blocks_update_states_index
        } else {
            value.end.auth_tree_data_blocks_update_states_index.step()
        };
        AuthTreeDataBlocksUpdateStatesIndexRange {
            begin: value.begin.auth_tree_data_blocks_update_states_index,
            end,
        }
    }
}

/// Iterator over the individual indices in an
/// [`AuthTreeDataBlocksUpdateStatesIndexRange`].
#[derive(Clone, Copy)]
pub struct AuthTreeDataBlocksUpdateStatesIndexRangeIter {
    pub next_index: AuthTreeDataBlocksUpdateStatesIndex,
    pub end: AuthTreeDataBlocksUpdateStatesIndex,
}

impl AuthTreeDataBlocksUpdateStatesIndexRangeIter {
    /// The current position is not past the end.
    pub open spec fn wf(&self) -> bool {
        self.next_index.index <= self.end.index
    }

    /// Obtain the next index in the range, if any.
    pub fn next(&mut self) -> (r: Option<AuthTreeDataBlocksUpdateStatesIndex>)
        requires
            old(self).wf(),
        ensures
            final(self).wf(),
            final(self).end == old(self).end,
            r is None <==> old(self).next_index == old(self).end,
            r is None ==> *final(self) == *old(self),
            r matches Some(i) ==> i == old(self).next_index && final(self).next_index.index == i.index + 1,
    {
        if self.next_index.index == self.end.index {
            None
        } else {
            let cur_index = self.next_index;
            self.next_index = cur_index.step();
            Some(cur_index)
        }
    }
}

/// Index referring to a single Allocation Block level entry.
#[derive(Clone, Copy, PartialEq, Eq, PartialOrd, Ord, Debug, Structural)]
pub struct AuthTreeDataBlocksUpdateStatesAllocationBlockIndex {
    /// Index of the containing Authentication Tree Data Block level entry.
    pub auth_tree_data_blocks_update_states_index: AuthTreeDataBlocksUpdateStatesIndex,
    /// Index of the Allocation Block within the containing Authentication Tree
    /// Data Block.
    pub allocation_block_index_in_auth_tree_data_block: usize,
}

impl AuthTreeDataBlocksUpdateStatesAllocationBlockIndex {
    /// Index of the containing Authentication Tree Data Block level entry.
    pub open spec fn block(&self) -> int {
        self.auth_tree_data_blocks_update_states_index.index as int
    }

    /// Index of the Allocation Block within the containing Authentication Tree
    /// Data Block.
    pub open spec fn offset(&self) -> int {
        self.allocation_block_index_in_auth_tree_data_block as int
    }

    /// The offset does not point past the Authentication Tree Data Block.
    pub open spec fn wf(&self, auth_tree_data_block_allocation_blocks_log2: nat) -> bool {
        self.offset() < align::block_size(auth_tree_data_block_allocation_blocks_log2)
    }

    /// Position in the sequence of all Allocation Block level entries.
    pub open spec fn position(&self, auth_tree_data_block_allocation_blocks_log2: nat) -> int {
        self.block() * align::block_size(auth_tree_data_block_allocation_blocks_log2) + self.offset()
    }

    /// Ordering by position.
    pub open spec fn le(&self, other: &Self) -> bool {
        self.block() < other.block() || self.block() == other.block() && self.offset() <= other.offset()
    }

    /// Instantiate a [`AuthTreeDataBlocksUpdateStatesAllocationBlockIndex`].
    ///
    /// # Arguments:
    ///
    /// * `auth_tree_data_blocks_update_states_index` - Index identifying the
    ///   containing Authentication Tree Data Block's entry.
    /// * `allocation_block_index_in_auth_tree_data_block` - Index of the
    ///   Allocation Block within the containing Authentication Tree Data Block.
    ///   Must not point past the Authentication Tree Data Block.
    pub fn new(
        auth_tree_data_blocks_update_states_index: AuthTreeDataBlocksUpdateStatesIndex,
        allocation_block_index_in_auth_tree_data_block: usize,
    ) -> (r: Self)
        ensures
            r.auth_tree_data_blocks_update_states_index == auth_tree_data_blocks_update_states_index,
            r.allocation_block_index_in_auth_tree_data_block == allocation_block_index_in_auth_tree_data_block,
    {
        AuthTreeDataBlocksUpdateStatesAllocationBlockIndex {
            auth_tree_data_blocks_update_states_index,
            allocation_block_index_in_auth_tree_data_block,
        }
    }

    /// Increment the index.
    pub fn step(&self, auth_tree_data_block_allocation_blocks_log2: u32) -> (r: Self)
        requires
            auth_tree_data_block_allocation_blocks_log2 < usize::BITS,
            self.wf(auth_tree_data_block_allocation_blocks_log2 as nat),
            self.block() < usize::MAX || self.offset() + 1 < align::block_size(
                auth_tree_data_block_allocation_blocks_log2 as nat,
            ),
        ensures
            r.wf(auth_tree_data_block_allocation_blocks_log2 as nat),
            r.position(auth_tree_data_block_allocation_blocks_log2 as nat) == self.position(
                auth_tree_data_block_allocation_blocks_log2 as nat,
            ) + 1,
            self.offset() + 1 < align::block_size(auth_tree_data_block_allocation_blocks_log2 as nat)
                ==> r.block() == self.block() && r.offset() == self.offset() + 1,
            self.offset() + 1 == align::block_size(auth_tree_data_block_allocation_blocks_log2 as nat)
                ==> r.block() == self.block() + 1 && r.offset() == 0,
    {
        proof {
            let l = auth_tree_data_block_allocation_blocks_log2 as nat;
            align::lemma_block_size_usize(l);
            align::lemma_aligned_unit(l);
            let x = self.offset() + 1;
            if x < align::block_size(l) {
                align::lemma_align_down_unique(x, 0, l);
                align::lemma_blocks_align_down(x, l);
            }
        }
        self.advance(AllocBlockCount { count: 1 }, auth_tree_data_block_allocation_blocks_log2)
    }

    /// Decrement the index.
    ///
    /// Return `None` if already at the beginning.
    pub fn step_back(&self, auth_tree_data_block_allocation_blocks_log2: u32) -> (r: Option<Self>)
        requires
            auth_tree_data_block_allocation_blocks_log2 < usize::BITS,
        ensures
            r is None <==> self.block() == 0 && self.offset() == 0,
            r matches Some(i) ==> {
                let l = auth_tree_data_block_allocation_blocks_log2 as nat;
                &&& i.position(l) == self.position(l) - 1
                &&& self.wf(l) ==> i.wf(l)
                &&& self.offset() > 0 ==> i.block() == self.block() && i.offset() == self.offset() - 1
                &&& self.offset() == 0 ==> i.block() == self.block() - 1 && i.offset() == align::block_size(l) - 1
            },
    {
        if self.allocation_block_index_in_auth_tree_data_block == 0 {
            if self.auth_tree_data_blocks_update_states_index.index == 0 {
                None
            } else {
                let size: usize = align::block_size_usize(auth_tree_data_block_allocation_blocks_log2);
                proof {
                    align::lemma_block_size_pos(auth_tree_data_block_allocation_blocks_log2 as nat);
                    let b = size as int;
                    let k = self.block();
                    assert((k - 1) * b + b == k * b) by (nonlinear_arith);
                }
                Some(
                    AuthTreeDataBlocksUpdateStatesAllocationBlockIndex {
                        auth_tree_data_blocks_update_states_index: AuthTreeDataBlocksUpdateStatesIndex {
                            index: self.auth_tree_data_blocks_update_states_index.index - 1,
                        },
                        allocation_block_index_in_auth_tree_data_block: size - 1,
                    },
                )
            }
        } else {
            Some(
                AuthTreeDataBlocksUpdateStatesAllocationBlockIndex {
                    auth_tree_data_blocks_update_states_index: self.auth_tree_data_blocks_update_states_index,
                    allocation_block_index_in_auth_tree_data_block: self.allocation_block_index_in_auth_tree_data_block
                        - 1,
                },
            )
        }
    }

    /// Advance the index by a specified distance.
    ///
    /// # Arguments:
    ///
    /// * `distance` - Number of Allocation Block entries to advance the index
    ///   by.
    pub fn advance(&self, distance: AllocBlockCount, auth_tree_data_block_allocation_blocks_log2: u32) -> (r: Self)
        requires
            auth_tree_data_block_allocation_blocks_log2 < usize::BITS,
            self.offset() + distance.count <= u64::MAX,
            self.block() + align::blocks(
                self.offset() + distance.count,
                auth_tree_data_block_allocation_blocks_log2 as nat,
            ) <= usize::MAX,
        ensures
            ({
                let l = auth_tree_data_block_allocation_blocks_log2 as nat;
                &&& r.wf(l)
                &&& r.position(l) == self.position(l) + distance.count
                &&& r.block() == self.block() + align::blocks(self.offset() + distance.count, l)
                &&& r.offset() == self.offset() + distance.count - align::align_down(self.offset() + distance.count, l)
            }),
    {
        let total: u64 = self.allocation_block_index_in_auth_tree_data_block as u64 + distance.count;
        let distance_auth_tree_data_blocks: u64 = align::blocks_u64(total, auth_tree_data_block_allocation_blocks_log2);
        let aligned_total: u64 = align::align_down_u64(total, auth_tree_data_block_allocation_blocks_log2);
        proof {
            let l = auth_tree_data_block_allocation_blocks_log2 as nat;
            align::lemma_align_down_bounds(total as int, l);
            align::lemma_blocks_align_down(total as int, l);
            align::lemma_block_size_usize(l);
            let (b, k, d) = (align::block_size(l), self.block(), distance_auth_tree_data_blocks as int);
            align::lemma_blocks_mono(0, total as int, l);
            align::lemma_aligned_unit(l);
            assert((k + d) * b == k * b + d * b) by (nonlinear_arith);
        }
        AuthTreeDataBlocksUpdateStatesAllocationBlockIndex {
            auth_tree_data_blocks_update_states_index: AuthTreeDataBlocksUpdateStatesIndex {
                index: self.auth_tree_data_blocks_update_states_index.index + distance_auth_tree_data_blocks as usize,
            },
            allocation_block_index_in_auth_tree_data_block: (total - aligned_total) as usize,
        }
    }
}

impl From<AuthTreeDataBlocksUpdateStatesIndex> for AuthTreeDataBlocksUpdateStatesAllocationBlockIndex {
    fn from(value: AuthTreeDataBlocksUpdateStatesIndex) -> (r: Self) {
        AuthTreeDataBlocksUpdateStatesAllocationBlockIndex {
            auth_tree_data_blocks_update_states_index: value,
            allocation_block_index_in_auth_tree_data_block: 0,
        }
    }
}

impl vstd::std_specs::convert::FromSpecImpl<AuthTreeDataBlocksUpdateStatesIndex> for AuthTreeDataBlocksUpdateStatesAllocationBlockIndex {
    open spec fn obeys_from_spec() -> bool {
        true
    }

    open spec fn from_spec(value: AuthTreeDataBlocksUpdateStatesIndex) -> Self {
        AuthTreeDataBlocksUpdateStatesAllocationBlockIndex {
            auth_tree_data_blocks_update_states_index: value,
            allocation_block_index_in_auth_tree_data_block: 0,
        }
    }
}

/// Index range of Allocation Block level entries.
///
/// Note that the Allocation Blocks described by such an index range are ordered
/// by their location on storage, but not necessarily contiguous because there
/// might be some Authentication Tree Data Block sized entries missing.
#[derive(Clone, Copy, PartialEq, Eq, Debug, Structural)]
pub struct AuthTreeDataBlocksUpdateStatesAllocationBlocksIndexRange {
    pub begin: AuthTreeDataBlocksUpdateStatesAllocationBlockIndex,
    pub end: AuthTreeDataBlocksUpdateStatesAllocationBlockIndex,
}

impl AuthTreeDataBlocksUpdateStatesAllocationBlocksIndexRange {
    /// The range's end is not located before its beginning and both do not
    /// point past an Authentication Tree Data Block.
    pub open spec fn wf(&self, auth_tree_data_block_allocation_blocks_log2: nat) -> bool {
        &&& self.begin.wf(auth_tree_data_block_allocation_blocks_log2)
        &&& self.end.wf(auth_tree_data_block_allocation_blocks_log2)
        &&& self.begin.le(&self.end)
    }

    /// Whether an Allocation Block level entry is in the range.
    pub open spec fn has(&self, block: int, offset: int) -> bool {
        &&& self.begin.block() < block || self.begin.block() == block && self.begin.offset() <= offset
        &&& block < self.end.block() || block == self.end.block() && offset < self.end.offset()
    }

    /// Instantiate a new
    /// [`AuthTreeDataBlocksUpdateStatesAllocationBlocksIndexRange`].
    pub fn new(
        begin: &AuthTreeDataBlocksUpdateStatesAllocationBlockIndex,
        end: &AuthTreeDataBlocksUpdateStatesAllocationBlockIndex,
    ) -> (r: Self)
        requires
            begin.le(end),
        ensures
            r.begin == *begin,
            r.end == *end,
    {
        AuthTreeDataBlocksUpdateStatesAllocationBlocksIndexRange { begin: *begin, end: *end }
    }

    /// Whether or not the range is empty.
    pub fn is_empty(&self) -> (r: bool)
        ensures
            r == (self.begin == self.end),
    {
        self.begin == self.end
    }

    /// Get the range's beginning.
    pub fn begin(&self) -> (r: &AuthTreeDataBlocksUpdateStatesAllocationBlockIndex)
        ensures
            *r == self.begin,
    {
        &self.begin
    }

    /// Get the range's end.
    pub fn end(&self) -> (r: &AuthTreeDataBlocksUpdateStatesAllocationBlockIndex)
        ensures
            *r == self.end,
    {
        &self.end
    }

    /// Iterate over the indices in the range.
    pub fn iter(
        &self,
        auth_tree_data_block_allocation_blocks_log2: u32,
    ) -> (r: AuthTreeDataBlocksUpdateStatesAllocationBlocksIndexRangeIter)
        requires
            auth_tree_data_block_allocation_blocks_log2 < usize::BITS,
            self.wf(auth_tree_data_block_allocation_blocks_log2 as nat),
        ensures
            r.wf(),
            r.next_index == self.begin,
            r.end == self.end,
            r.auth_tree_data_block_allocation_blocks_log2 == auth_tree_data_block_allocation_blocks_log2,
    {
        AuthTreeDataBlocksUpdateStatesAllocationBlocksIndexRangeIter {
            next_index: self.begin,
            end: self.end,
            auth_tree_data_block_allocation_blocks_log2,
        }
    }

    /// Apply correction offsets to account for Authentication Tree Data Block
    /// level entry insertions.
    ///
    /// # Arguments:
    ///
    /// * `states_inserted_before_count` - Number of new entries inserted before
    ///   the range.
    /// * `states_inserted_within_count` - Number of new entries inserted within
    ///   the range.
    pub fn apply_states_insertions_offsets(
        &self,
        states_inserted_before_count: usize,
        states_inserted_within_count: usize,
    ) -> (r: Self)
        requires
            self.begin.block() <= self.end.block(),
            self.end.block() + states_inserted_before_count + states_inserted_within_count <= usize::MAX,
        ensures
            r.begin.block() == self.begin.block() + states_inserted_before_count,
            r.begin.offset() == self.begin.offset(),
            r.end.block() == self.end.block() + states_inserted_before_count + states_inserted_within_count,
            r.end.offset() == self.end.offset(),
    {
        AuthTreeDataBlocksUpdateStatesAllocationBlocksIndexRange {
            begin: AuthTreeDataBlocksUpdateStatesAllocationBlockIndex {
                auth_tree_data_blocks_update_states_index: AuthTreeDataBlocksUpdateStatesIndex {
                    index: self.begin.auth_tree_data_blocks_update_states_index.index + states_inserted_before_count,
                },
                allocation_block_index_in_auth_tree_data_block: self.begin.allocation_block_index_in_auth_tree_data_block,
            },
            end: AuthTreeDataBlocksUpdateStatesAllocationBlockIndex {
                auth_tree_data_blocks_update_states_index: AuthTreeDataBlocksUpdateStatesIndex {
                    index: self.end.auth_tree_data_blocks_update_states_index.index + states_inserted_before_count
                        + states_inserted_within_count,
                },
                allocation_block_index_in_auth_tree_data_block: self.end.allocation_block_index_in_auth_tree_data_block,
            },
        }
    }
}

impl From<AuthTreeDataBlocksUpdateStatesIndexRange> for AuthTreeDataBlocksUpdateStatesAllocationBlocksIndexRange {
    fn from(value: AuthTreeDataBlocksUpdateStatesIndexRange) -> (r: Self) {
        AuthTreeDataBlocksUpdateStatesAllocationBlocksIndexRange {
            begin: AuthTreeDataBlocksUpdateStatesAllocationBlockIndex {
                auth_tree_data_blocks_update_states_index: value.begin,
                allocation_block_index_in_auth_tree_data_block: 0,
            },
            end: AuthTreeDataBlocksUpdateStatesAllocationBlockIndex {
                auth_tree_data_blocks_update_states_index: value.end,
                allocation_block_index_in_auth_tree_data_block: 0,
            },
        }
    }
}

impl vstd::std_specs::convert::FromSpecImpl<AuthTreeDataBlocksUpdateStatesIndexRange> for AuthTreeDataBlocksUpdateStatesAllocationBlocksIndexRange {
    open spec fn obeys_from_spec() -> bool {
        true
    }

    open spec fn from_spec(value: AuthTreeDataBlocksUpdateStatesIndexRange) -> Self {
        AuthTreeDataBlocksUpdateStatesAllocationBlocksIndexRange {
            begin: AuthTreeDataBlocksUpdateStatesAllocationBlockIndex {
                auth_tree_data_blocks_update_states_index: value.begin,
                allocation_block_index_in_auth_tree_data_block: 0,
            },
            end: AuthTreeDataBlocksUpdateStatesAllocationBlockIndex {
                auth_tree_data_blocks_update_states_index: value.end,
                allocation_block_index_in_auth_tree_data_block: 0,
            },
        }
    }
}

/// Iterator over the individual indices in an
/// [`AuthTreeDataBlocksUpdateStatesAllocationBlocksIndexRange`].
#[derive(Clone, Copy)]
pub struct AuthTreeDataBlocksUpdateStatesAllocationBlocksIndexRangeIter {
    pub next_index: AuthTreeDataBlocksUpdateStatesAllocationBlockIndex,
    pub end: AuthTreeDataBlocksUpdateStatesAllocationBlockIndex,
    pub auth_tree_data_block_allocation_blocks_log2: u32,
}

impl AuthTreeDataBlocksUpdateStatesAllocationBlocksIndexRangeIter {
    /// The current position is not past the end.
    pub open spec fn wf(&self) -> bool {
        &&& self.auth_tree_data_block_allocation_blocks_log2 < usize::BITS
        &&& self.next_index.wf(self.auth_tree_data_block_allocation_blocks_log2 as nat)
        &&& self.end.wf(self.auth_tree_data_block_allocation_blocks_log2 as nat)
        &&& self.next_index.le(&self.end)
    }

    /// Obtain the next index in the range, if any.
    pub fn next(&mut self) -> (r: Option<AuthTreeDataBlocksUpdateStatesAllocationBlockIndex>)
        requires
            old(self).wf(),
        ensures
            final(self).wf(),
            final(self).end == old(self).end,
            final(self).auth_tree_data_block_allocation_blocks_log2 == old(
                self,
            ).auth_tree_data_block_allocation_blocks_log2,
            r is None <==> old(self).next_index == old(self).end,
            r is None ==> *final(self) == *old(self),
            r matches Some(i) ==> {
                let l = old(self).auth_tree_data_block_allocation_blocks_log2 as nat;
                i == old(self).next_index && final(self).next_index.position(l) == i.position(l) + 1
            },
    {
        if self.next_index == self.end {
            None
        } else {
            let cur_index = self.next_index;
            self.next_index = cur_index.step(self.auth_tree_data_block_allocation_blocks_log2);
            Some(cur_index)
        }
    }
}

/// An index is determined by its position.
pub proof fn lemma_position_injective(
    a: AuthTreeDataBlocksUpdateStatesAllocationBlockIndex,
    b: AuthTreeDataBlocksUpdateStatesAllocationBlockIndex,
    auth_tree_data_block_allocation_blocks_log2: nat,
)
    requires
        a.wf(auth_tree_data_block_allocation_blocks_log2),
        b.wf(auth_tree_data_block_allocation_blocks_log2),
    ensures
        a.position(auth_tree_data_block_allocation_blocks_log2) == b.position(
            auth_tree_data_block_allocation_blocks_log2,
        ) ==> a == b,
        a.position(auth_tree_data_block_allocation_blocks_log2) <= b.position(
            auth_tree_data_block_allocation_blocks_log2,
        ) <==> a.le(&b),
{
    let s = align::block_size(auth_tree_data_block_allocation_blocks_log2);
    let (p, q) = (a.block(), b.block());
    if p < q {
        assert(p * s + s <= q * s) by (nonlinear_arith)
            requires
                p + 1 <= q,
                s >= 0,
        ;
    }
    if q < p {
        assert(q * s + s <= p * s) by (nonlinear_arith)
            requires
                q + 1 <= p,
                s >= 0,
        ;
    }
}

/// Moving an index forwards by one and back again has no effect.
pub proof fn law_step_back_undoes_step(
    i: AuthTreeDataBlocksUpdateStatesAllocationBlockIndex,
    stepped: AuthTreeDataBlocksUpdateStatesAllocationBlockIndex,
    back: AuthTreeDataBlocksUpdateStatesAllocationBlockIndex,
    auth_tree_data_block_allocation_blocks_log2: nat,
)
    requires
        i.wf(auth_tree_data_block_allocation_blocks_log2),
        back.wf(auth_tree_data_block_allocation_blocks_log2),
        stepped.position(auth_tree_data_block_allocation_blocks_log2) == i.position(
            auth_tree_data_block_allocation_blocks_log2,
        ) + 1,
        back.position(auth_tree_data_block_allocation_blocks_log2) == stepped.position(
            auth_tree_data_block_allocation_blocks_log2,
        ) - 1,
    ensures
        back == i,
{
    lemma_position_injective(i, back, auth_tree_data_block_allocation_blocks_log2);
}

/// Advancing an index by two distances one after the other is the same as
/// advancing it by their sum.
pub proof fn law_advance_is_additive(
    i: AuthTreeDataBlocksUpdateStatesAllocationBlockIndex,
    d0: int,
    d1: int,
    first: AuthTreeDataBlocksUpdateStatesAllocationBlockIndex,
    second: AuthTreeDataBlocksUpdateStatesAllocationBlockIndex,
    at_once: AuthTreeDataBlocksUpdateStatesAllocationBlockIndex,
    auth_tree_data_block_allocation_blocks_log2: nat,
)
    requires
        second.wf(auth_tree_data_block_allocation_blocks_log2),
        at_once.wf(auth_tree_data_block_allocation_blocks_log2),
        first.position(auth_tree_data_block_allocation_blocks_log2) == i.position(
            auth_tree_data_block_allocation_blocks_log2,
        ) + d0,
        second.position(auth_tree_data_block_allocation_blocks_log2) == first.position(
            auth_tree_data_block_allocation_blocks_log2,
        ) + d1,
        at_once.position(auth_tree_data_block_allocation_blocks_log2) == i.position(
            auth_tree_data_block_allocation_blocks_log2,
        ) + d0 + d1,
    ensures
        second == at_once,
{
    lemma_position_injective(second, at_once, auth_tree_data_block_allocation_blocks_log2);
}

/// Converting a range of Authentication Tree Data Block level entries to the
/// Allocation Block level and back has no effect.
pub proof fn law_range_conversion_roundtrip(range: AuthTreeDataBlocksUpdateStatesIndexRange)
    ensures
        AuthTreeDataBlocksUpdateStatesIndexRange::covering(
            vstd::std_specs::convert::FromSpec::from_spec(range),
        ) == (range.begin.index as int, range.end.index as int),
{
}

} // verus!
