//! Collection of a transaction's update tracking states.
use crate::align;
use crate::block_state::AllocationBlockUpdateState;
use crate::layout::PhysicalAllocBlockIndex;
use crate::states_index::{
    AuthTreeDataBlocksUpdateStatesAllocationBlockIndex, AuthTreeDataBlocksUpdateStatesAllocationBlocksIndexRange,
    AuthTreeDataBlocksUpdateStatesIndex, AuthTreeDataBlocksUpdateStatesIndexRange,
};
use vstd::prelude::*;

verus! {

/// Track a transaction's accumulated data updates to a given Authentication
/// Tree Data Block.
///
/// Note that even though perhaps completely unrelated otherwise, all of an
/// Authentication Tree Data Block's indivdual Allocation Blocks contribute to
/// its authentication digest, hence are managed together.
pub struct AuthTreeDataBlockUpdateState {
    /// Location of the Authentication Tree Data Block associated with and
    /// tracked by this instance.
    pub target_allocation_blocks_begin: PhysicalAllocBlockIndex,
    /// Location of the associated Journal Staging Copy, if any.
    pub journal_staging_copy_allocation_blocks_begin: Option<PhysicalAllocBlockIndex>,
    /// Update states of the Authentication Tree Data Block's individual
    /// Allocation Blocks.
    pub allocation_blocks_states: Vec<AllocationBlockUpdateState>,
    /// The updated authentication digest, if any.
    pub auth_digest: Option<Vec<u8>>,
}

impl AuthTreeDataBlockUpdateState {
    /// Location of the associated Authentication Tree Data Block.
    pub open spec fn target(&self) -> int {
        self.target_allocation_blocks_begin.index as int
    }

    /// The target location is aligned, its end addressable, and there is an
    /// entry for each of the Authentication Tree Data Block's Allocation
    /// Blocks.
    pub open spec fn wf(&self, auth_tree_data_block_allocation_blocks_log2: nat) -> bool {
        &&& align::aligned(self.target(), auth_tree_data_block_allocation_blocks_log2)
        &&& self.target() + align::block_size(auth_tree_data_block_allocation_blocks_log2) <= u64::MAX
        &&& self.allocation_blocks_states@.len() == align::block_size(auth_tree_data_block_allocation_blocks_log2)
    }

    /// The Journal Staging Copy's offset in its containing block matches that
    /// of the target, and that block's end is addressable.
    pub open spec fn journal_wf(&self, journal_block_allocation_blocks_log2: nat) -> bool {
        self.journal_staging_copy_allocation_blocks_begin matches Some(j) ==> {
            let j_block = align::align_down(j.index as int, journal_block_allocation_blocks_log2);
            &&& j.index - j_block == self.target() - align::align_down(
                self.target(),
                journal_block_allocation_blocks_log2,
            )
            &&& j_block + align::block_size(journal_block_allocation_blocks_log2) <= u64::MAX
        }
    }

    /// Two entries for a common target block have their Journal Staging Copies
    /// in a common block as well, or neither has any.
    pub open spec fn journal_agrees(&self, other: &Self, journal_block_allocation_blocks_log2: nat) -> bool {
        align::same_block(self.target(), other.target(), journal_block_allocation_blocks_log2) ==> match (
            self.journal_staging_copy_allocation_blocks_begin,
            other.journal_staging_copy_allocation_blocks_begin,
        ) {
            (Some(j), Some(k)) => align::same_block(
                j.index as int,
                k.index as int,
                journal_block_allocation_blocks_log2,
            ),
            (None, None) => true,
            _ => false,
        }
    }

    /// Location of the Authentication Tree Data Block associated with and
    /// tracked by this instance.
    pub fn get_target_allocation_blocks_begin(&self) -> (r: PhysicalAllocBlockIndex)
        ensures
            r == self.target_allocation_blocks_begin,
    {
        self.target_allocation_blocks_begin
    }

    /// Obtain the location of the associated Journal Staging Copy, if any.
    ///
    /// In general, data updates are not written directly to their target
    /// location, but to a "Journal Staging Copy" first (and only applied to
    /// the final destination once all of the Journal is in place). This
    /// returns the location of the Journal Staging Area, if any has been
    /// allocated for the given Authentication Tree Data Block already.
    ///
    /// In some special cases it is possible that data writes are made directly
    /// to their target locations "in-place" without going through a journal
    /// staging copy first. In this case the location returned matches that of
    /// the target.
    ///
    /// If the IO Block size happens to be larger than that of an Authentication
    /// Tree Data Block, then all of the IO Block needs to get copied to a
    /// Journal Staging Area, even if some of the Authentication Tree Data
    /// Blocks contained therein are unmodified. The individual Authentication
    /// Tree Data Blocks' offsets in that staging copy IO Block match their
    /// position within the destination IO Block each in this case.
    pub fn get_journal_staging_copy_allocation_blocks_begin(&self) -> (r: Option<PhysicalAllocBlockIndex>)
        ensures
            r == self.journal_staging_copy_allocation_blocks_begin,
    {
        self.journal_staging_copy_allocation_blocks_begin
    }

    /// Get the Authentication Tree Data Block's updated authentication digest,
    /// if any.
    pub fn get_auth_digest(&self) -> (r: Option<&[u8]>)
        ensures
            match self.auth_digest {
                Some(digest) => r matches Some(d) && d@ == digest@,
                None => r is None,
            },
    {
        match &self.auth_digest {
            Some(digest) => Some(digest.as_slice()),
            None => None,
        }
    }

    /// Steal the Authentication Tree Data Block's updated authentication
    /// digest, if any.
    pub fn steal_auth_digest(&mut self) -> (r: Option<Vec<u8>>)
        ensures
            r == old(self).auth_digest,
            *final(self) == (AuthTreeDataBlockUpdateState { auth_digest: None, ..*old(self) }),
    {
        self.auth_digest.take()
    }

    /// Set the Authentication Tree Data Block's updated authentication digest.
    pub fn set_auth_digest(&mut self, auth_digest: Vec<u8>)
        ensures
            *final(self) == (AuthTreeDataBlockUpdateState { auth_digest: Some(auth_digest), ..*old(self) }),
    {
        self.auth_digest = Some(auth_digest);
    }

    /// Whether any of the Allocation Blocks at or past the given offset has
    /// its data modified.
    pub open spec fn modified_from(&self, begin: int) -> bool {
        exists|k: int|
            begin <= k < self.allocation_blocks_states@.len() && (#[trigger] self.allocation_blocks_states@[k]).modified()
    }

    /// Determine whether any of the Allocation Blocks at or past the given
    /// offset has its data modified.
    pub(crate) fn has_modified_data_from(&self, begin: usize) -> (r: bool)
        ensures
            r == self.modified_from(begin as int),
    {
        let mut i: usize = begin;
        while i < self.allocation_blocks_states.len()
            invariant
                begin <= i,
                forall|k: int|
                    begin <= k < i && k < self.allocation_blocks_states@.len()
                        ==> !(#[trigger] self.allocation_blocks_states@[k]).modified(),
            decreases self.allocation_blocks_states@.len() - i,
        {
            if self.allocation_blocks_states[i].has_modified_data() {
                assert(self.allocation_blocks_states@[i as int].modified());
                return true;
            }
            i = i + 1;
        }
        false
    }
}

/// The entries are ordered by target location and assigned Journal Staging
/// Copies in a mutually consistent manner.
pub open spec fn states_wf(
    s: Seq<AuthTreeDataBlockUpdateState>,
    auth_tree_data_block_allocation_blocks_log2: nat,
    journal_block_allocation_blocks_log2: nat,
) -> bool {
    &&& sorted(s, auth_tree_data_block_allocation_blocks_log2)
    &&& journals_wf(s, journal_block_allocation_blocks_log2)
}

/// The entries are well-formed and ordered by target location.
pub open spec fn sorted(
    s: Seq<AuthTreeDataBlockUpdateState>,
    auth_tree_data_block_allocation_blocks_log2: nat,
) -> bool {
    &&& forall|i: int| 0 <= i < s.len() ==> (#[trigger] s[i]).wf(auth_tree_data_block_allocation_blocks_log2)
    &&& forall|i: int, j: int| 0 <= i < j < s.len() ==> (#[trigger] s[i]).target() < (#[trigger] s[j]).target()
}

/// The entries are assigned Journal Staging Copies in a mutually consistent
/// manner.
pub open spec fn journals_wf(
    s: Seq<AuthTreeDataBlockUpdateState>,
    journal_block_allocation_blocks_log2: nat,
) -> bool {
    &&& forall|i: int| 0 <= i < s.len() ==> (#[trigger] s[i]).journal_wf(journal_block_allocation_blocks_log2)
    &&& forall|i: int, j: int|
        #![trigger s[i], s[j]]
        0 <= i < s.len() && 0 <= j < s.len() ==> s[i].journal_agrees(&s[j], journal_block_allocation_blocks_log2)
}

/// Entries before position `i` are for target locations before `target`, all
/// others are not.
pub open spec fn insertion_point(s: Seq<AuthTreeDataBlockUpdateState>, target: int, i: int) -> bool {
    &&& 0 <= i <= s.len()
    &&& forall|k: int| 0 <= k < i ==> (#[trigger] s[k]).target() < target
    &&& forall|k: int| i <= k < s.len() ==> (#[trigger] s[k]).target() >= target
}

/// The entries in the index range from `begin` to `end` are for successive
/// target locations.
pub open spec fn contiguous(
    s: Seq<AuthTreeDataBlockUpdateState>,
    auth_tree_data_block_allocation_blocks_log2: nat,
    begin: int,
    end: int,
) -> bool {
    forall|i: int|
        begin <= i < end ==> (#[trigger] s[i]).target() == s[begin].target() + (i - begin) * align::block_size(
            auth_tree_data_block_allocation_blocks_log2,
        )
}

/// The entries in the index range from `begin` to `end` are for successive
/// target locations, with both ends aligned to a specified block size.
pub open spec fn contiguous_aligned(
    s: Seq<AuthTreeDataBlockUpdateState>,
    auth_tree_data_block_allocation_blocks_log2: nat,
    begin: int,
    end: int,
    alignment_log2: nat,
) -> bool {
    begin < end ==> {
        &&& contiguous(s, auth_tree_data_block_allocation_blocks_log2, begin, end)
        &&& align::aligned(s[begin].target(), alignment_log2)
        &&& align::aligned(
            s[end - 1].target() + align::block_size(auth_tree_data_block_allocation_blocks_log2),
            alignment_log2,
        )
    }
}

/// Entry `i` and the one before are not separated by a full block of a
/// specified size.
pub open spec fn adjoins_predecessor(s: Seq<AuthTreeDataBlockUpdateState>, i: int, log2: nat) -> bool {
    align::align_down(s[i].target(), log2) <= align::align_down(s[i - 1].target(), log2) + align::block_size(log2)
}

/// Distance between the target locations of any two entries.
pub proof fn lemma_sorted_distance(s: Seq<AuthTreeDataBlockUpdateState>, log2: nat, i: int, j: int)
    requires
        sorted(s, log2),
        0 <= i <= j < s.len(),
    ensures
        s[j].target() - s[i].target() >= (j - i) * align::block_size(log2),
        align::aligned(s[j].target() - s[i].target(), log2),
        align::blocks(s[j].target() - s[i].target(), log2) >= j - i,
    decreases j - i,
{
    let b = align::block_size(log2);
    assert(s[i].wf(log2) && s[j].wf(log2));
    align::lemma_aligned_sum(s[j].target(), s[i].target(), log2);
    if i == j {
        align::lemma_aligned_unit(log2);
        assert((j - i) * b == 0) by (nonlinear_arith)
            requires
                i == j,
        ;
    } else {
        lemma_sorted_distance(s, log2, i, j - 1);
        assert(s[j - 1].wf(log2));
        assert(s[j - 1].target() < s[j].target());
        align::lemma_aligned_gap(s[j - 1].target(), s[j].target(), log2);
        assert((j - i) * b == (j - 1 - i) * b + b) by (nonlinear_arith);
        align::lemma_multiple_is_aligned(j - i, log2);
        align::lemma_blocks_mono((j - i) * b, s[j].target() - s[i].target(), log2);
    }
}

/// A range of entries spanning no more target locations than there are entries
/// in it is contiguous.
pub proof fn lemma_tight_is_contiguous(s: Seq<AuthTreeDataBlockUpdateState>, log2: nat, begin: int, end: int)
    requires
        sorted(s, log2),
        0 <= begin < end <= s.len(),
        s[end - 1].target() - s[begin].target() <= (end - 1 - begin) * align::block_size(log2),
    ensures
        contiguous(s, log2, begin, end),
{
    let b = align::block_size(log2);
    assert forall|i: int| begin <= i < end implies (#[trigger] s[i]).target() == s[begin].target() + (i - begin)
        * b by {
        lemma_sorted_distance(s, log2, begin, i);
        lemma_sorted_distance(s, log2, i, end - 1);
        assert((end - 1 - begin) * b == (end - 1 - i) * b + (i - begin) * b) by (nonlinear_arith);
    }
}

/// A single entry is contiguous.
pub proof fn lemma_contiguous_single(s: Seq<AuthTreeDataBlockUpdateState>, log2: nat, begin: int, end: int)
    requires
        end <= begin + 1,
    ensures
        contiguous(s, log2, begin, end),
{
    let b = align::block_size(log2);
    assert(0 * b == 0) by (nonlinear_arith);
}

/// Track all of a transaction's accumulated data updates at Authentication
/// Tree Data Block granularity.
///
/// The collection is sparse, in general only
/// - Authentication Tree Data Blocks with modifications in them and
/// - possibly unmodified Authentication Tree Data Blocks part of a larger
///   modified IO Block or Chip IO Block
/// have associated entries.
///
/// For each Allocation Block level entry, the current state as already written
/// or to be written to storage is tracked. In addition to that, there's an
/// update staging layer. Its main purpose is to enable the accumulation of
/// multiple independent updates to a containing Authentication Tree Data Block's
/// individual Allocation Blocks. Furthermore, staged updates may get reset,
/// which provides a mechanism to revert them for graceful error handling.
pub struct AuthTreeDataBlocksUpdateStates {
    /// State of data updates at Authentication Tree Data Block granularity,
    /// ordered by the associated Authentication Tree Data Blocks' location on
    /// storage.
    pub states: Vec<AuthTreeDataBlockUpdateState>,
    /// Base-2 logarithm of the IO Block size in units of Allocation Blocks.
    pub io_block_allocation_blocks_log2: u8,
    /// Base-2 logarithm of the Authentication Tree Data Block size in units of
    /// Allocation Blocks.
    pub auth_tree_data_block_allocation_blocks_log2: u8,
    /// Base-2 logarithm of the Allocation Block size in units of 128 Bytes.
    pub allocation_block_size_128b_log2: u8,
}

impl AuthTreeDataBlocksUpdateStates {
    /// Base-2 logarithm of the Authentication Tree Data Block size.
    pub open spec fn auth_log2(&self) -> nat {
        self.auth_tree_data_block_allocation_blocks_log2 as nat
    }

    /// Base-2 logarithm of the IO Block size.
    pub open spec fn io_log2(&self) -> nat {
        self.io_block_allocation_blocks_log2 as nat
    }

    /// Base-2 logarithm of the unit of Journal Staging Copy allocation, the
    /// larger of an Authentication Tree Data Block and an IO Block.
    pub open spec fn journal_log2(&self) -> nat {
        align::coarser(self.io_log2(), self.auth_log2())
    }

    /// Number of Allocation Blocks in an Authentication Tree Data Block.
    pub open spec fn block_len(&self) -> int {
        align::block_size(self.auth_log2())
    }

    /// The dimensions are within supported bounds.
    pub open spec fn layout_wf(&self) -> bool {
        &&& self.auth_log2() < usize::BITS
        &&& self.io_log2() < 64
        &&& self.allocation_block_size_128b_log2 + 7 < usize::BITS
    }

    /// The dimensions are within supported bounds and the entries well-formed.
    pub open spec fn wf(&self) -> bool {
        &&& self.layout_wf()
        &&& states_wf(self.states@, self.auth_log2(), self.journal_log2())
    }

    /// Both instances have the same dimensions.
    pub open spec fn same_layout(&self, other: &Self) -> bool {
        &&& self.io_block_allocation_blocks_log2 == other.io_block_allocation_blocks_log2
        &&& self.auth_tree_data_block_allocation_blocks_log2 == other.auth_tree_data_block_allocation_blocks_log2
        &&& self.allocation_block_size_128b_log2 == other.allocation_block_size_128b_log2
    }

    /// An index range at Authentication Tree Data Block level is valid.
    pub open spec fn valid_range(&self, range: &AuthTreeDataBlocksUpdateStatesIndexRange) -> bool {
        range.begin.index <= range.end.index <= self.states.len()
    }

    /// An index range at Allocation Block level is valid.
    pub open spec fn valid_blocks_range(
        &self,
        range: &AuthTreeDataBlocksUpdateStatesAllocationBlocksIndexRange,
    ) -> bool {
        &&& range.wf(self.auth_log2())
        &&& range.end.block() < self.states.len() || range.end.block() == self.states.len() && range.end.offset() == 0
    }

    /// An index at Allocation Block level refers to an entry.
    pub open spec fn valid_block_index(
        &self,
        index: &AuthTreeDataBlocksUpdateStatesAllocationBlockIndex,
    ) -> bool {
        index.block() < self.states.len() && index.wf(self.auth_log2())
    }

    /// Create a new, empty [`AuthTreeDataBlocksUpdateStates`] instance.
    pub fn new(
        io_block_allocation_blocks_log2: u8,
        auth_tree_data_block_allocation_blocks_log2: u8,
        allocation_block_size_128b_log2: u8,
    ) -> (r: Self)
        ensures
            r.states@.len() == 0,
            r.io_block_allocation_blocks_log2 == io_block_allocation_blocks_log2,
            r.auth_tree_data_block_allocation_blocks_log2 == auth_tree_data_block_allocation_blocks_log2,
            r.allocation_block_size_128b_log2 == allocation_block_size_128b_log2,
            r.layout_wf() ==> r.wf(),
    {
        AuthTreeDataBlocksUpdateStates {
            states: Vec::new(),
            io_block_allocation_blocks_log2,
            auth_tree_data_block_allocation_blocks_log2,
            allocation_block_size_128b_log2,
        }
    }

    /// Number of [`AuthTreeDataBlockUpdateState`] entries.
    pub fn len(&self) -> (r: usize)
        ensures
            r == self.states@.len(),
    {
        self.states.len()
    }

    /// Remove all entries.
    pub fn clear(&mut self)
        ensures
            final(self).states@.len() == 0,
            final(self).same_layout(old(self)),
            old(self).layout_wf() ==> final(self).wf(),
    {
        self.states = Vec::new();
    }

    /// Lookup an Authentication Tree Data Block level entry index by location
    /// on storage.
    ///
    /// Returns the index wrapped in a result, in an [`Ok`] if a match was
    /// found, in an [`Err`] otherwise. In the latter error case, the index
    /// returned may serve as an insertion hint to
    /// [`insert_missing_in_range`](Self::insert_missing_in_range).
    ///
    /// # Arguments:
    ///
    /// * `target_auth_tree_data_block_allocation_blocks_begin` - storage
    ///   location to lookup an entry for. Must be aligned to a multiple of the
    ///   Authentication Tree Data Block size.
    pub fn lookup_auth_tree_data_block_update_state_index(
        &self,
        target_auth_tree_data_block_allocation_blocks_begin: PhysicalAllocBlockIndex,
    ) -> (r: Result<AuthTreeDataBlocksUpdateStatesIndex, AuthTreeDataBlocksUpdateStatesIndex>)
        requires
            sorted(self.states@, self.auth_log2()),
            align::aligned(target_auth_tree_data_block_allocation_blocks_begin.index as int, self.auth_log2()),
        ensures
            match r {
                Ok(i) => {
                    &&& insertion_point(
                        self.states@,
                        target_auth_tree_data_block_allocation_blocks_begin.index as int,
                        i.index as int,
                    )
                    &&& i.index < self.states@.len()
                    &&& self.states@[i.index as int].target()
                        == target_auth_tree_data_block_allocation_blocks_begin.index
                },
                Err(i) => {
                    &&& insertion_point(
                        self.states@,
                        target_auth_tree_data_block_allocation_blocks_begin.index as int,
                        i.index as int,
                    )
                    &&& i.index < self.states@.len() ==> self.states@[i.index as int].target()
                        != target_auth_tree_data_block_allocation_blocks_begin.index
                },
            },
    {
        let target: u64 = target_auth_tree_data_block_allocation_blocks_begin.index;
        let mut lo: usize = 0;
        let mut hi: usize = self.states.len();
        while lo < hi
            invariant
                sorted(self.states@, self.auth_log2()),
                lo <= hi <= self.states@.len(),
                forall|k: int| 0 <= k < lo ==> (#[trigger] self.states@[k]).target() < target,
                forall|k: int| hi <= k < self.states@.len() ==> (#[trigger] self.states@[k]).target() > target,
                target == target_auth_tree_data_block_allocation_blocks_begin.index,
            decreases hi - lo,
        {
            let mid: usize = lo + (hi - lo) / 2;
            let cur: u64 = self.states[mid].target_allocation_blocks_begin.index;
            if cur == target {
                return Ok(AuthTreeDataBlocksUpdateStatesIndex { index: mid });
            } else if cur < target {
                lo = mid + 1;
            } else {
                hi = mid;
            }
        }
        Err(AuthTreeDataBlocksUpdateStatesIndex { index: lo })
    }

    /// Test whether the storage locations associated with a given index range
    /// form a contiguous region.
    pub fn is_contiguous_region(&self, states_index_range: &AuthTreeDataBlocksUpdateStatesIndexRange) -> (r: bool)
        requires
            self.wf(),
            self.valid_range(states_index_range),
        ensures
            r == contiguous(
                self.states@,
                self.auth_log2(),
                states_index_range.begin.index as int,
                states_index_range.end.index as int,
            ),
    {
        if states_index_range.is_empty() {
            return true;
        }
        let ghost l = self.auth_log2();
        let ghost b = states_index_range.begin.index as int;
        let ghost e = states_index_range.end.index as int;
        proof {
            lemma_sorted_distance(self.states@, l, b, e - 1);
        }
        let distance: u64 = self.states[states_index_range.end.index - 1].target_allocation_blocks_begin.index
            - self.states[states_index_range.begin.index].target_allocation_blocks_begin.index;
        let spanned: u64 = align::blocks_u64(distance, self.auth_tree_data_block_allocation_blocks_log2 as u32);
        let r: bool = (states_index_range.len() - 1) as u64 == spanned;
        proof {
            align::lemma_aligned_is_multiple(distance as int, l);
            if r {
                lemma_tight_is_contiguous(self.states@, l, b, e);
            } else if contiguous(self.states@, l, b, e) {
                assert(self.states@[e - 1].target() == self.states@[b].target() + (e - 1 - b) * align::block_size(l));
                align::lemma_multiple_is_aligned(e - 1 - b, l);
            }
        }
        r
    }
}

} // verus!
