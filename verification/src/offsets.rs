//! Correction offsets to apply to index ranges upon update tracking state
//! insertions.
use crate::align;
use crate::alloc_bitmap::{AllocBitmap, SparseAllocBitmap};
use crate::fill;
use crate::fs::NvFsError;
use crate::insert;
use crate::layout::PhysicalAllocBlockIndex;
use crate::states;
use crate::states::AuthTreeDataBlocksUpdateStates;
use crate::states_index::AuthTreeDataBlocksUpdateStatesIndexRange;
use vstd::prelude::*;

verus! {

/// Offsets to apply to an index range to account for insertion of additional
/// entries from filling alignment gaps.
///
/// Without further action, states insertions invalidate any pre-existing index
/// ranges, the offsets provide a means to account for such insertions and keep
/// index ranges alive across such insertion operations.
///
/// The offsets instance is always specific to a single specific index range
/// only, but may be transformed to others.
#[derive(Clone, Copy, Debug, PartialEq, Eq, Structural)]
pub struct AuthTreeDataBlocksUpdateStatesFillAlignmentGapsRangeOffsets {
    /// Number of entries that had been inserted before the associated index
    /// range.
    pub inserted_states_before_range_count: usize,
    /// Number of entries that had been inserted in the interior of the
    /// associated index range.
    pub inserted_states_within_range_count: usize,
    /// Number of entries that had been inserted after the associated index
    /// range. Needed for transforming the offsets from one range to another.
    pub inserted_states_after_range_count: usize,
    /// Maximum alignment fillup ever applied to the associated index range in
    /// the course of some operation. Needed for transforming the offsets from
    /// one range to another.
    pub max_target_allocations_blocks_alignment_log2: u32,
}

impl AuthTreeDataBlocksUpdateStatesFillAlignmentGapsRangeOffsets {
    /// Total number of inserted entries.
    pub open spec fn total(&self) -> int {
        self.inserted_states_before_range_count + self.inserted_states_within_range_count
            + self.inserted_states_after_range_count
    }

    /// The offsets describe how the entries at both ends of a non-empty index
    /// range have been moved.
    pub open spec fn applies_to(
        &self,
        old_states: &AuthTreeDataBlocksUpdateStates,
        new_states: &AuthTreeDataBlocksUpdateStates,
        range: AuthTreeDataBlocksUpdateStatesIndexRange,
    ) -> bool {
        let before = self.inserted_states_before_range_count as int;
        let within = self.inserted_states_within_range_count as int;
        let s = old_states.states@;
        let f = new_states.states@;
        &&& s.len() + self.total() == f.len()
        &&& f[range.begin.index + before] == s[range.begin.index as int]
        &&& f[range.end.index - 1 + before + within] == s[range.end.index - 1]
    }

    /// Get the total number of inserted entries.
    pub fn total_inserted_states_count(&self) -> (r: usize)
        requires
            self.total() <= usize::MAX,
        ensures
            r == self.total(),
    {
        self.inserted_states_before_range_count + self.inserted_states_within_range_count
            + self.inserted_states_after_range_count
    }

    /// Merge two instances by accumulation.
    pub fn accumulate(&self, other: &Self) -> (r: Self)
        requires
            self.inserted_states_before_range_count + other.inserted_states_before_range_count <= usize::MAX,
            self.inserted_states_within_range_count + other.inserted_states_within_range_count <= usize::MAX,
            self.inserted_states_after_range_count + other.inserted_states_after_range_count <= usize::MAX,
        ensures
            r.inserted_states_before_range_count == self.inserted_states_before_range_count
                + other.inserted_states_before_range_count,
            r.inserted_states_within_range_count == self.inserted_states_within_range_count
                + other.inserted_states_within_range_count,
            r.inserted_states_after_range_count == self.inserted_states_after_range_count
                + other.inserted_states_after_range_count,
            r.max_target_allocations_blocks_alignment_log2 == if self.max_target_allocations_blocks_alignment_log2
                >= other.max_target_allocations_blocks_alignment_log2 {
                self.max_target_allocations_blocks_alignment_log2
            } else {
                other.max_target_allocations_blocks_alignment_log2
            },
    {
        AuthTreeDataBlocksUpdateStatesFillAlignmentGapsRangeOffsets {
            inserted_states_before_range_count: self.inserted_states_before_range_count
                + other.inserted_states_before_range_count,
            inserted_states_within_range_count: self.inserted_states_within_range_count
                + other.inserted_states_within_range_count,
            inserted_states_after_range_count: self.inserted_states_after_range_count
                + other.inserted_states_after_range_count,
            max_target_allocations_blocks_alignment_log2: if self.max_target_allocations_blocks_alignment_log2
                >= other.max_target_allocations_blocks_alignment_log2 {
                self.max_target_allocations_blocks_alignment_log2
            } else {
                other.max_target_allocations_blocks_alignment_log2
            },
        }
    }
}

/// Number of entries missing between two existing ones.
pub open spec fn missing_between(states: &AuthTreeDataBlocksUpdateStates, i: int, j: int) -> int {
    align::blocks(states.states@[j].target() - states.states@[i].target(), states.auth_log2()) - (j - i)
}

/// `a` less `b`, but not below zero.
pub open spec fn monus(a: int, b: int) -> int {
    if a >= b {
        a - b
    } else {
        0
    }
}

/// Number of entries missing between two existing ones.
fn count_missing_between(states: &AuthTreeDataBlocksUpdateStates, i: usize, j: usize) -> (r: u64)
    requires
        states.wf(),
        i <= j < states.states.len(),
    ensures
        r == missing_between(states, i as int, j as int),
{
    proof {
        states::lemma_sorted_distance(states.states@, states.auth_log2(), i as int, j as int);
    }
    let distance: u64 = states.states[j].target_allocation_blocks_begin.index
        - states.states[i].target_allocation_blocks_begin.index;
    align::blocks_u64(distance, states.auth_tree_data_block_allocation_blocks_log2 as u32) - (j - i) as u64
}

/// `a` less `b`, but not below zero.
fn saturating_difference(a: usize, b: u64) -> (r: usize)
    ensures
        r == monus(a as int, b as int),
{
    if a as u64 >= b {
        (a as u64 - b) as usize
    } else {
        0
    }
}

/// Transform states insertion offsets specific to one index range to another
/// located after it.
#[derive(Clone, Copy, Debug, PartialEq, Eq, Structural)]
pub struct AuthTreeDataBlocksUpdateStatesFillAlignmentGapsRangeOffsetsTransformToAfter {
    /// Location of the end of the range to transform from.
    pub from_range_target_allocation_blocks_end: u64,
    /// Location of the beginning of the range to transform to.
    pub to_range_target_allocation_blocks_begin: u64,
    /// Number of entries missing in between the two.
    pub from_range_end_to_to_range_begin_missing_states_count: u64,
    /// Location of the end of the range to transform to.
    pub to_range_target_allocation_blocks_end: u64,
    /// Number of entries missing in between the two ranges' ends.
    pub from_range_end_to_to_range_end_missing_states_count: u64,
}

impl AuthTreeDataBlocksUpdateStatesFillAlignmentGapsRangeOffsetsTransformToAfter {
    /// The transform has been set up for a given pair of ranges.
    pub open spec fn set_up_for(
        &self,
        from: AuthTreeDataBlocksUpdateStatesIndexRange,
        to: AuthTreeDataBlocksUpdateStatesIndexRange,
        states: &AuthTreeDataBlocksUpdateStates,
    ) -> bool {
        let s = states.states@;
        let (fe, tb, te) = (from.end.index as int, to.begin.index as int, to.end.index as int);
        let size = states.block_len();
        &&& self.from_range_target_allocation_blocks_end == s[fe - 1].target() + size
        &&& self.to_range_target_allocation_blocks_end == s[te - 1].target() + size
        &&& self.from_range_end_to_to_range_end_missing_states_count == missing_between(states, fe - 1, te - 1)
        &&& if tb < te {
            &&& self.to_range_target_allocation_blocks_begin == s[tb].target()
            &&& self.from_range_end_to_to_range_begin_missing_states_count == missing_between(states, fe - 1, tb)
        } else {
            &&& self.to_range_target_allocation_blocks_begin == self.to_range_target_allocation_blocks_end
            &&& self.from_range_end_to_to_range_begin_missing_states_count
                == self.from_range_end_to_to_range_end_missing_states_count
        }
    }

    /// Setup an index range offsets transform instance.
    ///
    /// Must get invoked before the actual states insertion operation with the
    /// original index ranges.
    ///
    /// # Arguments:
    ///
    /// * `from_states_index_range` - The index range associated with the
    ///   offsets to get later transformed to apply to `to_states_index_range`.
    ///   Must not be empty, as an empty range has no well-defined position
    ///   which could serve as an anchor point.
    /// * `to_states_index_range` - The index range to later obtain insertion
    ///   offsets for. If empty, then what is significant is what is located
    ///   before its end.
    /// * `states` - The instance both `from_states_index_range` and
    ///   `to_states_index_range` refer into.
    pub fn new(
        from_states_index_range: &AuthTreeDataBlocksUpdateStatesIndexRange,
        to_states_index_range: &AuthTreeDataBlocksUpdateStatesIndexRange,
        states: &AuthTreeDataBlocksUpdateStates,
    ) -> (r: Self)
        requires
            states.wf(),
            from_states_index_range.begin.index < from_states_index_range.end.index,
            from_states_index_range.end.index <= to_states_index_range.begin.index,
            states.valid_range(to_states_index_range),
        ensures
            r.set_up_for(*from_states_index_range, *to_states_index_range, states),
    {
        let ghost l = states.auth_log2();
        let from_last: usize = from_states_index_range.end.index - 1;
        let to_last: usize = to_states_index_range.end.index - 1;
        let block_len: u64 = align::block_size_u64(states.auth_tree_data_block_allocation_blocks_log2 as u32);
        proof {
            assert(states.states@[from_last as int].wf(l) && states.states@[to_last as int].wf(l));
        }
        let from_end: u64 = states.states[from_last].target_allocation_blocks_begin.index + block_len;
        // If the range to transform to is empty, this is not really the last one, but
        // the last one before the range. Oherwise it is the last one in range.
        let to_end: u64 = states.states[to_last].target_allocation_blocks_begin.index + block_len;
        let missing_to_end: u64 = count_missing_between(states, from_last, to_last);
        let (to_begin, missing_to_begin): (u64, u64) = if to_states_index_range.is_empty() {
            (to_end, missing_to_end)
        } else {
            (
                states.states[to_states_index_range.begin.index].target_allocation_blocks_begin.index,
                count_missing_between(states, from_last, to_states_index_range.begin.index),
            )
        };
        AuthTreeDataBlocksUpdateStatesFillAlignmentGapsRangeOffsetsTransformToAfter {
            from_range_target_allocation_blocks_end: from_end,
            to_range_target_allocation_blocks_begin: to_begin,
            from_range_end_to_to_range_begin_missing_states_count: missing_to_begin,
            to_range_target_allocation_blocks_end: to_end,
            from_range_end_to_to_range_end_missing_states_count: missing_to_end,
        }
    }

    /// Result of transforming offsets.
    pub open spec fn transformed(
        &self,
        from_range_offsets: AuthTreeDataBlocksUpdateStatesFillAlignmentGapsRangeOffsets,
        r: AuthTreeDataBlocksUpdateStatesFillAlignmentGapsRangeOffsets,
    ) -> bool {
        let a = from_range_offsets.max_target_allocations_blocks_alignment_log2 as nat;
        let after = if align::same_block(
            self.from_range_target_allocation_blocks_end as int,
            self.to_range_target_allocation_blocks_end as int,
            a,
        ) {
            monus(
                from_range_offsets.inserted_states_after_range_count as int,
                self.from_range_end_to_to_range_end_missing_states_count as int,
            )
        } else {
            0
        };
        let within = if align::same_block(
            self.from_range_target_allocation_blocks_end as int,
            self.to_range_target_allocation_blocks_begin as int,
            a,
        ) {
            monus(
                from_range_offsets.inserted_states_after_range_count - after,
                self.from_range_end_to_to_range_begin_missing_states_count as int,
            )
        } else {
            0
        };
        &&& r.inserted_states_after_range_count == after
        &&& r.inserted_states_within_range_count == within
        &&& r.inserted_states_before_range_count == from_range_offsets.total() - after - within
        &&& r.max_target_allocations_blocks_alignment_log2
            == from_range_offsets.max_target_allocations_blocks_alignment_log2
    }

    /// Obtain transformed index range offsets after the states insertion
    /// operation has completed.
    ///
    /// Transform the `from_range_offsets` specific to the initial
    /// `from_states_index_range` passed to [`new()`](Self::new) to be
    /// applicable to the `to_states_index_range`, also as passed to
    /// [`new()`](Self::new).
    ///
    /// # Arguments:
    ///
    /// * `from_range_offsets` - The offsets specific to the
    ///   `from_states_index_range` initially passed to [`new()`](Self::new), as
    ///   returned back from the states insertion primitive.
    pub fn apply(
        &self,
        from_range_offsets: &AuthTreeDataBlocksUpdateStatesFillAlignmentGapsRangeOffsets,
    ) -> (r: AuthTreeDataBlocksUpdateStatesFillAlignmentGapsRangeOffsets)
        requires
            from_range_offsets.total() <= usize::MAX,
            from_range_offsets.max_target_allocations_blocks_alignment_log2 < 64,
        ensures
            self.transformed(*from_range_offsets, r),
    {
        let alignment_log2: u32 = from_range_offsets.max_target_allocations_blocks_alignment_log2;
        // If the end of the range to be transformed from and the one of the range to be
        // transformed to are not separated by an alignment block, then states
        // filled after the former might extend to after the latter.
        let after: usize = if align::same_block_u64(
            self.from_range_target_allocation_blocks_end,
            self.to_range_target_allocation_blocks_end,
            alignment_log2,
        ) {
            // States get populated from left to right, so this is correct even if an error
            // occured midways.
            saturating_difference(
                from_range_offsets.inserted_states_after_range_count,
                self.from_range_end_to_to_range_end_missing_states_count,
            )
        } else {
            0
        };
        let remaining_after_from_range: usize = from_range_offsets.inserted_states_after_range_count - after;
        // If the end of the range to be transformed from and the beginning of the range
        // to be transformed to are not separated by an alignment block, then
        // states filled after the former might extend to after the latter.
        let within: usize = if align::same_block_u64(
            self.from_range_target_allocation_blocks_end,
            self.to_range_target_allocation_blocks_begin,
            alignment_log2,
        ) {
            saturating_difference(
                remaining_after_from_range,
                self.from_range_end_to_to_range_begin_missing_states_count,
            )
        } else {
            0
        };
        // The remainder got all inserted before the range to transform to.
        let before: usize = from_range_offsets.total_inserted_states_count() - after - within;
        AuthTreeDataBlocksUpdateStatesFillAlignmentGapsRangeOffsets {
            inserted_states_before_range_count: before,
            inserted_states_within_range_count: within,
            inserted_states_after_range_count: after,
            max_target_allocations_blocks_alignment_log2: alignment_log2,
        }
    }
}

/// Transform states insertion offsets specific to one index range to another
/// containing it.
#[derive(Clone, Copy, Debug, PartialEq, Eq, Structural)]
pub struct AuthTreeDataBlocksUpdateStatesFillAlignmentGapsRangeOffsetsTransformToContaining {
    /// Location of the beginning of the range to transform to.
    pub to_range_target_allocation_blocks_begin: PhysicalAllocBlockIndex,
    /// Location of the beginning of the range to transform from.
    pub from_range_target_allocation_blocks_begin: PhysicalAllocBlockIndex,
    /// Number of entries missing in between the two.
    pub to_range_begin_to_from_range_begin_missing_states_count: u64,
    /// Location of the end of the range to transform from.
    pub from_range_target_allocation_blocks_end: u64,
    /// Location of the end of the range to transform to.
    pub to_range_target_allocation_blocks_end: u64,
    /// Number of entries missing in between the two ranges' ends.
    pub from_range_end_to_to_range_end_missing_states_count: u64,
}

impl AuthTreeDataBlocksUpdateStatesFillAlignmentGapsRangeOffsetsTransformToContaining {
    /// The transform has been set up for a given pair of ranges.
    pub open spec fn set_up_for(
        &self,
        from: AuthTreeDataBlocksUpdateStatesIndexRange,
        to: AuthTreeDataBlocksUpdateStatesIndexRange,
        states: &AuthTreeDataBlocksUpdateStates,
    ) -> bool {
        let s = states.states@;
        let (fb, fe) = (from.begin.index as int, from.end.index as int);
        let (tb, te) = (to.begin.index as int, to.end.index as int);
        let size = states.block_len();
        &&& self.to_range_target_allocation_blocks_begin == s[tb].target_allocation_blocks_begin
        &&& self.from_range_target_allocation_blocks_begin == s[fb].target_allocation_blocks_begin
        &&& self.to_range_begin_to_from_range_begin_missing_states_count == missing_between(states, tb, fb)
        &&& self.from_range_target_allocation_blocks_end == s[fe - 1].target() + size
        &&& self.to_range_target_allocation_blocks_end == s[te - 1].target() + size
        &&& self.from_range_end_to_to_range_end_missing_states_count == missing_between(states, fe - 1, te - 1)
    }

    /// Setup an index range offsets transform instance.
    ///
    /// Must get invoked before the actual states insertion operation with the
    /// original index ranges.
    ///
    /// # Arguments:
    ///
    /// * `from_states_index_range` - The index range associated with the
    ///   offsets to get later transformed to apply to `to_states_index_range`.
    ///   Must not be empty.
    /// * `to_states_index_range` - The index range to later obtain insertion
    ///   offsets for.
    /// * `states` - The instance both `from_states_index_range` and
    ///   `to_states_index_range` refer into.
    pub fn new(
        from_states_index_range: &AuthTreeDataBlocksUpdateStatesIndexRange,
        to_states_index_range: &AuthTreeDataBlocksUpdateStatesIndexRange,
        states: &AuthTreeDataBlocksUpdateStates,
    ) -> (r: Self)
        requires
            states.wf(),
            to_states_index_range.begin.index <= from_states_index_range.begin.index
                < from_states_index_range.end.index <= to_states_index_range.end.index,
            states.valid_range(to_states_index_range),
        ensures
            r.set_up_for(*from_states_index_range, *to_states_index_range, states),
    {
        let ghost l = states.auth_log2();
        let from_last: usize = from_states_index_range.end.index - 1;
        let to_last: usize = to_states_index_range.end.index - 1;
        let block_len: u64 = align::block_size_u64(states.auth_tree_data_block_allocation_blocks_log2 as u32);
        proof {
            assert(states.states@[from_last as int].wf(l) && states.states@[to_last as int].wf(l));
        }
        AuthTreeDataBlocksUpdateStatesFillAlignmentGapsRangeOffsetsTransformToContaining {
            to_range_target_allocation_blocks_begin: states.states[to_states_index_range.begin.index].target_allocation_blocks_begin,
            from_range_target_allocation_blocks_begin: states.states[from_states_index_range.begin.index].target_allocation_blocks_begin,
            to_range_begin_to_from_range_begin_missing_states_count: count_missing_between(
                states,
                to_states_index_range.begin.index,
                from_states_index_range.begin.index,
            ),
            from_range_target_allocation_blocks_end: states.states[from_last].target_allocation_blocks_begin.index
                + block_len,
            to_range_target_allocation_blocks_end: states.states[to_last].target_allocation_blocks_begin.index
                + block_len,
            from_range_end_to_to_range_end_missing_states_count: count_missing_between(states, from_last, to_last),
        }
    }

    /// The insertions might have failed somewhere before the beginning of the
    /// range to transform from.
    pub open spec fn maybe_failed_before(
        offsets: AuthTreeDataBlocksUpdateStatesFillAlignmentGapsRangeOffsets,
        alignment_fillup_maybe_failed: Option<&AuthTreeDataBlocksUpdateStates>,
    ) -> bool {
        &&& alignment_fillup_maybe_failed is Some
        &&& offsets.inserted_states_within_range_count == 0
        &&& offsets.inserted_states_after_range_count == 0
    }

    /// Positions of the entries at the beginnings of both ranges.
    pub open spec fn begins_at(&self, states: &AuthTreeDataBlocksUpdateStates, i: int, j: int) -> bool {
        &&& 0 <= i <= j < states.states@.len()
        &&& states.states@[i].target() == self.to_range_target_allocation_blocks_begin.index
        &&& states.states@[j].target() == self.from_range_target_allocation_blocks_begin.index
    }

    /// Number of entries inserted between the beginnings of both ranges, as
    /// found by inspection.
    pub open spec fn found_inserted(&self, states: &AuthTreeDataBlocksUpdateStates, i: int, j: int) -> int {
        self.to_range_begin_to_from_range_begin_missing_states_count - missing_between(states, i, j)
    }

    /// The offsets are consistent with the transform.
    pub open spec fn applicable(
        &self,
        from_range_offsets: AuthTreeDataBlocksUpdateStatesFillAlignmentGapsRangeOffsets,
        alignment_fillup_maybe_failed: Option<&AuthTreeDataBlocksUpdateStates>,
    ) -> bool {
        let before = from_range_offsets.inserted_states_before_range_count as int;
        align::same_block(
            self.to_range_target_allocation_blocks_begin.index as int,
            self.from_range_target_allocation_blocks_begin.index as int,
            from_range_offsets.max_target_allocations_blocks_alignment_log2 as nat,
        ) ==> if Self::maybe_failed_before(from_range_offsets, alignment_fillup_maybe_failed) {
            let states = alignment_fillup_maybe_failed->Some_0;
            &&& states.wf()
            &&& exists|i: int, j: int| #[trigger]
                self.begins_at(states, i, j) && 0 <= self.found_inserted(states, i, j) <= before
        } else {
            before >= self.to_range_begin_to_from_range_begin_missing_states_count
        }
    }

    /// Result of transforming offsets.
    pub open spec fn transformed(
        &self,
        from_range_offsets: AuthTreeDataBlocksUpdateStatesFillAlignmentGapsRangeOffsets,
        alignment_fillup_maybe_failed: Option<&AuthTreeDataBlocksUpdateStates>,
        r: AuthTreeDataBlocksUpdateStatesFillAlignmentGapsRangeOffsets,
    ) -> bool {
        let a = from_range_offsets.max_target_allocations_blocks_alignment_log2 as nat;
        let same_begin = align::same_block(
            self.to_range_target_allocation_blocks_begin.index as int,
            self.from_range_target_allocation_blocks_begin.index as int,
            a,
        );
        let before = from_range_offsets.inserted_states_before_range_count as int;
        let after = if align::same_block(
            self.from_range_target_allocation_blocks_end as int,
            self.to_range_target_allocation_blocks_end as int,
            a,
        ) {
            monus(
                from_range_offsets.inserted_states_after_range_count as int,
                self.from_range_end_to_to_range_end_missing_states_count as int,
            )
        } else {
            0
        };
        &&& !same_begin ==> r.inserted_states_before_range_count == 0
        &&& same_begin && !Self::maybe_failed_before(from_range_offsets, alignment_fillup_maybe_failed)
            ==> r.inserted_states_before_range_count == before
            - self.to_range_begin_to_from_range_begin_missing_states_count
        &&& same_begin && Self::maybe_failed_before(from_range_offsets, alignment_fillup_maybe_failed)
            ==> forall|i: int, j: int| #[trigger]
            self.begins_at(alignment_fillup_maybe_failed->Some_0, i, j) ==> r.inserted_states_before_range_count
                == before - self.found_inserted(alignment_fillup_maybe_failed->Some_0, i, j)
        &&& r.inserted_states_after_range_count == after
        &&& r.inserted_states_within_range_count == from_range_offsets.total() - r.inserted_states_before_range_count
            - after
        &&& r.max_target_allocations_blocks_alignment_log2
            == from_range_offsets.max_target_allocations_blocks_alignment_log2
    }

    /// Obtain transformed index range offsets after the states insertion
    /// operation has completed.
    ///
    /// Transform the `from_range_offsets` specific to the initial
    /// `from_states_index_range` passed to [`new()`](Self::new) to be
    /// applicable to the `to_states_index_range`, also as passed to
    /// [`new()`](Self::new).
    ///
    /// # Arguments:
    ///
    /// * `from_range_offsets` - The offsets specific to the
    ///   `from_states_index_range` initially passed to [`new()`](Self::new), as
    ///   returned back from the states insertion primitive.
    /// * `alignment_fillup_maybe_failed` - To be set if the states insertion
    ///   might have failed halfways, i.e. if the insertion primitive returned an
    ///   error.
    pub fn apply(
        &self,
        from_range_offsets: &AuthTreeDataBlocksUpdateStatesFillAlignmentGapsRangeOffsets,
        alignment_fillup_maybe_failed: Option<&AuthTreeDataBlocksUpdateStates>,
    ) -> (r: AuthTreeDataBlocksUpdateStatesFillAlignmentGapsRangeOffsets)
        requires
            from_range_offsets.total() <= usize::MAX,
            from_range_offsets.max_target_allocations_blocks_alignment_log2 < 64,
            self.applicable(*from_range_offsets, alignment_fillup_maybe_failed),
        ensures
            self.transformed(*from_range_offsets, alignment_fillup_maybe_failed, r),
    {
        let alignment_log2: u32 = from_range_offsets.max_target_allocations_blocks_alignment_log2;
        // If the beginning of the range to be transformed from and the one of the range
        // to be transformed to are not separated by an alignment block, then
        // states filled before the former might extend to before the latter.
        let before: usize = if !align::same_block_u64(
            self.to_range_target_allocation_blocks_begin.index,
            self.from_range_target_allocation_blocks_begin.index,
            alignment_log2,
        ) {
            0
        } else {
            // In the (rare) event that the left-to-right alignment gap fillup might have
            // failed somewhere midways when populating states before the
            // beginning of the range to get transformed from, it cannot be
            // assumed that all missing states between the range to transform to
            // and the latter have been filled up and we have to resort to a search.
            match alignment_fillup_maybe_failed {
                Some(states) if from_range_offsets.inserted_states_within_range_count == 0
                    && from_range_offsets.inserted_states_after_range_count == 0 => {
                    let ghost (i, j) = choose|i: int, j: int| #[trigger]
                        self.begins_at(states, i, j) && 0 <= self.found_inserted(states, i, j)
                            <= from_range_offsets.inserted_states_before_range_count;
                    proof {
                        assert(states.states@[i].wf(states.auth_log2()) && states.states@[j].wf(states.auth_log2()));
                    }
                    let to_index: usize = match states.lookup_auth_tree_data_block_update_state_index(
                        self.to_range_target_allocation_blocks_begin,
                    ) {
                        Ok(index) => index.index,
                        Err(index) => index.index,
                    };
                    let from_index: usize = match states.lookup_auth_tree_data_block_update_state_index(
                        self.from_range_target_allocation_blocks_begin,
                    ) {
                        Ok(index) => index.index,
                        Err(index) => index.index,
                    };
                    proof {
                        fill::lemma_lookup_position(states.states@, states.auth_log2(), i, to_index as int);
                        fill::lemma_lookup_position(states.states@, states.auth_log2(), j, from_index as int);
                        assert forall|p: int, q: int| #[trigger] self.begins_at(states, p, q) implies p == i && q
                            == j by {
                            fill::lemma_lookup_position(states.states@, states.auth_log2(), p, to_index as int);
                            fill::lemma_lookup_position(states.states@, states.auth_log2(), q, from_index as int);
                        }
                    }
                    let still_missing: u64 = count_missing_between(states, to_index, from_index);
                    let inserted_within: u64 = self.to_range_begin_to_from_range_begin_missing_states_count
                        - still_missing;
                    from_range_offsets.inserted_states_before_range_count - inserted_within as usize
                },
                _ => {
                    // States get populated from left to right, so this is correct *only if*
                    // no error occured midways while populating any states before the range
                    // to be transformed from, i.e. in the common case.
                    from_range_offsets.inserted_states_before_range_count
                        - self.to_range_begin_to_from_range_begin_missing_states_count as usize
                },
            }
        };
        // If the end of the range to be transformed from and the one of the range to be
        // transformed to are not separated by an alignment block, then states
        // filled after the former might extend to after the latter.
        let after: usize = if align::same_block_u64(
            self.from_range_target_allocation_blocks_end,
            self.to_range_target_allocation_blocks_end,
            alignment_log2,
        ) {
            saturating_difference(
                from_range_offsets.inserted_states_after_range_count,
                self.from_range_end_to_to_range_end_missing_states_count,
            )
        } else {
            0
        };
        // The remainder all went to within the range's bounds.
        let within: usize = from_range_offsets.total_inserted_states_count() - before - after;
        AuthTreeDataBlocksUpdateStatesFillAlignmentGapsRangeOffsets {
            inserted_states_before_range_count: before,
            inserted_states_within_range_count: within,
            inserted_states_after_range_count: after,
            max_target_allocations_blocks_alignment_log2: alignment_log2,
        }
    }
}

/// Insertions after an index range happened in order from left to right, within
/// the block of given size containing the last entry in range.
///
/// All missing entries up to location `x` have been inserted, and none after.
pub open spec fn tail_inserted_in_order(
    old_states: &AuthTreeDataBlocksUpdateStates,
    new_states: &AuthTreeDataBlocksUpdateStates,
    range: AuthTreeDataBlocksUpdateStatesIndexRange,
    alignment_log2: nat,
    x: int,
) -> bool {
    let last = old_states.states@[range.end.index - 1].target();
    let end = last + old_states.block_len();
    &&& end <= x
    &&& x == end || x <= align::align_down(last, alignment_log2) + align::block_size(alignment_log2)
    &&& forall|t: int|
        end <= t < x && align::aligned(t, old_states.auth_log2()) ==> #[trigger] new_states.present(t)
    &&& forall|t: int| #[trigger] new_states.present(t) && t >= x ==> old_states.present(t)
}

/// Insertions before an index range happened only within the block of given
/// size containing the first entry in range.
pub open spec fn head_inserted_within_alignment(
    old_states: &AuthTreeDataBlocksUpdateStates,
    new_states: &AuthTreeDataBlocksUpdateStates,
    range: AuthTreeDataBlocksUpdateStatesIndexRange,
    alignment_log2: nat,
) -> bool {
    forall|t: int| #[trigger]
        new_states.present(t) && t < align::align_down(
            old_states.states@[range.begin.index as int].target(),
            alignment_log2,
        ) ==> old_states.present(t)
}

/// There are no entries missing anymore before an index range within the block
/// of given size containing the first entry in range.
pub open spec fn head_complete(
    old_states: &AuthTreeDataBlocksUpdateStates,
    new_states: &AuthTreeDataBlocksUpdateStates,
    range: AuthTreeDataBlocksUpdateStatesIndexRange,
    alignment_log2: nat,
) -> bool {
    let first = old_states.states@[range.begin.index as int].target();
    forall|t: int|
        align::align_down(first, alignment_log2) <= t < first && align::aligned(t, old_states.auth_log2())
            ==> #[trigger] new_states.present(t)
}

/// Filling alignment gaps inserts entries in order from left to right.
pub proof fn law_fill_inserts_in_order(
    old_states: AuthTreeDataBlocksUpdateStates,
    new_states: AuthTreeDataBlocksUpdateStates,
    range: AuthTreeDataBlocksUpdateStatesIndexRange,
    alignment_log2: nat,
    r: Result<AuthTreeDataBlocksUpdateStatesIndexRange, NvFsError>,
    alloc_bitmap: &AllocBitmap,
    pending_frees: &SparseAllocBitmap,
) -> (x: int)
    requires
        old_states.wf(),
        range.begin.index < range.end.index <= old_states.states@.len(),
        new_states.alignment_gaps_filled(&old_states, range, alignment_log2, r, alloc_bitmap, pending_frees),
    ensures
        tail_inserted_in_order(&old_states, &new_states, range, alignment_log2, x),
        head_inserted_within_alignment(&old_states, &new_states, range, alignment_log2),
        r is Ok ==> head_complete(&old_states, &new_states, range, alignment_log2),
        // Unless the head has been completed, nothing has been inserted past the range's beginning.
        head_complete(&old_states, &new_states, range, alignment_log2) || forall|t: int| #[trigger]
            new_states.present(t) && t >= old_states.states@[range.begin.index as int].target() ==> old_states.present(
                t,
            ),
{
    let s = old_states.states@;
    let l = old_states.auth_log2();
    let a = alignment_log2;
    let (rb, re) = (range.begin.index as int, range.end.index as int);
    let first = s[rb].target();
    let last = s[re - 1].target();
    let size = old_states.block_len();
    let d = align::align_down(first, a);
    let e = align::align_down(last, a) + align::block_size(a);
    assert(s[rb].wf(l) && s[re - 1].wf(l));
    align::lemma_align_down_bounds(first, a);
    align::lemma_align_down_bounds(last, a);
    align::lemma_block_size_pos(l);
    align::lemma_aligned_next(e - align::block_size(a), a);
    assert forall|t: int| #[trigger] new_states.present(t) && !old_states.present(t) implies d <= t < e by {
        fill::lemma_within_region(old_states, a, rb, re, t);
    }
    assert forall|t: int| d <= t <= first && align::aligned(t, l) implies old_states.within_alignment(rb, re, a, t) by {
        align::lemma_align_down_unique(t, d, a);
        assert(align::same_block(s[rb].target(), t, a));
    }
    assert forall|t: int| last <= t < e && align::aligned(t, l) implies old_states.within_alignment(rb, re, a, t) by {
        align::lemma_align_down_unique(t, e - align::block_size(a), a);
        assert(align::same_block(s[re - 1].target(), t, a));
    }
    if a < l {
        // Nothing is missing then.
        align::lemma_aligned_finer(last, a, l);
        align::lemma_block_size_split(a, l);
        assert(e <= last + size);
    } else {
        align::lemma_aligned_finer(e, l, a);
        align::lemma_aligned_gap(last, e, l);
    }
    match r {
        Ok(_) => {
            if e < last + size {
                last + size
            } else {
                e
            }
        },
        Err(_) => {
            let x0 = choose|x0: int| #[trigger] new_states.filled_in_order(&old_states, rb, re, a, x0);
            if x0 >= first {
                assert(head_complete(&old_states, &new_states, range, a));
            }
            if x0 < last + size {
                last + size
            } else if x0 < e {
                x0
            } else if e < last + size {
                last + size
            } else {
                e
            }
        },
    }
}

/// A kept entry's position if nothing has been inserted before it.
proof fn lemma_position_without_insertions_before(
    o: AuthTreeDataBlocksUpdateStates,
    f: AuthTreeDataBlocksUpdateStates,
    k: int,
    p: int,
)
    requires
        o.wf(),
        f.wf(),
        0 <= k < o.states@.len(),
        0 <= p < f.states@.len(),
        f.states@[p].target() == o.states@[k].target(),
        forall|t: int| #[trigger] f.present(t) && t < o.states@[k].target() ==> o.present(t),
    ensures
        p <= k,
    decreases p,
{
    if p > 0 {
        let t = f.states@[p - 1].target();
        assert(f.states@[p - 1].target() < f.states@[p].target());
        assert(f.present(t));
        let j = choose|j: int| 0 <= j < o.states@.len() && (#[trigger] o.states@[j]).target() == t;
        if k < j {
            assert(o.states@[k].target() < o.states@[j].target());
        }
        lemma_position_without_insertions_before(o, f, j, p - 1);
    }
}

/// A kept entry's position if nothing has been inserted after it.
pub proof fn lemma_position_without_insertions_after(
    o: AuthTreeDataBlocksUpdateStates,
    f: AuthTreeDataBlocksUpdateStates,
    k: int,
    p: int,
)
    requires
        o.wf(),
        f.wf(),
        0 <= k < o.states@.len(),
        0 <= p < f.states@.len(),
        f.states@[p].target() == o.states@[k].target(),
        forall|t: int| #[trigger] f.present(t) && t > o.states@[k].target() ==> o.present(t),
    ensures
        f.states@.len() - p <= o.states@.len() - k,
    decreases f.states@.len() - p,
{
    if p < f.states@.len() - 1 {
        let t = f.states@[p + 1].target();
        assert(f.states@[p].target() < f.states@[p + 1].target());
        assert(f.present(t));
        let j = choose|j: int| 0 <= j < o.states@.len() && (#[trigger] o.states@[j]).target() == t;
        if j < k {
            assert(o.states@[j].target() < o.states@[k].target());
        }
        lemma_position_without_insertions_after(o, f, j, p + 1);
    }
}

/// Position of an entry relative to another one, if there's nothing missing in
/// between.
proof fn lemma_distance_if_complete(f: AuthTreeDataBlocksUpdateStates, p: int, q: int)
    requires
        f.wf(),
        0 <= p <= q < f.states@.len(),
        forall|t: int|
            f.states@[p].target() <= t < f.states@[q].target() && align::aligned(t, f.auth_log2())
                ==> #[trigger] f.present(t),
    ensures
        q - p == align::blocks(f.states@[q].target() - f.states@[p].target(), f.auth_log2()),
{
    let s = f.states@;
    let l = f.auth_log2();
    let (begin, end) = (s[p].target(), s[q].target());
    assert(s[p].wf(l) && s[q].wf(l));
    states::lemma_sorted_distance(s, l, p, q);
    assert(states::insertion_point(s, begin, p)) by {
        assert forall|k: int| p <= k < s.len() implies (#[trigger] s[k]).target() >= begin by {
            if p < k {
                assert(s[p].target() < s[k].target());
            }
        }
    }
    insert::lemma_present_populated(f, begin, end, p);
    let n = align::blocks(end - begin, l);
    if q < p + n {
        let size = f.block_len();
        align::lemma_block_size_pos(l);
        align::lemma_aligned_is_multiple(end - begin, l);
        let k = q - p;
        assert(s[q].target() == begin + k * size);
        assert(k * size < n * size) by (nonlinear_arith)
            requires
                k < n,
                size >= 1,
        ;
    }
}

/// A kept entry's position in the grown collection.
pub proof fn lemma_kept_position(
    o: AuthTreeDataBlocksUpdateStates,
    f: AuthTreeDataBlocksUpdateStates,
    k: int,
    alloc_bitmap: &AllocBitmap,
    pending_frees: &SparseAllocBitmap,
) -> (p: int)
    requires
        o.wf(),
        f.grown(&o, alloc_bitmap, pending_frees),
        0 <= k < o.states@.len(),
    ensures
        0 <= p < f.states@.len(),
        f.states@[p] == o.states@[k],
{
    fill::lemma_grown_facts(o, f, alloc_bitmap, pending_frees);
    assert(f.has_entry(o.states@[k]));
    choose|p: int| 0 <= p < f.states@.len() && #[trigger] f.states@[p] == o.states@[k]
}

/// Number of entries inserted between the last one in a range and another one
/// after it.
proof fn lemma_inserted_between(
    o: AuthTreeDataBlocksUpdateStates,
    f: AuthTreeDataBlocksUpdateStates,
    range: AuthTreeDataBlocksUpdateStatesIndexRange,
    a: nat,
    x: int,
    q: int,
    k: int,
    p: int,
    alloc_bitmap: &AllocBitmap,
    pending_frees: &SparseAllocBitmap,
)
    requires
        o.wf(),
        f.grown(&o, alloc_bitmap, pending_frees),
        range.begin.index < range.end.index <= o.states@.len(),
        tail_inserted_in_order(&o, &f, range, a, x),
        range.end.index - 1 <= k < o.states@.len(),
        0 <= q < f.states@.len(),
        f.states@[q] == o.states@[range.end.index - 1],
        0 <= p < f.states@.len(),
        f.states@[p] == o.states@[k],
    ensures
        ({
            let last = range.end.index - 1;
            let inserted = (p - q) - (k - last);
            &&& 0 <= inserted <= missing_between(&o, last, k)
            &&& x > o.states@[k].target() ==> inserted == missing_between(&o, last, k)
            &&& x <= o.states@[k].target() + o.block_len() ==> f.states@.len() - p == o.states@.len() - k
            &&& f.states@.len() - p >= o.states@.len() - k
        }),
{
    let s = o.states@;
    let l = o.auth_log2();
    let last = range.end.index - 1;
    fill::lemma_grown_facts(o, f, alloc_bitmap, pending_frees);
    fill::lemma_grown_positions(o, f, last, q, k, p, alloc_bitmap, pending_frees);
    states::lemma_sorted_distance(f.states@, l, q, p);
    let v = lemma_kept_position(o, f, s.len() - 1, alloc_bitmap, pending_frees);
    fill::lemma_grown_positions(o, f, k, p, s.len() - 1, v, alloc_bitmap, pending_frees);
    if x > s[k].target() {
        assert forall|t: int| f.states@[q].target() <= t < f.states@[p].target() && align::aligned(t, l)
            implies #[trigger] f.present(t) by {
            if t == f.states@[q].target() {
            } else {
                assert(s[last].wf(l));
                align::lemma_aligned_gap(s[last].target(), t, l);
            }
        }
        lemma_distance_if_complete(f, q, p);
    }
    if x <= s[k].target() + o.block_len() {
        assert forall|t: int| #[trigger] f.present(t) && t > s[k].target() implies o.present(t) by {
            let i = choose|i: int| 0 <= i < f.states@.len() && (#[trigger] f.states@[i]).target() == t;
            assert(f.states@[i].wf(l) && s[k].wf(l));
            align::lemma_aligned_gap(s[k].target(), t, l);
        }
        lemma_position_without_insertions_after(o, f, k, p);
    }
}

/// Number of entries inserted after another range's end.
proof fn lemma_inserted_after(
    o: AuthTreeDataBlocksUpdateStates,
    f: AuthTreeDataBlocksUpdateStates,
    range: AuthTreeDataBlocksUpdateStatesIndexRange,
    a: nat,
    x: int,
    q: int,
    k: int,
    p: int,
    alloc_bitmap: &AllocBitmap,
    pending_frees: &SparseAllocBitmap,
)
    requires
        o.wf(),
        f.grown(&o, alloc_bitmap, pending_frees),
        range.begin.index < range.end.index <= o.states@.len(),
        tail_inserted_in_order(&o, &f, range, a, x),
        range.end.index - 1 <= k < o.states@.len(),
        0 <= q < f.states@.len(),
        f.states@[q] == o.states@[range.end.index - 1],
        0 <= p < f.states@.len(),
        f.states@[p] == o.states@[k],
    ensures
        ({
            let last = range.end.index - 1;
            let after_last = (f.states@.len() - q) - (o.states@.len() - last);
            let after = (f.states@.len() - p) - (o.states@.len() - k);
            after == if align::same_block(
                o.states@[last].target() + o.block_len(),
                o.states@[k].target() + o.block_len(),
                a,
            ) {
                monus(after_last, missing_between(&o, last, k))
            } else {
                0
            }
        }),
{
    let s = o.states@;
    let last = range.end.index - 1;
    let size = o.block_len();
    let l = o.auth_log2();
    lemma_inserted_between(o, f, range, a, x, q, k, p, alloc_bitmap, pending_frees);
    align::lemma_block_size_pos(l);
    let from_end = s[last].target() + size;
    let to_end = s[k].target() + size;
    if last < k {
        assert(s[last].target() < s[k].target());
    }
    if !align::same_block(from_end, to_end, a) {
        // The block with the last entry from the range in it does not extend past the other end.
        let d = align::align_down(s[last].target(), a);
        let e = d + align::block_size(a);
        align::lemma_align_down_bounds(s[last].target(), a);
        align::lemma_align_down_bounds(to_end, a);
        align::lemma_align_down_bounds(from_end, a);
        align::lemma_aligned_next(d, a);
        if x > to_end {
            align::lemma_align_down_unique(from_end, d, a);
            align::lemma_align_down_unique(to_end, d, a);
        }
    }
}

/// Offsets transformed to a range located after the one they had been obtained
/// for are applicable to the former.
pub proof fn law_transform_to_after(
    old_states: AuthTreeDataBlocksUpdateStates,
    new_states: AuthTreeDataBlocksUpdateStates,
    from: AuthTreeDataBlocksUpdateStatesIndexRange,
    to: AuthTreeDataBlocksUpdateStatesIndexRange,
    transform: AuthTreeDataBlocksUpdateStatesFillAlignmentGapsRangeOffsetsTransformToAfter,
    offsets: AuthTreeDataBlocksUpdateStatesFillAlignmentGapsRangeOffsets,
    r: AuthTreeDataBlocksUpdateStatesFillAlignmentGapsRangeOffsets,
    x: int,
    alloc_bitmap: &AllocBitmap,
    pending_frees: &SparseAllocBitmap,
)
    requires
        old_states.wf(),
        new_states.grown(&old_states, alloc_bitmap, pending_frees),
        from.begin.index < from.end.index <= to.begin.index <= to.end.index <= old_states.states@.len(),
        transform.set_up_for(from, to, &old_states),
        offsets.applies_to(&old_states, &new_states, from),
        tail_inserted_in_order(
            &old_states,
            &new_states,
            from,
            offsets.max_target_allocations_blocks_alignment_log2 as nat,
            x,
        ),
        transform.transformed(offsets, r),
    ensures
        r.total() == offsets.total(),
        to.begin.index < to.end.index ==> r.applies_to(&old_states, &new_states, to),
        to.begin.index == to.end.index ==> r.inserted_states_within_range_count == 0
            && new_states.states@[to.end.index - 1 + r.inserted_states_before_range_count]
            == old_states.states@[to.end.index - 1],
{
    let o = old_states;
    let f = new_states;
    let s = o.states@;
    let a = offsets.max_target_allocations_blocks_alignment_log2 as nat;
    let (fe, tb, te) = (from.end.index as int, to.begin.index as int, to.end.index as int);
    let q = fe - 1 + offsets.inserted_states_before_range_count + offsets.inserted_states_within_range_count;
    let p = lemma_kept_position(o, f, te - 1, alloc_bitmap, pending_frees);
    lemma_inserted_between(o, f, from, a, x, q, te - 1, p, alloc_bitmap, pending_frees);
    lemma_inserted_after(o, f, from, a, x, q, te - 1, p, alloc_bitmap, pending_frees);
    if tb < te {
        let pb = lemma_kept_position(o, f, tb, alloc_bitmap, pending_frees);
        lemma_inserted_between(o, f, from, a, x, q, tb, pb, alloc_bitmap, pending_frees);
        fill::lemma_grown_positions(o, f, tb, pb, te - 1, p, alloc_bitmap, pending_frees);
        let l = o.auth_log2();
        let from_end = s[fe - 1].target() + o.block_len();
        assert(s[fe - 1].wf(l) && s[tb].wf(l));
        assert(s[fe - 1].target() < s[tb].target());
        align::lemma_aligned_gap(s[fe - 1].target(), s[tb].target(), l);
        align::lemma_block_size_pos(l);
        if x > s[tb].target() {
            let d = align::align_down(s[fe - 1].target(), a);
            align::lemma_align_down_bounds(s[fe - 1].target(), a);
            align::lemma_align_down_unique(from_end, d, a);
            align::lemma_align_down_unique(s[tb].target(), d, a);
        }
    }
}

/// Offsets transformed to a range containing the one they had been obtained
/// for are applicable to the former.
pub proof fn law_transform_to_containing(
    old_states: AuthTreeDataBlocksUpdateStates,
    new_states: AuthTreeDataBlocksUpdateStates,
    from: AuthTreeDataBlocksUpdateStatesIndexRange,
    to: AuthTreeDataBlocksUpdateStatesIndexRange,
    transform: AuthTreeDataBlocksUpdateStatesFillAlignmentGapsRangeOffsetsTransformToContaining,
    offsets: AuthTreeDataBlocksUpdateStatesFillAlignmentGapsRangeOffsets,
    maybe_failed: Option<&AuthTreeDataBlocksUpdateStates>,
    x: int,
    alloc_bitmap: &AllocBitmap,
    pending_frees: &SparseAllocBitmap,
)
    requires
        old_states.wf(),
        new_states.grown(&old_states, alloc_bitmap, pending_frees),
        to.begin.index <= from.begin.index < from.end.index <= to.end.index <= old_states.states@.len(),
        maybe_failed matches Some(states) ==> *states == new_states,
        transform.set_up_for(from, to, &old_states),
        offsets.applies_to(&old_states, &new_states, from),
        tail_inserted_in_order(
            &old_states,
            &new_states,
            from,
            offsets.max_target_allocations_blocks_alignment_log2 as nat,
            x,
        ),
        head_inserted_within_alignment(
            &old_states,
            &new_states,
            from,
            offsets.max_target_allocations_blocks_alignment_log2 as nat,
        ),
        head_complete(
            &old_states,
            &new_states,
            from,
            offsets.max_target_allocations_blocks_alignment_log2 as nat,
        ) || maybe_failed is Some && forall|t: int| #[trigger]
            new_states.present(t) && t >= old_states.states@[from.begin.index as int].target() ==> old_states.present(
                t,
            ),
    ensures
        transform.applicable(offsets, maybe_failed),
        forall|r: AuthTreeDataBlocksUpdateStatesFillAlignmentGapsRangeOffsets| #[trigger]
            transform.transformed(offsets, maybe_failed, r) ==> r.total() == offsets.total() && r.applies_to(
                &old_states,
                &new_states,
                to,
            ),
{
    let o = old_states;
    let f = new_states;
    let s = o.states@;
    let l = o.auth_log2();
    let a = offsets.max_target_allocations_blocks_alignment_log2 as nat;
    let (fb, fe) = (from.begin.index as int, from.end.index as int);
    let (tb, te) = (to.begin.index as int, to.end.index as int);
    fill::lemma_grown_facts(o, f, alloc_bitmap, pending_frees);
    // Insertions after the ranges' ends.
    let q = fe - 1 + offsets.inserted_states_before_range_count + offsets.inserted_states_within_range_count;
    let p = lemma_kept_position(o, f, te - 1, alloc_bitmap, pending_frees);
    lemma_inserted_between(o, f, from, a, x, q, te - 1, p, alloc_bitmap, pending_frees);
    lemma_inserted_after(o, f, from, a, x, q, te - 1, p, alloc_bitmap, pending_frees);
    // Insertions before the ranges' beginnings.
    let pf = fb + offsets.inserted_states_before_range_count;
    let pt = lemma_kept_position(o, f, tb, alloc_bitmap, pending_frees);
    let p0 = lemma_kept_position(o, f, 0, alloc_bitmap, pending_frees);
    fill::lemma_grown_positions(o, f, 0, p0, tb, pt, alloc_bitmap, pending_frees);
    fill::lemma_grown_positions(o, f, tb, pt, fb, pf, alloc_bitmap, pending_frees);
    states::lemma_sorted_distance(f.states@, l, pt, pf);
    states::lemma_sorted_distance(s, l, tb, fb);
    let d = align::align_down(s[fb].target(), a);
    align::lemma_align_down_bounds(s[fb].target(), a);
    align::lemma_align_down_bounds(s[tb].target(), a);
    align::lemma_align_down_mono(s[tb].target(), s[fb].target(), a);
    if !align::same_block(s[tb].target(), s[fb].target(), a) {
        align::lemma_aligned_gap(align::align_down(s[tb].target(), a), d, a);
        lemma_position_without_insertions_before(o, f, tb, pt);
    } else if head_complete(&o, &f, from, a) {
        lemma_distance_if_complete(f, pt, pf);
    } else {
        lemma_position_without_insertions_after(o, f, fb, pf);
        let v = lemma_kept_position(o, f, s.len() - 1, alloc_bitmap, pending_frees);
        fill::lemma_grown_positions(o, f, fb, pf, s.len() - 1, v, alloc_bitmap, pending_frees);
    }
    assert(transform.begins_at(&f, pt, pf));
    assert(transform.found_inserted(&f, pt, pf) == (pf - pt) - (fb - tb));
}

/// Offsets accumulated over two successive insertion operations are applicable
/// to the original range.
pub proof fn law_accumulated_offsets(
    first_states: AuthTreeDataBlocksUpdateStates,
    second_states: AuthTreeDataBlocksUpdateStates,
    third_states: AuthTreeDataBlocksUpdateStates,
    range: AuthTreeDataBlocksUpdateStatesIndexRange,
    corrected: AuthTreeDataBlocksUpdateStatesIndexRange,
    a: AuthTreeDataBlocksUpdateStatesFillAlignmentGapsRangeOffsets,
    b: AuthTreeDataBlocksUpdateStatesFillAlignmentGapsRangeOffsets,
    sum: AuthTreeDataBlocksUpdateStatesFillAlignmentGapsRangeOffsets,
)
    requires
        a.applies_to(&first_states, &second_states, range),
        corrected.begin.index == range.begin.index + a.inserted_states_before_range_count,
        corrected.end.index == range.end.index + a.inserted_states_before_range_count
            + a.inserted_states_within_range_count,
        b.applies_to(&second_states, &third_states, corrected),
        sum.inserted_states_before_range_count == a.inserted_states_before_range_count
            + b.inserted_states_before_range_count,
        sum.inserted_states_within_range_count == a.inserted_states_within_range_count
            + b.inserted_states_within_range_count,
        sum.inserted_states_after_range_count == a.inserted_states_after_range_count
            + b.inserted_states_after_range_count,
    ensures
        sum.applies_to(&first_states, &third_states, range),
{
}

/// An index range corrected by the applicable offsets still refers to the
/// original entries: both ends are retained, and any other ones from within are
/// still found within.
pub proof fn law_corrected_range_refers_to_original_entries(
    old_states: AuthTreeDataBlocksUpdateStates,
    new_states: AuthTreeDataBlocksUpdateStates,
    range: AuthTreeDataBlocksUpdateStatesIndexRange,
    corrected: AuthTreeDataBlocksUpdateStatesIndexRange,
    offsets: AuthTreeDataBlocksUpdateStatesFillAlignmentGapsRangeOffsets,
    alloc_bitmap: &AllocBitmap,
    pending_frees: &SparseAllocBitmap,
    i: int,
) -> (j: int)
    requires
        old_states.wf(),
        new_states.grown(&old_states, alloc_bitmap, pending_frees),
        range.begin.index < range.end.index <= old_states.states@.len(),
        offsets.applies_to(&old_states, &new_states, range),
        corrected.begin.index == range.begin.index + offsets.inserted_states_before_range_count,
        corrected.end.index == range.end.index + offsets.inserted_states_before_range_count
            + offsets.inserted_states_within_range_count,
        range.begin.index <= i < range.end.index,
    ensures
        corrected.begin.index <= j < corrected.end.index <= new_states.states@.len(),
        new_states.states@[j] == old_states.states@[i],
        i == range.begin.index ==> j == corrected.begin.index,
        i == range.end.index - 1 ==> j == corrected.end.index - 1,
{
    let p = lemma_kept_position(old_states, new_states, i, alloc_bitmap, pending_frees);
    let (b, e) = (corrected.begin.index as int, corrected.end.index - 1);
    fill::lemma_grown_positions(
        old_states,
        new_states,
        range.begin.index as int,
        b,
        i,
        p,
        alloc_bitmap,
        pending_frees,
    );
    fill::lemma_grown_positions(old_states, new_states, i, p, range.end.index - 1, e, alloc_bitmap, pending_frees);
    if i == range.begin.index {
        fill::lemma_grown_positions(old_states, new_states, i, p, i, b, alloc_bitmap, pending_frees);
    }
    if i == range.end.index - 1 {
        fill::lemma_grown_positions(old_states, new_states, i, e, i, p, alloc_bitmap, pending_frees);
    }
    p
}

} // verus!
