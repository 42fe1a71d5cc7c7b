//! Assignment of Journal Staging Copies.
use crate::align;
use crate::fs::NvFsError;
use crate::insert;
use crate::layout::PhysicalAllocBlockIndex;
use crate::states;
use crate::states::{AuthTreeDataBlockUpdateState, AuthTreeDataBlocksUpdateStates};
use crate::states_index::{AuthTreeDataBlocksUpdateStatesIndex, AuthTreeDataBlocksUpdateStatesIndexRange};
use vstd::prelude::*;

verus! {

impl AuthTreeDataBlocksUpdateStates {
    /// Two entries are from the same block the size of a Journal Staging Copy
    /// block.
    pub open spec fn same_journal_block(&self, i: int, j: int) -> bool {
        align::same_block(self.states@[i].target(), self.states@[j].target(), self.journal_log2())
    }

    /// Location corresponding to an entry's target in a Journal Staging Copy
    /// block.
    pub open spec fn journal_location(&self, i: int, journal_block_begin: int) -> int {
        journal_block_begin + (self.states@[i].target() - align::align_down(
            self.states@[i].target(),
            self.journal_log2(),
        ))
    }

    /// Assign an allocated Journal Staging Copy block to all entries from the
    /// same target block as a given one.
    ///
    /// The provided Journal Staging Copy block must be the size of and aligned
    /// to the larger of an Authentication Tree Data Block and an IO Block.
    /// Relative offsets will be preserved when assigning portions of the
    /// provided Journal Staging Copy block to individual entries.
    ///
    /// There may be entries missing. When populated later on, these will
    /// automatically inherit their portion within the Journal Staging Copy area
    /// from the neighbours.
    ///
    /// An error of [`NvFsError::Internal`] is returned if there is a Journal
    /// Staging Copy assigned already.
    ///
    /// # Arguments:
    ///
    /// * `states_index_range_begin` - An entry to assign the Journal Staging
    ///   Copy block to.
    /// * `journal_staging_copy_block_allocation_blocks_begin` - Beginning of
    ///   the allocated Journal Staging Copy block to assign.
    pub fn assign_journal_staging_copy_block(
        &mut self,
        states_index_range_begin: AuthTreeDataBlocksUpdateStatesIndex,
        journal_staging_copy_block_allocation_blocks_begin: PhysicalAllocBlockIndex,
    ) -> (r: Result<(), NvFsError>)
        requires
            old(self).wf(),
            states_index_range_begin.index < old(self).states.len(),
            align::aligned(
                journal_staging_copy_block_allocation_blocks_begin.index as int,
                old(self).journal_log2(),
            ),
            journal_staging_copy_block_allocation_blocks_begin.index + align::block_size(old(self).journal_log2())
                <= u64::MAX,
        ensures
            final(self).wf(),
            final(self).same_layout(old(self)),
            r is Ok <==> old(
                self,
            ).states@[states_index_range_begin.index as int].journal_staging_copy_allocation_blocks_begin is None,
            r matches Err(e) ==> e == NvFsError::Internal && final(self).states@ == old(self).states@,
            r is Ok ==> {
                &&& final(self).states@.len() == old(self).states@.len()
                &&& forall|i: int|
                    0 <= i < old(self).states@.len() ==> #[trigger] final(self).states@[i] == if old(
                        self,
                    ).same_journal_block(states_index_range_begin.index as int, i) {
                        AuthTreeDataBlockUpdateState {
                            journal_staging_copy_allocation_blocks_begin: Some(
                                PhysicalAllocBlockIndex {
                                    index: old(self).journal_location(
                                        i,
                                        journal_staging_copy_block_allocation_blocks_begin.index as int,
                                    ) as u64,
                                },
                            ),
                            ..old(self).states@[i]
                        }
                    } else {
                        old(self).states@[i]
                    }
            },
    {
        let ghost o = *self;
        let ghost s = o.states@;
        let ghost (l, jl) = (o.auth_log2(), o.journal_log2());
        let ghost i0 = states_index_range_begin.index as int;
        let ghost base = journal_staging_copy_block_allocation_blocks_begin.index as int;
        let io_log2: u32 = self.io_block_allocation_blocks_log2 as u32;
        let auth_log2: u32 = self.auth_tree_data_block_allocation_blocks_log2 as u32;
        let journal_log2: u32 = if io_log2 > auth_log2 {
            io_log2
        } else {
            auth_log2
        };
        let range = self.extend_states_index_range_within_alignment(
            AuthTreeDataBlocksUpdateStatesIndexRange {
                begin: states_index_range_begin,
                end: states_index_range_begin.step(),
            },
            journal_log2,
        );
        let mut i: usize = range.begin.index;
        while i < range.end.index
            invariant
                *self == o,
                o == *old(self),
                o.wf(),
                s == o.states@,
                jl == o.journal_log2(),
                i0 == states_index_range_begin.index,
                i0 < s.len(),
                range.begin.index <= i <= range.end.index <= s.len(),
                forall|k: int| range.begin.index <= k < range.end.index ==> o.same_journal_block(i0, k),
                forall|k: int|
                    range.begin.index <= k < i ==> (
                    #[trigger] s[k]).journal_staging_copy_allocation_blocks_begin is None,
            decreases range.end.index - i,
        {
            if self.states[i].journal_staging_copy_allocation_blocks_begin.is_some() {
                assert(o.same_journal_block(i0, i as int));
                assert(s[i as int].journal_agrees(&s[i0], jl));
                return Err(NvFsError::Internal);
            }
            i = i + 1;
        }
        let mut i: usize = range.begin.index;
        while i < range.end.index
            invariant
                o.wf(),
                s == o.states@,
                (l, jl) == (o.auth_log2(), o.journal_log2()),
                journal_log2 == jl,
                jl < 64,
                self.same_layout(&o),
                i0 < s.len(),
                range.begin.index <= i <= range.end.index <= s.len(),
                base == journal_staging_copy_block_allocation_blocks_begin.index,
                base + align::block_size(jl) <= u64::MAX,
                forall|k: int| range.begin.index <= k < range.end.index ==> o.same_journal_block(i0, k),
                self.states@.len() == s.len(),
                forall|k: int|
                    0 <= k < s.len() ==> #[trigger] self.states@[k] == if range.begin.index <= k < i {
                        AuthTreeDataBlockUpdateState {
                            journal_staging_copy_allocation_blocks_begin: Some(
                                PhysicalAllocBlockIndex { index: o.journal_location(k, base) as u64 },
                            ),
                            ..s[k]
                        }
                    } else {
                        s[k]
                    },
            decreases range.end.index - i,
        {
            let target: u64 = self.states[i].target_allocation_blocks_begin.index;
            proof {
                align::lemma_align_down_bounds(target as int, jl);
            }
            let offset: u64 = target - align::align_down_u64(target, journal_log2);
            self.states[i].journal_staging_copy_allocation_blocks_begin =
            Some(
                PhysicalAllocBlockIndex { index: journal_staging_copy_block_allocation_blocks_begin.index + offset },
            );
            i = i + 1;
        }
        proof {
            // The range covers all entries from the same block.
            assert forall|k: int| 0 <= k < s.len() implies (range.begin.index <= k < range.end.index
                <==> #[trigger] o.same_journal_block(i0, k)) by {
                let _ = s[k];
            }
            lemma_assigned_wf(o, *self, i0, base);
        }
        Ok(())
    }
}

/// Assigning a Journal Staging Copy block keeps the collection well-formed.
proof fn lemma_assigned_wf(
    o: AuthTreeDataBlocksUpdateStates,
    f: AuthTreeDataBlocksUpdateStates,
    i0: int,
    base: int,
)
    requires
        o.wf(),
        f.same_layout(&o),
        0 <= i0 < o.states@.len(),
        0 <= base,
        align::aligned(base, o.journal_log2()),
        base + align::block_size(o.journal_log2()) <= u64::MAX,
        f.states@.len() == o.states@.len(),
        forall|k: int|
            0 <= k < o.states@.len() ==> #[trigger] f.states@[k] == if o.same_journal_block(i0, k) {
                AuthTreeDataBlockUpdateState {
                    journal_staging_copy_allocation_blocks_begin: Some(
                        PhysicalAllocBlockIndex { index: o.journal_location(k, base) as u64 },
                    ),
                    ..o.states@[k]
                }
            } else {
                o.states@[k]
            },
    ensures
        f.wf(),
{
    let s = o.states@;
    let (l, jl) = (o.auth_log2(), o.journal_log2());
    assert forall|k: int| 0 <= k < s.len() && o.same_journal_block(i0, k) implies {
        &&& 0 <= #[trigger] o.journal_location(k, base) <= u64::MAX
        &&& align::align_down(o.journal_location(k, base), jl) == base
    } by {
        align::lemma_align_down_bounds(s[k].target(), jl);
        align::lemma_align_down_unique(o.journal_location(k, base), base, jl);
    }
    assert forall|k: int| 0 <= k < f.states@.len() implies (#[trigger] f.states@[k]).wf(l)
        && f.states@[k].journal_wf(jl) by {
        assert(s[k].wf(l) && s[k].journal_wf(jl));
        let _ = o.journal_location(k, base);
    }
    assert forall|i: int, j: int| 0 <= i < j < f.states@.len() implies (#[trigger] f.states@[i]).target() < (
    #[trigger] f.states@[j]).target() by {
        assert(s[i].target() < s[j].target());
    }
    assert forall|i: int, j: int|
        #![trigger f.states@[i], f.states@[j]]
        0 <= i < f.states@.len() && 0 <= j < f.states@.len() implies f.states@[i].journal_agrees(
        &f.states@[j],
        jl,
    ) by {
        assert(s[i].journal_agrees(&s[j], jl));
        let _ = o.journal_location(i, base);
        let _ = o.journal_location(j, base);
    }
}

/// Entries populated later on inherit their portion of the Journal Staging Copy
/// block assigned to neighbours from the same target block, with their offset
/// preserved.
pub proof fn law_populated_entries_inherit_assignment(
    states: AuthTreeDataBlocksUpdateStates,
    i: int,
    journal_block_begin: int,
    state: AuthTreeDataBlockUpdateState,
)
    requires
        states.wf(),
        0 <= i < states.states@.len(),
        align::aligned(journal_block_begin, states.journal_log2()),
        states.states@[i].journal_staging_copy_allocation_blocks_begin matches Some(j) && j.index
            == states.journal_location(i, journal_block_begin),
        align::same_block(states.states@[i].target(), state.target(), states.journal_log2()),
        insert::inherits_journal(states.states@, state, states.journal_log2()),
    ensures
        state.journal_staging_copy_allocation_blocks_begin matches Some(j) && j.index == journal_block_begin + (
        state.target() - align::align_down(state.target(), states.journal_log2())),
{
    let jl = states.journal_log2();
    align::lemma_align_down_bounds(states.states@[i].target(), jl);
    align::lemma_align_down_unique(states.journal_location(i, journal_block_begin), journal_block_begin, jl);
}

} // verus!
