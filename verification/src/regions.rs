//! Queries on the storage regions covered by ranges of update tracking states.
use crate::align;
use crate::layout::{AllocBlockCount, PhysicalAllocBlockIndex, PhysicalAllocBlockRange};
use crate::states;
use crate::states::AuthTreeDataBlocksUpdateStates;
use crate::states_index;
use crate::states_index::{
    AuthTreeDataBlocksUpdateStatesAllocationBlockIndex, AuthTreeDataBlocksUpdateStatesAllocationBlocksIndexRange,
    AuthTreeDataBlocksUpdateStatesIndex, AuthTreeDataBlocksUpdateStatesIndexRange,
};
use vstd::prelude::*;

verus! {

impl AuthTreeDataBlocksUpdateStates {
    /// Location on storage associated with an Allocation Block level entry.
    pub open spec fn block_target(&self, index: AuthTreeDataBlocksUpdateStatesAllocationBlockIndex) -> int {
        self.states@[index.block()].target() + index.offset()
    }

    /// Location of the Journal Staging Copy associated with an Allocation Block
    /// level entry, if any.
    pub open spec fn block_journal(
        &self,
        index: AuthTreeDataBlocksUpdateStatesAllocationBlockIndex,
    ) -> Option<int> {
        match self.states@[index.block()].journal_staging_copy_allocation_blocks_begin {
            Some(j) => Some(j.index + index.offset()),
            None => None,
        }
    }

    /// Test whether the storage locations associated with a given index range
    /// form a contiguous region aligned to a specified block size.
    pub fn is_contiguous_aligned_region(
        &self,
        states_index_range: &AuthTreeDataBlocksUpdateStatesIndexRange,
        target_allocation_blocks_alignment_log2: u32,
    ) -> (r: bool)
        requires
            self.wf(),
            self.valid_range(states_index_range),
            target_allocation_blocks_alignment_log2 < usize::BITS,
        ensures
            r == states::contiguous_aligned(
                self.states@,
                self.auth_log2(),
                states_index_range.begin.index as int,
                states_index_range.end.index as int,
                target_allocation_blocks_alignment_log2 as nat,
            ),
    {
        if states_index_range.is_empty() {
            return true;
        }
        let ghost l = self.auth_log2();
        let ghost a = target_allocation_blocks_alignment_log2 as nat;
        let ghost s = self.states@;
        let ghost b = states_index_range.begin.index as int;
        let ghost e = states_index_range.end.index as int;
        let ghost size = align::block_size(l);
        let auth_tree_data_block_allocation_blocks_log2: u32 = self.auth_tree_data_block_allocation_blocks_log2 as u32;
        proof {
            assert(s[b].wf(l) && s[e - 1].wf(l));
            align::lemma_aligned_next(s[e - 1].target(), l);
        }
        if auth_tree_data_block_allocation_blocks_log2 >= target_allocation_blocks_alignment_log2 {
            proof {
                align::lemma_aligned_finer(s[b].target(), a, l);
                align::lemma_aligned_finer(s[e - 1].target() + size, a, l);
            }
            return self.is_contiguous_region(states_index_range);
        }
        // First check if the range's first entry's target beginning is aligned.

        let first: u64 = self.states[states_index_range.begin.index].target_allocation_blocks_begin.index;
        let first_aligned: u64 = align::align_down_u64(first, target_allocation_blocks_alignment_log2);
        if first_aligned != first {
            return false;
        }
        // Now verify that the number of entries matches what would be expected for the
        // aligned covered target range: if there was a gap, that number would be too
        // small.

        let last: u64 = self.states[states_index_range.end.index - 1].target_allocation_blocks_begin.index;
        let last_aligned: u64 = align::align_down_u64(last, target_allocation_blocks_alignment_log2);
        proof {
            states::lemma_sorted_distance(s, l, b, e - 1);
            let n = e - b;
            assert(n * size == (n - 1) * size + size) by (nonlinear_arith);
            align::lemma_align_down_mono(first as int, last as int, a);
        }
        let spanned: u64 = align::blocks_u64(last_aligned - first_aligned, target_allocation_blocks_alignment_log2);
        let covered: u64 = align::blocks_u64(
            states_index_range.len() as u64,
            target_allocation_blocks_alignment_log2 - auth_tree_data_block_allocation_blocks_log2,
        );
        let r: bool = spanned < covered && spanned == covered - 1;
        proof {
            let d = (a - l) as nat;
            let n = e - b;
            let (q, asize) = (align::block_size(d), align::block_size(a));
            let m = spanned + 1;
            align::lemma_block_size_split(l, a);
            align::lemma_block_size_pos(l);
            align::lemma_block_size_pos(d);
            align::lemma_align_down_bounds(last as int, a);
            align::lemma_aligned_sum(last_aligned as int, first as int, a);
            align::lemma_aligned_is_multiple(last_aligned - first, a);
            assert(m * asize == (m - 1) * asize + asize) by (nonlinear_arith);
            assert(m * (size * q) == (m * q) * size) by (nonlinear_arith);
            // The number of entries cannot exceed the number of blocks spanned.
            align::lemma_aligned_finer(last_aligned as int, l, a);
            align::lemma_aligned_sum(last_aligned as int, asize, l);
            align::lemma_aligned_gap(last as int, last_aligned + asize, l);
            assert(n * size <= (m * q) * size);
            assert(n <= m * q) by (nonlinear_arith)
                requires
                    n * size <= (m * q) * size,
                    size >= 1,
            ;
            align::lemma_blocks_align_down(n, d);
            align::lemma_align_down_bounds(n, d);
            let c = covered as int;
            if r {
                assert(c == m);
                assert(n == m * q);
                states::lemma_tight_is_contiguous(s, l, b, e);
                align::lemma_multiple_is_aligned(m, a);
                align::lemma_aligned_sum(first as int, m * asize, a);
            } else if states::contiguous_aligned(s, l, b, e, a) {
                assert(s[e - 1].target() == s[b].target() + (e - 1 - b) * size);
                let end = last + size;
                align::lemma_aligned_sum(end, first as int, a);
                align::lemma_aligned_is_multiple(end - first, a);
                let k = align::blocks(end - first, a);
                // The last entry is the last one of its containing aligned block.
                align::lemma_aligned_next(end, a);
                align::lemma_align_down_unique(last as int, end - asize, a);
                assert(last_aligned + asize == end);
                assert(n * size == m * asize);
                assert(n == m * q) by (nonlinear_arith)
                    requires
                        n * size == (m * q) * size,
                        size >= 1,
                ;
                align::lemma_multiple_is_aligned(m, d);
            }
        }
        r
    }

    /// Test whether the storage locations associated with a given Allocation
    /// Block level index range form a contiguous region.
    pub fn is_contiguous_allocation_blocks_region(
        &self,
        states_allocation_blocks_index_range: &AuthTreeDataBlocksUpdateStatesAllocationBlocksIndexRange,
    ) -> (r: bool)
        requires
            self.wf(),
            self.valid_blocks_range(states_allocation_blocks_index_range),
        ensures
            ({
                let c = AuthTreeDataBlocksUpdateStatesIndexRange::covering(*states_allocation_blocks_index_range);
                r == states::contiguous(self.states@, self.auth_log2(), c.0, c.1)
            }),
    {
        self.is_contiguous_region(
            &AuthTreeDataBlocksUpdateStatesIndexRange::from(*states_allocation_blocks_index_range),
        )
    }

    /// Test whether the storage locations associated with a given Allocation
    /// Block level index range form a contiguous region aligned to a specified
    /// block size.
    pub fn is_contiguous_aligned_allocation_blocks_region(
        &self,
        states_allocation_blocks_index_range: &AuthTreeDataBlocksUpdateStatesAllocationBlocksIndexRange,
        target_allocation_blocks_alignment_log2: u32,
    ) -> (r: bool)
        requires
            self.wf(),
            self.valid_blocks_range(states_allocation_blocks_index_range),
            target_allocation_blocks_alignment_log2 < usize::BITS,
        ensures
            ({
                let c = AuthTreeDataBlocksUpdateStatesIndexRange::covering(*states_allocation_blocks_index_range);
                let a = target_allocation_blocks_alignment_log2 as nat;
                let offset_log2 = if a < self.auth_log2() {
                    a
                } else {
                    self.auth_log2()
                };
                r <==> states::contiguous_aligned(self.states@, self.auth_log2(), c.0, c.1, a) && align::aligned(
                    states_allocation_blocks_index_range.begin.offset(),
                    offset_log2,
                ) && align::aligned(states_allocation_blocks_index_range.end.offset(), offset_log2)
            }),
    {
        if !self.is_contiguous_aligned_region(
            &AuthTreeDataBlocksUpdateStatesIndexRange::from(*states_allocation_blocks_index_range),
            target_allocation_blocks_alignment_log2,
        ) {
            return false;
        }
        let begin_offset: usize =
            states_allocation_blocks_index_range.begin.allocation_block_index_in_auth_tree_data_block;
        let end_offset: usize = states_allocation_blocks_index_range.end.allocation_block_index_in_auth_tree_data_block;
        if target_allocation_blocks_alignment_log2 >= self.auth_tree_data_block_allocation_blocks_log2 as u32 {
            proof {
                let l = self.auth_log2();
                align::lemma_aligned_unit(l);
                align::lemma_align_down_unique(begin_offset as int, 0, l);
                align::lemma_align_down_unique(end_offset as int, 0, l);
            }
            begin_offset == 0 && end_offset == 0
        } else {
            align::align_down_u64(begin_offset as u64, target_allocation_blocks_alignment_log2) == begin_offset as u64
                && align::align_down_u64(end_offset as u64, target_allocation_blocks_alignment_log2)
                == end_offset as u64
        }
    }

    /// Find an Allocation Block level index range's maximal leading subrange
    /// with contiguous associated storage locations.
    pub fn allocation_blocks_range_contiguous_head_subrange(
        &self,
        states_allocation_blocks_index_range: &AuthTreeDataBlocksUpdateStatesAllocationBlocksIndexRange,
    ) -> (r: AuthTreeDataBlocksUpdateStatesAllocationBlocksIndexRange)
        requires
            self.wf(),
            self.valid_blocks_range(states_allocation_blocks_index_range),
        ensures
            self.valid_blocks_range(&r),
            r.begin == states_allocation_blocks_index_range.begin,
            r.end.le(&states_allocation_blocks_index_range.end),
            ({
                let c = AuthTreeDataBlocksUpdateStatesIndexRange::covering(r);
                &&& states::contiguous(self.states@, self.auth_log2(), c.0, c.1)
                // Unless all of the range is contiguous, the subrange is followed by a gap.
                &&& r != *states_allocation_blocks_index_range ==> {
                    &&& r.begin.block() < r.end.block() < self.states@.len()
                    &&& r.end.offset() == 0
                    &&& self.states@[r.end.block()].target() > self.states@[r.end.block() - 1].target()
                        + self.block_len()
                }
            }),
    {
        let range = states_allocation_blocks_index_range;
        let ghost s = self.states@;
        let ghost l = self.auth_log2();
        let begin: usize = range.begin.auth_tree_data_blocks_update_states_index.index;
        let end: usize = range.end.auth_tree_data_blocks_update_states_index.index;
        if begin == end {
            // The range spans less than a single Authentication Tree Data Block, hence is
            // contiguous.
            proof {
                states::lemma_contiguous_single(s, l, begin as int, begin + 1);
            }
            return *range;
        }
        let size: u64 = align::block_size_u64(self.auth_tree_data_block_allocation_blocks_log2 as u32);
        let mut last: u64 = self.states[begin].target_allocation_blocks_begin.index;
        let mut cur: usize = begin + 1;
        proof {
            states::lemma_contiguous_single(s, l, begin as int, cur as int);
        }
        while cur < self.states.len() && (cur < end || cur == end
            && range.end.allocation_block_index_in_auth_tree_data_block != 0)
            invariant
                self.wf(),
                self.valid_blocks_range(range),
                range == states_allocation_blocks_index_range,
                s == self.states@,
                l == self.auth_log2(),
                size == align::block_size(l),
                begin == range.begin.block(),
                end == range.end.block(),
                begin < cur,
                cur <= end || range.end.offset() != 0 && cur == end + 1,
                cur <= s.len(),
                last == s[cur - 1].target(),
                states::contiguous(s, l, begin as int, cur as int),
            decreases s.len() - cur,
        {
            let cur_target: u64 = self.states[cur].target_allocation_blocks_begin.index;
            proof {
                assert(s[cur as int].wf(l) && s[cur - 1].wf(l));
                align::lemma_aligned_gap(last as int, cur_target as int, l);
                assert(s[cur - 1].target() == s[begin as int].target() + (cur - 1 - begin) * align::block_size(l));
                assert((cur - begin) * align::block_size(l) == (cur - 1 - begin) * align::block_size(l)
                    + align::block_size(l)) by (nonlinear_arith);
            }
            if cur_target - last != size {
                return AuthTreeDataBlocksUpdateStatesAllocationBlocksIndexRange::new(
                    &range.begin,
                    &AuthTreeDataBlocksUpdateStatesAllocationBlockIndex::from(
                        AuthTreeDataBlocksUpdateStatesIndex { index: cur },
                    ),
                );
            }
            last = cur_target;
            cur = cur + 1;
        }
        *range
    }

    /// Find the next discontinuity of tracked storage location ranges.
    ///
    /// Returns the index of the next gap found or the past-the-end position if
    /// none.
    ///
    /// # Arguments:
    ///
    /// * `index` - search start position.
    pub fn find_gap_after(
        &self,
        index: AuthTreeDataBlocksUpdateStatesIndex,
    ) -> (r: AuthTreeDataBlocksUpdateStatesIndex)
        requires
            self.wf(),
            index.index < self.states.len(),
        ensures
            index.index < r.index <= self.states@.len(),
            states::contiguous(self.states@, self.auth_log2(), index.index as int, r.index as int),
            r.index < self.states@.len() ==> self.states@[r.index as int].target() > self.states@[r.index
                - 1].target() + self.block_len(),
    {
        let ghost s = self.states@;
        let ghost l = self.auth_log2();
        let size: u64 = align::block_size_u64(self.auth_tree_data_block_allocation_blocks_log2 as u32);
        let mut last: u64 = self.states[index.index].target_allocation_blocks_begin.index;
        let mut gap_index: usize = index.index + 1;
        proof {
            states::lemma_contiguous_single(s, l, index.index as int, gap_index as int);
        }
        while gap_index < self.states.len()
            invariant_except_break
                self.wf(),
                s == self.states@,
                l == self.auth_log2(),
                size == align::block_size(l),
                index.index < gap_index <= s.len(),
                last == s[gap_index - 1].target(),
                states::contiguous(s, l, index.index as int, gap_index as int),
            ensures
                index.index < gap_index <= s.len(),
                states::contiguous(s, l, index.index as int, gap_index as int),
                gap_index < s.len() ==> s[gap_index as int].target() > s[gap_index - 1].target()
                    + align::block_size(l),
            decreases s.len() - gap_index,
        {
            let cur: u64 = self.states[gap_index].target_allocation_blocks_begin.index;
            proof {
                assert(s[gap_index as int].wf(l) && s[gap_index - 1].wf(l));
                align::lemma_aligned_gap(last as int, cur as int, l);
                let (g, i, b) = (gap_index as int, index.index as int, align::block_size(l));
                assert(s[g - 1].target() == s[i].target() + (g - 1 - i) * b);
                assert((g - i) * b == (g - 1 - i) * b + b) by (nonlinear_arith);
            }
            if cur - last != size {
                break ;
            }
            last = cur;
            gap_index = gap_index + 1;
        }
        AuthTreeDataBlocksUpdateStatesIndex { index: gap_index }
    }

    /// Find the next discontinuity of tracked storage location ranges with
    /// minimum specified alignment and size.
    ///
    /// Returns the index of the next aligned gap found or the past-the-end
    /// position if none. Gaps which don't cover at least one aligned block of
    /// size as specified by `target_allocation_blocks_alignment_log2` are
    /// getting skipped over in the search.
    ///
    /// # Arguments:
    ///
    /// * `index` - search start position.
    /// * `target_allocation_blocks_alignment_log2` - The desired gap block
    ///   alignment and size to search for.
    pub fn find_aligned_gap_after(
        &self,
        index: AuthTreeDataBlocksUpdateStatesIndex,
        target_allocation_blocks_alignment_log2: u32,
    ) -> (r: AuthTreeDataBlocksUpdateStatesIndex)
        requires
            self.wf(),
            index.index < self.states.len(),
            target_allocation_blocks_alignment_log2 < 64,
        ensures
            index.index < r.index <= self.states@.len(),
            ({
                let gap_log2 = align::coarser(target_allocation_blocks_alignment_log2 as nat, self.auth_log2());
                &&& forall|i: int|
                    index.index < i < r.index ==> #[trigger] states::adjoins_predecessor(self.states@, i, gap_log2)
                &&& r.index < self.states@.len() ==> !states::adjoins_predecessor(
                    self.states@,
                    r.index as int,
                    gap_log2,
                )
            }),
    {
        let ghost s = self.states@;
        let ghost l = self.auth_log2();
        let ghost a = target_allocation_blocks_alignment_log2 as nat;
        if self.auth_tree_data_block_allocation_blocks_log2 as u32 >= target_allocation_blocks_alignment_log2 {
            let r = self.find_gap_after(index);
            proof {
                assert forall|i: int| index.index < i < r.index implies #[trigger] states::adjoins_predecessor(
                    s,
                    i,
                    l,
                ) by {
                    assert(s[i].wf(l) && s[i - 1].wf(l));
                    let b = align::block_size(l);
                    let k = index.index as int;
                    assert((i - k) * b == (i - 1 - k) * b + b) by (nonlinear_arith);
                }
                if r.index < s.len() {
                    assert(s[r.index as int].wf(l) && s[r.index - 1].wf(l));
                }
            }
            return r;
        }
        let size: u64 = align::block_size_u64(target_allocation_blocks_alignment_log2);
        let mut last: u64 = align::align_down_u64(
            self.states[index.index].target_allocation_blocks_begin.index,
            target_allocation_blocks_alignment_log2,
        );
        let mut gap_index: usize = index.index + 1;
        while gap_index < self.states.len()
            invariant_except_break
                self.wf(),
                s == self.states@,
                l == self.auth_log2(),
                a == target_allocation_blocks_alignment_log2,
                a < 64,
                size == align::block_size(a),
                index.index < gap_index <= s.len(),
                last == align::align_down(s[gap_index - 1].target(), a),
                forall|i: int| index.index < i < gap_index ==> #[trigger] states::adjoins_predecessor(s, i, a),
            ensures
                index.index < gap_index <= s.len(),
                forall|i: int| index.index < i < gap_index ==> #[trigger] states::adjoins_predecessor(s, i, a),
                gap_index < s.len() ==> !states::adjoins_predecessor(s, gap_index as int, a),
            decreases s.len() - gap_index,
        {
            let cur: u64 = align::align_down_u64(
                self.states[gap_index].target_allocation_blocks_begin.index,
                target_allocation_blocks_alignment_log2,
            );
            proof {
                align::lemma_align_down_mono(s[gap_index - 1].target(), s[gap_index as int].target(), a);
            }
            if cur - last > size {
                break ;
            }
            last = cur;
            gap_index = gap_index + 1;
        }
        AuthTreeDataBlocksUpdateStatesIndex { index: gap_index }
    }

    /// The range obtained by extending `range` to all present states within
    /// the blocks of given size containing its ends.
    pub open spec fn extended_range(
        &self,
        range: AuthTreeDataBlocksUpdateStatesIndexRange,
        alignment_log2: nat,
        r: AuthTreeDataBlocksUpdateStatesIndexRange,
    ) -> bool {
        if range.begin.index == range.end.index {
            r == range
        } else {
            let s = self.states@;
            &&& r.begin.index <= range.begin.index < range.end.index <= r.end.index <= s.len()
            &&& forall|i: int|
                r.begin.index <= i < range.begin.index ==> align::same_block(
                    (#[trigger] s[i]).target(),
                    s[range.begin.index as int].target(),
                    alignment_log2,
                )
            &&& forall|i: int|
                0 <= i < r.begin.index ==> align::align_down((#[trigger] s[i]).target(), alignment_log2)
                    < align::align_down(s[range.begin.index as int].target(), alignment_log2)
            &&& forall|i: int|
                range.end.index <= i < r.end.index ==> align::same_block(
                    (#[trigger] s[i]).target(),
                    s[range.end.index - 1].target(),
                    alignment_log2,
                )
            &&& forall|i: int|
                r.end.index <= i < s.len() ==> align::align_down((#[trigger] s[i]).target(), alignment_log2)
                    > align::align_down(s[range.end.index - 1].target(), alignment_log2)
        }
    }

    /// Extend an index range to include all present states within a specified
    /// alignment's reach.
    ///
    /// Extend the given `states_index_range` at both ends to include present
    /// neighbour states without crossing a storage location alignment boundary
    /// as specified by `target_allocation_blocks_alignment_log2`.
    pub fn extend_states_index_range_within_alignment(
        &self,
        states_index_range: AuthTreeDataBlocksUpdateStatesIndexRange,
        target_allocation_blocks_alignment_log2: u32,
    ) -> (r: AuthTreeDataBlocksUpdateStatesIndexRange)
        requires
            self.wf(),
            self.valid_range(&states_index_range),
            target_allocation_blocks_alignment_log2 < 64,
        ensures
            self.valid_range(&r),
            self.extended_range(states_index_range, target_allocation_blocks_alignment_log2 as nat, r),
    {
        let ghost s = self.states@;
        let ghost l = self.auth_log2();
        let ghost a = target_allocation_blocks_alignment_log2 as nat;
        if states_index_range.is_empty() {
            return states_index_range;
        }
        if self.auth_tree_data_block_allocation_blocks_log2 as u32 >= target_allocation_blocks_alignment_log2 {
            proof {
                assert forall|i: int| 0 <= i < s.len() implies align::align_down(
                    (#[trigger] s[i]).target(),
                    a,
                ) == s[i].target() by {
                    assert(s[i].wf(l));
                    align::lemma_aligned_finer(s[i].target(), a, l);
                }
            }
            return states_index_range;
        }
        let first_aligned: u64 = align::align_down_u64(
            self.states[states_index_range.begin.index].target_allocation_blocks_begin.index,
            target_allocation_blocks_alignment_log2,
        );
        let mut begin: usize = states_index_range.begin.index;
        while begin > 0
            invariant_except_break
                begin <= states_index_range.begin.index,
                forall|i: int|
                    begin <= i < states_index_range.begin.index ==> align::align_down((#[trigger] s[i]).target(), a)
                        == first_aligned,
            invariant
                self.wf(),
                s == self.states@,
                self.valid_range(&states_index_range),
                states_index_range.begin.index < s.len(),
                a == target_allocation_blocks_alignment_log2,
                a < 64,
                first_aligned == align::align_down(s[states_index_range.begin.index as int].target(), a),
            ensures
                begin <= states_index_range.begin.index,
                forall|i: int|
                    begin <= i < states_index_range.begin.index ==> align::align_down((#[trigger] s[i]).target(), a)
                        == first_aligned,
                begin > 0 ==> align::align_down(s[begin - 1].target(), a) < first_aligned,
            decreases begin,
        {
            let cur: u64 = align::align_down_u64(
                self.states[begin - 1].target_allocation_blocks_begin.index,
                target_allocation_blocks_alignment_log2,
            );
            proof {
                assert(s[begin - 1].target() < s[states_index_range.begin.index as int].target());
                align::lemma_align_down_mono(s[begin - 1].target(), s[states_index_range.begin.index as int].target(), a);
            }
            if cur < first_aligned {
                break ;
            }
            begin = begin - 1;
        }
        let last_aligned: u64 = align::align_down_u64(
            self.states[states_index_range.end.index - 1].target_allocation_blocks_begin.index,
            target_allocation_blocks_alignment_log2,
        );
        let mut end: usize = states_index_range.end.index;
        while end < self.states.len()
            invariant_except_break
                states_index_range.end.index <= end <= s.len(),
                forall|i: int|
                    states_index_range.end.index <= i < end ==> align::align_down((#[trigger] s[i]).target(), a)
                        == last_aligned,
            invariant
                self.wf(),
                s == self.states@,
                self.valid_range(&states_index_range),
                states_index_range.begin.index < states_index_range.end.index,
                a == target_allocation_blocks_alignment_log2,
                a < 64,
                last_aligned == align::align_down(s[states_index_range.end.index - 1].target(), a),
            ensures
                states_index_range.end.index <= end <= s.len(),
                forall|i: int|
                    states_index_range.end.index <= i < end ==> align::align_down((#[trigger] s[i]).target(), a)
                        == last_aligned,
                end < s.len() ==> align::align_down(s[end as int].target(), a) > last_aligned,
            decreases s.len() - end,
        {
            let cur: u64 = align::align_down_u64(
                self.states[end].target_allocation_blocks_begin.index,
                target_allocation_blocks_alignment_log2,
            );
            proof {
                assert(s[states_index_range.end.index - 1].target() < s[end as int].target());
                align::lemma_align_down_mono(s[states_index_range.end.index - 1].target(), s[end as int].target(), a);
            }
            if cur != last_aligned {
                break ;
            }
            end = end + 1;
        }
        proof {
            assert forall|i: int| 0 <= i < begin implies align::align_down((#[trigger] s[i]).target(), a)
                < first_aligned by {
                if i < begin - 1 {
                    assert(s[i].target() < s[begin - 1].target());
                    align::lemma_align_down_mono(s[i].target(), s[begin - 1].target(), a);
                }
            }
            assert forall|i: int| end <= i < s.len() implies align::align_down((#[trigger] s[i]).target(), a)
                > last_aligned by {
                if end < i {
                    assert(s[end as int].target() < s[i].target());
                    align::lemma_align_down_mono(s[end as int].target(), s[i].target(), a);
                }
            }
        }
        AuthTreeDataBlocksUpdateStatesIndexRange {
            begin: AuthTreeDataBlocksUpdateStatesIndex { index: begin },
            end: AuthTreeDataBlocksUpdateStatesIndex { index: end },
        }
    }

    /// Extend an Allocation Block level index range to include all present
    /// states within a specified alignment's reach.
    ///
    /// Extend the given range at both ends to include present neighbour states
    /// without crossing a storage location alignment boundary as specified by
    /// `target_allocation_blocks_alignment_log2`.
    pub fn extend_states_allocation_blocks_index_range_within_alignment(
        &self,
        states_allocation_blocks_index_range: &AuthTreeDataBlocksUpdateStatesAllocationBlocksIndexRange,
        target_allocation_blocks_alignment_log2: u32,
    ) -> (r: AuthTreeDataBlocksUpdateStatesAllocationBlocksIndexRange)
        requires
            self.wf(),
            self.valid_blocks_range(states_allocation_blocks_index_range),
            target_allocation_blocks_alignment_log2 < 64,
        ensures
            self.valid_blocks_range(&r),
            self.extended_blocks_range(
                *states_allocation_blocks_index_range,
                target_allocation_blocks_alignment_log2 as nat,
                r,
            ),
    {
        let range = states_allocation_blocks_index_range;
        let ghost l = self.auth_log2();
        let ghost a = target_allocation_blocks_alignment_log2 as nat;
        proof {
            align::lemma_block_size_pos(l);
        }
        if target_allocation_blocks_alignment_log2 >= self.auth_tree_data_block_allocation_blocks_log2 as u32 {
            let states_index_range = AuthTreeDataBlocksUpdateStatesIndexRange::from(*range);
            let extended = self.extend_states_index_range_within_alignment(
                states_index_range,
                target_allocation_blocks_alignment_log2,
            );
            AuthTreeDataBlocksUpdateStatesAllocationBlocksIndexRange::from(extended)
        } else {
            // All contiguous regions intersecting with the specified range are aligned to
            // the Authentication Tree Data Block size by design, which is larger
            // than the requested alignment. Simply extend the bounds within their
            // containing respective Authentication Tree Data Blocks in order to make
            // them aligned.
            let begin_offset: usize = range.begin.allocation_block_index_in_auth_tree_data_block;
            let end_offset: usize = range.end.allocation_block_index_in_auth_tree_data_block;
            let aligned_begin_offset: u64 = align::align_down_u64(
                begin_offset as u64,
                target_allocation_blocks_alignment_log2,
            );
            let aligned_end_offset: u64 = align::align_down_u64(
                end_offset as u64,
                target_allocation_blocks_alignment_log2,
            );
            let size: u64 = align::block_size_u64(target_allocation_blocks_alignment_log2);
            proof {
                align::lemma_align_down_bounds(begin_offset as int, a);
                align::lemma_align_down_bounds(end_offset as int, a);
                align::lemma_block_size_split(a, l);
                align::lemma_block_size_usize(l);
                align::lemma_aligned_unit(l);
                align::lemma_aligned_unit(a);
                if aligned_end_offset != end_offset {
                    align::lemma_aligned_gap(aligned_end_offset as int, align::block_size(l), a);
                    align::lemma_aligned_next(aligned_end_offset as int, a);
                }
            }
            let end_align_up_padding: u64 = if aligned_end_offset == end_offset as u64 {
                0
            } else {
                size - (end_offset as u64 - aligned_end_offset)
            };
            proof {
                let x = end_offset + end_align_up_padding;
                if x < align::block_size(l) {
                    align::lemma_align_down_unique(x, 0, l);
                    align::lemma_blocks_align_down(x, l);
                }
            }
            let end = range.end.advance(
                AllocBlockCount { count: end_align_up_padding },
                self.auth_tree_data_block_allocation_blocks_log2 as u32,
            );
            let begin = AuthTreeDataBlocksUpdateStatesAllocationBlockIndex::new(
                range.begin.auth_tree_data_blocks_update_states_index,
                aligned_begin_offset as usize,
            );
            AuthTreeDataBlocksUpdateStatesAllocationBlocksIndexRange { begin, end }
        }
    }

    /// The range obtained by extending `range` to all present states within
    /// the blocks of given size containing its ends.
    pub open spec fn extended_blocks_range(
        &self,
        range: AuthTreeDataBlocksUpdateStatesAllocationBlocksIndexRange,
        alignment_log2: nat,
        r: AuthTreeDataBlocksUpdateStatesAllocationBlocksIndexRange,
    ) -> bool {
        let l = self.auth_log2();
        if alignment_log2 >= l {
            let c = AuthTreeDataBlocksUpdateStatesIndexRange::covering(range);
            &&& r.begin.offset() == 0
            &&& r.end.offset() == 0
            &&& self.extended_range(
                AuthTreeDataBlocksUpdateStatesIndexRange {
                    begin: AuthTreeDataBlocksUpdateStatesIndex { index: c.0 as usize },
                    end: AuthTreeDataBlocksUpdateStatesIndex { index: c.1 as usize },
                },
                alignment_log2,
                AuthTreeDataBlocksUpdateStatesIndexRange {
                    begin: r.begin.auth_tree_data_blocks_update_states_index,
                    end: r.end.auth_tree_data_blocks_update_states_index,
                },
            )
        } else {
            &&& r.begin.block() == range.begin.block()
            &&& r.begin.offset() == align::align_down(range.begin.offset(), alignment_log2)
            &&& r.end.wf(l)
            &&& align::aligned(r.end.offset(), alignment_log2)
            &&& range.end.position(l) <= r.end.position(l) < range.end.position(l) + align::block_size(alignment_log2)
        }
    }

    /// There's only one way to extend a range.
    pub proof fn lemma_extended_blocks_range_unique(
        &self,
        range: AuthTreeDataBlocksUpdateStatesAllocationBlocksIndexRange,
        alignment_log2: nat,
        r: AuthTreeDataBlocksUpdateStatesAllocationBlocksIndexRange,
        other: AuthTreeDataBlocksUpdateStatesAllocationBlocksIndexRange,
    )
        requires
            self.extended_blocks_range(range, alignment_log2, r),
            self.extended_blocks_range(range, alignment_log2, other),
        ensures
            r == other,
    {
        let l = self.auth_log2();
        if alignment_log2 >= l {
            let c = AuthTreeDataBlocksUpdateStatesIndexRange::covering(range);
            let (begin, end) = (c.0 as usize as int, c.1 as usize as int);
            let s = self.states@;
            if begin != end {
                if r.begin.block() < other.begin.block() {
                    assert(align::same_block(s[r.begin.block()].target(), s[begin].target(), alignment_log2));
                }
                if other.begin.block() < r.begin.block() {
                    assert(align::same_block(s[other.begin.block()].target(), s[begin].target(), alignment_log2));
                }
                if r.end.block() < other.end.block() {
                    assert(align::same_block(s[r.end.block()].target(), s[end - 1].target(), alignment_log2));
                }
                if other.end.block() < r.end.block() {
                    assert(align::same_block(s[other.end.block()].target(), s[end - 1].target(), alignment_log2));
                }
            }
        } else {
            let (x, y) = (r.end.position(l), other.end.position(l));
            align::lemma_multiple_is_aligned(r.end.block(), l);
            align::lemma_multiple_is_aligned(other.end.block(), l);
            align::lemma_aligned_finer(r.end.block() * align::block_size(l), alignment_log2, l);
            align::lemma_aligned_finer(other.end.block() * align::block_size(l), alignment_log2, l);
            align::lemma_aligned_sum(r.end.block() * align::block_size(l), r.end.offset(), alignment_log2);
            align::lemma_aligned_sum(other.end.block() * align::block_size(l), other.end.offset(), alignment_log2);
            if x < y {
                align::lemma_aligned_gap(x, y, alignment_log2);
            }
            if y < x {
                align::lemma_aligned_gap(y, x, alignment_log2);
            }
            states_index::lemma_position_injective(r.end, other.end, l);
        }
    }

    /// Determine an Allocation Block level update tracking state's associated
    /// location on storage.
    pub fn get_allocation_block_target(
        &self,
        states_allocation_block_index: &AuthTreeDataBlocksUpdateStatesAllocationBlockIndex,
    ) -> (r: PhysicalAllocBlockIndex)
        requires
            self.wf(),
            self.valid_block_index(states_allocation_block_index),
        ensures
            r.index == self.block_target(*states_allocation_block_index),
    {
        let i: usize = states_allocation_block_index.auth_tree_data_blocks_update_states_index.index;
        assert(self.states@[i as int].wf(self.auth_log2()));
        PhysicalAllocBlockIndex {
            index: self.states[i].target_allocation_blocks_begin.index
                + states_allocation_block_index.allocation_block_index_in_auth_tree_data_block as u64,
        }
    }

    /// Location past the last Allocation Block in an index range.
    pub open spec fn range_target_end(&self, range: AuthTreeDataBlocksUpdateStatesAllocationBlocksIndexRange) -> int {
        if range.begin == range.end {
            self.block_target(range.begin)
        } else if range.end.offset() == 0 {
            self.states@[range.end.block() - 1].target() + self.block_len()
        } else {
            self.block_target(range.end)
        }
    }

    /// Determine the maximal contiguous storage location range spanned by a
    /// given Allocation Block level index range.
    ///
    /// Any yet untracked gaps between the two ends are included.
    pub fn get_contiguous_region_target_range(
        &self,
        states_allocation_blocks_index_range: &AuthTreeDataBlocksUpdateStatesAllocationBlocksIndexRange,
    ) -> (r: PhysicalAllocBlockRange)
        requires
            self.wf(),
            self.valid_blocks_range(states_allocation_blocks_index_range),
            states_allocation_blocks_index_range.begin.block() < self.states.len(),
        ensures
            r.wf(),
            r.begin.index == self.block_target(states_allocation_blocks_index_range.begin),
            r.end.index == self.range_target_end(*states_allocation_blocks_index_range),
    {
        let range = states_allocation_blocks_index_range;
        let ghost l = self.auth_log2();
        let begin = self.get_allocation_block_target(&range.begin);
        if range.begin == range.end {
            return PhysicalAllocBlockRange::new(begin, begin);
        }
        proof {
            align::lemma_block_size_pos(l);
        }
        let last = range.end.step_back(self.auth_tree_data_block_allocation_blocks_log2 as u32).unwrap();
        let last_target = self.get_allocation_block_target(&last);
        proof {
            let (b, e) = (range.begin.block(), last.block());
            assert(self.states@[b].wf(l) && self.states@[e].wf(l));
            if b < e {
                align::lemma_aligned_gap(self.states@[b].target(), self.states@[e].target(), l);
            }
        }
        PhysicalAllocBlockRange::new(begin, PhysicalAllocBlockIndex { index: last_target.index + 1 })
    }

    /// The storage location range spanned by a contiguous index range is of
    /// the same length.
    pub proof fn law_contiguous_region_length(
        &self,
        range: AuthTreeDataBlocksUpdateStatesAllocationBlocksIndexRange,
    )
        requires
            self.wf(),
            self.valid_blocks_range(&range),
            range.begin.block() < self.states.len(),
            ({
                let c = AuthTreeDataBlocksUpdateStatesIndexRange::covering(range);
                states::contiguous(self.states@, self.auth_log2(), c.0, c.1)
            }),
        ensures
            self.range_target_end(range) - self.block_target(range.begin) == range.end.position(self.auth_log2())
                - range.begin.position(self.auth_log2()),
    {
        let l = self.auth_log2();
        let (b, size) = (range.begin.block(), align::block_size(l));
        align::lemma_block_size_pos(l);
        let e = if range.end.offset() == 0 {
            range.end.block() - 1
        } else {
            range.end.block()
        };
        if range.begin != range.end {
            assert(self.states@[e].target() == self.states@[b].target() + (e - b) * size);
            assert((e - b) * size == e * size - b * size) by (nonlinear_arith);
            assert((e + 1) * size == e * size + size) by (nonlinear_arith);
        }
    }

    /// Determine an Allocation Block level update tracking state's associated
    /// Journal Staging Copy location on storage, if any.
    ///
    /// If the containing IO Block qualifies for in-place writes, the target
    /// Allocation Block address is being returned.
    pub fn get_allocation_block_journal_staging_copy(
        &self,
        states_allocation_block_index: &AuthTreeDataBlocksUpdateStatesAllocationBlockIndex,
    ) -> (r: Option<PhysicalAllocBlockIndex>)
        requires
            self.wf(),
            self.valid_block_index(states_allocation_block_index),
        ensures
            match self.block_journal(*states_allocation_block_index) {
                Some(j) => r matches Some(p) && p.index == j,
                None => r is None,
            },
    {
        let i: usize = states_allocation_block_index.auth_tree_data_blocks_update_states_index.index;
        match self.states[i].journal_staging_copy_allocation_blocks_begin {
            Some(j) => {
                proof {
                    self.lemma_journal_room(i as int);
                }
                Some(
                    PhysicalAllocBlockIndex {
                        index: j.index
                            + states_allocation_block_index.allocation_block_index_in_auth_tree_data_block as u64,
                    },
                )
            },
            None => None,
        }
    }

    /// The end of an entry's Journal Staging Copy is addressable.
    pub proof fn lemma_journal_room(&self, i: int)
        requires
            self.wf(),
            0 <= i < self.states@.len(),
        ensures
            self.states@[i].journal_staging_copy_allocation_blocks_begin matches Some(j) ==> {
                &&& j.index + self.block_len() <= u64::MAX
                &&& align::aligned(j.index as int, self.auth_log2())
            },
    {
        let st = self.states@[i];
        let (l, jl) = (self.auth_log2(), self.journal_log2());
        assert(st.wf(l) && st.journal_wf(jl));
        if st.journal_staging_copy_allocation_blocks_begin is Some {
            let j = st.journal_staging_copy_allocation_blocks_begin->Some_0.index as int;
            let (t0, j0) = (align::align_down(st.target(), jl), align::align_down(j, jl));
            align::lemma_align_down_bounds(st.target(), jl);
            align::lemma_align_down_bounds(j, jl);
            align::lemma_block_size_split(l, jl);
            align::lemma_aligned_finer(t0, l, jl);
            align::lemma_aligned_finer(j0, l, jl);
            align::lemma_aligned_sum(st.target(), t0, l);
            align::lemma_aligned_sum(j0, st.target() - t0, l);
            align::lemma_aligned_gap(st.target() - t0, align::block_size(jl), l);
        }
    }

    /// All entries in the index range from `begin` to `end` have Journal
    /// Staging Copies assigned to them, at successive locations.
    pub open spec fn journal_contiguous(&self, begin: int, end: int) -> bool {
        forall|i: int|
            begin <= i < end ==> ((#[trigger] self.states@[i]).journal_staging_copy_allocation_blocks_begin matches Some(
                j,
            ) && self.states@[begin].journal_staging_copy_allocation_blocks_begin matches Some(j0) && j.index
                == j0.index + (i - begin) * self.block_len())
    }

    /// Determine an Allocation Block level update state index range's
    /// associated Journal Staging Copy location area on storage, if any and
    /// contiguous.
    pub fn get_contiguous_region_journal_staging_copy_range(
        &self,
        states_allocation_blocks_index_range: &AuthTreeDataBlocksUpdateStatesAllocationBlocksIndexRange,
    ) -> (r: Option<PhysicalAllocBlockRange>)
        requires
            self.wf(),
            self.valid_blocks_range(states_allocation_blocks_index_range),
            states_allocation_blocks_index_range.begin.block() < self.states.len(),
        ensures
            ({
                let range = *states_allocation_blocks_index_range;
                let c = AuthTreeDataBlocksUpdateStatesIndexRange::covering(range);
                r is Some <==> if range.begin == range.end {
                    self.block_journal(range.begin) is Some
                } else {
                    self.journal_contiguous(c.0, c.1)
                }
            }),
            r matches Some(j) ==> {
                let range = *states_allocation_blocks_index_range;
                &&& j.wf()
                &&& self.block_journal(range.begin) == Some(j.begin.index as int)
                &&& j.end.index - j.begin.index == range.end.position(self.auth_log2()) - range.begin.position(
                    self.auth_log2(),
                )
            },
    {
        let range = states_allocation_blocks_index_range;
        let ghost l = self.auth_log2();
        let ghost size = align::block_size(l);
        let ghost c = AuthTreeDataBlocksUpdateStatesIndexRange::covering(*range);
        proof {
            align::lemma_block_size_pos(l);
        }
        let journal_begin = match self.get_allocation_block_journal_staging_copy(&range.begin) {
            Some(journal_begin) => journal_begin,
            None => {
                return None;
            },
        };
        if range.begin == range.end {
            return Some(PhysicalAllocBlockRange::new(journal_begin, journal_begin));
        }
        // A states range qualifying as a contiguous region implies only that
        // the associated _target_ region is contiguous. Verify that the same
        // holds for the associated Journal Data Staging Copy, if any.
        let block_len: u64 = align::block_size_u64(self.auth_tree_data_block_allocation_blocks_log2 as u32);
        let states_index_range = AuthTreeDataBlocksUpdateStatesIndexRange::from(*range);
        let mut last: u64 = match self.states[states_index_range.begin.index].journal_staging_copy_allocation_blocks_begin {
            Some(j) => j.index,
            None => {
                return None;
            },
        };
        let ghost first = last as int;
        let mut i: usize = states_index_range.begin.index + 1;
        assert(0 * size == 0) by (nonlinear_arith);
        while i < states_index_range.end.index
            invariant
                self.wf(),
                range == states_allocation_blocks_index_range,
                range.begin != range.end,
                c == AuthTreeDataBlocksUpdateStatesIndexRange::covering(*range),
                c.0 == states_index_range.begin.index,
                c.1 == states_index_range.end.index,
                c.1 <= self.states.len(),
                c.0 < i <= c.1,
                l == self.auth_log2(),
                size == align::block_size(l),
                block_len == size,
                self.states@[c.0].journal_staging_copy_allocation_blocks_begin matches Some(j0) && j0.index == first,
                self.journal_contiguous(c.0, i as int),
                last == first + (i - 1 - c.0) * size,
            decreases c.1 - i,
        {
            let cur: u64 = match self.states[i].journal_staging_copy_allocation_blocks_begin {
                Some(j) => j.index,
                None => {
                    return None;
                },
            };
            proof {
                let k = i - c.0;
                assert(k * size == (k - 1) * size + size) by (nonlinear_arith);
            }
            if cur < last || cur - last != block_len {
                return None;
            }
            last = cur;
            i = i + 1;
        }
        // Ok, determine the Journal Data Staging Copy position past the range's last
        // Allocation Block.
        let last_index = range.end.step_back(self.auth_tree_data_block_allocation_blocks_log2 as u32).unwrap();
        proof {
            let (b, e) = (c.0, last_index.block());
            self.lemma_journal_room(e);
            let j = self.states@[e].journal_staging_copy_allocation_blocks_begin;
            assert((e - b) * size == e * size - b * size) by (nonlinear_arith);
            crate::states_index::lemma_position_injective(range.begin, range.end, l);
        }
        match self.get_allocation_block_journal_staging_copy(&last_index) {
            Some(journal_last) => Some(
                PhysicalAllocBlockRange::new(journal_begin, PhysicalAllocBlockIndex { index: journal_last.index + 1 }),
            ),
            None => None,
        }
    }

    /// The index separates the Allocation Block level entries for locations
    /// before `location` from all others.
    pub open spec fn locates(
        &self,
        location: int,
        index: AuthTreeDataBlocksUpdateStatesAllocationBlockIndex,
    ) -> bool {
        forall|block: int, offset: int|
            #![trigger self.states@[block], self.in_block(offset)]
            0 <= block < self.states@.len() && self.in_block(offset) ==> ((block < index.block() || block
                == index.block() && offset < index.offset()) <==> self.states@[block].target() + offset < location)
    }

    /// The offset is within an Authentication Tree Data Block.
    pub open spec fn in_block(&self, offset: int) -> bool {
        0 <= offset < self.block_len()
    }

    /// Find the Allocation Block level index separating the entries for storage
    /// locations before the specified one from all others.
    ///
    /// In addition to that index, it is returned whether there is an entry for
    /// the location.
    fn locate_allocation_block(
        &self,
        location: PhysicalAllocBlockIndex,
    ) -> (r: (AuthTreeDataBlocksUpdateStatesAllocationBlockIndex, bool))
        requires
            self.wf(),
        ensures
            self.locates(location.index as int, r.0),
            states::insertion_point(
                self.states@,
                align::align_down(location.index as int, self.auth_log2()),
                r.0.block(),
            ),
            r.0.wf(self.auth_log2()),
            r.0.block() < self.states.len() || r.0.block() == self.states.len() && r.0.offset() == 0,
            r.1 <==> r.0.block() < self.states@.len() && self.states@[r.0.block()].target() == align::align_down(
                location.index as int,
                self.auth_log2(),
            ),
            r.1 ==> self.block_target(r.0) == location.index,
            !r.1 ==> r.0.offset() == 0,
    {
        let ghost l = self.auth_log2();
        let ghost s = self.states@;
        proof {
            align::lemma_align_down_bounds(location.index as int, l);
            align::lemma_block_size_usize(l);
            align::lemma_block_size_pos(l);
        }
        let target = location.align_down(self.auth_tree_data_block_allocation_blocks_log2 as u32);
        let r = match self.lookup_auth_tree_data_block_update_state_index(target) {
            Ok(index) => (
                AuthTreeDataBlocksUpdateStatesAllocationBlockIndex::new(
                    index,
                    (location.index - target.index) as usize,
                ),
                true,
            ),
            Err(index) => (AuthTreeDataBlocksUpdateStatesAllocationBlockIndex::from(index), false),
        };
        proof {
            assert forall|block: int, offset: int|
                #![trigger self.states@[block], self.in_block(offset)]
                0 <= block < s.len() && self.in_block(offset) implies ((block < r.0.block() || block == r.0.block()
                && offset < r.0.offset()) <==> s[block].target() + offset < location.index) by {
                assert(s[block].wf(l));
                let t = s[block].target();
                if t < target.index {
                    align::lemma_aligned_gap(t, target.index as int, l);
                } else if t > target.index {
                    align::lemma_aligned_gap(target.index as int, t, l);
                }
            }
        }
        r
    }

    /// Whether the entry overlaps with a range of storage locations.
    pub open spec fn overlaps(&self, i: int, range: PhysicalAllocBlockRange) -> bool {
        let t = self.states@[i].target();
        t <= range.begin.index < t + self.block_len() || range.has(t)
    }

    /// Lookup an Allocation Block level index range tracking a given storage
    /// region.
    ///
    /// Returns the index range wrapped in an [`Ok`] if some overlapping update
    /// tracking states had been found, or an insertion position index
    /// wrapped in an [`Err`] otherwise.
    ///
    /// # Arguments:
    ///
    /// * `target_allocation_blocks_range` - The storage region to search for.
    pub fn lookup_allocation_blocks_update_states_index_range(
        &self,
        target_allocation_blocks_range: &PhysicalAllocBlockRange,
    ) -> (r: Result<
        AuthTreeDataBlocksUpdateStatesAllocationBlocksIndexRange,
        AuthTreeDataBlocksUpdateStatesIndex,
    >)
        requires
            self.wf(),
            target_allocation_blocks_range.wf(),
        ensures
            r is Ok <==> exists|i: int|
                0 <= i < self.states@.len() && #[trigger] self.overlaps(i, *target_allocation_blocks_range),
            match r {
                Ok(range) => {
                    &&& self.valid_blocks_range(&range)
                    &&& range.begin.block() < self.states@.len()
                    &&& self.locates(target_allocation_blocks_range.begin.index as int, range.begin)
                    &&& self.locates(target_allocation_blocks_range.end.index as int, range.end)
                },
                Err(index) => states::insertion_point(
                    self.states@,
                    align::align_down(target_allocation_blocks_range.begin.index as int, self.auth_log2()),
                    index.index as int,
                ),
            },
    {
        let ghost l = self.auth_log2();
        let ghost s = self.states@;
        let ghost range = *target_allocation_blocks_range;
        let (begin, found) = self.locate_allocation_block(target_allocation_blocks_range.begin);
        let first: usize = begin.auth_tree_data_blocks_update_states_index.index;
        proof {
            align::lemma_align_down_bounds(range.begin.index as int, l);
            align::lemma_block_size_pos(l);
            assert forall|i: int| first < i < s.len() implies s[first as int].target() < (#[trigger] s[i]).target() by {}
        }
        if !found && (first >= self.states.len() || self.states[first].target_allocation_blocks_begin.index
            >= target_allocation_blocks_range.end.index) {
            proof {
                assert forall|i: int| 0 <= i < s.len() implies !#[trigger] self.overlaps(i, range) by {
                    assert(s[i].wf(l));
                    let (t, b) = (s[i].target(), align::align_down(range.begin.index as int, l));
                    if i < first {
                        align::lemma_aligned_gap(t, b, l);
                    } else {
                        assert(s[first as int].target() <= t);
                        assert(b < s[first as int].target());
                        align::lemma_aligned_gap(b, t, l);
                    }
                }
            }
            return Err(begin.auth_tree_data_blocks_update_states_index);
        }
        let (end, _) = self.locate_allocation_block(target_allocation_blocks_range.end);
        proof {
            assert(s[first as int].wf(l));
            let b = align::align_down(range.begin.index as int, l);
            if !found {
                align::lemma_aligned_gap(b, s[first as int].target(), l);
            }
            assert(self.overlaps(first as int, range));
            let e = align::align_down(range.end.index as int, l);
            align::lemma_align_down_mono(range.begin.index as int, range.end.index as int, l);
            align::lemma_align_down_bounds(range.end.index as int, l);
            if end.block() < begin.block() {
                assert(s[end.block()].target() < b);
            }
        }
        Ok(AuthTreeDataBlocksUpdateStatesAllocationBlocksIndexRange::new(&begin, &end))
    }
}

} // verus!
