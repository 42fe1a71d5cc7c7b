//! Allocation Block allocation status bookkeeping.
use crate::align;
use crate::layout::PhysicalAllocBlockIndex;
use vstd::prelude::*;

verus! {

/// Unit of storage for bitmaps.
pub type BitmapWord = u64;

/// Value of a bit in a bitmap word.
pub open spec fn bit(word: BitmapWord, i: int) -> bool {
    (word >> (i as u64)) & 1 == 1
}

/// Test a bit in a bitmap word.
pub fn test_bit(word: BitmapWord, i: u64) -> (r: bool)
    requires
        i < 64,
    ensures
        r == bit(word, i as int),
{
    (word >> i) & 1 == 1
}

/// Allocation status of all Allocation Blocks on storage.
///
/// Allocation Blocks not covered by the bitmap are unallocated.
pub struct AllocBitmap {
    /// The bitmap words, with the Allocation Blocks assigned to their bits in
    /// order from least to most significant.
    pub words: Vec<BitmapWord>,
}

impl AllocBitmap {
    /// Whether the Allocation Block at a given location is allocated.
    pub open spec fn allocated(&self, i: int) -> bool {
        &&& 0 <= i / 64 < self.words@.len()
        &&& bit(self.words@[i / 64], i % 64)
    }

    /// Whether any Allocation Block in a given block is allocated.
    pub open spec fn any_allocated(&self, begin: int, log2: nat) -> bool {
        exists|i: int| begin <= i < begin + align::block_size(log2) && #[trigger] self.allocated(i)
    }

    /// Instantiate an allocation bitmap from its words.
    pub fn new(words: Vec<BitmapWord>) -> (r: Self)
        ensures
            r.words == words,
    {
        AllocBitmap { words }
    }

    /// Test whether an Allocation Block is allocated.
    pub fn is_allocated(&self, location: PhysicalAllocBlockIndex) -> (r: bool)
        ensures
            r == self.allocated(location.index as int),
    {
        let word_index: u64 = location.index / 64;
        if word_index < self.words.len() as u64 {
            test_bit(self.words[word_index as usize], location.index % 64)
        } else {
            false
        }
    }

    /// Test whether any of a block's Allocation Blocks is allocated.
    pub fn is_any_allocated_in_block(
        &self,
        block_begin: PhysicalAllocBlockIndex,
        block_allocation_blocks_log2: u32,
    ) -> (r: bool)
        requires
            block_allocation_blocks_log2 < 64,
            align::aligned(block_begin.index as int, block_allocation_blocks_log2 as nat),
        ensures
            r == self.any_allocated(block_begin.index as int, block_allocation_blocks_log2 as nat),
    {
        let n: u64 = align::block_size_u64(block_allocation_blocks_log2);
        proof {
            align::lemma_aligned_u64_room(block_begin.index, block_allocation_blocks_log2 as nat);
        }
        let mut i: u64 = 0;
        while i < n
            invariant
                i <= n,
                block_begin.index + n <= 0x1_0000_0000_0000_0000,
                n == align::block_size(block_allocation_blocks_log2 as nat),
                forall|j: int|
                    block_begin.index <= j < block_begin.index + i ==> !#[trigger] self.allocated(j),
            decreases n - i,
        {
            if self.is_allocated(PhysicalAllocBlockIndex { index: block_begin.index + i }) {
                return true;
            }
            i = i + 1;
        }
        false
    }
}

/// One word of a sparse bitmap.
#[derive(Clone, Copy, Debug, PartialEq, Eq, Structural)]
pub struct SparseAllocBitmapEntry {
    /// Location of the Allocation Block assigned to the word's least
    /// significant bit, always a multiple of the word's width.
    pub begin: PhysicalAllocBlockIndex,
    pub bits: BitmapWord,
}

/// Sparse set of Allocation Blocks.
pub struct SparseAllocBitmap {
    /// The bitmap's non-trivial words, ordered by location.
    pub entries: Vec<SparseAllocBitmapEntry>,
}

impl SparseAllocBitmap {
    /// The entries are ordered by location, each aligned to the word width.
    pub open spec fn wf(&self) -> bool {
        &&& forall|i: int|
            0 <= i < self.entries@.len() ==> #[trigger] self.entries@[i].begin.index % 64 == 0
        &&& forall|i: int, j: int|
            0 <= i < j < self.entries@.len() ==> #[trigger] self.entries@[i].begin.index
                < #[trigger] self.entries@[j].begin.index
    }

    /// Whether the Allocation Block at a given location is in the set.
    pub open spec fn has(&self, i: int) -> bool {
        exists|k: int|
            0 <= k < self.entries@.len() && #[trigger] self.entries@[k].begin.index == i - i % 64
                && bit(self.entries@[k].bits, i % 64)
    }

    /// Instantiate an empty set.
    pub fn new() -> (r: Self)
        ensures
            r.wf(),
            forall|i: int| !r.has(i),
    {
        SparseAllocBitmap { entries: Vec::new() }
    }

    /// Test whether an Allocation Block is in the set.
    pub fn is_set(&self, location: PhysicalAllocBlockIndex) -> (r: bool)
        requires
            self.wf(),
        ensures
            r == self.has(location.index as int),
    {
        let begin: u64 = location.index - location.index % 64;
        let mut lo: usize = 0;
        let mut hi: usize = self.entries.len();
        while lo < hi
            invariant
                self.wf(),
                lo <= hi <= self.entries@.len(),
                begin == location.index - location.index % 64,
                forall|k: int| 0 <= k < lo ==> #[trigger] self.entries@[k].begin.index < begin,
                forall|k: int|
                    hi <= k < self.entries@.len() ==> #[trigger] self.entries@[k].begin.index > begin,
            decreases hi - lo,
        {
            let mid: usize = lo + (hi - lo) / 2;
            let entry = self.entries[mid];
            if entry.begin.index == begin {
                assert(self.entries@[mid as int] == entry);
                assert forall|k: int|
                    0 <= k < self.entries@.len() && #[trigger] self.entries@[k].begin.index == begin implies k
                    == mid by {}
                return test_bit(entry.bits, location.index % 64);
            } else if entry.begin.index < begin {
                lo = mid + 1;
            } else {
                hi = mid;
            }
        }
        false
    }
}

} // verus!
