//! Locations and extents on storage in units of Allocation Blocks.
use crate::align;
use vstd::prelude::*;

verus! {

/// Number of Allocation Blocks.
#[derive(Clone, Copy, Debug, PartialEq, Eq, PartialOrd, Ord, Hash, Structural)]
pub struct AllocBlockCount {
    pub count: u64,
}

impl From<u64> for AllocBlockCount {
    fn from(value: u64) -> (r: Self) {
        AllocBlockCount { count: value }
    }
}

impl vstd::std_specs::convert::FromSpecImpl<u64> for AllocBlockCount {
    open spec fn obeys_from_spec() -> bool {
        true
    }

    open spec fn from_spec(value: u64) -> Self {
        AllocBlockCount { count: value }
    }
}

impl From<AllocBlockCount> for u64 {
    fn from(value: AllocBlockCount) -> (r: u64) {
        value.count
    }
}

impl vstd::std_specs::convert::FromSpecImpl<AllocBlockCount> for u64 {
    open spec fn obeys_from_spec() -> bool {
        true
    }

    open spec fn from_spec(value: AllocBlockCount) -> Self {
        value.count
    }
}

/// Location of an Allocation Block on storage.
#[derive(Clone, Copy, Debug, PartialEq, Eq, PartialOrd, Ord, Hash, Structural)]
pub struct PhysicalAllocBlockIndex {
    pub index: u64,
}

impl From<u64> for PhysicalAllocBlockIndex {
    fn from(value: u64) -> (r: Self) {
        PhysicalAllocBlockIndex { index: value }
    }
}

impl vstd::std_specs::convert::FromSpecImpl<u64> for PhysicalAllocBlockIndex {
    open spec fn obeys_from_spec() -> bool {
        true
    }

    open spec fn from_spec(value: u64) -> Self {
        PhysicalAllocBlockIndex { index: value }
    }
}

impl From<PhysicalAllocBlockIndex> for u64 {
    fn from(value: PhysicalAllocBlockIndex) -> (r: u64) {
        value.index
    }
}

impl vstd::std_specs::convert::FromSpecImpl<PhysicalAllocBlockIndex> for u64 {
    open spec fn obeys_from_spec() -> bool {
        true
    }

    open spec fn from_spec(value: PhysicalAllocBlockIndex) -> Self {
        value.index
    }
}

impl PhysicalAllocBlockIndex {
    /// Align the location downwards to a multiple of some block size.
    pub fn align_down(&self, block_allocation_blocks_log2: u32) -> (r: Self)
        requires
            block_allocation_blocks_log2 < 64,
        ensures
            r.index == align::align_down(self.index as int, block_allocation_blocks_log2 as nat),
    {
        PhysicalAllocBlockIndex { index: align::align_down_u64(self.index, block_allocation_blocks_log2) }
    }
}

/// Extent on storage.
///
/// The extent's end is exclusive.
#[derive(Clone, Copy, Debug, PartialEq, Eq, Structural)]
pub struct PhysicalAllocBlockRange {
    pub begin: PhysicalAllocBlockIndex,
    pub end: PhysicalAllocBlockIndex,
}

impl PhysicalAllocBlockRange {
    /// The range's end is not located before its beginning.
    pub open spec fn wf(&self) -> bool {
        self.begin.index <= self.end.index
    }

    /// Whether a location is within the range.
    pub open spec fn has(&self, i: int) -> bool {
        self.begin.index <= i < self.end.index
    }

    /// Instantiate a range.
    pub fn new(begin: PhysicalAllocBlockIndex, end: PhysicalAllocBlockIndex) -> (r: Self)
        requires
            begin.index <= end.index,
        ensures
            r.wf(),
            r.begin == begin,
            r.end == end,
    {
        PhysicalAllocBlockRange { begin, end }
    }

    /// Get the range's beginning.
    pub fn begin(&self) -> (r: PhysicalAllocBlockIndex)
        ensures
            r == self.begin,
    {
        self.begin
    }

    /// Get the range's end.
    pub fn end(&self) -> (r: PhysicalAllocBlockIndex)
        ensures
            r == self.end,
    {
        self.end
    }

    /// Get the range's length.
    pub fn block_count(&self) -> (r: AllocBlockCount)
        requires
            self.wf(),
        ensures
            r.count == self.end.index - self.begin.index,
    {
        AllocBlockCount { count: self.end.index - self.begin.index }
    }

    /// Extend the range to the boundaries of blocks of the specified size.
    ///
    /// `None` is returned if the aligned range's end would exceed the storage
    /// address space.
    pub fn align(&self, block_allocation_blocks_log2: u32) -> (r: Option<Self>)
        requires
            self.wf(),
            block_allocation_blocks_log2 < 64,
        ensures
            r matches Some(a) ==> {
                let l = block_allocation_blocks_log2 as nat;
                &&& a.wf()
                &&& a.begin.index == align::align_down(self.begin.index as int, l)
                &&& align::aligned(a.end.index as int, l)
                &&& self.end.index <= a.end.index < self.end.index + align::block_size(l)
            },
            r is None <==> align::align_down(self.end.index as int, block_allocation_blocks_log2 as nat)
                != self.end.index && align::align_down(
                self.end.index as int,
                block_allocation_blocks_log2 as nat,
            ) + align::block_size(block_allocation_blocks_log2 as nat) > u64::MAX,
    {
        broadcast use crate::align::lemma_align_down_bounds;

        let b: u64 = align::block_size_u64(block_allocation_blocks_log2);
        let begin: u64 = align::align_down_u64(self.begin.index, block_allocation_blocks_log2);
        let down: u64 = align::align_down_u64(self.end.index, block_allocation_blocks_log2);
        let end: u64 = if down == self.end.index {
            down
        } else if down > u64::MAX - b {
            return None;
        } else {
            proof {
                align::lemma_aligned_next(down as int, block_allocation_blocks_log2 as nat);
            }
            down + b
        };
        Some(
            PhysicalAllocBlockRange {
                begin: PhysicalAllocBlockIndex { index: begin },
                end: PhysicalAllocBlockIndex { index: end },
            },
        )
    }
}

} // verus!
