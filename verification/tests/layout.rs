use cocoonfs::align;
use cocoonfs::alloc_bitmap::{AllocBitmap, SparseAllocBitmap, SparseAllocBitmapEntry};
use cocoonfs::layout::{AllocBlockCount, PhysicalAllocBlockIndex, PhysicalAllocBlockRange};
use cocoonfs::read_missing_data::TransactionReadMissingDataFuture;

fn loc(index: u64) -> PhysicalAllocBlockIndex {
    PhysicalAllocBlockIndex { index }
}

#[test]
fn alignment() {
    assert_eq!(align::block_size_u64(5), 32);
    assert_eq!(align::block_size_usize(3), 8);
    assert_eq!(align::blocks_u64(35, 3), 4);
    assert_eq!(align::align_down_u64(35, 3), 32);
    assert_eq!(align::align_down_u64(u64::MAX, 63), 1 << 63);
    assert!(align::same_block_u64(32, 39, 3));
    assert!(!align::same_block_u64(39, 40, 3));
    assert_eq!(loc(35).align_down(3), loc(32));
}

#[test]
fn extents() {
    let range = PhysicalAllocBlockRange::new(loc(3), loc(9));
    assert_eq!((range.begin(), range.end()), (loc(3), loc(9)));
    assert_eq!(range.block_count(), AllocBlockCount::from(6));
    assert_eq!(u64::from(range.block_count()), 6);
    assert_eq!(u64::from(range.begin()), 3);
    assert_eq!(PhysicalAllocBlockIndex::from(3), range.begin());
    assert_eq!(range.align(2), Some(PhysicalAllocBlockRange::new(loc(0), loc(12))));
    assert_eq!(range.align(0), Some(range));
    assert_eq!(PhysicalAllocBlockRange::new(loc(0), loc(u64::MAX)).align(1), None);
}

#[test]
fn allocation_bitmap() {
    let bitmap = AllocBitmap::new(vec![1 << 3, 1 << 1]);
    assert!(bitmap.is_allocated(loc(3)));
    assert!(!bitmap.is_allocated(loc(4)));
    assert!(bitmap.is_allocated(loc(65)));
    assert!(!bitmap.is_allocated(loc(1000)));
    assert!(bitmap.is_any_allocated_in_block(loc(0), 2));
    assert!(!bitmap.is_any_allocated_in_block(loc(4), 2));
    assert!(bitmap.is_any_allocated_in_block(loc(64), 6));
    assert!(!bitmap.is_any_allocated_in_block(loc(128), 6));
}

#[test]
fn sparse_allocation_bitmap() {
    let mut bitmap = SparseAllocBitmap::new();
    assert!(!bitmap.is_set(loc(0)));
    bitmap.entries.push(SparseAllocBitmapEntry { begin: loc(64), bits: 2 });
    bitmap.entries.push(SparseAllocBitmapEntry { begin: loc(192), bits: 1 });
    assert!(bitmap.is_set(loc(65)));
    assert!(!bitmap.is_set(loc(64)));
    assert!(!bitmap.is_set(loc(129)));
    assert!(bitmap.is_set(loc(192)));
}

#[test]
fn read_block_sizes() {
    assert_eq!(TransactionReadMissingDataFuture::min_read_block_allocation_blocks_log2(5, 2), 3);
    assert_eq!(TransactionReadMissingDataFuture::min_read_block_allocation_blocks_log2(1, 2), 0);
    // At least the size of an Authentication Tree Data Block.
    assert_eq!(
        TransactionReadMissingDataFuture::preferred_read_block_allocation_blocks_log2(2, 0, 0, 6),
        6
    );
    assert_eq!(
        TransactionReadMissingDataFuture::preferred_read_block_allocation_blocks_log2(2, 5, 0, 3),
        7
    );
}
