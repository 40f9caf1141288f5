use slab_allocator::allocator::{cache_size, class_for, slab_for_page, NUM_CLASSES};
use slab_allocator::page::{PagePool, PAGE_SIZE};
use slab_allocator::SlabAllocator;
use std::alloc::Layout;

fn align_up(a: usize) -> usize {
    (a + PAGE_SIZE - 1) / PAGE_SIZE * PAGE_SIZE
}

#[test]
fn test_allocator_creation() {
    let allocator = SlabAllocator::new(0x100000, 1024 * 1024);
    let layout = Layout::from_size_align(64, 8).unwrap();
    let size = allocator.object_size_for(layout.size());
    assert_eq!(size, Some(64));
}

#[test]
fn test_allocator_size_selection() {
    let allocator = SlabAllocator::new(0x100000, 1024 * 1024);
    assert_eq!(allocator.object_size_for(Layout::from_size_align(7, 1).unwrap().size()), Some(8));
    assert_eq!(allocator.object_size_for(Layout::from_size_align(32, 1).unwrap().size()), Some(32));
    assert_eq!(allocator.object_size_for(Layout::from_size_align(100, 1).unwrap().size()), Some(128));
    assert_eq!(allocator.object_size_for(Layout::from_size_align(1025, 1).unwrap().size()), None);
}

#[test]
fn size_selection_scenarios() {
    let allocator = SlabAllocator::new(0x100000, 0);
    assert_eq!(allocator.object_size_for(7), Some(8));
    assert_eq!(allocator.object_size_for(32), Some(32));
    assert_eq!(allocator.object_size_for(100), Some(128));
    assert_eq!(allocator.object_size_for(1024), Some(1024));
    assert_eq!(allocator.object_size_for(1025), None);
    assert_eq!(allocator.object_size_for(0), Some(8));
}

#[test]
fn size_selection_is_monotonic_and_smallest() {
    let allocator = SlabAllocator::new(0x100000, 0);
    let classes: Vec<usize> = (0..NUM_CLASSES).map(cache_size).collect();
    assert_eq!(classes, vec![8, 16, 32, 64, 128, 256, 512, 1024]);
    let mut prev = 0;
    for n in 0..=1024usize {
        let c = allocator.object_size_for(n).unwrap();
        assert!(c >= prev);
        assert!(n <= c);
        let smallest = *classes.iter().find(|&&k| n <= k).unwrap();
        assert_eq!(c, smallest);
        prev = c;
    }
}

#[test]
fn class_for_rejects_oversize_and_overalignment() {
    assert_eq!(class_for(64, 8), Some(3));
    assert_eq!(class_for(64, 64), Some(3));
    assert_eq!(class_for(64, 128), None);
    assert_eq!(class_for(1025, 1), None);
    assert_eq!(class_for(0, 1), Some(0));
}

#[test]
fn page_pool_hands_out_aligned_pages() {
    let mut pool = PagePool::new(100, 3 * PAGE_SIZE);
    let first = pool.acquire_page().unwrap();
    assert_eq!(first, PAGE_SIZE);
    let second = pool.acquire_page().unwrap();
    assert_eq!(second, 2 * PAGE_SIZE);
    assert!(pool.acquire_page().is_none());
    assert!(pool.acquire_page().is_none());
}

#[test]
fn slab_for_page_layout() {
    let slab = slab_for_page(3, 0x10000);
    assert_eq!(slab.object_size(), 64);
    assert_eq!(slab.capacity(), 64);
    assert!(slab.is_empty());
    assert!(slab.contains(0x10000));
    assert!(slab.contains(0x10000 + PAGE_SIZE - 1));
    assert!(!slab.contains(0x10000 + PAGE_SIZE));
}

#[test]
fn allocator_end_to_end() {
    let buf = vec![0u8; 64 * 1024];
    let base = buf.as_ptr() as usize;
    let first_page = align_up(base);
    let mut allocator = SlabAllocator::new(base, buf.len());
    let a1 = allocator.allocate(64, 8).unwrap();
    assert_eq!(a1, first_page);
    assert_eq!(a1 % 64, 0);
    let per_slab = PAGE_SIZE / 64;
    assert_eq!(per_slab, 64);
    let mut got = vec![a1];
    for _ in 1..per_slab {
        let a = allocator.allocate(64, 8).unwrap();
        assert!(a >= first_page && a < first_page + PAGE_SIZE);
        assert_eq!(a % 64, 0);
        assert!(!got.contains(&a));
        got.push(a);
    }
    let st = allocator.cache_stats(3);
    assert_eq!(st.full_slabs, 1);
    assert_eq!(st.partial_slabs, 0);
    // The next request needs a second page.
    let b = allocator.allocate(64, 8).unwrap();
    assert!(b >= first_page + PAGE_SIZE && b < first_page + 2 * PAGE_SIZE);
    let st = allocator.cache_stats(3);
    assert_eq!(st.full_slabs, 1);
    assert_eq!(st.partial_slabs, 1);
    assert_eq!(st.total_objects, 2 * per_slab);
    assert_eq!(st.used_objects, per_slab + 1);
    allocator.deallocate(a1, 64);
    let st = allocator.cache_stats(3);
    assert_eq!(st.full_slabs, 0);
    assert_eq!(st.partial_slabs, 2);
    assert_eq!(allocator.allocate(64, 8), Some(a1));
}

#[test]
fn allocator_oversize_takes_no_page() {
    let buf = vec![0u8; 16 * 1024];
    let base = buf.as_ptr() as usize;
    let mut allocator = SlabAllocator::new(base, buf.len());
    assert_eq!(allocator.allocate(1025, 1), None);
    assert_eq!(allocator.allocate(64, 128), None);
    for i in 0..NUM_CLASSES {
        assert_eq!(allocator.cache_stats(i).total_objects, 0);
    }
    let a = allocator.allocate(8, 8).unwrap();
    assert_eq!(a, align_up(base));
}

#[test]
fn allocator_out_of_pages() {
    let mut allocator = SlabAllocator::new(0x10000, PAGE_SIZE);
    let per_slab = PAGE_SIZE / 1024;
    for _ in 0..per_slab {
        assert!(allocator.allocate(1024, 8).is_some());
    }
    assert_eq!(allocator.allocate(1000, 8), None);
    assert_eq!(allocator.allocate(8, 8), None);
}

#[test]
fn allocator_classes_use_separate_pages() {
    let mut allocator = SlabAllocator::new(0x10000, 8 * PAGE_SIZE);
    let small = allocator.allocate(8, 1).unwrap();
    let big = allocator.allocate(512, 1).unwrap();
    let zero = allocator.allocate(0, 1).unwrap();
    assert_eq!(small, 0x10000);
    assert_eq!(big, 0x11000);
    assert_eq!(zero, small + 8);
    assert_eq!(allocator.cache_stats(0).used_objects, 2);
    assert_eq!(allocator.cache_stats(6).used_objects, 1);
    allocator.deallocate(0, 8);
    allocator.deallocate(big, 2048);
    assert_eq!(allocator.cache_stats(6).used_objects, 1);
    allocator.deallocate(big, 300);
    assert_eq!(allocator.cache_stats(6).used_objects, 0);
}

#[test]
fn allocator_addresses_meet_requested_alignment() {
    let mut allocator = SlabAllocator::new(0x10000, 16 * PAGE_SIZE);
    for &(size, align) in &[(32usize, 32usize), (64, 64), (24, 8), (100, 128), (1024, 1024), (3, 4)] {
        for _ in 0..5 {
            let a = allocator.allocate(size, align).unwrap();
            assert_eq!(a % align, 0);
            assert_eq!(a % allocator.object_size_for(size).unwrap(), 0);
        }
    }
}

#[test]
fn allocator_takes_no_page_while_cells_remain() {
    let mut allocator = SlabAllocator::new(0x10000, PAGE_SIZE);
    let a = allocator.allocate(512, 8).unwrap();
    for _ in 1..(PAGE_SIZE / 512) {
        assert!(allocator.allocate(512, 8).is_some());
    }
    assert_eq!(allocator.allocate(512, 8), None);
    allocator.deallocate(a, 512);
    assert_eq!(allocator.cache_stats(6).used_objects, PAGE_SIZE / 512 - 1);
    assert_eq!(allocator.allocate(512, 8), Some(a));
}
