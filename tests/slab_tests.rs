use slab_allocator::slab::Slab;

fn region(bytes: usize) -> (Vec<u8>, usize) {
    let buf = vec![0u8; bytes];
    let base = buf.as_ptr() as usize;
    (buf, base)
}

#[test]
fn test_slab_creation() {
    let slab = Slab::new(64, 4096);
    assert_eq!(slab.object_size(), 64);
    assert_eq!(slab.capacity(), 64);
}

#[test]
fn test_slab_init() {
    let mut slab = Slab::new(64, 4096);
    let (_buf, base) = region(4096);
    assert!(base != 0);
    slab.init(base);
    assert_eq!(slab.free_count(), 64);
    assert!(slab.is_empty());
    assert!(!slab.is_full());
}

#[test]
fn test_alloc_dealloc() {
    let mut slab = Slab::new(64, 4096);
    let (_buf, base) = region(4096);
    slab.init(base);
    let obj1 = slab.allocate().unwrap();
    assert_eq!(slab.free_count(), 63);
    let obj2 = slab.allocate().unwrap();
    assert_eq!(slab.free_count(), 62);
    slab.dealloc(obj1);
    assert_eq!(slab.free_count(), 63);
    slab.dealloc(obj2);
    assert_eq!(slab.free_count(), 64);
    assert!(slab.is_empty());
}

#[test]
fn test_alloc_full_slab() {
    let mut slab = Slab::new(64, 256);
    let (_buf, base) = region(256);
    slab.init(base);
    for _ in 0..4 {
        assert!(slab.allocate().is_some());
    }
    assert!(slab.is_full());
    assert!(slab.allocate().is_none());
}

#[test]
fn test_contains() {
    let mut slab = Slab::new(64, 4096);
    let (_buf, base) = region(4096);
    slab.init(base);
    let obj = slab.allocate().unwrap();
    assert!(slab.contains(obj));
    let external: usize = 1;
    assert!(!slab.contains(external));
}

#[test]
fn slab_fresh_state() {
    let mut slab = Slab::new(64, 4096);
    assert_eq!(slab.free_count(), 0);
    assert!(slab.is_full());
    slab.init(0x10000);
    assert_eq!(slab.object_size(), 64);
    assert_eq!(slab.capacity(), 64);
    assert_eq!(slab.free_count(), 64);
    assert!(slab.is_empty());
    assert!(!slab.is_full());
}

#[test]
fn slab_capacity_rounds_down() {
    let slab = Slab::new(64, 4096 - 48);
    assert_eq!(slab.capacity(), 63);
    let slab = Slab::new(8, 8);
    assert_eq!(slab.capacity(), 1);
}

#[test]
fn slab_counts_add_up_to_capacity() {
    let mut slab = Slab::new(32, 1024);
    slab.init(0x20000);
    for k in 0..10 {
        assert_eq!(slab.free_count() + slab.used_count(), slab.capacity());
        assert_eq!(slab.used_count(), k);
        slab.allocate().unwrap();
    }
    assert_eq!(slab.free_count() + slab.used_count(), slab.capacity());
}

#[test]
fn slab_allocations_distinct_aligned_in_range() {
    let base: usize = 0x40000;
    let mut slab = Slab::new(64, 4096);
    slab.init(base);
    let mut seen: Vec<usize> = Vec::new();
    for k in 0..64usize {
        let a = slab.allocate().unwrap();
        assert_eq!(a, base + k * 64);
        assert!(a >= base && a < base + 64 * 64);
        assert_eq!((a - base) % 64, 0);
        assert!(!seen.contains(&a));
        seen.push(a);
    }
    assert_eq!(seen.len(), 64);
}

#[test]
fn slab_exhaustion_after_capacity() {
    let mut slab = Slab::new(128, 1000);
    assert_eq!(slab.capacity(), 7);
    slab.init(0x50000);
    for _ in 0..7 {
        assert!(slab.allocate().is_some());
    }
    assert!(slab.allocate().is_none());
    assert_eq!(slab.free_count(), 0);
}

#[test]
fn slab_round_trip_returns_same_cell() {
    let mut slab = Slab::new(16, 256);
    slab.init(0x60000);
    slab.allocate().unwrap();
    let before = slab.free_count();
    let a = slab.allocate().unwrap();
    assert_eq!(slab.free_count(), before - 1);
    slab.dealloc(a);
    assert_eq!(slab.free_count(), before);
    assert_eq!(slab.allocate(), Some(a));
}

#[test]
fn slab_fill_and_drain_reverse() {
    let mut slab = Slab::new(64, 256);
    slab.init(0x70000);
    let mut got: Vec<usize> = Vec::new();
    for _ in 0..4 {
        got.push(slab.allocate().unwrap());
    }
    assert!(slab.allocate().is_none());
    assert!(slab.is_full());
    while let Some(a) = got.pop() {
        slab.dealloc(a);
    }
    assert_eq!(slab.free_count(), 4);
    assert!(slab.is_empty());
}

#[test]
fn slab_contains_bounds() {
    let mut slab = Slab::new(64, 256);
    assert!(!slab.contains(0x80000));
    slab.init(0x80000);
    assert!(slab.contains(0x80000));
    assert!(slab.contains(0x80000 + 255));
    assert!(!slab.contains(0x80000 + 256));
    assert!(!slab.contains(0x80000 - 1));
}
