use slab_allocator::cache::SCache;
use slab_allocator::slab::Slab;

fn fresh_slab(object_size: usize, bytes: usize, base: usize) -> Slab {
    let mut slab = Slab::new(object_size, bytes);
    slab.init(base);
    slab
}

#[test]
fn test_cache_insert() {
    let mut cache = SCache::new(64);
    let buf = vec![0u8; 4096];
    let slab = fresh_slab(64, 4096, buf.as_ptr() as usize);
    cache.insert(slab);
    let obj = cache.allocate();
    assert!(obj.is_some());
}

#[test]
fn test_cache_dealloc() {
    let mut cache = SCache::new(64);
    let buf = vec![0u8; 4096];
    let slab = fresh_slab(64, 4096, buf.as_ptr() as usize);
    cache.insert(slab);
    let obj = cache.allocate().unwrap();
    assert!(cache.dealloc(obj));
}

#[test]
fn cache_empty_gives_none() {
    let mut cache = SCache::new(32);
    assert_eq!(cache.object_size(), 32);
    assert!(cache.allocate().is_none());
    let st = cache.stats();
    assert_eq!(st.partial_slabs, 0);
    assert_eq!(st.full_slabs, 0);
    assert_eq!(st.total_objects, 0);
    assert_eq!(st.used_objects, 0);
}

#[test]
fn cache_bucket_migration() {
    let mut cache = SCache::new(64);
    cache.insert(fresh_slab(64, 256, 0x10000));
    let mut got: Vec<usize> = Vec::new();
    for _ in 0..4 {
        got.push(cache.allocate().unwrap());
    }
    let st = cache.stats();
    assert_eq!(st.partial_slabs, 0);
    assert_eq!(st.full_slabs, 1);
    assert_eq!(st.used_objects, 4);
    assert!(cache.allocate().is_none());
    assert!(cache.dealloc(got[2]));
    let st = cache.stats();
    assert_eq!(st.partial_slabs, 1);
    assert_eq!(st.full_slabs, 0);
    assert_eq!(st.used_objects, 3);
    assert_eq!(cache.allocate(), Some(got[2]));
}

#[test]
fn cache_foreign_pointer_is_refused() {
    let mut cache = SCache::new(64);
    cache.insert(fresh_slab(64, 256, 0x10000));
    assert!(!cache.dealloc(0x20000));
    assert!(!cache.dealloc(0x10000 + 256));
    let st = cache.stats();
    assert_eq!(st.used_objects, 0);
}

#[test]
fn cache_stats_sum_over_both_buckets() {
    let mut cache = SCache::new(64);
    cache.insert(fresh_slab(64, 128, 0x10000));
    cache.insert(fresh_slab(64, 256, 0x20000));
    // The newest slab is the head of the partial bucket.
    assert_eq!(cache.allocate(), Some(0x20000));
    let st = cache.stats();
    assert_eq!(st.partial_slabs, 2);
    assert_eq!(st.full_slabs, 0);
    assert_eq!(st.total_objects, 6);
    assert_eq!(st.used_objects, 1);
    for _ in 0..3 {
        cache.allocate().unwrap();
    }
    let st = cache.stats();
    assert_eq!(st.partial_slabs, 1);
    assert_eq!(st.full_slabs, 1);
    assert_eq!(st.total_objects, 6);
    assert_eq!(st.used_objects, 4);
    assert_eq!(cache.allocate(), Some(0x10000));
    assert!(cache.dealloc(0x10000));
    assert!(cache.dealloc(0x20000 + 64));
    let st = cache.stats();
    assert_eq!(st.partial_slabs, 2);
    assert_eq!(st.full_slabs, 0);
    assert_eq!(st.used_objects, 3);
}
