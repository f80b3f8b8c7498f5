use slub::{Cache, MAX_SLABS_PER_CACHE, PAGE_SIZE};

/// Start of the simulated memory that the tests hand out as pages.
const BASE: usize = 0x20_0000;

/// `count` page-aligned pages of simulated memory, and their addresses.
fn alloc_pages(count: usize) -> (Vec<u8>, Vec<usize>) {
    let buf = vec![0u8; PAGE_SIZE * count];
    let pages: Vec<usize> = (0..count).map(|i| BASE + i * PAGE_SIZE).collect();
    (buf, pages)
}

#[test]
fn test_new_cache_is_empty() {
    let cache = Cache::new(64);
    assert_eq!(cache.object_size(), 64);
    assert_eq!(cache.slab_count(), 0);
    assert_eq!(cache.total_used(), 0);
    assert_eq!(cache.total_free(), 0);
}

#[test]
fn test_alloc_empty_cache_returns_null() {
    let mut cache = Cache::new(64);
    assert!(cache.allocate().is_none());
}

#[test]
fn test_add_slab_and_alloc() {
    let (_buf, pages) = alloc_pages(1);
    let mut cache = Cache::new(64);
    let ptr = cache.add_slab_and_alloc(pages[0]);
    assert!(ptr.is_some());
    assert_eq!(cache.slab_count(), 1);
    assert_eq!(cache.total_used(), 1);
}

#[test]
fn test_alloc_across_multiple_slabs() {
    let (_buf, pages) = alloc_pages(2);
    let mut cache = Cache::new(2048);
    let p1 = cache.add_slab_and_alloc(pages[0]);
    assert!(p1.is_some());
    let p2 = cache.allocate();
    assert!(p2.is_some());
    assert!(cache.allocate().is_none());
    let p3 = cache.add_slab_and_alloc(pages[1]);
    assert!(p3.is_some());
    assert_eq!(cache.slab_count(), 2);
}

#[test]
fn test_dealloc_frees_slot() {
    let (_buf, pages) = alloc_pages(1);
    let mut cache = Cache::new(64);
    let ptr = cache.add_slab_and_alloc(pages[0]).unwrap();
    assert_eq!(cache.total_used(), 1);
    let found = cache.dealloc(ptr);
    assert!(found);
    assert_eq!(cache.total_used(), 0);
}

#[test]
fn test_dealloc_unknown_pointer_returns_false() {
    let (_buf, pages) = alloc_pages(1);
    let mut cache = Cache::new(64);
    let _ = cache.add_slab_and_alloc(pages[0]);
    let fake_ptr = 0xDEAD_BEEF;
    let found = cache.dealloc(fake_ptr);
    assert!(!found);
}

#[test]
fn test_fill_and_reuse_after_dealloc() {
    let (_buf, pages) = alloc_pages(1);
    let mut cache = Cache::new(128);
    let first = cache.add_slab_and_alloc(pages[0]).unwrap();
    let mut ptrs = vec![first];
    for _ in 1..32 {
        let p = cache.allocate();
        assert!(p.is_some());
        ptrs.push(p.unwrap());
    }
    assert!(cache.allocate().is_none());
    for p in &ptrs[0..10] {
        cache.dealloc(*p);
    }
    assert_eq!(cache.total_used(), 22);
    assert_eq!(cache.total_free(), 10);
    for _ in 0..10 {
        assert!(cache.allocate().is_some());
    }
    assert_eq!(cache.total_used(), 32);
}

#[test]
fn new_slab_hands_out_start_of_its_page() {
    let (_buf, pages) = alloc_pages(2);
    let mut cache = Cache::new(512);
    assert_eq!(cache.add_slab_and_alloc(pages[1]), Some(pages[1]));
    assert_eq!(cache.allocate(), Some(pages[1] + 512));
    assert_eq!(cache.total_used(), 2);
    assert_eq!(cache.total_free(), 6);
}

#[test]
fn allocation_takes_first_slab_with_room() {
    let (_buf, pages) = alloc_pages(2);
    let mut cache = Cache::new(2048);
    let a = cache.add_slab_and_alloc(pages[0]).unwrap();
    let _b = cache.allocate().unwrap();
    let c = cache.add_slab_and_alloc(pages[1]).unwrap();
    assert_eq!(c, pages[1]);
    assert!(cache.dealloc(a));
    // the first slab has room again, so it serves before the second
    assert_eq!(cache.allocate(), Some(a));
    assert_eq!(cache.allocate(), Some(pages[1] + 2048));
    assert!(cache.allocate().is_none());
}

#[test]
fn allocate_then_dealloc_restores_counts() {
    let (_buf, pages) = alloc_pages(1);
    let mut cache = Cache::new(64);
    cache.add_slab_and_alloc(pages[0]);
    let used = cache.total_used();
    let free = cache.total_free();
    let p = cache.allocate().unwrap();
    assert_eq!(cache.total_used(), used + 1);
    assert!(cache.dealloc(p));
    assert_eq!(cache.total_used(), used);
    assert_eq!(cache.total_free(), free);
    assert_eq!(cache.allocate(), Some(p));
}

#[test]
fn cache_holds_at_most_max_slabs() {
    let (_buf, pages) = alloc_pages(MAX_SLABS_PER_CACHE + 1);
    let mut cache = Cache::new(PAGE_SIZE);
    for i in 0..MAX_SLABS_PER_CACHE {
        assert_eq!(cache.add_slab_and_alloc(pages[i]), Some(pages[i]));
    }
    assert_eq!(cache.slab_count(), MAX_SLABS_PER_CACHE);
    assert_eq!(cache.add_slab_and_alloc(pages[MAX_SLABS_PER_CACHE]), None);
    assert_eq!(cache.slab_count(), MAX_SLABS_PER_CACHE);
    assert_eq!(cache.total_used(), MAX_SLABS_PER_CACHE);
    assert_eq!(cache.total_free(), 0);
}

#[test]
fn dealloc_inside_page_but_other_slab() {
    let (_buf, pages) = alloc_pages(2);
    let mut cache = Cache::new(1024);
    let a = cache.add_slab_and_alloc(pages[0]).unwrap();
    let b = cache.add_slab_and_alloc(pages[1]).unwrap();
    assert!(cache.dealloc(b));
    assert_eq!(cache.total_used(), 1);
    assert!(!cache.dealloc(pages[1] + 2 * PAGE_SIZE));
    assert!(cache.dealloc(a));
    assert_eq!(cache.total_used(), 0);
    assert_eq!(cache.total_free(), 8);
}
