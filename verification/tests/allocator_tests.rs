use slub::{size_class_index, Layout, SlabAllocator, StaticPageProvider, PAGE_SIZE};

/// Address of the simulated heap the allocators work over.
const BASE: usize = 0x80_0000;

/// An allocator over a simulated heap of 65536 bytes at `BASE`.
fn make_allocator() -> SlabAllocator<StaticPageProvider<65536>> {
    let provider = StaticPageProvider::<65536>::new(BASE);
    SlabAllocator::new(provider)
}

/// Simulated memory backing the heap at `BASE`.
fn heap() -> Vec<u8> {
    vec![0u8; 65536]
}

#[test]
fn test_size_class_roundup() {
    let l1 = Layout::from_size_align(1, 1).unwrap();
    assert_eq!(SlabAllocator::<StaticPageProvider<0>>::size_class_for(l1), Some(8));

    let l2 = Layout::from_size_align(33, 1).unwrap();
    assert_eq!(SlabAllocator::<StaticPageProvider<0>>::size_class_for(l2), Some(64));

    let l3 = Layout::from_size_align(2048, 1).unwrap();
    assert_eq!(SlabAllocator::<StaticPageProvider<0>>::size_class_for(l3), Some(2048));

    let l4 = Layout::from_size_align(4096, 1).unwrap();
    assert_eq!(SlabAllocator::<StaticPageProvider<0>>::size_class_for(l4), None);
}

#[test]
fn test_single_alloc_dealloc() {
    let mut mem = heap();
    let mut allocator = make_allocator();
    let layout = Layout::from_size_align(64, 8).unwrap();
    let ptr = allocator.allocate(layout);
    assert!(ptr.is_some());
    let p = ptr.unwrap();
    mem[p - BASE] = 42;
    assert_eq!(mem[p - BASE], 42);
    allocator.dealloc(p, layout);
}

#[test]
fn test_alignment_respected() {
    let mut allocator = make_allocator();
    let layout = Layout::from_size_align(16, 16).unwrap();
    let ptr = allocator.allocate(layout);
    assert!(ptr.is_some());
    assert_eq!(ptr.unwrap() % 16, 0);
    allocator.dealloc(ptr.unwrap(), layout);
}

#[test]
fn test_mixed_size_allocations() {
    let mut allocator = make_allocator();
    let layouts = [
        Layout::from_size_align(8, 8).unwrap(),
        Layout::from_size_align(64, 8).unwrap(),
        Layout::from_size_align(256, 8).unwrap(),
        Layout::from_size_align(1024, 8).unwrap(),
    ];
    let mut ptrs = Vec::new();
    for layout in &layouts {
        let ptr = allocator.allocate(*layout);
        assert!(ptr.is_some());
        ptrs.push((ptr.unwrap(), *layout));
    }
    for i in 0..ptrs.len() {
        for j in (i + 1)..ptrs.len() {
            assert_ne!(ptrs[i].0, ptrs[j].0);
        }
    }
    for (ptr, layout) in ptrs {
        allocator.dealloc(ptr, layout);
    }
}

#[test]
fn test_too_large_returns_null() {
    let mut allocator = make_allocator();
    let layout = Layout::from_size_align(4096, 8).unwrap();
    let ptr = allocator.allocate(layout);
    assert!(ptr.is_none());
}

#[test]
fn test_stress_alloc_dealloc() {
    let mut mem = heap();
    let mut allocator = make_allocator();
    let layout = Layout::from_size_align(32, 8).unwrap();
    for _ in 0..1000 {
        let ptr = allocator.allocate(layout);
        assert!(ptr.is_some());
        let p = ptr.unwrap();
        for b in &mut mem[p - BASE..p - BASE + 32] {
            *b = 0xCC;
        }
        allocator.dealloc(p, layout);
    }
}

#[test]
fn test_write_integrity_across_sizes() {
    let mut mem = heap();
    let mut allocator = make_allocator();
    let sizes = [8, 16, 32, 64, 128, 256, 512, 1024];
    let mut ptrs = Vec::new();
    for (i, &size) in sizes.iter().enumerate() {
        let layout = Layout::from_size_align(size, 8).unwrap();
        let ptr = allocator.allocate(layout);
        assert!(ptr.is_some());
        let p = ptr.unwrap();
        let pattern = (i + 1) as u8;
        for b in &mut mem[p - BASE..p - BASE + size] {
            *b = pattern;
        }
        ptrs.push((p, layout, pattern, size));
    }
    for &(p, _layout, pattern, size) in &ptrs {
        for offset in 0..size {
            assert_eq!(mem[p - BASE + offset], pattern);
        }
    }
    for (p, layout, _, _) in ptrs {
        allocator.dealloc(p, layout);
    }
}

#[test]
fn size_class_index_picks_smallest_fitting_class() {
    assert_eq!(size_class_index(0), Some(0));
    assert_eq!(size_class_index(8), Some(0));
    assert_eq!(size_class_index(9), Some(1));
    assert_eq!(size_class_index(1024), Some(7));
    assert_eq!(size_class_index(1025), Some(8));
    assert_eq!(size_class_index(2049), None);
}

#[test]
fn alignment_larger_than_size_picks_class_by_alignment() {
    let l = Layout::from_size_align(8, 512).unwrap();
    assert_eq!(SlabAllocator::<StaticPageProvider<0>>::size_class_for(l), Some(512));
    let mut allocator = make_allocator();
    for _ in 0..12 {
        let p = allocator.allocate(l).unwrap();
        assert_eq!(p % 512, 0);
    }
}

#[test]
fn layout_rejects_bad_alignment() {
    assert!(Layout::from_size_align(8, 0).is_err());
    assert!(Layout::from_size_align(8, 3).is_err());
    assert!(Layout::from_size_align(usize::MAX, 8).is_err());
    let l = Layout::from_size_align(24, 4).unwrap();
    assert_eq!(l.size(), 24);
    assert_eq!(l.align(), 4);
}

#[test]
fn freed_object_is_handed_out_again() {
    let mut allocator = make_allocator();
    let layout = Layout::from_size_align(100, 4).unwrap();
    let a = allocator.allocate(layout).unwrap();
    let b = allocator.allocate(layout).unwrap();
    assert_eq!(b, a + 128);
    allocator.dealloc(a, layout);
    assert_eq!(allocator.allocate(layout), Some(a));
}

#[test]
fn each_class_takes_its_own_page() {
    let mut allocator = make_allocator();
    let small = Layout::from_size_align(8, 8).unwrap();
    let big = Layout::from_size_align(2048, 8).unwrap();
    let a = allocator.allocate(small).unwrap();
    let b = allocator.allocate(big).unwrap();
    assert_eq!(a, BASE);
    assert_eq!(b, BASE + PAGE_SIZE);
}

#[test]
fn heap_exhaustion_returns_none() {
    let mut allocator = make_allocator();
    let layout = Layout::from_size_align(2048, 8).unwrap();
    // 16 pages of two objects each
    let mut got = Vec::new();
    for _ in 0..32 {
        got.push(allocator.allocate(layout).unwrap());
    }
    assert_eq!(allocator.allocate(layout), None);
    allocator.dealloc(got[5], layout);
    assert_eq!(allocator.allocate(layout), Some(got[5]));
}

#[test]
fn dealloc_with_too_large_layout_is_ignored() {
    let mut allocator = make_allocator();
    let layout = Layout::from_size_align(64, 8).unwrap();
    let a = allocator.allocate(layout).unwrap();
    let huge = Layout::from_size_align(8192, 8).unwrap();
    allocator.dealloc(a, huge);
    assert_ne!(allocator.allocate(layout), Some(a));
}

#[test]
fn freed_object_comes_back_without_a_new_page() {
    let mut allocator = make_allocator();
    let small = Layout::from_size_align(24, 8).unwrap();
    let a = allocator.allocate(small).unwrap();
    allocator.dealloc(a, small);
    assert_eq!(allocator.allocate(small), Some(a));
    // only one page was taken so far: the next class gets the second page
    let big = Layout::from_size_align(1024, 8).unwrap();
    assert_eq!(allocator.allocate(big), Some(BASE + PAGE_SIZE));
}

#[test]
fn first_allocation_of_each_class_takes_one_page() {
    let mut allocator = make_allocator();
    for (k, size) in [8usize, 16, 32, 64, 128, 256, 512, 1024, 2048].iter().enumerate() {
        let l = Layout::from_size_align(*size, 8).unwrap();
        assert_eq!(allocator.allocate(l), Some(BASE + k * PAGE_SIZE));
    }
}
