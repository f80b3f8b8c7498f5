use slub::{PageProvider, StaticPageProvider, PAGE_SIZE};

/// Address of the simulated buffer the providers work over.
const BASE: usize = 0x40_0000;

#[test]
fn test_pages_are_aligned() {
    let _heap = [0u8; PAGE_SIZE * 4];
    let mut provider = StaticPageProvider::<{ PAGE_SIZE * 4 }>::new(BASE + 100);
    for _ in 0..3 {
        let page = provider.alloc_page();
        assert!(page.is_some());
        assert_eq!(page.unwrap() % PAGE_SIZE, 0);
    }
}

#[test]
fn test_pages_dont_overlap() {
    let _heap = [0u8; PAGE_SIZE * 4];
    let mut provider = StaticPageProvider::<{ PAGE_SIZE * 4 }>::new(BASE + 8);
    let p1 = provider.alloc_page();
    let p2 = provider.alloc_page();
    assert!(p1.is_some());
    assert!(p2.is_some());
    let diff = p2.unwrap().abs_diff(p1.unwrap());
    assert!(diff >= PAGE_SIZE);
}

#[test]
fn test_exhaustion_returns_null() {
    let _heap = [0u8; PAGE_SIZE * 2];
    let mut provider = StaticPageProvider::<{ PAGE_SIZE * 2 }>::new(BASE + 1);
    let p1 = provider.alloc_page();
    assert!(p1.is_some());
    loop {
        let p = provider.alloc_page();
        if p.is_none() {
            break;
        }
    }
}

#[test]
fn test_page_is_writable() {
    let mut heap = [0u8; PAGE_SIZE * 2];
    let start = BASE + 16;
    let mut provider = StaticPageProvider::<{ PAGE_SIZE * 2 }>::new(start);
    let page = provider.alloc_page();
    assert!(page.is_some());
    let off = page.unwrap() - start;
    for b in &mut heap[off..off + PAGE_SIZE] {
        *b = 0xAB;
    }
    for i in 0..PAGE_SIZE {
        assert_eq!(heap[off + i], 0xAB);
    }
}

#[test]
fn aligned_buffer_gives_every_page() {
    let mut provider = StaticPageProvider::<{ PAGE_SIZE * 3 }>::new(BASE);
    assert_eq!(provider.alloc_page(), Some(BASE));
    assert_eq!(provider.alloc_page(), Some(BASE + PAGE_SIZE));
    assert_eq!(provider.alloc_page(), Some(BASE + 2 * PAGE_SIZE));
    assert_eq!(provider.alloc_page(), None);
    assert_eq!(provider.alloc_page(), None);
}

#[test]
fn unaligned_buffer_loses_the_partial_page() {
    let mut provider = StaticPageProvider::<{ PAGE_SIZE * 3 }>::new(BASE + 1);
    assert_eq!(provider.alloc_page(), Some(BASE + PAGE_SIZE));
    assert_eq!(provider.alloc_page(), Some(BASE + 2 * PAGE_SIZE));
    assert_eq!(provider.alloc_page(), None);
}

#[test]
fn buffer_shorter_than_alignment_gives_nothing() {
    let mut provider = StaticPageProvider::<100>::new(BASE + 1);
    assert_eq!(provider.alloc_page(), None);
}

#[test]
fn giving_a_page_back_does_not_reuse_it() {
    let mut provider = StaticPageProvider::<{ PAGE_SIZE * 2 }>::new(BASE);
    let p = provider.alloc_page().unwrap();
    provider.dealloc_page(p);
    assert_eq!(provider.alloc_page(), Some(BASE + PAGE_SIZE));
    assert_eq!(provider.alloc_page(), None);
}
