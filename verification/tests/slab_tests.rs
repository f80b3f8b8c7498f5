use slub::{Slab, MIN_SLOT_SIZE, PAGE_SIZE};

/// Start of the simulated memory that the tests hand out as pages.
const BASE: usize = 0x10_0000;

/// One page of simulated memory and its (page-aligned) address.
fn aligned_page() -> (Vec<u8>, usize) {
    (vec![0u8; PAGE_SIZE], BASE)
}

#[test]
fn test_slot_count() {
    let (_buf, page) = aligned_page();
    let slab = Slab::new(page, 64);
    assert_eq!(slab.total_slots(), 64);
    assert_eq!(slab.used_slots(), 0);
    assert_eq!(slab.free_slots(), 64);
    assert!(slab.is_empty());
    assert!(!slab.is_full());
}

#[test]
fn test_minimum_slot_size() {
    let (_buf, page) = aligned_page();
    let slab = Slab::new(page, 1);
    assert_eq!(slab.slot_size(), MIN_SLOT_SIZE);
    assert_eq!(slab.total_slots(), PAGE_SIZE / MIN_SLOT_SIZE);
}

#[test]
fn test_alloc_returns_unique_pointers() {
    let (_buf, page) = aligned_page();
    let mut slab = Slab::new(page, 128);
    let total = slab.total_slots();
    let mut ptrs = Vec::new();
    for _ in 0..total {
        let ptr = slab.allocate();
        assert!(ptr.is_some());
        assert!(!ptrs.contains(&ptr));
        ptrs.push(ptr);
    }
    assert!(slab.is_full());
    assert_eq!(slab.allocate(), None);
}

#[test]
fn test_alloc_pointers_are_slot_aligned() {
    let (_buf, page) = aligned_page();
    let mut slab = Slab::new(page, 64);
    for _ in 0..slab.total_slots() {
        let ptr = slab.allocate();
        assert!(ptr.is_some());
        let offset = ptr.unwrap() - page;
        assert_eq!(offset % 64, 0);
    }
}

#[test]
fn test_full_returns_null() {
    let (_buf, page) = aligned_page();
    let mut slab = Slab::new(page, 2048);
    assert!(slab.allocate().is_some());
    assert!(slab.allocate().is_some());
    assert!(slab.allocate().is_none());
    assert!(slab.is_full());
}

#[test]
fn test_dealloc_makes_slot_reusable() {
    let (_buf, page) = aligned_page();
    let mut slab = Slab::new(page, 64);
    let ptr = slab.allocate().unwrap();
    assert_eq!(slab.used_slots(), 1);
    slab.dealloc(ptr);
    assert_eq!(slab.used_slots(), 0);
    assert!(slab.is_empty());
    let ptr2 = slab.allocate().unwrap();
    assert_eq!(ptr, ptr2);
}

#[test]
fn test_alloc_dealloc_cycle() {
    let (_buf, page) = aligned_page();
    let mut slab = Slab::new(page, 256);
    let mut ptrs: Vec<usize> = (0..16).map(|_| slab.allocate().unwrap()).collect();
    assert!(slab.is_full());
    for i in (0..16).step_by(2) {
        slab.dealloc(ptrs[i]);
    }
    assert_eq!(slab.used_slots(), 8);
    assert_eq!(slab.free_slots(), 8);
    for i in (0..16).step_by(2) {
        let new_ptr = slab.allocate();
        assert!(new_ptr.is_some());
        ptrs[i] = new_ptr.unwrap();
    }
    assert!(slab.is_full());
    for ptr in ptrs {
        slab.dealloc(ptr);
    }
    assert!(slab.is_empty());
}

#[test]
fn test_write_read_memory() {
    let (mut buf, page) = aligned_page();
    let mut slab = Slab::new(page, 64);
    let ptr1 = slab.allocate().unwrap();
    let ptr2 = slab.allocate().unwrap();
    for b in &mut buf[ptr1 - page..ptr1 - page + 64] {
        *b = 0xAA;
    }
    for b in &mut buf[ptr2 - page..ptr2 - page + 64] {
        *b = 0xBB;
    }
    assert_eq!(buf[ptr1 - page], 0xAA);
    assert_eq!(buf[ptr2 - page], 0xBB);
}

#[test]
fn test_contains() {
    let (_buf, page) = aligned_page();
    let slab = Slab::new(page, 64);
    assert!(slab.contains(page));
    assert!(slab.contains(page + 2048));
    assert!(!slab.contains(0));
    assert!(!slab.contains(page + PAGE_SIZE));
}

#[test]
fn fresh_slab_hands_out_slots_in_address_order() {
    let mut slab = Slab::new(BASE, 512);
    assert_eq!(slab.page_ptr(), BASE);
    for i in 0..8 {
        assert_eq!(slab.allocate(), Some(BASE + i * 512));
    }
    assert_eq!(slab.allocate(), None);
}

#[test]
fn freed_slots_come_back_last_in_first_out() {
    let mut slab = Slab::new(BASE, 1024);
    let a = slab.allocate().unwrap();
    let b = slab.allocate().unwrap();
    let c = slab.allocate().unwrap();
    slab.dealloc(a);
    slab.dealloc(c);
    assert_eq!(slab.allocate(), Some(c));
    assert_eq!(slab.allocate(), Some(a));
    assert_eq!(slab.allocate(), Some(BASE + 3 * 1024));
    assert_eq!(slab.allocate(), None);
    assert_ne!(b, a);
}

#[test]
fn counts_add_up_to_total() {
    let mut slab = Slab::new(BASE, 100);
    assert_eq!(slab.slot_size(), 100);
    assert_eq!(slab.total_slots(), 40);
    for _ in 0..15 {
        slab.allocate();
    }
    assert_eq!(slab.used_slots(), 15);
    assert_eq!(slab.free_slots(), 25);
    assert_eq!(slab.used_slots() + slab.free_slots(), slab.total_slots());
}

#[test]
fn whole_page_object_gives_one_slot() {
    let mut slab = Slab::new(BASE, PAGE_SIZE);
    assert_eq!(slab.total_slots(), 1);
    assert_eq!(slab.allocate(), Some(BASE));
    assert!(slab.is_full());
    assert!(!slab.contains(BASE - 1));
    assert!(slab.contains(BASE + PAGE_SIZE - 1));
}

#[test]
fn slab_is_empty_again_once_every_slot_is_returned() {
    let mut slab = Slab::new(BASE, 256);
    let mut live = Vec::new();
    for _ in 0..5 {
        live.push(slab.allocate().unwrap());
    }
    slab.dealloc(live[1]);
    live.push(slab.allocate().unwrap());
    // used = allocations served - frees = 6 - 1
    assert_eq!(slab.used_slots(), 5);
    assert!(!slab.is_empty());
    live.remove(1);
    for p in live {
        slab.dealloc(p);
    }
    assert!(slab.is_empty());
    assert_eq!(slab.free_slots(), slab.total_slots());
}
