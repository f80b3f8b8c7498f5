//! A slab allocator in the style of Linux SLUB: objects are served from
//! fixed size classes; each class has a cache of slabs; each slab is one
//! page cut into equal slots with a free list. Pages come from a page
//! provider. Addresses are plain `usize` values.
//!
//! The library is written for 64-bit targets: the smallest slot,
//! `MIN_SLOT_SIZE`, is the size of a machine word there (8 bytes), and a slab
//! has at most `MAX_SLOTS = PAGE_SIZE / MIN_SLOT_SIZE` slots. On a 32-bit
//! target a word is 4 bytes, but slots stay at least 8 bytes.
use vstd::prelude::*;

pub mod allocator;
pub mod cache;
pub mod layout;
pub mod page;
pub mod slab;

pub use allocator::{SlabAllocator, NUM_SIZE_CLASSES, SIZE_CLASSES, size_class_index};
pub use cache::{Cache, MAX_SLABS_PER_CACHE};
pub use layout::{Layout, LayoutError};
pub use page::{PAGE_SIZE, PageProvider, StaticPageProvider};
pub use slab::{Slab, MIN_SLOT_SIZE};

verus! {

} // verus!
