# slub

A slab allocator in the style of Linux SLUB, verified with Verus.

- `src/slab.rs`: a slab, one page cut into equal slots, with a LIFO free list.
- `src/cache.rs`: a cache of up to 32 slabs for one object size.
- `src/page.rs`: the `PageProvider` trait and `StaticPageProvider`, a bump
  allocator of pages over a buffer.
- `src/layout.rs`: the size and alignment of a request.
- `src/allocator.rs`: nine size classes (8 to 2048 bytes), one cache each.

The library is written for 64-bit targets: the smallest slot is a machine
word there, 8 bytes (on a 32-bit target it stays 8 bytes, so a slab of
objects under 8 bytes has half the slots a word-sized minimum would give).

Addresses are plain `usize` values; the library never touches memory. Each
type has an abstract view, and each operation's contract says exactly how
the view changes. Public proof functions state the laws: an object is never
handed out twice, objects handed out at the same time never overlap and lie
inside pages of the provider, freeing what was just allocated leaves the same
addresses handed out as before (a slab made from a new page stays), a freed
object is the next one handed out without a new page, pages come out of a
pool in address order, and counts of used and free slots add up.

All bookkeeping lives in fixed-size arrays, so the allocator itself never
allocates from the heap.

`app/` wraps the allocator in a `spin::Mutex` as a `core::alloc::GlobalAlloc`
(usable as `#[global_allocator]`) and builds a page provider over a static
buffer.
