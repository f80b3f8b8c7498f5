use vstd::prelude::*;
use crate::cache::{Cache, CacheView, MAX_SLABS_PER_CACHE};
use crate::cache::{lemma_cache_allocate, lemma_cache_add_slab, lemma_cache_dealloc};
use crate::layout::Layout;
use crate::page::{PAGE_SIZE, PageProvider};

verus! {

/// Number of size classes.
pub const NUM_SIZE_CLASSES: usize = 9;

/// The object sizes the allocator serves, smallest first.
pub const SIZE_CLASSES: [usize; NUM_SIZE_CLASSES] = [8, 16, 32, 64, 128, 256, 512, 1024, 2048];

/// Class `i` is the smallest size class that holds `size` bytes.
pub open spec fn is_class_for(i: int, size: int) -> bool {
    &&& 0 <= i < NUM_SIZE_CLASSES
    &&& size <= SIZE_CLASSES[i]
    &&& forall|j: int| 0 <= j < i ==> SIZE_CLASSES[j] < size
}

/// No size class holds `size` bytes.
pub open spec fn too_large(size: int) -> bool {
    forall|j: int| 0 <= j < NUM_SIZE_CLASSES ==> SIZE_CLASSES[j] < size
}

/// The bytes an object of `size` bytes aligned to `align` takes: its size,
/// but at least its alignment.
pub open spec fn request_size(size: usize, align: usize) -> int {
    if size < align { align as int } else { size as int }
}

/// A page the provider may hand out next: page-aligned, not at address zero,
/// below the top of the address space, and not in use.
pub open spec fn is_fresh_page(in_use: Set<int>, p: usize) -> bool {
    &&& p as int % PAGE_SIZE as int == 0
    &&& 0 < p
    &&& p + PAGE_SIZE <= usize::MAX
    &&& !in_use.contains(p as int)
}

/// Index of the smallest size class that holds `size` bytes; `None` when
/// `size` is larger than every class.
pub fn size_class_index(size: usize) -> (r: Option<usize>)
    ensures
        r matches Some(i) ==> is_class_for(i as int, size as int),
        r is None <==> too_large(size as int),
{
    let mut i: usize = 0;
    while i < NUM_SIZE_CLASSES
        invariant
            i <= NUM_SIZE_CLASSES,
            forall|j: int| 0 <= j < i ==> SIZE_CLASSES[j] < size,
        decreases NUM_SIZE_CLASSES - i,
    {
        if SIZE_CLASSES[i] >= size {
            return Some(i);
        }
        i = i + 1;
    }
    None
}

/// A slab allocator: one cache per size class, filled with pages from a
/// page provider.
pub struct SlabAllocator<P: PageProvider> {
    caches: [Cache; NUM_SIZE_CLASSES],
    page_provider: P,
}

impl<P: PageProvider> SlabAllocator<P> {
    /// The caches, one per size class.
    pub closed spec fn caches(&self) -> Seq<CacheView> {
        self.caches@.map_values(|c: Cache| c@)
    }

    /// The page provider.
    pub closed spec fn provider(&self) -> P {
        self.page_provider
    }

    /// Every cache's slabs agree with their counters.
    pub closed spec fn caches_agree(&self) -> bool {
        forall|i: int| 0 <= i < self.caches@.len() ==> (#[trigger] self.caches@[i]).wf()
    }

    /// The pages the provider has handed out and not taken back.
    pub open spec fn pages(&self) -> Set<int> {
        self.provider().pages_in_use()
    }

    /// Page of slab `s` of cache `i`.
    pub open spec fn slab_page(&self, i: int, s: int) -> int {
        self.caches()[i].slabs[s].page as int
    }

    /// Slab `s` of cache `i` exists.
    pub open spec fn has_slab(&self, i: int, s: int) -> bool {
        0 <= i < self.caches().len() && 0 <= s < self.caches()[i].slabs.len()
    }

    pub open spec fn wf(&self) -> bool {
        &&& self.caches().len() == NUM_SIZE_CLASSES
        &&& forall|i: int| 0 <= i < NUM_SIZE_CLASSES ==> (#[trigger] self.caches()[i]).wf()
        &&& forall|i: int| 0 <= i < NUM_SIZE_CLASSES ==> (#[trigger] self.caches()[i]).object_size == SIZE_CLASSES[i]
        &&& forall|i: int, s: int| #[trigger] self.has_slab(i, s) ==> {
            &&& self.slab_page(i, s) % PAGE_SIZE as int == 0
            &&& self.pages().contains(self.slab_page(i, s))
        }
        &&& forall|i: int, s: int, j: int, t: int| #[trigger] self.has_slab(i, s) && #[trigger] self.has_slab(j, t) && i != j
            ==> self.slab_page(i, s) != self.slab_page(j, t)
        &&& self.caches_agree()
    }

    /// `a` is an object handed out and not yet taken back.
    pub open spec fn is_allocated(&self, a: int) -> bool {
        exists|i: int| 0 <= i < self.caches().len() && #[trigger] self.caches()[i].is_allocated(a)
    }

    /// What allocating from size class `i` leaves behind and hands out: an
    /// object of the cache, without asking the provider, when the cache has
    /// a free slot; otherwise the provider is asked for one page (as its
    /// `alloc_page_post` allows), and its answer decides: no page gives
    /// nothing; a page becomes a new slab of the cache, whose first object
    /// is handed out (or nothing, when the cache already holds its maximum
    /// of slabs).
    pub open spec fn alloc_outcome(before: Self, after: Self, i: int, r: Option<usize>) -> bool {
        let c = before.caches()[i];
        if c.alloc_step().1 is Some {
            &&& after.caches() == before.caches().update(i, c.alloc_step().0)
            &&& r == c.alloc_step().1
            &&& after.provider() == before.provider()
        } else {
            ||| {
                &&& before.provider().alloc_page_post(after.provider(), None)
                &&& r is None
                &&& after.caches() == before.caches()
                &&& after.pages() == before.pages()
            }
            ||| exists|p: usize| {
                &&& #[trigger] before.provider().alloc_page_post(after.provider(), Some(p))
                &&& is_fresh_page(before.pages(), p)
                &&& after.pages() == before.pages().insert(p as int)
                &&& after.caches() == before.caches().update(i, c.add_slab_step(p).0)
                &&& r == c.add_slab_step(p).1
            }
        }
    }

    /// An allocator with an empty cache for each size class, taking its pages
    /// from `page_provider`.
    pub fn new(page_provider: P) -> (a: Self)
        ensures
            a.wf(),
            a.provider() == page_provider,
            forall|i: int| 0 <= i < NUM_SIZE_CLASSES ==> (#[trigger] a.caches()[i]).slabs.len() == 0,
    {
        let caches = [
            Cache::new(SIZE_CLASSES[0]),
            Cache::new(SIZE_CLASSES[1]),
            Cache::new(SIZE_CLASSES[2]),
            Cache::new(SIZE_CLASSES[3]),
            Cache::new(SIZE_CLASSES[4]),
            Cache::new(SIZE_CLASSES[5]),
            Cache::new(SIZE_CLASSES[6]),
            Cache::new(SIZE_CLASSES[7]),
            Cache::new(SIZE_CLASSES[8]),
        ];
        let a = SlabAllocator { caches, page_provider };
        proof {
            assert forall|i: int| 0 <= i < NUM_SIZE_CLASSES implies (#[trigger] a.caches()[i]).wf() by {
                assert(a.caches()[i] == a.caches@[i]@);
            }
        }
        a
    }

    /// The size class a request for `layout` is served from: the smallest
    /// that holds its size and its alignment; `None` when none does.
    pub fn size_class_for(layout: Layout) -> (r: Option<usize>)
        ensures
            too_large(request_size(layout@.size, layout@.align)) ==> r is None,
            forall|i: int| is_class_for(i, request_size(layout@.size, layout@.align))
                ==> r == Some(SIZE_CLASSES[i]),
    {
        let size = if layout.size() < layout.align() { layout.align() } else { layout.size() };
        match size_class_index(size) {
            Some(i) => {
                proof {
                    assert forall|k: int| is_class_for(k, size as int) implies k == i by {
                        lemma_class_unique(k, i as int, size as int);
                    }
                }
                Some(SIZE_CLASSES[i])
            },
            None => None,
        }
    }
}

impl<P: PageProvider> SlabAllocator<P> {
    /// Hands out an object for `layout` from the smallest size class that
    /// holds its size and alignment. When that class's cache is full, a page
    /// from the provider becomes a new slab of the cache. `None` when no
    /// class is large enough, or no object can be had.
    pub fn allocate(&mut self, layout: Layout) -> (r: Option<usize>)
        requires
            old(self).wf(),
        ensures
            final(self).wf(),
            too_large(request_size(layout@.size, layout@.align)) ==> {
                &&& r is None
                &&& final(self).caches() == old(self).caches()
                &&& final(self).pages() == old(self).pages()
            },
            forall|i: int| is_class_for(i, request_size(layout@.size, layout@.align))
                ==> Self::alloc_outcome(*old(self), *final(self), i, r),
            r matches Some(a) ==> {
                &&& a as int % layout@.align as int == 0
                &&& !old(self).is_allocated(a as int)
                &&& final(self).is_allocated(a as int)
                &&& forall|b: int| b != a ==> #[trigger] final(self).is_allocated(b) == old(self).is_allocated(b)
                &&& forall|i: int| is_class_for(i, request_size(layout@.size, layout@.align))
                    ==> #[trigger] final(self).caches()[i].is_allocated(a as int)
            },
            r is None ==> forall|b: int| #[trigger] final(self).is_allocated(b) == old(self).is_allocated(b),
    {
        let size = if layout.size() < layout.align() { layout.align() } else { layout.size() };
        let index = match size_class_index(size) {
            Some(i) => i,
            None => return None,
        };
        let ghost before = *self;
        let ghost c = before.caches()[index as int];
        proof {
            assert forall|k: int| is_class_for(k, size as int) implies k == index by {
                lemma_class_unique(k, index as int, size as int);
            }
            assert(self.caches@[index as int].wf());
            assert(self.caches@[index as int]@ == c);
            lemma_cache_allocate(c);
        }
        let ghost old_caches = self.caches@;
        let ptr = self.caches[index].allocate();
        proof {
            assert(self.caches@ == old_caches.update(index as int, self.caches@[index as int]));
            assert(self.caches() =~= before.caches().update(index as int, c.alloc_step().0));
            assert forall|j: int| 0 <= j < self.caches@.len() implies (#[trigger] self.caches@[j]).wf() by {
                if j != index {
                    assert(self.caches@[j] == old_caches[j]);
                }
            }
            lemma_wf_after_cache_change(before, *self, index as int, None);
        }
        if ptr.is_some() {
            proof {
                let a = ptr->0;
                lemma_allocated_in_one_cache(*self, index as int, a as int);
                lemma_allocation_laws(before, *self, index as int, a, layout@.align);
            }
            return ptr;
        }
        let ghost mid = *self;
        proof {
            assert(self.caches() =~= before.caches());
        }
        let page = self.page_provider.alloc_page();
        match page {
            None => {
                proof {
                    assert(self.caches() == mid.caches());
                    assert(self.caches() =~= mid.caches().update(index as int, self.caches()[index as int]));
                    lemma_wf_after_cache_change(mid, *self, index as int, None);
                }
                None
            },
            Some(p) => {
                proof {
                    assert(is_fresh_page(before.pages(), p));
                    assert(self.caches() == before.caches());
                    lemma_fresh_page_apart(before, index as int, p);
                    lemma_cache_add_slab(c, p);
                }
                let ghost old_caches2 = self.caches@;
                let r = self.caches[index].add_slab_and_alloc(p);
                proof {
                    assert(self.caches@ == old_caches2.update(index as int, self.caches@[index as int]));
                    assert(self.caches() =~= before.caches().update(index as int, c.add_slab_step(p).0));
                    assert forall|j: int| 0 <= j < self.caches@.len() implies (#[trigger] self.caches@[j]).wf() by {
                        if j != index {
                            assert(self.caches@[j] == old_caches2[j]);
                        }
                    }
                    lemma_wf_after_cache_change(before, *self, index as int, Some(p));
                    assert(is_fresh_page(before.pages(), p) && self.pages() == before.pages().insert(p as int));
                    if r is Some {
                        lemma_allocated_in_one_cache(*self, index as int, p as int);
                        lemma_allocation_laws(before, *self, index as int, p, layout@.align);
                    }
                }
                r
            },
        }
    }

    /// Takes back `ptr`, handed out for `layout`, into the cache of the
    /// layout's size class. Nothing happens when no class is large enough,
    /// or no slab of that cache holds `ptr`.
    pub fn dealloc(&mut self, ptr: usize, layout: Layout)
        requires
            old(self).wf(),
            forall|i: int| is_class_for(i, request_size(layout@.size, layout@.align))
                ==> old(self).caches()[i].may_dealloc(ptr as int),
        ensures
            final(self).wf(),
            final(self).provider() == old(self).provider(),
            too_large(request_size(layout@.size, layout@.align)) ==> final(self).caches() == old(self).caches(),
            forall|i: int| is_class_for(i, request_size(layout@.size, layout@.align))
                ==> final(self).caches() == old(self).caches().update(i, old(self).caches()[i].dealloc_step(ptr).0),
            forall|i: int| is_class_for(i, request_size(layout@.size, layout@.align))
                && #[trigger] old(self).caches()[i].is_allocated(ptr as int) ==> !final(self).is_allocated(ptr as int),
            forall|b: int| b != ptr ==> #[trigger] final(self).is_allocated(b) == old(self).is_allocated(b),
    {
        let size = if layout.size() < layout.align() { layout.align() } else { layout.size() };
        let index = match size_class_index(size) {
            Some(i) => i,
            None => return,
        };
        let ghost before = *self;
        let ghost c = before.caches()[index as int];
        proof {
            assert forall|k: int| is_class_for(k, size as int) implies k == index by {
                lemma_class_unique(k, index as int, size as int);
            }
            assert(size == request_size(layout@.size, layout@.align));
            assert(is_class_for(index as int, request_size(layout@.size, layout@.align)));
            assert(self.caches@[index as int].wf());
            assert(self.caches@[index as int]@ == c);
            lemma_cache_dealloc(c, ptr);
        }
        let ghost old_caches = self.caches@;
        self.caches[index].dealloc(ptr);
        proof {
            assert(self.caches@ == old_caches.update(index as int, self.caches@[index as int]));
            assert(self.caches() =~= before.caches().update(index as int, c.dealloc_step(ptr).0));
            assert forall|j: int| 0 <= j < self.caches@.len() implies (#[trigger] self.caches@[j]).wf() by {
                if j != index {
                    assert(self.caches@[j] == old_caches[j]);
                }
            }
            lemma_wf_after_cache_change(before, *self, index as int, None);
            lemma_dealloc_laws(before, *self, index as int, ptr);
        }
    }
}

/// An object handed out by cache `i` lies in no page of another cache, so
/// no other cache has handed it out.
proof fn lemma_allocated_in_one_cache<P: PageProvider>(a: SlabAllocator<P>, i: int, x: int)
    requires
        a.wf(),
        0 <= i < NUM_SIZE_CLASSES,
        a.caches()[i].is_allocated(x),
    ensures
        forall|j: int| 0 <= j < NUM_SIZE_CLASSES && j != i ==> !(#[trigger] a.caches()[j]).is_allocated(x),
{
    let c = a.caches()[i];
    let s = choose|s: int| 0 <= s < c.slabs.len() && #[trigger] c.slabs[s].is_allocated(x);
    crate::slab::lemma_slot_of_index(c.slabs[s], x);
    assert(a.has_slab(i, s));
    assert forall|j: int| 0 <= j < NUM_SIZE_CLASSES && j != i implies !(#[trigger] a.caches()[j]).is_allocated(x) by {
        let d = a.caches()[j];
        if d.is_allocated(x) {
            let t = choose|t: int| 0 <= t < d.slabs.len() && #[trigger] d.slabs[t].is_allocated(x);
            crate::slab::lemma_slot_of_index(d.slabs[t], x);
            assert(a.has_slab(j, t));
            lemma_aligned_pages_apart(a.slab_page(i, s), a.slab_page(j, t));
        }
    }
}

/// Allocation laws: when cache `i` newly hands out `x` and nothing else
/// changes, `x` is aligned to `align`, was not handed out before, is now, and
/// every other address keeps its state.
proof fn lemma_allocation_laws<P: PageProvider>(
    before: SlabAllocator<P>,
    after: SlabAllocator<P>,
    i: int,
    x: usize,
    align: usize,
)
    requires
        before.wf(),
        after.wf(),
        0 <= i < NUM_SIZE_CLASSES,
        after.caches() == before.caches().update(i, after.caches()[i]),
        !before.caches()[i].is_allocated(x as int),
        after.caches()[i].is_allocated(x as int),
        forall|b: int| b != x ==> #[trigger] after.caches()[i].is_allocated(b) == before.caches()[i].is_allocated(b),
        vstd::arithmetic::power2::is_pow2(align as int),
        align <= SIZE_CLASSES[i],
        forall|j: int| 0 <= j < NUM_SIZE_CLASSES && j != i ==> !(#[trigger] after.caches()[j]).is_allocated(x as int),
    ensures
        x as int % align as int == 0,
        !before.is_allocated(x as int),
        after.is_allocated(x as int),
        forall|b: int| b != x ==> #[trigger] after.is_allocated(b) == before.is_allocated(b),
        after.caches()[i].is_allocated(x as int),
{
    assert(!before.is_allocated(x as int)) by {
        if before.is_allocated(x as int) {
            let j = choose|j: int| 0 <= j < before.caches().len() && #[trigger] before.caches()[j].is_allocated(x as int);
            if j != i {
                assert(after.caches()[j] == before.caches()[j]);
            }
        }
    }
    assert forall|b: int| b != x implies #[trigger] after.is_allocated(b) == before.is_allocated(b) by {
        if after.is_allocated(b) {
            let j = choose|j: int| 0 <= j < after.caches().len() && #[trigger] after.caches()[j].is_allocated(b);
            if j != i {
                assert(after.caches()[j] == before.caches()[j]);
            }
            assert(before.caches()[j].is_allocated(b));
        }
        if before.is_allocated(b) {
            let j = choose|j: int| 0 <= j < before.caches().len() && #[trigger] before.caches()[j].is_allocated(b);
            if j != i {
                assert(after.caches()[j] == before.caches()[j]);
            }
            assert(after.caches()[j].is_allocated(b));
        }
    }
    let c = after.caches()[i];
    let s = choose|s: int| 0 <= s < c.slabs.len() && #[trigger] c.slabs[s].is_allocated(x as int);
    assert(after.has_slab(i, s));
    lemma_align_divides_class(align as int, i);
    lemma_slot_aligned(c.slabs[s], x as int, align as int);
}

/// Deallocation laws: when cache `i` takes back `x`, an object of that cache
/// is no longer handed out, and every other address keeps its state.
proof fn lemma_dealloc_laws<P: PageProvider>(before: SlabAllocator<P>, after: SlabAllocator<P>, i: int, x: usize)
    requires
        before.wf(),
        after.wf(),
        0 <= i < NUM_SIZE_CLASSES,
        before.caches()[i].may_dealloc(x as int),
        after.caches() == before.caches().update(i, before.caches()[i].dealloc_step(x).0),
    ensures
        before.caches()[i].is_allocated(x as int) ==> !after.is_allocated(x as int),
        forall|b: int| b != x ==> #[trigger] after.is_allocated(b) == before.is_allocated(b),
{
    let c = before.caches()[i];
    lemma_cache_dealloc(c, x);
    assert(after.caches()[i] == c.dealloc_step(x).0);
    if c.is_allocated(x as int) {
        let s = choose|s: int| 0 <= s < c.slabs.len() && #[trigger] c.slabs[s].is_allocated(x as int);
        crate::slab::lemma_slot_of_index(c.slabs[s], x as int);
        assert(c.owns(s, x as int));
        lemma_allocated_in_one_cache(before, i, x as int);
        assert(!after.is_allocated(x as int)) by {
            if after.is_allocated(x as int) {
                let j = choose|j: int| 0 <= j < after.caches().len() && #[trigger] after.caches()[j].is_allocated(x as int);
                if j != i {
                    assert(after.caches()[j] == before.caches()[j]);
                }
            }
        }
    }
    assert forall|b: int| b != x implies #[trigger] after.is_allocated(b) == before.is_allocated(b) by {
        if after.is_allocated(b) {
            let j = choose|j: int| 0 <= j < after.caches().len() && #[trigger] after.caches()[j].is_allocated(b);
            if j != i {
                assert(after.caches()[j] == before.caches()[j]);
            }
            assert(before.caches()[j].is_allocated(b));
        }
        if before.is_allocated(b) {
            let j = choose|j: int| 0 <= j < before.caches().len() && #[trigger] before.caches()[j].is_allocated(b);
            if j != i {
                assert(after.caches()[j] == before.caches()[j]);
            }
            assert(after.caches()[j].is_allocated(b));
        }
    }
}

/// Objects handed out at the same time never overlap: the object at `x`,
/// from size class `i`, and the one at `y`, from size class `j`, occupy
/// disjoint byte ranges of their class sizes.
pub proof fn lemma_objects_disjoint<P: PageProvider>(a: SlabAllocator<P>, i: int, x: int, j: int, y: int)
    requires
        a.wf(),
        0 <= i < NUM_SIZE_CLASSES,
        0 <= j < NUM_SIZE_CLASSES,
        a.caches()[i].is_allocated(x),
        a.caches()[j].is_allocated(y),
        x != y,
    ensures
        x + SIZE_CLASSES[i] <= y || y + SIZE_CLASSES[j] <= x,
{
    let c = a.caches()[i];
    let d = a.caches()[j];
    let s = choose|s: int| 0 <= s < c.slabs.len() && #[trigger] c.slabs[s].is_allocated(x);
    let t = choose|t: int| 0 <= t < d.slabs.len() && #[trigger] d.slabs[t].is_allocated(y);
    let v = c.slabs[s];
    let w = d.slabs[t];
    crate::slab::lemma_slot_of_index(v, x);
    crate::slab::lemma_slot_of_index(w, y);
    assert(a.has_slab(i, s) && a.has_slab(j, t));
    if i == j && s == t {
        let kx = v.slot_index(x);
        let ky = v.slot_index(y);
        let ss = v.slot_size as int;
        assert(kx != ky);
        assert(x + ss <= y || y + ss <= x) by (nonlinear_arith)
            requires x == v.page + kx * ss, y == v.page + ky * ss, kx != ky, ss > 0;
    } else if i == j {
        assert(c.pages_apart(s, t));
    } else {
        lemma_aligned_pages_apart(a.slab_page(i, s), a.slab_page(j, t));
    }
}

/// Every object handed out lies, with all the bytes of its size class,
/// inside a page that the provider handed out and has not taken back.
pub proof fn lemma_object_in_page<P: PageProvider>(a: SlabAllocator<P>, i: int, x: int)
    requires
        a.wf(),
        0 <= i < NUM_SIZE_CLASSES,
        a.caches()[i].is_allocated(x),
    ensures
        exists|p: int| #[trigger] a.pages().contains(p) && p <= x && x + SIZE_CLASSES[i] <= p + PAGE_SIZE,
{
    let c = a.caches()[i];
    let s = choose|s: int| 0 <= s < c.slabs.len() && #[trigger] c.slabs[s].is_allocated(x);
    crate::slab::lemma_slot_of_index(c.slabs[s], x);
    assert(a.has_slab(i, s));
    let p = a.slab_page(i, s);
    assert(a.pages().contains(p));
}

/// A power-of-two alignment no larger than a size class divides that class
/// and the page size.
proof fn lemma_align_divides_class(align: int, i: int)
    requires
        vstd::arithmetic::power2::is_pow2(align),
        0 <= i < NUM_SIZE_CLASSES,
        align <= SIZE_CLASSES[i],
    ensures
        align > 0,
        SIZE_CLASSES[i] as int % align == 0,
        PAGE_SIZE as int % align == 0,
{
    lemma_small_pow2(align);
}

/// The powers of two up to 2048.
proof fn lemma_small_pow2(a: int)
    requires
        vstd::arithmetic::power2::is_pow2(a),
        a <= 2048,
    ensures
        a == 1 || a == 2 || a == 4 || a == 8 || a == 16 || a == 32 || a == 64 || a == 128 || a == 256
            || a == 512 || a == 1024 || a == 2048,
    decreases a,
{
    reveal(vstd::arithmetic::power2::is_pow2);
    if a > 1 {
        lemma_small_pow2(a / 2);
    }
}

/// A slot of a page-aligned slab whose slot size is a multiple of `align`
/// is aligned to `align`, when `align` divides the page size.
proof fn lemma_slot_aligned(v: crate::slab::SlabView, x: int, align: int)
    requires
        v.wf(),
        v.is_slot(x),
        v.page as int % PAGE_SIZE as int == 0,
        align > 0,
        v.slot_size as int % align == 0,
        PAGE_SIZE as int % align == 0,
    ensures
        x % align == 0,
{
    crate::slab::lemma_slot_of_index(v, x);
    let k = v.slot_index(x);
    let p = v.page as int;
    let ss = v.slot_size as int;
    assert(x == p + k * ss);
    let q = p / PAGE_SIZE as int;
    let m = PAGE_SIZE as int / align;
    let n = ss / align;
    assert(p == PAGE_SIZE * q) by (nonlinear_arith)
        requires p % 4096int == 0, q == p / 4096int;
    assert(PAGE_SIZE == align * m) by (nonlinear_arith)
        requires 4096int % align == 0, m == 4096int / align, align > 0;
    assert(ss == align * n) by (nonlinear_arith)
        requires ss % align == 0, n == ss / align, align > 0;
    assert(x == (m * q + k * n) * align) by (nonlinear_arith)
        requires x == p + k * ss, p == 4096int * q, 4096int == align * m, ss == align * n;
    assert(((m * q + k * n) * align) % align == 0) by (nonlinear_arith)
        requires align > 0;
}

/// What allocating from size class `i` guarantees, whichever way the page
/// provider answers: an object handed out is aligned to `align`, was not
/// handed out before, is now (by cache `i`), and every other address keeps
/// its state; when nothing is handed out, every address keeps its state.
pub proof fn lemma_alloc_outcome_laws<P: PageProvider>(
    before: SlabAllocator<P>,
    after: SlabAllocator<P>,
    i: int,
    r: Option<usize>,
    align: usize,
)
    requires
        before.wf(),
        after.wf(),
        0 <= i < NUM_SIZE_CLASSES,
        vstd::arithmetic::power2::is_pow2(align as int),
        align <= SIZE_CLASSES[i],
        SlabAllocator::alloc_outcome(before, after, i, r),
    ensures
        r matches Some(a) ==> {
            &&& a as int % align as int == 0
            &&& !before.is_allocated(a as int)
            &&& after.is_allocated(a as int)
            &&& after.caches()[i].is_allocated(a as int)
            &&& forall|b: int| b != a ==> #[trigger] after.is_allocated(b) == before.is_allocated(b)
        },
        r is None ==> forall|b: int| #[trigger] after.is_allocated(b) == before.is_allocated(b),
{
    let c = before.caches()[i];
    lemma_cache_allocate(c);
    if c.alloc_step().1 is Some {
        let a = r->0;
        lemma_allocated_in_one_cache(after, i, a as int);
        lemma_allocation_laws(before, after, i, a, align);
    } else if r is None && after.caches() == before.caches() {
    } else {
        let p = choose|p: usize| {
            &&& #[trigger] before.provider().alloc_page_post(after.provider(), Some(p))
            &&& is_fresh_page(before.pages(), p)
            &&& after.pages() == before.pages().insert(p as int)
            &&& after.caches() == before.caches().update(i, c.add_slab_step(p).0)
            &&& r == c.add_slab_step(p).1
        };
        lemma_fresh_page_apart(before, i, p);
        lemma_cache_add_slab(c, p);
        if r is Some {
            lemma_allocated_in_one_cache(after, i, p as int);
            lemma_allocation_laws(before, after, i, p, align);
        } else {
            assert(after.caches() =~= before.caches());
        }
    }
}

/// Freeing an object right after allocating it, with the same layout,
/// leaves every address handed out or not exactly as before the allocation.
pub proof fn lemma_allocate_then_dealloc<P: PageProvider>(
    s0: SlabAllocator<P>,
    s1: SlabAllocator<P>,
    s2: SlabAllocator<P>,
    i: int,
    a: usize,
    align: usize,
)
    requires
        s0.wf(),
        s1.wf(),
        s2.wf(),
        0 <= i < NUM_SIZE_CLASSES,
        vstd::arithmetic::power2::is_pow2(align as int),
        align <= SIZE_CLASSES[i],
        SlabAllocator::alloc_outcome(s0, s1, i, Some(a)),
        s2.caches() == s1.caches().update(i, s1.caches()[i].dealloc_step(a).0),
    ensures
        forall|b: int| #[trigger] s2.is_allocated(b) == s0.is_allocated(b),
{
    lemma_alloc_outcome_laws(s0, s1, i, Some(a), align);
    let c = s1.caches()[i];
    let s = choose|s: int| 0 <= s < c.slabs.len() && #[trigger] c.slabs[s].is_allocated(a as int);
    crate::slab::lemma_slot_of_index(c.slabs[s], a as int);
    crate::cache::lemma_owner_unique(c, s, a as int);
    assert(c.may_dealloc(a as int));
    lemma_dealloc_laws(s1, s2, i, a);
}

/// Freeing an object and then, with no call in between, allocating again
/// from the same size class hands the same object back without asking the
/// page provider, and leaves the caches as they were right after the first
/// allocation.
pub proof fn lemma_freed_object_comes_back<P: PageProvider>(
    s0: SlabAllocator<P>,
    s1: SlabAllocator<P>,
    s2: SlabAllocator<P>,
    s3: SlabAllocator<P>,
    i: int,
    a: usize,
    r: Option<usize>,
)
    requires
        s0.wf(),
        0 <= i < NUM_SIZE_CLASSES,
        SlabAllocator::alloc_outcome(s0, s1, i, Some(a)),
        s2.caches() == s1.caches().update(i, s1.caches()[i].dealloc_step(a).0),
        s2.provider() == s1.provider(),
        SlabAllocator::alloc_outcome(s2, s3, i, r),
    ensures
        r == Some(a),
        s3.provider() == s2.provider(),
        s3.caches() == s1.caches(),
{
    let c = s0.caches()[i];
    lemma_cache_allocate(c);
    crate::cache::lemma_cache_counts(c);
    if c.alloc_step().1 is Some {
        let c1 = c.alloc_step().0;
        crate::cache::lemma_cache_allocate_then_dealloc(c);
        assert(s1.caches()[i] == c1);
        assert(s2.caches()[i] == c);
        assert(s3.caches() =~= s1.caches());
    } else {
        let p = choose|p: usize| {
            &&& #[trigger] s0.provider().alloc_page_post(s1.provider(), Some(p))
            &&& is_fresh_page(s0.pages(), p)
            &&& s1.pages() == s0.pages().insert(p as int)
            &&& s1.caches() == s0.caches().update(i, c.add_slab_step(p).0)
            &&& Some(a) == c.add_slab_step(p).1
        };
        lemma_fresh_page_apart(s0, i, p);
        lemma_cache_add_slab(c, p);
        let n = c.slabs.len() as int;
        let fresh = crate::slab::SlabView::fresh(p, c.object_size);
        crate::slab::lemma_fresh(p, c.object_size);
        crate::slab::lemma_counts(fresh);
        crate::slab::lemma_allocate_then_dealloc(fresh);
        let w = fresh.alloc_step().0;
        let c1 = c.add_slab_step(p).0;
        assert(a == p);
        assert(s1.caches()[i] == c1);
        assert(c1.slabs == c.slabs.push(w));
        assert(c1.owns(n, p as int));
        crate::cache::lemma_owner_unique(c1, n, p as int);
        assert((choose|j: int| c1.owns(j, p as int)) == n);
        let c2 = c1.dealloc_step(p).0;
        assert(c2.slabs =~= c.slabs.push(fresh));
        assert(s2.caches()[i] == c2);
        assert(c2.is_first_open(n));
        assert forall|j: int| #[trigger] c2.is_first_open(j) implies j == n by {
            if j < n {
                assert(c2.slabs[j] == c.slabs[j]);
            } else if n < j {
                assert(false);
            }
        }
        assert((choose|j: int| c2.is_first_open(j)) == n);
        assert(c2.alloc_step().0.slabs =~= c1.slabs);
        assert(c2.alloc_step().0 == c1);
        assert(s3.caches() =~= s1.caches());
    }
}

/// Two distinct page-aligned addresses are a page apart.
pub proof fn lemma_aligned_pages_apart(p: int, q: int)
    requires
        p % PAGE_SIZE as int == 0,
        q % PAGE_SIZE as int == 0,
        p != q,
    ensures
        p + PAGE_SIZE <= q || q + PAGE_SIZE <= p,
{
    assert(p + PAGE_SIZE <= q || q + PAGE_SIZE <= p) by (nonlinear_arith)
        requires p % 4096 == 0, q % 4096 == 0, p != q;
}

/// A fresh page overlaps no slab of any cache.
proof fn lemma_fresh_page_apart<P: PageProvider>(a: SlabAllocator<P>, i: int, p: usize)
    requires
        a.wf(),
        0 <= i < NUM_SIZE_CLASSES,
        is_fresh_page(a.pages(), p),
    ensures
        a.caches()[i].page_is_fresh(p as int),
{
    let c = a.caches()[i];
    assert forall|s: int| 0 <= s < c.slabs.len() implies
        p + PAGE_SIZE <= #[trigger] c.slabs[s].page || c.slabs[s].page + PAGE_SIZE <= p by {
        assert(a.has_slab(i, s));
        lemma_aligned_pages_apart(p as int, a.slab_page(i, s));
    }
}

/// Changing cache `i` so that its slabs keep their pages, or gain a fresh
/// page `p` that the provider now counts as in use, keeps the allocator well
/// formed.
proof fn lemma_wf_after_cache_change<P: PageProvider>(
    before: SlabAllocator<P>,
    after: SlabAllocator<P>,
    i: int,
    p: Option<usize>,
)
    requires
        before.wf(),
        0 <= i < NUM_SIZE_CLASSES,
        after.caches_agree(),
        after.caches() == before.caches().update(i, after.caches()[i]),
        after.caches()[i].wf(),
        after.caches()[i].object_size == before.caches()[i].object_size,
        p is None ==> after.pages() == before.pages(),
        p matches Some(q) ==> is_fresh_page(before.pages(), q) && after.pages() == before.pages().insert(q as int),
        forall|s: int| 0 <= s < after.caches()[i].slabs.len() ==> {
            ||| (s < before.caches()[i].slabs.len() && (#[trigger] after.caches()[i].slabs[s]).page == before.caches()[i].slabs[s].page)
            ||| p == Some(after.caches()[i].slabs[s].page)
        },
    ensures
        after.wf(),
{
    assert forall|j: int| 0 <= j < NUM_SIZE_CLASSES implies (#[trigger] after.caches()[j]).wf()
        && after.caches()[j].object_size == SIZE_CLASSES[j] by {
        if j != i {
            assert(after.caches()[j] == before.caches()[j]);
        }
    }
    assert forall|j: int, s: int| #[trigger] after.has_slab(j, s) implies {
        &&& after.slab_page(j, s) % PAGE_SIZE as int == 0
        &&& after.pages().contains(after.slab_page(j, s))
    } by {
        if j != i {
            assert(after.caches()[j] == before.caches()[j]);
            assert(before.has_slab(j, s));
        } else if s < before.caches()[i].slabs.len() && after.caches()[i].slabs[s].page == before.caches()[i].slabs[s].page {
            assert(before.has_slab(i, s));
        }
    }
    assert forall|j: int, s: int, k: int, t: int| #[trigger] after.has_slab(j, s) && #[trigger] after.has_slab(k, t) && j != k
        implies after.slab_page(j, s) != after.slab_page(k, t) by {
        // an unchanged slab's page is in use before; a new page is not
        if j != i && k != i {
            assert(after.caches()[j] == before.caches()[j]);
            assert(after.caches()[k] == before.caches()[k]);
            assert(before.has_slab(j, s) && before.has_slab(k, t));
        } else if j == i {
            assert(after.caches()[k] == before.caches()[k]);
            assert(before.has_slab(k, t));
            if s < before.caches()[i].slabs.len() && after.caches()[i].slabs[s].page == before.caches()[i].slabs[s].page {
                assert(before.has_slab(i, s));
            } else {
                assert(before.pages().contains(before.slab_page(k, t)));
            }
        } else {
            assert(after.caches()[j] == before.caches()[j]);
            assert(before.has_slab(j, s));
            if t < before.caches()[i].slabs.len() && after.caches()[i].slabs[t].page == before.caches()[i].slabs[t].page {
                assert(before.has_slab(i, t));
            } else {
                assert(before.pages().contains(before.slab_page(j, s)));
            }
        }
    }
}

/// The smallest class for a size is unique.
proof fn lemma_class_unique(i: int, j: int, size: int)
    requires
        is_class_for(i, size),
        is_class_for(j, size),
    ensures
        i == j,
{
    if i < j {
        assert(SIZE_CLASSES[i] < size);
    } else if j < i {
        assert(SIZE_CLASSES[j] < size);
    }
}

} // verus!
