use vstd::prelude::*;

verus! {

/// The size of one page, used everywhere (4 KiB).
pub const PAGE_SIZE: usize = 4096;

/// A source of pages.
///
/// `pages_in_use` is the set of pages handed out and not given back. Every
/// page handed out is `PAGE_SIZE`-aligned, not at address zero, fits below
/// the top of the address space, and is none of the pages in use.
pub trait PageProvider: Sized {
    /// The start addresses of the pages handed out and not given back.
    spec fn pages_in_use(&self) -> Set<int>;

    /// The provider's own account of one call of `alloc_page`: from this
    /// state, the call may leave `after` behind and answer `page`.
    spec fn alloc_page_post(&self, after: Self, page: Option<usize>) -> bool;

    /// Hands out a page, or `None` when the provider has run out.
    fn alloc_page(&mut self) -> (page: Option<usize>)
        ensures
            old(self).alloc_page_post(*final(self), page),
            match page {
                Some(p) => {
                    &&& p as int % PAGE_SIZE as int == 0
                    &&& 0 < p
                    &&& p + PAGE_SIZE <= usize::MAX
                    &&& !old(self).pages_in_use().contains(p as int)
                    &&& final(self).pages_in_use() == old(self).pages_in_use().insert(p as int)
                },
                None => final(self).pages_in_use() == old(self).pages_in_use(),
            },
    ;

    /// Gives back a page that `alloc_page` handed out and that was not given
    /// back yet.
    fn dealloc_page(&mut self, page: usize)
        requires
            old(self).pages_in_use().contains(page as int),
        ensures
            final(self).pages_in_use().subset_of(old(self).pages_in_use()),
    ;
}

/// The abstract state of a page pool: the page-aligned start of the pool,
/// the bytes it holds from there, and the bytes already handed out.
pub struct PagePoolView {
    pub start: int,
    pub capacity: int,
    pub offset: int,
}

impl PagePoolView {
    /// The pages handed out: the page-aligned addresses below `start + offset`.
    pub open spec fn handed_out(self) -> Set<int> {
        Set::new(|a: int| self.start <= a < self.start + self.offset && (a - self.start) % PAGE_SIZE as int == 0)
    }

    /// One call of `alloc_page`: the next page while a whole page is left,
    /// else nothing and no change.
    pub open spec fn alloc_step(self) -> (PagePoolView, Option<usize>) {
        if self.offset + PAGE_SIZE <= self.capacity {
            (PagePoolView { offset: self.offset + PAGE_SIZE, ..self }, Some((self.start + self.offset) as usize))
        } else {
            (self, None)
        }
    }

    /// The pool after `k` calls of `alloc_page`.
    pub open spec fn run(self, k: nat) -> PagePoolView
        decreases k,
    {
        if k == 0 {
            self
        } else {
            self.run((k - 1) as nat).alloc_step().0
        }
    }
}

/// Distance from `addr` up to the next page boundary (zero when aligned).
pub open spec fn align_up_offset(addr: int) -> int {
    if addr % PAGE_SIZE as int == 0 { 0 } else { PAGE_SIZE - addr % PAGE_SIZE as int }
}

/// A bump allocator of pages over a buffer of `N` bytes. Pages are handed
/// out one after the other from the first page boundary in the buffer;
/// giving a page back does nothing.
pub struct StaticPageProvider<const N: usize> {
    heap: usize,
    offset: usize,
    capacity: usize,
}

impl<const N: usize> View for StaticPageProvider<N> {
    type V = PagePoolView;

    closed spec fn view(&self) -> PagePoolView {
        PagePoolView { start: self.heap as int, capacity: self.capacity as int, offset: self.offset as int }
    }
}

impl<const N: usize> StaticPageProvider<N> {
    #[verifier::type_invariant]
    closed spec fn inv(self) -> bool {
        &&& self.offset as int % PAGE_SIZE as int == 0
        &&& self.offset <= self.capacity
        &&& 0 < self.heap
        &&& self.heap + self.capacity <= usize::MAX
        &&& self.capacity > 0 ==> self.heap as int % PAGE_SIZE as int == 0
    }

    /// A provider over the `N` bytes starting at address `heap_start`. The
    /// pool starts at the first page boundary at or after `heap_start`, and
    /// holds the bytes of the buffer from there.
    pub fn new(heap_start: usize) -> (provider: Self)
        requires
            0 < heap_start,
            heap_start + N <= usize::MAX,
        ensures
            provider@.offset == 0,
            align_up_offset(heap_start as int) <= N ==> {
                &&& provider@.start == heap_start + align_up_offset(heap_start as int)
                &&& provider@.capacity == N - align_up_offset(heap_start as int)
            },
            align_up_offset(heap_start as int) > N ==> provider@.capacity == 0,
    {
        let rem = heap_start % PAGE_SIZE;
        let align_offset = if rem == 0 { 0 } else { PAGE_SIZE - rem };
        if align_offset <= N {
            StaticPageProvider { heap: heap_start + align_offset, offset: 0, capacity: N - align_offset }
        } else {
            // The buffer ends before the first page boundary: no room for a page.
            StaticPageProvider { heap: heap_start, offset: 0, capacity: 0 }
        }
    }
}

impl<const N: usize> PageProvider for StaticPageProvider<N> {
    open spec fn pages_in_use(&self) -> Set<int> {
        self@.handed_out()
    }

    open spec fn alloc_page_post(&self, after: Self, page: Option<usize>) -> bool {
        (after@, page) == self@.alloc_step()
    }

    /// Hands out the next page of the pool, or `None` once fewer than
    /// `PAGE_SIZE` bytes are left.
    fn alloc_page(&mut self) -> (page: Option<usize>)
        ensures
            (final(self)@, page) == old(self)@.alloc_step(),
    {
        proof {
            use_type_invariant(&*self);
        }
        if self.offset + PAGE_SIZE > self.capacity {
            return None;
        }
        let ghost before = self@;
        let page = self.heap + self.offset;
        self.offset = self.offset + PAGE_SIZE;
        proof {
            assert(!before.handed_out().contains(page as int));
            assert(self@.handed_out() =~= before.handed_out().insert(page as int));
        }
        Some(page)
    }

    /// Does nothing: a bump allocator never reuses a page.
    fn dealloc_page(&mut self, page: usize)
        ensures
            final(self)@ == old(self)@,
    {
    }
}

/// Pages come out of a pool one after the other: call `k` (counting from
/// zero) hands out the page at `start + offset + PAGE_SIZE * k` while it fits
/// in the pool, and nothing from the first call on that it does not.
pub proof fn lemma_page_sequence(v: PagePoolView, k: nat)
    requires
        v.offset % PAGE_SIZE as int == 0,
        0 <= v.offset <= v.capacity,
        0 <= v.start,
        v.start + v.capacity <= usize::MAX,
    ensures
        v.run(k).alloc_step().1 == (if v.offset + PAGE_SIZE * (k + 1) <= v.capacity {
            Some((v.start + v.offset + PAGE_SIZE * k) as usize)
        } else {
            None::<usize>
        }),
{
    lemma_run(v, k);
}

/// The pool after `k` calls: moved on by `k` pages while they fit, else
/// stopped with less than a page left.
proof fn lemma_run(v: PagePoolView, k: nat)
    requires
        0 <= v.offset <= v.capacity,
    ensures
        v.run(k).start == v.start,
        v.run(k).capacity == v.capacity,
        v.offset + PAGE_SIZE * k <= v.capacity ==> v.run(k).offset == v.offset + PAGE_SIZE * k,
        v.offset + PAGE_SIZE * k > v.capacity ==> v.run(k).offset + PAGE_SIZE > v.capacity,
    decreases k,
{
    if k > 0 {
        lemma_run(v, (k - 1) as nat);
    }
}

} // verus!
