use vstd::prelude::*;
use crate::page::PAGE_SIZE;
use crate::slab::{Slab, SlabView, slot_size_for};
use crate::slab::{lemma_counts, lemma_fresh, lemma_slot_of_index};
use crate::slab::{lemma_allocate_hands_out_free_slot, lemma_dealloc_frees_slot};

verus! {

/// A cache holds at most this many slabs.
pub const MAX_SLABS_PER_CACHE: usize = 32;

/// Sum of a sequence of integers.
pub open spec fn seq_sum(s: Seq<int>) -> int
    decreases s.len(),
{
    if s.len() == 0 {
        0
    } else {
        seq_sum(s.drop_last()) + s.last()
    }
}

/// Slots handed out by each slab.
pub open spec fn used_counts(slabs: Seq<SlabView>) -> Seq<int> {
    slabs.map_values(|v: SlabView| v.used())
}

/// Free slots of each slab.
pub open spec fn free_counts(slabs: Seq<SlabView>) -> Seq<int> {
    slabs.map_values(|v: SlabView| v.free.len() as int)
}

/// The abstract state of a cache: its object size and its slabs, in order.
pub struct CacheView {
    pub object_size: usize,
    pub slabs: Seq<SlabView>,
}

impl CacheView {
    /// Slot size of every slab of the cache.
    pub open spec fn slot_size(self) -> int {
        slot_size_for(self.object_size as int)
    }

    /// The pages of slabs `i` and `j` do not overlap.
    pub open spec fn pages_apart(self, i: int, j: int) -> bool {
        self.slabs[i].page + PAGE_SIZE <= self.slabs[j].page
            || self.slabs[j].page + PAGE_SIZE <= self.slabs[i].page
    }

    /// The page at `page` overlaps no slab of the cache.
    pub open spec fn page_is_fresh(self, page: int) -> bool {
        forall|i: int| 0 <= i < self.slabs.len() ==>
            page + PAGE_SIZE <= #[trigger] self.slabs[i].page || self.slabs[i].page + PAGE_SIZE <= page
    }

    pub open spec fn wf(self) -> bool {
        &&& self.slabs.len() <= MAX_SLABS_PER_CACHE
        &&& forall|i: int| 0 <= i < self.slabs.len() ==> #[trigger] self.slabs[i].wf()
        &&& forall|i: int| 0 <= i < self.slabs.len() ==> #[trigger] self.slabs[i].slot_size == self.slot_size()
        &&& forall|i: int, j: int| 0 <= i < self.slabs.len() && 0 <= j < self.slabs.len() && i != j
            ==> #[trigger] self.pages_apart(i, j)
    }

    /// Slots handed out, over all slabs.
    pub open spec fn total_used(self) -> int {
        seq_sum(used_counts(self.slabs))
    }

    /// Free slots, over all slabs.
    pub open spec fn total_free(self) -> int {
        seq_sum(free_counts(self.slabs))
    }

    /// `a` is handed out by one of the slabs.
    pub open spec fn is_allocated(self, a: int) -> bool {
        exists|i: int| 0 <= i < self.slabs.len() && #[trigger] self.slabs[i].is_allocated(a)
    }

    /// `a` is a free slot of one of the slabs.
    pub open spec fn is_free(self, a: int) -> bool {
        exists|i: int| 0 <= i < self.slabs.len() && #[trigger] self.slabs[i].is_free(a)
    }

    /// Slab `i` is the first slab with a free slot.
    pub open spec fn is_first_open(self, i: int) -> bool {
        &&& 0 <= i < self.slabs.len()
        &&& self.slabs[i].free.len() > 0
        &&& forall|j: int| 0 <= j < i ==> #[trigger] self.slabs[j].free.len() == 0
    }

    /// Slab `i` is the one whose page holds `a`.
    pub open spec fn owns(self, i: int, a: int) -> bool {
        0 <= i < self.slabs.len() && self.slabs[i].in_page(a)
    }

    /// Handing out one object: from the first slab with a free slot, or
    /// nothing when every slab is full.
    pub open spec fn alloc_step(self) -> (CacheView, Option<usize>) {
        if exists|i: int| self.is_first_open(i) {
            let i = choose|i: int| self.is_first_open(i);
            (
                CacheView { slabs: self.slabs.update(i, self.slabs[i].alloc_step().0), ..self },
                self.slabs[i].alloc_step().1,
            )
        } else {
            (self, None)
        }
    }

    /// Adding a slab made from `page` and handing out its first slot, or
    /// nothing when the cache already holds its maximum of slabs.
    pub open spec fn add_slab_step(self, page: usize) -> (CacheView, Option<usize>) {
        if self.slabs.len() >= MAX_SLABS_PER_CACHE {
            (self, None)
        } else {
            let fresh = SlabView::fresh(page, self.object_size);
            (CacheView { slabs: self.slabs.push(fresh.alloc_step().0), ..self }, fresh.alloc_step().1)
        }
    }

    /// Taking back `a`: the slab whose page holds it takes it back (`true`),
    /// or nothing happens when no slab's page holds it (`false`).
    pub open spec fn dealloc_step(self, a: usize) -> (CacheView, bool) {
        if exists|i: int| self.owns(i, a as int) {
            let i = choose|i: int| self.owns(i, a as int);
            (CacheView { slabs: self.slabs.update(i, self.slabs[i].dealloc_step(a)), ..self }, true)
        } else {
            (self, false)
        }
    }

    /// What `dealloc` asks of `a`: where a slab's page holds it, that slab has
    /// handed it out.
    pub open spec fn may_dealloc(self, a: int) -> bool {
        forall|i: int| #[trigger] self.owns(i, a) ==> self.slabs[i].is_allocated(a)
    }
}

/// A call made on a cache: `allocate`, `add_slab_and_alloc` of a page, or
/// `dealloc` of an address.
pub enum CacheCall {
    Allocate,
    AddSlab(usize),
    Dealloc(usize),
}

impl CacheView {
    /// The cache after one call.
    pub open spec fn apply(self, call: CacheCall) -> CacheView {
        match call {
            CacheCall::Allocate => self.alloc_step().0,
            CacheCall::AddSlab(p) => self.add_slab_step(p).0,
            CacheCall::Dealloc(a) => self.dealloc_step(a).0,
        }
    }

    /// The call succeeds: hands out an object, or finds the slab to free in.
    pub open spec fn succeeds(self, call: CacheCall) -> bool {
        match call {
            CacheCall::Allocate => self.alloc_step().1 is Some,
            CacheCall::AddSlab(p) => self.add_slab_step(p).1 is Some,
            CacheCall::Dealloc(a) => self.dealloc_step(a).1,
        }
    }

    /// What the call asks of the cache it is made on.
    pub open spec fn call_allowed(self, call: CacheCall) -> bool {
        match call {
            CacheCall::Allocate => true,
            CacheCall::AddSlab(p) => self.slabs.len() < MAX_SLABS_PER_CACHE ==> {
                &&& self.object_size <= PAGE_SIZE
                &&& p + PAGE_SIZE <= usize::MAX
                &&& self.page_is_fresh(p as int)
            },
            CacheCall::Dealloc(a) => self.may_dealloc(a as int),
        }
    }

    /// The cache after `calls`, in order.
    pub open spec fn run(self, calls: Seq<CacheCall>) -> CacheView
        decreases calls.len(),
    {
        if calls.len() == 0 {
            self
        } else {
            self.run(calls.drop_last()).apply(calls.last())
        }
    }

    /// Every call of `calls` is allowed on the cache it is made on.
    pub open spec fn calls_allowed(self, calls: Seq<CacheCall>) -> bool
        decreases calls.len(),
    {
        calls.len() == 0 || {
            &&& self.calls_allowed(calls.drop_last())
            &&& self.run(calls.drop_last()).call_allowed(calls.last())
        }
    }

    /// Number of calls of `calls` that succeed and satisfy `kind`.
    pub open spec fn count_succeeding(self, calls: Seq<CacheCall>, kind: spec_fn(CacheCall) -> bool) -> int
        decreases calls.len(),
    {
        if calls.len() == 0 {
            0
        } else {
            self.count_succeeding(calls.drop_last(), kind) + if kind(calls.last())
                && self.run(calls.drop_last()).succeeds(calls.last()) { 1int } else { 0int }
        }
    }
}

/// `allocate` or `add_slab_and_alloc`: a call that hands out objects.
pub open spec fn hands_out(call: CacheCall) -> bool {
    !(call is Dealloc)
}

/// `add_slab_and_alloc`.
pub open spec fn adds_slab(call: CacheCall) -> bool {
    call is AddSlab
}

/// `dealloc`.
pub open spec fn frees(call: CacheCall) -> bool {
    call is Dealloc
}

/// A cache of slabs for objects of one size. Slots `0..slab_count` of
/// `slabs` hold slabs; the rest are empty.
pub struct Cache {
    object_size: usize,
    slabs: [Option<Slab>; MAX_SLABS_PER_CACHE],
    slab_count: usize,
}

impl View for Cache {
    type V = CacheView;

    closed spec fn view(&self) -> CacheView {
        CacheView {
            object_size: self.object_size,
            slabs: Seq::new(self.slab_count as nat, |i: int| self.slabs@[i]->0@),
        }
    }
}

impl Cache {
    /// The first `slab_count` slots hold slabs whose counters agree with
    /// their free lists; the others are empty.
    pub closed spec fn slabs_agree(&self) -> bool {
        &&& self.slab_count <= MAX_SLABS_PER_CACHE
        &&& forall|i: int| 0 <= i < MAX_SLABS_PER_CACHE ==> (#[trigger] self.slabs@[i] is Some <==> i < self.slab_count)
        &&& forall|i: int| 0 <= i < self.slab_count ==> (#[trigger] self.slabs@[i])->0.wf()
    }

    pub open spec fn wf(&self) -> bool {
        &&& self@.wf()
        &&& self.slabs_agree()
    }

    /// An empty cache for objects of `object_size` bytes.
    pub fn new(object_size: usize) -> (cache: Self)
        ensures
            cache.wf(),
            cache@.object_size == object_size,
            cache@.slabs.len() == 0,
    {
        let cache = Cache {
            object_size,
            slabs: [
                None,
                None,
                None,
                None,
                None,
                None,
                None,
                None,
                None,
                None,
                None,
                None,
                None,
                None,
                None,
                None,
                None,
                None,
                None,
                None,
                None,
                None,
                None,
                None,
                None,
                None,
                None,
                None,
                None,
                None,
                None,
                None,
            ],
            slab_count: 0,
        };
        assert(cache@.slabs =~= Seq::empty());
        cache
    }

    /// Size of the objects this cache hands out.
    pub fn object_size(&self) -> (r: usize)
        ensures
            r == self@.object_size,
    {
        self.object_size
    }

    /// Number of slabs in the cache.
    pub fn slab_count(&self) -> (r: usize)
        ensures
            r == self@.slabs.len(),
    {
        self.slab_count
    }
}


impl Cache {
    /// Slots handed out, over all slabs.
    pub fn total_used(&self) -> (r: usize)
        requires
            self.wf(),
        ensures
            r == self@.total_used(),
    {
        let ghost used = used_counts(self@.slabs);
        let mut sum: usize = 0;
        let mut i: usize = 0;
        while i < self.slab_count
            invariant
                self.wf(),
                used == used_counts(self@.slabs),
                i <= self.slab_count,
                sum == seq_sum(used.take(i as int)),
                sum <= i * PAGE_SIZE,
            decreases self.slab_count - i,
        {
            proof {
                assert(self.slabs@[i as int]->0@ == self@.slabs[i as int]);
                assert(self@.slabs[i as int].wf());
                lemma_counts(self@.slabs[i as int]);
                lemma_total_at_most_page(self@.slabs[i as int]);
                lemma_sum_take_step(used, i as int);
            }
            match &self.slabs[i] {
                Some(slab) => {
                    sum = sum + slab.used_slots();
                },
                None => {},
            }
            i = i + 1;
        }
        proof {
            assert(used.take(i as int) =~= used);
        }
        sum
    }

    /// Free slots, over all slabs.
    pub fn total_free(&self) -> (r: usize)
        requires
            self.wf(),
        ensures
            r == self@.total_free(),
    {
        let ghost free = free_counts(self@.slabs);
        let mut sum: usize = 0;
        let mut i: usize = 0;
        while i < self.slab_count
            invariant
                self.wf(),
                free == free_counts(self@.slabs),
                i <= self.slab_count,
                sum == seq_sum(free.take(i as int)),
                sum <= i * PAGE_SIZE,
            decreases self.slab_count - i,
        {
            proof {
                assert(self.slabs@[i as int]->0@ == self@.slabs[i as int]);
                assert(self@.slabs[i as int].wf());
                lemma_counts(self@.slabs[i as int]);
                lemma_total_at_most_page(self@.slabs[i as int]);
                lemma_sum_take_step(free, i as int);
            }
            match &self.slabs[i] {
                Some(slab) => {
                    sum = sum + slab.free_slots();
                },
                None => {},
            }
            i = i + 1;
        }
        proof {
            assert(free.take(i as int) =~= free);
        }
        sum
    }

    /// Hands out an object from the first slab that is not full; `None`
    /// when every slab is full (or there is none).
    pub fn allocate(&mut self) -> (r: Option<usize>)
        requires
            old(self).wf(),
        ensures
            final(self).wf(),
            (final(self)@, r) == old(self)@.alloc_step(),
    {
        let ghost c = self@;
        let mut i: usize = 0;
        while i < self.slab_count
            invariant
                self@ == c,
                c == old(self)@,
                self.wf(),
                i <= self.slab_count,
                forall|j: int| 0 <= j < i ==> #[trigger] c.slabs[j].free.len() == 0,
            decreases self.slab_count - i,
        {
            proof {
                assert(self.slabs@[i as int]->0@ == c.slabs[i as int]);
            }
            let ghost old_slabs = self.slabs@;
            let mut result: Option<Option<usize>> = None;
            match &mut self.slabs[i] {
                Some(slab) => {
                    if !slab.is_full() {
                        result = Some(slab.allocate());
                    }
                },
                None => {},
            }
            if let Some(r) = result {
                proof {
                    let v = c.slabs[i as int];
                    lemma_counts(v);
                    assert(c.is_first_open(i as int));
                    lemma_first_open_unique(c, i as int);
                    lemma_allocate_hands_out_free_slot(v);
                    assert(self.slabs@[i as int]->0@ == v.alloc_step().0);
                    assert forall|j: int| 0 <= j < MAX_SLABS_PER_CACHE && j != i implies self.slabs@[j] == old_slabs[j] by {}
                    lemma_cache_slab_replaced(c, i as int, v.alloc_step().0);
                    assert(self@.slabs =~= c.slabs.update(i as int, v.alloc_step().0));
                    assert(exists|j: int| c.is_first_open(j));
                    assert((choose|j: int| c.is_first_open(j)) == i);
                }
                return r;
            }
            proof {
                assert(self.slabs@ =~= old_slabs);
                assert(self@.slabs =~= c.slabs);
            }
            i = i + 1;
        }
        proof {
            assert forall|j: int| !c.is_first_open(j) by {
                if 0 <= j < c.slabs.len() {
                    assert(c.slabs[j].free.len() == 0);
                }
            }
        }
        None
    }

    /// Makes a slab of `page`, adds it to the cache and hands out its first
    /// object. `None` when the cache already holds its maximum of slabs; the
    /// page is then left unused.
    pub fn add_slab_and_alloc(&mut self, page: usize) -> (r: Option<usize>)
        requires
            old(self).wf(),
            old(self)@.slabs.len() < MAX_SLABS_PER_CACHE ==> {
                &&& old(self)@.object_size <= PAGE_SIZE
                &&& page + PAGE_SIZE <= usize::MAX
                &&& old(self)@.page_is_fresh(page as int)
            },
        ensures
            final(self).wf(),
            (final(self)@, r) == old(self)@.add_slab_step(page),
    {
        if self.slab_count >= MAX_SLABS_PER_CACHE {
            return None;
        }
        let ghost c = self@;
        let mut slab = Slab::new(page, self.object_size);
        proof {
            lemma_fresh(page, self.object_size);
            lemma_allocate_hands_out_free_slot(slab@);
        }
        let ptr = slab.allocate();
        self.slabs[self.slab_count] = Some(slab);
        self.slab_count = self.slab_count + 1;
        proof {
            assert(self@.slabs =~= c.slabs.push(slab@)) by {
                assert forall|j: int| 0 <= j < c.slabs.len() implies self@.slabs[j] == c.slabs[j] by {
                    assert(self.slabs@[j] == old(self).slabs@[j]);
                }
            }
            lemma_cache_add_slab(c, page);
        }
        ptr
    }

    /// Takes back `ptr` into the slab whose page holds it and returns `true`;
    /// returns `false` when no slab's page holds it.
    pub fn dealloc(&mut self, ptr: usize) -> (found: bool)
        requires
            old(self).wf(),
            old(self)@.may_dealloc(ptr as int),
        ensures
            final(self).wf(),
            (final(self)@, found) == old(self)@.dealloc_step(ptr),
    {
        let ghost c = self@;
        let mut i: usize = 0;
        while i < self.slab_count
            invariant
                self@ == c,
                c == old(self)@,
                self.wf(),
                c.may_dealloc(ptr as int),
                i <= self.slab_count,
                forall|j: int| 0 <= j < i ==> !(#[trigger] c.slabs[j].in_page(ptr as int)),
            decreases self.slab_count - i,
        {
            proof {
                assert(self.slabs@[i as int]->0@ == c.slabs[i as int]);
            }
            let ghost old_slabs = self.slabs@;
            let mut found = false;
            match &mut self.slabs[i] {
                Some(slab) => {
                    if slab.contains(ptr) {
                        proof {
                            assert(c.owns(i as int, ptr as int));
                        }
                        slab.dealloc(ptr);
                        found = true;
                    }
                },
                None => {},
            }
            if found {
                proof {
                    let v = c.slabs[i as int];
                    lemma_owner_unique(c, i as int, ptr as int);
                    lemma_dealloc_frees_slot(v, ptr);
                    assert(self.slabs@[i as int]->0@ == v.dealloc_step(ptr));
                    assert forall|j: int| 0 <= j < MAX_SLABS_PER_CACHE && j != i implies self.slabs@[j] == old_slabs[j] by {}
                    lemma_cache_slab_replaced(c, i as int, v.dealloc_step(ptr));
                    assert(self@.slabs =~= c.slabs.update(i as int, v.dealloc_step(ptr)));
                    assert(exists|j: int| c.owns(j, ptr as int));
                    assert((choose|j: int| c.owns(j, ptr as int)) == i);
                }
                return true;
            }
            proof {
                assert(self.slabs@ =~= old_slabs);
                assert(self@.slabs =~= c.slabs);
            }
            i = i + 1;
        }
        proof {
            assert forall|j: int| !c.owns(j, ptr as int) by {
                if 0 <= j < c.slabs.len() {
                    assert(!c.slabs[j].in_page(ptr as int));
                }
            }
        }
        false
    }
}

/// Summing one more element of a prefix.
proof fn lemma_sum_take_step(s: Seq<int>, i: int)
    requires
        0 <= i < s.len(),
    ensures
        seq_sum(s.take(i + 1)) == seq_sum(s.take(i)) + s[i],
{
    assert(s.take(i + 1).drop_last() =~= s.take(i));
}

/// Replacing one element changes the sum by the difference.
proof fn lemma_sum_update(s: Seq<int>, i: int, x: int)
    requires
        0 <= i < s.len(),
    ensures
        seq_sum(s.update(i, x)) == seq_sum(s) - s[i] + x,
    decreases s.len(),
{
    if i == s.len() - 1 {
        assert(s.update(i, x).drop_last() =~= s.drop_last());
    } else {
        lemma_sum_update(s.drop_last(), i, x);
        assert(s.update(i, x).drop_last() =~= s.drop_last().update(i, x));
    }
}

/// A slab of a cache has no more slots than a page has bytes.
proof fn lemma_total_at_most_page(v: SlabView)
    requires
        v.wf(),
    ensures
        v.total() <= PAGE_SIZE,
{
    assert(v.total() <= PAGE_SIZE) by (nonlinear_arith)
        requires v.total() == PAGE_SIZE as int / v.slot_size as int, v.slot_size >= 1;
}

/// Only one slab is the first with a free slot.
proof fn lemma_first_open_unique(c: CacheView, i: int)
    requires
        c.is_first_open(i),
    ensures
        forall|j: int| #[trigger] c.is_first_open(j) ==> j == i,
{
    assert forall|j: int| #[trigger] c.is_first_open(j) implies j == i by {
        if j < i {
            assert(c.slabs[j].free.len() == 0);
        } else if i < j {
            assert(c.slabs[i].free.len() == 0);
        }
    }
}

/// In a well-formed cache, at most one slab's page holds a given address.
pub proof fn lemma_owner_unique(c: CacheView, i: int, a: int)
    requires
        c.wf(),
        c.owns(i, a),
    ensures
        forall|j: int| #[trigger] c.owns(j, a) ==> j == i,
{
    assert forall|j: int| #[trigger] c.owns(j, a) implies j == i by {
        if j != i {
            assert(c.pages_apart(i, j));
        }
    }
}

/// Replacing slab `i` by one with the same page and slot size that is well
/// formed keeps the cache well formed.
proof fn lemma_cache_slab_replaced(c: CacheView, i: int, w: SlabView)
    requires
        c.wf(),
        0 <= i < c.slabs.len(),
        w.wf(),
        w.page == c.slabs[i].page,
        w.slot_size == c.slabs[i].slot_size,
    ensures
        (CacheView { slabs: c.slabs.update(i, w), ..c }).wf(),
{
    let d = CacheView { slabs: c.slabs.update(i, w), ..c };
    assert forall|a: int, b: int| 0 <= a < d.slabs.len() && 0 <= b < d.slabs.len() && a != b
        implies #[trigger] d.pages_apart(a, b) by {
        assert(c.pages_apart(a, b));
    }
    assert forall|j: int| 0 <= j < d.slabs.len() implies #[trigger] d.slabs[j].wf() by {
        if j != i {
            assert(d.slabs[j] == c.slabs[j]);
        }
    }
    assert forall|j: int| 0 <= j < d.slabs.len() implies #[trigger] d.slabs[j].slot_size == d.slot_size() by {
        if j != i {
            assert(d.slabs[j] == c.slabs[j]);
        }
    }
}


/// A sum of non-negative integers is zero exactly when every one is zero.
proof fn lemma_sum_zero(s: Seq<int>)
    requires
        forall|k: int| 0 <= k < s.len() ==> #[trigger] s[k] >= 0,
    ensures
        seq_sum(s) >= 0,
        seq_sum(s) == 0 <==> forall|k: int| 0 <= k < s.len() ==> #[trigger] s[k] == 0,
    decreases s.len(),
{
    if s.len() > 0 {
        let t = s.drop_last();
        assert forall|k: int| 0 <= k < t.len() implies #[trigger] t[k] >= 0 by {
            assert(t[k] == s[k]);
        }
        lemma_sum_zero(t);
        if seq_sum(s) == 0 {
            assert forall|k: int| 0 <= k < s.len() implies #[trigger] s[k] == 0 by {
                if k < t.len() {
                    assert(t[k] == s[k]);
                }
            }
        }
        if forall|k: int| 0 <= k < s.len() ==> #[trigger] s[k] == 0 {
            assert forall|k: int| 0 <= k < t.len() implies #[trigger] t[k] == 0 by {
                assert(t[k] == s[k]);
            }
        }
    }
}

/// Used plus free slots, over a sequence of slabs of one slot size, is the
/// number of slabs times the slots per slab.
proof fn lemma_sum_counts(slabs: Seq<SlabView>, slot_size: int)
    requires
        forall|i: int| 0 <= i < slabs.len() ==> #[trigger] slabs[i].wf(),
        forall|i: int| 0 <= i < slabs.len() ==> #[trigger] slabs[i].slot_size == slot_size,
    ensures
        seq_sum(used_counts(slabs)) + seq_sum(free_counts(slabs))
            == slabs.len() * (PAGE_SIZE as int / slot_size),
    decreases slabs.len(),
{
    if slabs.len() > 0 {
        let t = slabs.drop_last();
        assert(used_counts(t) =~= used_counts(slabs).drop_last());
        assert(free_counts(t) =~= free_counts(slabs).drop_last());
        assert forall|i: int| 0 <= i < t.len() implies #[trigger] t[i].wf() && t[i].slot_size == slot_size by {
            assert(t[i] == slabs[i]);
        }
        lemma_sum_counts(t, slot_size);
        let l = slabs.last();
        assert(l.used() + l.free.len() == PAGE_SIZE as int / slot_size);
        assert(used_counts(slabs).last() == l.used());
        assert(free_counts(slabs).last() == l.free.len());
        assert(seq_sum(used_counts(slabs)) == seq_sum(used_counts(t)) + l.used());
        assert(seq_sum(free_counts(slabs)) == seq_sum(free_counts(t)) + l.free.len());
        let q = PAGE_SIZE as int / slot_size;
        assert(slabs.len() * q == t.len() * q + q) by (nonlinear_arith)
            requires slabs.len() == t.len() + 1;
    } else {
        assert(seq_sum(used_counts(slabs)) == 0);
        assert(seq_sum(free_counts(slabs)) == 0);
    }
}

/// An address lies in the page of at most one slab; a slot of a slab lies in
/// that slab's page.
proof fn lemma_slot_owner(c: CacheView, i: int, a: int)
    requires
        c.wf(),
        0 <= i < c.slabs.len(),
        c.slabs[i].is_slot(a),
    ensures
        c.owns(i, a),
        forall|j: int| 0 <= j < c.slabs.len() && j != i ==> !(#[trigger] c.slabs[j]).in_page(a),
        forall|j: int| 0 <= j < c.slabs.len() && j != i ==> !(#[trigger] c.slabs[j]).is_slot(a),
{
    lemma_slot_of_index(c.slabs[i], a);
    assert forall|j: int| 0 <= j < c.slabs.len() && j != i implies !(#[trigger] c.slabs[j]).in_page(a) by {
        assert(c.pages_apart(i, j));
    }
    assert forall|j: int| 0 <= j < c.slabs.len() && j != i implies !(#[trigger] c.slabs[j]).is_slot(a) by {
        assert(c.pages_apart(i, j));
        if c.slabs[j].is_slot(a) {
            lemma_slot_of_index(c.slabs[j], a);
        }
    }
}

/// Replacing slab `i` changes the totals by that slab's change.
proof fn lemma_totals_update(c: CacheView, i: int, w: SlabView)
    requires
        0 <= i < c.slabs.len(),
    ensures
        (CacheView { slabs: c.slabs.update(i, w), ..c }).total_used()
            == c.total_used() - c.slabs[i].used() + w.used(),
        (CacheView { slabs: c.slabs.update(i, w), ..c }).total_free()
            == c.total_free() - c.slabs[i].free.len() + w.free.len(),
{
    let d = CacheView { slabs: c.slabs.update(i, w), ..c };
    assert(used_counts(d.slabs) =~= used_counts(c.slabs).update(i, w.used()));
    assert(free_counts(d.slabs) =~= free_counts(c.slabs).update(i, w.free.len() as int));
    lemma_sum_update(used_counts(c.slabs), i, w.used());
    lemma_sum_update(free_counts(c.slabs), i, w.free.len() as int);
}

/// Every slot of a well-formed cache is either handed out or free, and the
/// counts add up to the number of slabs times the slots per slab.
pub proof fn lemma_cache_counts(c: CacheView)
    requires
        c.wf(),
    ensures
        c.total_used() + c.total_free() == c.slabs.len() * (PAGE_SIZE as int / c.slot_size()),
        c.total_used() >= 0,
        c.total_free() >= 0,
        c.total_free() == 0 <==> forall|i: int| 0 <= i < c.slabs.len() ==> #[trigger] c.slabs[i].free.len() == 0,
{
    lemma_sum_counts(c.slabs, c.slot_size());
    let us = used_counts(c.slabs);
    let fs = free_counts(c.slabs);
    assert forall|k: int| 0 <= k < us.len() implies #[trigger] us[k] >= 0 by {
        lemma_counts(c.slabs[k]);
    }
    lemma_sum_zero(us);
    lemma_sum_zero(fs);
    if c.total_free() == 0 {
        assert forall|i: int| 0 <= i < c.slabs.len() implies #[trigger] c.slabs[i].free.len() == 0 by {
            assert(fs[i] == 0);
        }
    }
    if forall|i: int| 0 <= i < c.slabs.len() ==> #[trigger] c.slabs[i].free.len() == 0 {
        assert forall|k: int| 0 <= k < fs.len() implies #[trigger] fs[k] == 0 by {
            assert(c.slabs[k].free.len() == 0);
        }
    }
}

/// Allocation from a cache hands out a free slot and marks exactly that
/// address as handed out; it fails, changing nothing, exactly when no slab
/// has a free slot.
pub proof fn lemma_cache_allocate(c: CacheView)
    requires
        c.wf(),
    ensures
        c.alloc_step().0.wf(),
        c.alloc_step().0.slabs.len() == c.slabs.len(),
        c.alloc_step().1 is None <==> c.total_free() == 0,
        c.alloc_step().1 is None ==> c.alloc_step().0 == c,
        c.alloc_step().1 matches Some(a) ==> {
            &&& c.is_free(a as int)
            &&& !c.is_allocated(a as int)
            &&& c.alloc_step().0.is_allocated(a as int)
            &&& c.alloc_step().0.total_used() == c.total_used() + 1
            &&& c.alloc_step().0.total_free() == c.total_free() - 1
            &&& forall|b: int| b != a ==> #[trigger] c.alloc_step().0.is_allocated(b) == c.is_allocated(b)
        },
{
    lemma_cache_counts(c);
    let (d, r) = c.alloc_step();
    if exists|i: int| c.is_first_open(i) {
        let i = choose|i: int| c.is_first_open(i);
        let v = c.slabs[i];
        lemma_allocate_hands_out_free_slot(v);
        let w = v.alloc_step().0;
        let a = v.alloc_step().1->0;
        lemma_cache_slab_replaced(c, i, w);
        lemma_totals_update(c, i, w);
        lemma_slot_owner(c, i, a as int);
        assert(d.slabs[i] == w);
        assert(c.is_free(a as int));
        assert(d.is_allocated(a as int));
        assert(!c.is_allocated(a as int)) by {
            if c.is_allocated(a as int) {
                let j = choose|j: int| 0 <= j < c.slabs.len() && #[trigger] c.slabs[j].is_allocated(a as int);
            }
        }
        assert forall|b: int| b != a implies #[trigger] d.is_allocated(b) == c.is_allocated(b) by {
            if d.is_allocated(b) {
                let j = choose|j: int| 0 <= j < d.slabs.len() && #[trigger] d.slabs[j].is_allocated(b);
                if j == i {
                    assert(w.is_allocated(b) == v.is_allocated(b));
                } else {
                    assert(d.slabs[j] == c.slabs[j]);
                }
                assert(c.slabs[j].is_allocated(b));
            }
            if c.is_allocated(b) {
                let j = choose|j: int| 0 <= j < c.slabs.len() && #[trigger] c.slabs[j].is_allocated(b);
                if j == i {
                    assert(w.is_allocated(b) == v.is_allocated(b));
                } else {
                    assert(d.slabs[j] == c.slabs[j]);
                }
                assert(d.slabs[j].is_allocated(b));
            }
        }
        assert(c.total_free() != 0) by {
            assert(c.slabs[i].free.len() > 0);
        }
    } else {
        assert forall|i: int| 0 <= i < c.slabs.len() implies #[trigger] c.slabs[i].free.len() == 0 by {
            if c.slabs[i].free.len() > 0 {
                lemma_first_open_exists(c, i);
            }
        }
    }
}

/// Some slab with a free slot means some slab is the first with a free slot.
proof fn lemma_first_open_exists(c: CacheView, i: int)
    requires
        0 <= i < c.slabs.len(),
        c.slabs[i].free.len() > 0,
    ensures
        exists|j: int| c.is_first_open(j),
    decreases i,
{
    if forall|j: int| 0 <= j < i ==> #[trigger] c.slabs[j].free.len() == 0 {
        assert(c.is_first_open(i));
    } else {
        let j = choose|j: int| 0 <= j < i && #[trigger] c.slabs[j].free.len() != 0;
        lemma_first_open_exists(c, j);
    }
}

/// Adding a slab made from a fresh page hands out the start of that page,
/// marks exactly that address as handed out, and keeps the cache well formed.
pub proof fn lemma_cache_add_slab(c: CacheView, page: usize)
    requires
        c.wf(),
        c.slabs.len() < MAX_SLABS_PER_CACHE ==> {
            &&& c.object_size <= PAGE_SIZE
            &&& page + PAGE_SIZE <= usize::MAX
            &&& c.page_is_fresh(page as int)
        },
    ensures
        c.add_slab_step(page).0.wf(),
        c.slabs.len() >= MAX_SLABS_PER_CACHE ==> c.add_slab_step(page) == (c, None::<usize>),
        c.slabs.len() < MAX_SLABS_PER_CACHE ==> {
            &&& c.add_slab_step(page).1 == Some(page)
            &&& c.add_slab_step(page).0.slabs.len() == c.slabs.len() + 1
            &&& !c.is_allocated(page as int)
            &&& c.add_slab_step(page).0.is_allocated(page as int)
            &&& c.add_slab_step(page).0.total_used() == c.total_used() + 1
            &&& forall|b: int| b != page ==> #[trigger] c.add_slab_step(page).0.is_allocated(b) == c.is_allocated(b)
        },
{
    if c.slabs.len() < MAX_SLABS_PER_CACHE {
        let fresh = SlabView::fresh(page, c.object_size);
        lemma_fresh(page, c.object_size);
        lemma_allocate_hands_out_free_slot(fresh);
        let w = fresh.alloc_step().0;
        let d = c.add_slab_step(page).0;
        let n = c.slabs.len() as int;
        assert(d.slabs == c.slabs.push(w));
        assert forall|a: int, b: int| 0 <= a < d.slabs.len() && 0 <= b < d.slabs.len() && a != b
            implies #[trigger] d.pages_apart(a, b) by {
            if a < n && b < n {
                assert(c.pages_apart(a, b));
            } else if a < n {
                assert(d.slabs[a] == c.slabs[a]);
            } else {
                assert(d.slabs[b] == c.slabs[b]);
            }
        }
        assert forall|j: int| 0 <= j < d.slabs.len() implies #[trigger] d.slabs[j].wf() by {
            if j < n {
                assert(d.slabs[j] == c.slabs[j]);
            }
        }
        assert forall|j: int| 0 <= j < d.slabs.len() implies #[trigger] d.slabs[j].slot_size == d.slot_size() by {
            if j < n {
                assert(d.slabs[j] == c.slabs[j]);
            }
        }
        assert(used_counts(d.slabs).drop_last() =~= used_counts(c.slabs));
        assert(fresh.is_free(page as int)) by {
            lemma_slot_bounds_at_zero(fresh);
        }
        assert(!c.is_allocated(page as int)) by {
            if c.is_allocated(page as int) {
                let j = choose|j: int| 0 <= j < c.slabs.len() && #[trigger] c.slabs[j].is_allocated(page as int);
                lemma_slot_of_index(c.slabs[j], page as int);
            }
        }
        assert(d.slabs[n] == w);
        assert(d.is_allocated(page as int));
        assert forall|b: int| b != page implies #[trigger] d.is_allocated(b) == c.is_allocated(b) by {
            if d.is_allocated(b) {
                let j = choose|j: int| 0 <= j < d.slabs.len() && #[trigger] d.slabs[j].is_allocated(b);
                if j == n {
                    assert(w.is_allocated(b) == fresh.is_allocated(b));
                    assert(!fresh.is_allocated(b)) by {
                        if fresh.is_slot(b) {
                            lemma_slot_of_index(fresh, b);
                            let t = fresh.total();
                            let k = fresh.slot_index(b);
                            assert(fresh.free[t - 1 - k] == k as usize);
                        }
                    }
                } else {
                    assert(d.slabs[j] == c.slabs[j]);
                    assert(c.slabs[j].is_allocated(b));
                }
            }
            if c.is_allocated(b) {
                let j = choose|j: int| 0 <= j < c.slabs.len() && #[trigger] c.slabs[j].is_allocated(b);
                assert(d.slabs[j] == c.slabs[j]);
                assert(d.slabs[j].is_allocated(b));
            }
        }
    }
}

/// Slot 0 of a fresh slab is its page, and it is free.
proof fn lemma_slot_bounds_at_zero(v: SlabView)
    requires
        v == SlabView::fresh(v.page, v.slot_size),
        v.wf(),
    ensures
        v.is_free(v.page as int),
{
    lemma_counts(v);
    crate::slab::lemma_slot_bounds(v, 0);
    assert(v.free.len() == v.total());
    assert(v.free[v.total() - 1] == 0);
}

/// Taking back an address frees it in the slab whose page holds it; when no
/// slab's page holds it, nothing changes.
pub proof fn lemma_cache_dealloc(c: CacheView, a: usize)
    requires
        c.wf(),
        c.may_dealloc(a as int),
    ensures
        c.dealloc_step(a).0.wf(),
        c.dealloc_step(a).0.slabs.len() == c.slabs.len(),
        c.dealloc_step(a).1 <==> exists|i: int| c.owns(i, a as int),
        !c.dealloc_step(a).1 ==> c.dealloc_step(a).0 == c,
        c.dealloc_step(a).1 ==> {
            &&& c.is_allocated(a as int)
            &&& c.dealloc_step(a).0.is_free(a as int)
            &&& !c.dealloc_step(a).0.is_allocated(a as int)
            &&& c.dealloc_step(a).0.total_used() == c.total_used() - 1
            &&& forall|b: int| b != a ==> #[trigger] c.dealloc_step(a).0.is_allocated(b) == c.is_allocated(b)
        },
{
    let (d, found) = c.dealloc_step(a);
    if exists|i: int| c.owns(i, a as int) {
        let i = choose|i: int| c.owns(i, a as int);
        let v = c.slabs[i];
        assert(v.is_allocated(a as int));
        lemma_dealloc_frees_slot(v, a);
        let w = v.dealloc_step(a);
        lemma_cache_slab_replaced(c, i, w);
        lemma_totals_update(c, i, w);
        lemma_slot_owner(c, i, a as int);
        assert(d.slabs[i] == w);
        assert(c.is_allocated(a as int));
        assert(d.is_free(a as int));
        assert(!d.is_allocated(a as int)) by {
            if d.is_allocated(a as int) {
                let j = choose|j: int| 0 <= j < d.slabs.len() && #[trigger] d.slabs[j].is_allocated(a as int);
                if j != i {
                    assert(d.slabs[j] == c.slabs[j]);
                }
            }
        }
        assert forall|b: int| b != a implies #[trigger] d.is_allocated(b) == c.is_allocated(b) by {
            if d.is_allocated(b) {
                let j = choose|j: int| 0 <= j < d.slabs.len() && #[trigger] d.slabs[j].is_allocated(b);
                if j != i {
                    assert(d.slabs[j] == c.slabs[j]);
                }
                assert(c.slabs[j].is_allocated(b));
            }
            if c.is_allocated(b) {
                let j = choose|j: int| 0 <= j < c.slabs.len() && #[trigger] c.slabs[j].is_allocated(b);
                if j != i {
                    assert(d.slabs[j] == c.slabs[j]);
                }
                assert(d.slabs[j].is_allocated(b));
            }
        }
    }
}

/// Returning the object a cache just handed out puts the cache back as it was.
pub proof fn lemma_cache_allocate_then_dealloc(c: CacheView)
    requires
        c.wf(),
        c.alloc_step().1 is Some,
    ensures
        c.alloc_step().0.dealloc_step(c.alloc_step().1->0) == (c, true),
{
    let i = choose|i: int| c.is_first_open(i);
    let v = c.slabs[i];
    let (d, r) = c.alloc_step();
    let a = r->0;
    lemma_allocate_hands_out_free_slot(v);
    crate::slab::lemma_allocate_then_dealloc(v);
    lemma_cache_slab_replaced(c, i, v.alloc_step().0);
    lemma_slot_owner(c, i, a as int);
    assert(d.owns(i, a as int));
    lemma_owner_unique(d, i, a as int);
    assert((choose|j: int| d.owns(j, a as int)) == i);
    assert(d.dealloc_step(a).0.slabs =~= c.slabs);
}

/// Over any run of allowed calls from a well-formed cache, the cache stays
/// well formed; it gains one slab for each `add_slab_and_alloc` that
/// succeeds and never more than `MAX_SLABS_PER_CACHE`, and its count of
/// handed-out objects moves by the objects handed out minus the frees that
/// found their slab.
pub proof fn lemma_cache_run_counts(c: CacheView, calls: Seq<CacheCall>)
    requires
        c.wf(),
        c.calls_allowed(calls),
    ensures
        c.run(calls).wf(),
        c.run(calls).object_size == c.object_size,
        c.run(calls).slabs.len() == c.slabs.len() + c.count_succeeding(calls, |k: CacheCall| adds_slab(k)),
        c.run(calls).slabs.len() <= MAX_SLABS_PER_CACHE,
        c.run(calls).total_used() == c.total_used()
            + c.count_succeeding(calls, |k: CacheCall| hands_out(k))
            - c.count_succeeding(calls, |k: CacheCall| frees(k)),
    decreases calls.len(),
{
    if calls.len() > 0 {
        let prev = calls.drop_last();
        lemma_cache_run_counts(c, prev);
        let d = c.run(prev);
        match calls.last() {
            CacheCall::Allocate => {
                lemma_cache_allocate(d);
            },
            CacheCall::AddSlab(p) => {
                lemma_cache_add_slab(d, p);
            },
            CacheCall::Dealloc(a) => {
                lemma_cache_dealloc(d, a);
            },
        }
    }
}

} // verus!
