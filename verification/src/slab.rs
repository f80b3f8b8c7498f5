use vstd::prelude::*;
use crate::page::PAGE_SIZE;

verus! {

/// The smallest slot size: the size of a machine word on the 64-bit targets
/// this library is written for (on a 32-bit target it stays 8, twice a
/// word). The free list lives beside the page, so no slot has to hold a link.
pub const MIN_SLOT_SIZE: usize = 8;

/// The abstract state of a slab: one page cut into equal slots, and the
/// stack of free slot indices. The slot handed out next is the last one.
pub struct SlabView {
    pub page: usize,
    pub slot_size: usize,
    pub free: Seq<usize>,
}

/// The slot size a slab gets for objects of `object_size` bytes.
pub open spec fn slot_size_for(object_size: int) -> int {
    if object_size < MIN_SLOT_SIZE { MIN_SLOT_SIZE as int } else { object_size }
}

impl SlabView {
    /// Number of slots in the page.
    pub open spec fn total(self) -> int {
        PAGE_SIZE as int / self.slot_size as int
    }

    /// Number of slots handed out and not yet returned.
    pub open spec fn used(self) -> int {
        self.total() - self.free.len()
    }

    /// Address of slot `i`.
    pub open spec fn slot(self, i: int) -> int {
        self.page + i * self.slot_size
    }

    /// Index of the slot at address `a`.
    pub open spec fn slot_index(self, a: int) -> int {
        (a - self.page) / self.slot_size as int
    }

    /// `a` is the start address of one of the slots.
    pub open spec fn is_slot(self, a: int) -> bool {
        &&& self.page <= a
        &&& (a - self.page) % self.slot_size as int == 0
        &&& self.slot_index(a) < self.total()
    }

    /// `a` lies inside the slab's page.
    pub open spec fn in_page(self, a: int) -> bool {
        self.page <= a < self.page + PAGE_SIZE
    }

    /// `a` is a slot that is currently handed out.
    pub open spec fn is_allocated(self, a: int) -> bool {
        &&& self.is_slot(a)
        &&& !self.free.contains(self.slot_index(a) as usize)
    }

    /// `a` is a slot that is currently free.
    pub open spec fn is_free(self, a: int) -> bool {
        &&& self.is_slot(a)
        &&& self.free.contains(self.slot_index(a) as usize)
    }

    pub open spec fn wf(self) -> bool {
        &&& MIN_SLOT_SIZE <= self.slot_size <= PAGE_SIZE
        &&& self.page + PAGE_SIZE <= usize::MAX
        &&& self.free.no_duplicates()
        &&& forall|k: int| 0 <= k < self.free.len() ==> #[trigger] self.free[k] < self.total()
    }

    /// A slab made from `page` for objects of `object_size` bytes: every slot
    /// is free, and slots are handed out in address order.
    pub open spec fn fresh(page: usize, object_size: usize) -> SlabView {
        let slot_size = slot_size_for(object_size as int);
        let total = PAGE_SIZE as int / slot_size;
        SlabView {
            page,
            slot_size: slot_size as usize,
            free: Seq::new(total as nat, |k: int| (total - 1 - k) as usize),
        }
    }

    /// Handing out one slot: the top of the free stack, or nothing when full.
    pub open spec fn alloc_step(self) -> (SlabView, Option<usize>) {
        if self.free.len() == 0 {
            (self, None)
        } else {
            (
                SlabView { free: self.free.drop_last(), ..self },
                Some(self.slot(self.free.last() as int) as usize),
            )
        }
    }

    /// Taking back the slot at `a`: it goes on top of the free stack.
    pub open spec fn dealloc_step(self, a: usize) -> SlabView {
        SlabView { free: self.free.push(self.slot_index(a as int) as usize), ..self }
    }
}

/// A call made on a slab: `allocate`, or `dealloc` of an address.
pub enum SlabCall {
    Allocate,
    Dealloc(usize),
}

/// Number of `dealloc` calls in `calls`.
pub open spec fn dealloc_count(calls: Seq<SlabCall>) -> int
    decreases calls.len(),
{
    if calls.len() == 0 {
        0
    } else {
        dealloc_count(calls.drop_last()) + if calls.last() is Dealloc { 1int } else { 0int }
    }
}

impl SlabView {
    /// The slab after one call.
    pub open spec fn apply(self, call: SlabCall) -> SlabView {
        match call {
            SlabCall::Allocate => self.alloc_step().0,
            SlabCall::Dealloc(a) => self.dealloc_step(a),
        }
    }

    /// The slab after `calls`, in order.
    pub open spec fn run(self, calls: Seq<SlabCall>) -> SlabView
        decreases calls.len(),
    {
        if calls.len() == 0 {
            self
        } else {
            self.run(calls.drop_last()).apply(calls.last())
        }
    }

    /// Every `dealloc` in `calls` returns a slot handed out at that point.
    pub open spec fn deallocs_valid(self, calls: Seq<SlabCall>) -> bool
        decreases calls.len(),
    {
        calls.len() == 0 || {
            &&& self.deallocs_valid(calls.drop_last())
            &&& (calls.last() matches SlabCall::Dealloc(a) ==> self.run(calls.drop_last()).is_allocated(a as int))
        }
    }

    /// Number of `allocate` calls in `calls` that handed out a slot.
    pub open spec fn allocs_served(self, calls: Seq<SlabCall>) -> int
        decreases calls.len(),
    {
        if calls.len() == 0 {
            0
        } else {
            self.allocs_served(calls.drop_last()) + if calls.last() is Allocate
                && self.run(calls.drop_last()).alloc_step().1 is Some { 1int } else { 0int }
        }
    }
}

/// The most slots a slab can have: a page of slots of the smallest size,
/// `PAGE_SIZE / MIN_SLOT_SIZE`.
pub const MAX_SLOTS: usize = 512;

/// One slab: one page split into equal slots, with a free list. The free
/// list is a stack of slot indices held in the slab itself, beside the page;
/// its first `free_len` entries are in use, the top being the last.
pub struct Slab {
    page_ptr: usize,
    slot_size: usize,
    total_slots: usize,
    used_slots: usize,
    free_stack: [u16; MAX_SLOTS],
    free_len: usize,
}

impl View for Slab {
    type V = SlabView;

    closed spec fn view(&self) -> SlabView {
        SlabView {
            page: self.page_ptr,
            slot_size: self.slot_size,
            free: Seq::new(self.free_len as nat, |k: int| self.free_stack@[k] as usize),
        }
    }
}

impl Slab {
    /// The counters agree with the free list, which fits the stack.
    pub closed spec fn counters_agree(&self) -> bool {
        &&& self.total_slots == self@.total()
        &&& self.used_slots == self@.used()
        &&& self.free_len <= MAX_SLOTS
    }

    pub open spec fn wf(&self) -> bool {
        &&& self@.wf()
        &&& self.counters_agree()
    }

    /// Makes a slab of `page` for objects of `object_size` bytes.
    pub fn new(page: usize, object_size: usize) -> (slab: Self)
        requires
            object_size <= PAGE_SIZE,
            page + PAGE_SIZE <= usize::MAX,
        ensures
            slab.wf(),
            slab@ == SlabView::fresh(page, object_size),
            slab@.page == page,
            slab@.slot_size >= object_size,
            slab@.slot_size >= MIN_SLOT_SIZE,
            object_size >= MIN_SLOT_SIZE ==> slab@.slot_size == object_size,
            object_size < MIN_SLOT_SIZE ==> slab@.slot_size == MIN_SLOT_SIZE,
            slab@.used() == 0,
    {
        let slot_size = if object_size < MIN_SLOT_SIZE { MIN_SLOT_SIZE } else { object_size };
        let total_slots = PAGE_SIZE / slot_size;
        let ghost fresh = SlabView::fresh(page, object_size);
        let mut free_stack: [u16; MAX_SLOTS] = [0u16; MAX_SLOTS];
        assert(fresh.free.len() == total_slots);
        assert(forall|k: int| 0 <= k < total_slots ==> fresh.free[k] == total_slots - 1 - k);
        proof {
            lemma_page_div_monotone(slot_size as int);
        }
        let mut i: usize = total_slots;
        while i > 0
            invariant
                i <= total_slots,
                total_slots <= MAX_SLOTS,
                total_slots == fresh.total(),
                fresh.slot_size == slot_size,
                fresh.free.len() == total_slots,
                forall|k: int| 0 <= k < total_slots ==> fresh.free[k] == total_slots - 1 - k,
                forall|k: int| 0 <= k < total_slots - i ==> #[trigger] free_stack@[k] as usize == fresh.free[k],
            decreases i,
        {
            i = i - 1;
            free_stack[total_slots - 1 - i] = i as u16;
        }
        let slab = Slab { page_ptr: page, slot_size, total_slots, used_slots: 0, free_stack, free_len: total_slots };
        assert(slab@.free =~= fresh.free);
        proof {
            lemma_fresh_slot_size(page, object_size);
        }
        slab
    }
}


impl Slab {
    /// Hands out a slot: the most recently freed one, or the lowest unused
    /// one of a fresh slab. `None` when the slab is full.
    pub fn allocate(&mut self) -> (r: Option<usize>)
        requires
            old(self).wf(),
        ensures
            final(self).wf(),
            (final(self)@, r) == old(self)@.alloc_step(),
    {
        if self.free_len == 0 {
            return None;
        }
        let ghost v = self@;
        self.free_len = self.free_len - 1;
        let idx = self.free_stack[self.free_len] as usize;
        proof {
            assert(idx == v.free.last());
            lemma_slot_bounds(v, idx as int);
        }
        self.used_slots = self.used_slots + 1;
        let addr = self.page_ptr + idx * self.slot_size;
        proof {
            assert(self@.free =~= v.free.drop_last());
            assert forall|k: int| 0 <= k < self@.free.len() implies #[trigger] self@.free[k] < self@.total() by {
                assert(self@.free[k] == v.free[k]);
            }
        }
        Some(addr)
    }

    /// Takes back the slot at `ptr`, which must be handed out by this slab
    /// and not yet returned.
    pub fn dealloc(&mut self, ptr: usize)
        requires
            old(self).wf(),
            old(self)@.is_allocated(ptr as int),
        ensures
            final(self).wf(),
            final(self)@ == old(self)@.dealloc_step(ptr),
    {
        let ghost v = self@;
        proof {
            lemma_free_len_below_total(v, v.slot_index(ptr as int) as usize);
            lemma_slot_of_index(v, ptr as int);
            lemma_total_at_most_max(v);
        }
        let idx = (ptr - self.page_ptr) / self.slot_size;
        self.free_stack[self.free_len] = idx as u16;
        self.free_len = self.free_len + 1;
        self.used_slots = self.used_slots - 1;
        proof {
            assert(self@.free =~= v.free.push(idx));
            assert forall|k: int| 0 <= k < self@.free.len() implies #[trigger] self@.free[k] < self@.total() by {
                if k < v.free.len() {
                    assert(self@.free[k] == v.free[k]);
                }
            }
        }
    }

    /// True when every slot is handed out.
    pub fn is_full(&self) -> (r: bool)
        requires
            self.wf(),
        ensures
            r == (self@.used() == self@.total()),
    {
        self.used_slots == self.total_slots
    }

    /// True when no slot is handed out.
    pub fn is_empty(&self) -> (r: bool)
        requires
            self.wf(),
        ensures
            r == (self@.used() == 0),
    {
        self.used_slots == 0
    }

    /// Number of free slots.
    pub fn free_slots(&self) -> (r: usize)
        requires
            self.wf(),
        ensures
            r == self@.total() - self@.used(),
    {
        self.total_slots - self.used_slots
    }

    /// Number of slots in the slab.
    pub fn total_slots(&self) -> (r: usize)
        requires
            self.wf(),
        ensures
            r == self@.total(),
    {
        self.total_slots
    }

    /// Number of slots handed out.
    pub fn used_slots(&self) -> (r: usize)
        requires
            self.wf(),
        ensures
            r == self@.used(),
    {
        self.used_slots
    }

    /// Bytes per slot.
    pub fn slot_size(&self) -> (r: usize)
        ensures
            r == self@.slot_size,
    {
        self.slot_size
    }

    /// Address of the slab's page.
    pub fn page_ptr(&self) -> (r: usize)
        ensures
            r == self@.page,
    {
        self.page_ptr
    }

    /// True when `ptr` lies somewhere inside the slab's page.
    pub fn contains(&self, ptr: usize) -> (r: bool)
        requires
            self.wf(),
        ensures
            r == self@.in_page(ptr as int),
    {
        let start = self.page_ptr;
        let end = start + PAGE_SIZE;
        ptr >= start && ptr < end
    }
}

/// Slot `i` of a well-formed slab lies inside the page, and is found again
/// from its address.
pub proof fn lemma_slot_bounds(v: SlabView, i: int)
    requires
        v.wf(),
        0 <= i < v.total(),
    ensures
        v.page <= v.slot(i),
        v.slot(i) + v.slot_size <= v.page + PAGE_SIZE,
        v.is_slot(v.slot(i)),
        v.slot_index(v.slot(i)) == i,
{
    let s = v.slot_size as int;
    let t = v.total();
    assert(t * s <= PAGE_SIZE) by (nonlinear_arith)
        requires t == PAGE_SIZE as int / s, s > 0;
    assert(0 <= i * s && (i + 1) * s <= t * s) by (nonlinear_arith)
        requires 0 <= i < t, s > 0;
    assert((i * s) % s == 0 && (i * s) / s == i) by (nonlinear_arith)
        requires s > 0, 0 <= i;
    assert((i + 1) * s == i * s + s) by (nonlinear_arith);
}

/// A slab has at most `MAX_SLOTS` slots.
pub proof fn lemma_total_at_most_max(v: SlabView)
    requires
        v.wf(),
    ensures
        v.total() <= MAX_SLOTS,
{
    lemma_page_div_monotone(v.slot_size as int);
}

/// A page holds no more slots of at least the smallest size than of the
/// smallest size.
proof fn lemma_page_div_monotone(slot_size: int)
    requires
        MIN_SLOT_SIZE <= slot_size,
    ensures
        PAGE_SIZE as int / slot_size <= MAX_SLOTS,
{
    let m = MIN_SLOT_SIZE as int;
    assert(PAGE_SIZE as int / slot_size <= PAGE_SIZE as int / m) by (nonlinear_arith)
        requires 0 < m <= slot_size;
}

/// A slot address gives back a slot index inside the slab.
pub proof fn lemma_slot_of_index(v: SlabView, a: int)
    requires
        v.wf(),
        v.is_slot(a),
    ensures
        v.slot(v.slot_index(a)) == a,
        0 <= v.slot_index(a) < v.total(),
        v.in_page(a),
        a + v.slot_size <= v.page + PAGE_SIZE,
{
    let s = v.slot_size as int;
    let d = a - v.page;
    let k = v.slot_index(a);
    assert(k == d / s);
    assert(d % s == 0);
    assert(k * s == d && k >= 0) by (nonlinear_arith)
        requires s > 0, d >= 0, d % s == 0, k == d / s;
    assert(v.slot(k) == a);
    lemma_slot_bounds(v, k);
}

/// While some slot is handed out, the free stack is shorter than the slab.
proof fn lemma_free_len_below_total(v: SlabView, idx: usize)
    requires
        v.wf(),
        idx < v.total(),
        !v.free.contains(idx),
    ensures
        v.free.len() < v.total(),
{
    let t = v.free.push(idx);
    assert(t.no_duplicates()) by {
        assert forall|i: int, j: int| 0 <= i < t.len() && 0 <= j < t.len() && i != j
            implies t[i] != t[j] by {
            if i < v.free.len() && j < v.free.len() {
            } else if i < v.free.len() {
                assert(v.free.contains(t[i]));
            } else {
                assert(v.free.contains(t[j]));
            }
        }
    }
    let f = |x: usize| x as int;
    let ti = t.map_values(f);
    t.lemma_no_duplicates_injective(f);
    ti.unique_seq_to_set();
    vstd::set_lib::lemma_int_range(0, v.total());
    assert(ti.to_set().subset_of(vstd::set_lib::set_int_range(0, v.total()))) by {
        assert forall|x: int| ti.to_set().contains(x)
            implies vstd::set_lib::set_int_range(0, v.total()).contains(x) by {
            let k = choose|k: int| 0 <= k < ti.len() && ti[k] == x;
            if k < v.free.len() {
                assert(t[k] == v.free[k]);
            }
        }
    }
    vstd::set_lib::lemma_len_subset(ti.to_set(), vstd::set_lib::set_int_range(0, v.total()));
}


/// A slab never holds more free slots than it has slots, so its count of
/// handed-out slots lies between zero and the number of slots.
pub proof fn lemma_counts(v: SlabView)
    requires
        v.wf(),
    ensures
        0 <= v.used() <= v.total(),
        v.total() >= 1,
{
    let f = |x: usize| x as int;
    let fi = v.free.map_values(f);
    v.free.lemma_no_duplicates_injective(f);
    fi.unique_seq_to_set();
    vstd::set_lib::lemma_int_range(0, v.total());
    assert(fi.to_set().subset_of(vstd::set_lib::set_int_range(0, v.total()))) by {
        assert forall|x: int| fi.to_set().contains(x)
            implies vstd::set_lib::set_int_range(0, v.total()).contains(x) by {
            let k = choose|k: int| 0 <= k < fi.len() && fi[k] == x;
            assert(v.free[k] < v.total());
        }
    }
    vstd::set_lib::lemma_len_subset(fi.to_set(), vstd::set_lib::set_int_range(0, v.total()));
    assert(v.total() >= 1) by (nonlinear_arith)
        requires v.total() == PAGE_SIZE as int / v.slot_size as int, 0 < v.slot_size <= PAGE_SIZE;
}

/// A fresh slab is well formed, has every slot free, and hands out the
/// start of its page first.
pub proof fn lemma_fresh(page: usize, object_size: usize)
    requires
        object_size <= PAGE_SIZE,
        page + PAGE_SIZE <= usize::MAX,
    ensures
        SlabView::fresh(page, object_size).wf(),
        SlabView::fresh(page, object_size).used() == 0,
        SlabView::fresh(page, object_size).slot_size == slot_size_for(object_size as int),
        SlabView::fresh(page, object_size).alloc_step().1 == Some(page),
{
    let v = SlabView::fresh(page, object_size);
    let t = v.total();
    assert(t >= 1) by (nonlinear_arith)
        requires t == PAGE_SIZE as int / v.slot_size as int, 0 < v.slot_size <= PAGE_SIZE;
    assert(v.free.len() == t);
    assert(v.free.no_duplicates()) by {
        assert forall|i: int, j: int| 0 <= i < v.free.len() && 0 <= j < v.free.len() && i != j
            implies v.free[i] != v.free[j] by {
            assert(v.free[i] == t - 1 - i);
            assert(v.free[j] == t - 1 - j);
        }
    }
    assert(v.free.last() == 0);
}

/// Allocation hands out a slot that was free, marks exactly that slot as
/// handed out, and fails only when every slot is handed out.
pub proof fn lemma_allocate_hands_out_free_slot(v: SlabView)
    requires
        v.wf(),
    ensures
        v.alloc_step().0.wf(),
        v.alloc_step().1 is None <==> v.used() == v.total(),
        v.alloc_step().1 is None ==> v.alloc_step().0 == v,
        v.alloc_step().1 matches Some(a) ==> {
            &&& v.is_free(a as int)
            &&& v.alloc_step().0.is_allocated(a as int)
            &&& v.alloc_step().0.used() == v.used() + 1
            &&& forall|b: int| b != a ==> #[trigger] v.alloc_step().0.is_allocated(b) == v.is_allocated(b)
        },
{
    let (w, r) = v.alloc_step();
    lemma_counts(v);
    if v.free.len() > 0 {
        let idx = v.free.last() as int;
        lemma_slot_bounds(v, idx);
        let a = v.slot(idx);
        assert(w.free =~= v.free.drop_last());
        assert(w.wf()) by {
            assert forall|k: int| 0 <= k < w.free.len() implies #[trigger] w.free[k] < w.total() by {
                assert(w.free[k] == v.free[k]);
            }
        }
        assert(v.free[v.free.len() - 1] == idx);
        assert(!w.free.contains(idx as usize)) by {
            if w.free.contains(idx as usize) {
                let k = choose|k: int| 0 <= k < w.free.len() && w.free[k] == idx as usize;
                assert(v.free[k] == v.free[v.free.len() - 1]);
            }
        }
        assert forall|b: int| b != a implies #[trigger] w.is_allocated(b) == v.is_allocated(b) by {
            if v.is_slot(b) {
                lemma_slot_of_index(v, b);
                let j = v.slot_index(b);
                assert(j != idx);
                if v.free.contains(j as usize) {
                    let k = choose|k: int| 0 <= k < v.free.len() && v.free[k] == j as usize;
                    assert(k != v.free.len() - 1);
                    assert(w.free[k] == j as usize);
                }
                if w.free.contains(j as usize) {
                    let k = choose|k: int| 0 <= k < w.free.len() && w.free[k] == j as usize;
                    assert(v.free[k] == j as usize);
                }
            }
        }
    } else {
        assert(v.used() == v.total());
    }
}

/// Returning a handed-out slot frees exactly that slot.
pub proof fn lemma_dealloc_frees_slot(v: SlabView, a: usize)
    requires
        v.wf(),
        v.is_allocated(a as int),
    ensures
        v.dealloc_step(a).wf(),
        v.dealloc_step(a).is_free(a as int),
        v.dealloc_step(a).used() == v.used() - 1,
        forall|b: int| b != a ==> #[trigger] v.dealloc_step(a).is_allocated(b) == v.is_allocated(b),
{
    let w = v.dealloc_step(a);
    let idx = v.slot_index(a as int);
    lemma_slot_of_index(v, a as int);
    lemma_free_len_below_total(v, idx as usize);
    assert(w.free == v.free.push(idx as usize));
    assert(w.free.no_duplicates()) by {
        assert forall|i: int, j: int| 0 <= i < w.free.len() && 0 <= j < w.free.len() && i != j
            implies w.free[i] != w.free[j] by {
            if i < v.free.len() && j < v.free.len() {
                assert(w.free[i] == v.free[i] && w.free[j] == v.free[j]);
            } else if i < v.free.len() {
                assert(w.free[i] == v.free[i]);
                assert(v.free.contains(w.free[i]));
            } else {
                assert(w.free[j] == v.free[j]);
                assert(v.free.contains(w.free[j]));
            }
        }
    }
    assert forall|k: int| 0 <= k < w.free.len() implies #[trigger] w.free[k] < w.total() by {
        if k < v.free.len() {
            assert(w.free[k] == v.free[k]);
        }
    }
    assert(w.free[v.free.len() as int] == idx as usize);
    assert forall|b: int| b != a implies #[trigger] w.is_allocated(b) == v.is_allocated(b) by {
        if v.is_slot(b) {
            lemma_slot_of_index(v, b);
            let j = v.slot_index(b);
            assert(j != idx);
            if w.free.contains(j as usize) {
                let k = choose|k: int| 0 <= k < w.free.len() && w.free[k] == j as usize;
                assert(k < v.free.len());
                assert(v.free[k] == j as usize);
            }
            if v.free.contains(j as usize) {
                let k = choose|k: int| 0 <= k < v.free.len() && v.free[k] == j as usize;
                assert(w.free[k] == j as usize);
            }
        }
    }
}

/// A slot that is returned is the next one handed out, and the slab is
/// then as it was before the return.
pub proof fn lemma_dealloc_then_allocate(v: SlabView, a: usize)
    requires
        v.wf(),
        v.is_allocated(a as int),
    ensures
        v.dealloc_step(a).alloc_step() == (v, Some(a)),
{
    let w = v.dealloc_step(a);
    lemma_slot_of_index(v, a as int);
    assert(w.free.drop_last() =~= v.free);
    assert(w.free.last() == v.slot_index(a as int) as usize);
}

/// Returning the slot just handed out puts the slab back as it was.
pub proof fn lemma_allocate_then_dealloc(v: SlabView)
    requires
        v.wf(),
        v.alloc_step().1 is Some,
    ensures
        v.alloc_step().0.dealloc_step(v.alloc_step().1->0) == v,
{
    let (w, r) = v.alloc_step();
    let idx = v.free.last() as int;
    lemma_slot_bounds(v, idx);
    assert(w.dealloc_step(r->0).free =~= v.free);
}

/// Over any run of calls whose frees are valid, the slab stays well formed
/// and its count of handed-out slots moves by the allocations served minus
/// the frees.
pub proof fn lemma_run_counts(v: SlabView, calls: Seq<SlabCall>)
    requires
        v.wf(),
        v.deallocs_valid(calls),
    ensures
        v.run(calls).wf(),
        v.run(calls).page == v.page,
        v.run(calls).slot_size == v.slot_size,
        v.run(calls).used() == v.used() + v.allocs_served(calls) - dealloc_count(calls),
    decreases calls.len(),
{
    if calls.len() > 0 {
        let prev = calls.drop_last();
        lemma_run_counts(v, prev);
        let w = v.run(prev);
        match calls.last() {
            SlabCall::Allocate => {
                lemma_allocate_hands_out_free_slot(w);
            },
            SlabCall::Dealloc(a) => {
                lemma_dealloc_frees_slot(w, a);
            },
        }
    }
}

/// A slab has no slot handed out exactly when its count of handed-out slots
/// is zero: it is empty again once every live slot is returned.
pub proof fn lemma_empty_iff_nothing_allocated(v: SlabView)
    requires
        v.wf(),
    ensures
        v.used() == 0 <==> forall|a: int| !#[trigger] v.is_allocated(a),
{
    lemma_counts(v);
    if v.used() == 0 {
        assert forall|a: int| !#[trigger] v.is_allocated(a) by {
            if v.is_allocated(a) {
                lemma_slot_of_index(v, a);
                lemma_free_len_below_total(v, v.slot_index(a) as usize);
            }
        }
    }
    if forall|a: int| !#[trigger] v.is_allocated(a) {
        let f = |x: usize| x as int;
        let fi = v.free.map_values(f);
        v.free.lemma_no_duplicates_injective(f);
        fi.unique_seq_to_set();
        let range = vstd::set_lib::set_int_range(0, v.total());
        vstd::set_lib::lemma_int_range(0, v.total());
        assert(range.subset_of(fi.to_set())) by {
            assert forall|j: int| range.contains(j) implies fi.to_set().contains(j) by {
                lemma_slot_bounds(v, j);
                assert(!v.is_allocated(v.slot(j)));
                assert(v.free.contains(j as usize));
                let k = choose|k: int| 0 <= k < v.free.len() && v.free[k] == j as usize;
                assert(fi[k] == j);
            }
        }
        vstd::set_lib::lemma_len_subset(range, fi.to_set());
    }
}

/// A slab made for objects of `object_size` bytes gets slots of exactly that
/// size, or of `MIN_SLOT_SIZE` for smaller objects: every slot holds an
/// object, and a fresh slab has nothing handed out.
pub proof fn lemma_fresh_slot_size(page: usize, object_size: usize)
    requires
        object_size <= PAGE_SIZE,
        page + PAGE_SIZE <= usize::MAX,
    ensures
        SlabView::fresh(page, object_size).page == page,
        SlabView::fresh(page, object_size).slot_size >= object_size,
        SlabView::fresh(page, object_size).slot_size >= MIN_SLOT_SIZE,
        object_size >= MIN_SLOT_SIZE ==> SlabView::fresh(page, object_size).slot_size == object_size,
        object_size < MIN_SLOT_SIZE ==> SlabView::fresh(page, object_size).slot_size == MIN_SLOT_SIZE,
        SlabView::fresh(page, object_size).used() == 0,
{
    lemma_fresh(page, object_size);
}

/// Two different slots of a slab are at least a slot size apart.
pub proof fn lemma_slots_apart(v: SlabView, a: int, b: int)
    requires
        v.wf(),
        v.is_slot(a),
        v.is_slot(b),
        a != b,
    ensures
        a + v.slot_size <= b || b + v.slot_size <= a,
{
    lemma_slot_of_index(v, a);
    lemma_slot_of_index(v, b);
    let ka = v.slot_index(a);
    let kb = v.slot_index(b);
    let ss = v.slot_size as int;
    assert(ka != kb);
    assert(a + ss <= b || b + ss <= a) by (nonlinear_arith)
        requires a == v.page + ka * ss, b == v.page + kb * ss, ka != kb, ss > 0;
}

/// Objects of a slab made for `object_size` bytes never overlap: in any
/// state the slab reaches from `Slab::new(page, object_size)` through calls
/// whose frees are valid, two different slots (handed out or not) lie at
/// least `object_size` bytes apart, and each lies with all its
/// `object_size` bytes inside the page.
pub proof fn lemma_objects_fit(page: usize, object_size: usize, calls: Seq<SlabCall>, a: int, b: int)
    requires
        object_size <= PAGE_SIZE,
        page + PAGE_SIZE <= usize::MAX,
        SlabView::fresh(page, object_size).deallocs_valid(calls),
        SlabView::fresh(page, object_size).run(calls).is_slot(a),
        SlabView::fresh(page, object_size).run(calls).is_slot(b),
        a != b,
    ensures
        a + object_size <= b || b + object_size <= a,
        page <= a,
        a + object_size <= page + PAGE_SIZE,
{
    let v = SlabView::fresh(page, object_size);
    lemma_fresh(page, object_size);
    lemma_fresh_slot_size(page, object_size);
    lemma_run_counts(v, calls);
    let w = v.run(calls);
    lemma_slots_apart(w, a, b);
    lemma_slot_of_index(w, a);
}

/// `k` calls of `allocate`.
pub open spec fn allocations(k: nat) -> Seq<SlabCall> {
    Seq::new(k, |i: int| SlabCall::Allocate)
}

/// A fresh slab hands out its slots in address order, from the start of the
/// page: after `k` allocations, the next one hands out the slot `k` slot
/// sizes into the page, or nothing once every slot is handed out.
pub proof fn lemma_fresh_in_address_order(page: usize, object_size: usize, k: nat)
    requires
        object_size <= PAGE_SIZE,
        page + PAGE_SIZE <= usize::MAX,
    ensures
        k < SlabView::fresh(page, object_size).total() ==> SlabView::fresh(page, object_size).run(allocations(k)).alloc_step().1
            == Some((page + k * SlabView::fresh(page, object_size).slot_size) as usize),
        k >= SlabView::fresh(page, object_size).total() ==> SlabView::fresh(page, object_size).run(allocations(k)).alloc_step().1
            is None,
{
    let v = SlabView::fresh(page, object_size);
    lemma_fresh(page, object_size);
    lemma_fresh_prefix(v, k);
    let w = v.run(allocations(k));
    if k < v.total() {
        let t = v.total();
        assert(w.free.last() == v.free[t - k - 1]);
        assert(v.free[t - k - 1] == k);
    }
}

/// After `k` allocations a fresh slab's free stack is the bottom part of
/// the fresh one.
proof fn lemma_fresh_prefix(v: SlabView, k: nat)
    requires
        v.wf(),
        v.free.len() == v.total(),
        forall|i: int| 0 <= i < v.total() ==> #[trigger] v.free[i] == v.total() - 1 - i,
    ensures
        v.run(allocations(k)).page == v.page,
        v.run(allocations(k)).slot_size == v.slot_size,
        k <= v.total() ==> v.run(allocations(k)).free == v.free.subrange(0, v.total() - k),
        k >= v.total() ==> v.run(allocations(k)).free.len() == 0,
    decreases k,
{
    if k > 0 {
        let prev = allocations((k - 1) as nat);
        assert(allocations(k).drop_last() =~= prev);
        lemma_fresh_prefix(v, (k - 1) as nat);
        let w = v.run(prev);
        if k <= v.total() {
            assert(w.free.drop_last() =~= v.free.subrange(0, v.total() - k));
        }
    }
}

} // verus!
