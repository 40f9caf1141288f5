//! The multi-class allocator: one cache per size class, refilled a page at a
//! time from a page pool.
use crate::cache::{CacheStats, CacheView, SCache};
use crate::page::{PagePool, PoolView, PAGE_SIZE};
use crate::slab::{lemma_cell_index, Slab, SlabView};
use vstd::arithmetic::div_mod::{
    lemma_fundamental_div_mod, lemma_mod_multiples_vanish, lemma_mod_pos_bound,
};
use vstd::arithmetic::mul::lemma_mul_is_commutative;
use vstd::prelude::*;

verus! {

/// Number of size classes.
pub const NUM_CLASSES: usize = 8;

/// The largest request the allocator serves.
pub const MAX_CACHE_SIZE: usize = 1024;

/// Cell size of size class `i`: 8, 16, 32, ..., 1024.
pub open spec fn class_size(i: int) -> int {
    if i == 0 {
        8
    } else if i == 1 {
        16
    } else if i == 2 {
        32
    } else if i == 3 {
        64
    } else if i == 4 {
        128
    } else if i == 5 {
        256
    } else if i == 6 {
        512
    } else {
        1024
    }
}

/// Index of the smallest class that holds `size` bytes
/// (`NUM_CLASSES` when none does).
pub open spec fn class_index_for(size: int) -> int {
    if size <= 8 {
        0
    } else if size <= 16 {
        1
    } else if size <= 32 {
        2
    } else if size <= 64 {
        3
    } else if size <= 128 {
        4
    } else if size <= 256 {
        5
    } else if size <= 512 {
        6
    } else if size <= 1024 {
        7
    } else {
        8
    }
}

/// The cell size that serves a request of `size` bytes.
pub open spec fn smallest_class(size: int) -> int {
    class_size(class_index_for(size))
}

/// Cells in a slab of class `i`: the whole page is cells.
pub open spec fn class_capacity(i: int) -> int {
    PAGE_SIZE as int / class_size(i)
}

/// The slab of class `i` freshly built in the page at `page`: its cells
/// start at the page boundary and are all free.
pub open spec fn fresh_slab_at(i: int, page: int) -> SlabView {
    SlabView {
        memory: page,
        object_size: class_size(i),
        capacity: class_capacity(i),
        ready: true,
        free: Seq::new(class_capacity(i) as nat, |k: int| k),
    }
}

/// A cell of a page-aligned slab is aligned to the slab's cell size, which
/// divides the page size.
proof fn lemma_cell_aligned(page: int, i: int, q: int)
    requires
        0 <= i < NUM_CLASSES,
        0 < page,
        page % PAGE_SIZE as int == 0,
        fresh_slab_at(i, page).is_cell(q),
    ensures
        q % class_size(i) == 0,
{
    let os = class_size(i);
    let b = PAGE_SIZE as int / os;
    let a = page / PAGE_SIZE as int;
    let k = (q - page) / os;
    assert(PAGE_SIZE as int == os * b);
    lemma_fundamental_div_mod(page, PAGE_SIZE as int);
    lemma_fundamental_div_mod(q - page, os);
    assert(page == PAGE_SIZE as int * a);
    assert(q - page == os * k);
    assert(q == os * (b * a + k)) by (nonlinear_arith)
        requires
            page == PAGE_SIZE as int * a,
            PAGE_SIZE as int == os * b,
            q - page == os * k,
    ;
    lemma_mod_multiples_vanish(b * a + k, 0, os);
}

/// A multiple of `c` is a multiple of every divisor of `c`.
proof fn lemma_mod_divisor(x: int, c: int, d: int)
    requires
        0 < d,
        0 < c,
        x % c == 0,
        c % d == 0,
    ensures
        x % d == 0,
{
    lemma_fundamental_div_mod(x, c);
    lemma_fundamental_div_mod(c, d);
    let m = x / c;
    let n = c / d;
    assert(x == d * (n * m)) by (nonlinear_arith)
        requires
            x == c * m,
            c == d * n,
    ;
    lemma_mod_multiples_vanish(n * m, 0, d);
}

/// For every request of at most `MAX_CACHE_SIZE` bytes, the chosen cell size
/// is the smallest class that holds the request; and it never shrinks as
/// the request grows.
pub proof fn lemma_size_class_monotonic(n: int, m: int)
    requires
        n <= m <= MAX_CACHE_SIZE,
    ensures
        0 <= class_index_for(n) < NUM_CLASSES,
        n <= smallest_class(n),
        forall|j: int| 0 <= j < NUM_CLASSES && n <= class_size(j) ==> smallest_class(n) <= class_size(j),
        smallest_class(n) <= smallest_class(m),
{
}

/// Cell size of size class `i`.
pub fn cache_size(i: usize) -> (r: usize)
    requires
        i < NUM_CLASSES,
    ensures
        r == class_size(i as int),
{
    if i == 0 {
        8
    } else if i == 1 {
        16
    } else if i == 2 {
        32
    } else if i == 3 {
        64
    } else if i == 4 {
        128
    } else if i == 5 {
        256
    } else if i == 6 {
        512
    } else {
        1024
    }
}

/// Index of the smallest class that holds `size` bytes.
fn get_cache_index(size: usize) -> (r: Option<usize>)
    ensures
        size <= MAX_CACHE_SIZE ==> r == Some(class_index_for(size as int) as usize),
        size > MAX_CACHE_SIZE ==> r.is_none(),
{
    let mut i: usize = 0;
    while i < NUM_CLASSES
        invariant
            0 <= i <= NUM_CLASSES,
            i > 0 ==> size > class_size(i - 1),
        decreases NUM_CLASSES - i,
    {
        if size <= cache_size(i) {
            return Some(i);
        }
        i += 1;
    }
    None
}

/// The class that serves a request of `size` bytes aligned to `align`:
/// `None` for requests over `MAX_CACHE_SIZE` bytes, and for alignments
/// beyond the class's cell size.
pub fn class_for(size: usize, align: usize) -> (r: Option<usize>)
    ensures
        size <= MAX_CACHE_SIZE && align <= smallest_class(size as int) ==> r == Some(
            class_index_for(size as int) as usize,
        ),
        size > MAX_CACHE_SIZE || align > smallest_class(size as int) ==> r.is_none(),
{
    if size > MAX_CACHE_SIZE {
        return None;
    }
    match get_cache_index(size) {
        None => None,
        Some(i) => {
            if align > cache_size(i) {
                None
            } else {
                Some(i)
            }
        },
    }
}

/// The slab of class `i` that the page at `page` holds, every cell free.
/// The header lives in the returned value, not in the page, so the cells
/// fill the whole page and each is aligned to the cell size.
pub fn slab_for_page(i: usize, page: usize) -> (r: Slab)
    requires
        i < NUM_CLASSES,
        0 < page,
        page + PAGE_SIZE <= usize::MAX,
    ensures
        r.wf(),
        r@ == fresh_slab_at(i as int, page as int),
        r@.end() <= page + PAGE_SIZE,
        forall|q: int| !r@.live(q),
{
    let os = cache_size(i);
    let mut slab = Slab::new(os, PAGE_SIZE);
    let ghost cap = class_capacity(i as int);
    proof {
        let x = PAGE_SIZE as int;
        let d = os as int;
        lemma_fundamental_div_mod(x, d);
        lemma_mod_pos_bound(x, d);
        lemma_mul_is_commutative(cap, d);
    }
    slab.init(page);
    proof {
        slab.lemma_valid();
        let v = slab@;
        assert(v.free =~= fresh_slab_at(i as int, page as int).free);
        assert forall|q: int| !v.live(q) by {
            if v.is_cell(q) {
                lemma_cell_index(v, q);
                assert(v.free[v.index_of(q)] == v.index_of(q));
            }
        }
    }
    slab
}

/// The mathematical picture of the allocator.
pub struct AllocatorView {
    pub caches: Seq<CacheView>,
    pub pages: PoolView,
}

impl AllocatorView {
    /// One cache per class; every slab lies in the part of the pool handed
    /// out so far; no address belongs to two caches; every cell is aligned
    /// to its class's cell size.
    pub open spec fn valid(self) -> bool {
        &&& self.caches.len() == NUM_CLASSES
        &&& self.pages.valid()
        &&& forall|i: int|
            0 <= i < NUM_CLASSES ==> {
                let c = #[trigger] self.caches[i];
                c.valid() && c.object_size == class_size(i) && c.total_objects()
                    <= self.pages.next
            }
        &&& forall|i: int, q: int|
            0 <= i < NUM_CLASSES && #[trigger] self.caches[i].owns(q) ==> self.pages.base <= q
                < self.pages.base + self.pages.next
        &&& forall|i: int, j: int, q: int|
            0 <= i < NUM_CLASSES && 0 <= j < NUM_CLASSES && i != j
                && #[trigger] self.caches[i].owns(q) ==> !#[trigger] self.caches[j].owns(q)
        &&& forall|i: int, q: int|
            0 <= i < NUM_CLASSES && #[trigger] self.caches[i].is_cell(q) ==> q % class_size(i)
                == 0
    }
}

/// An address that the allocator has handed out lies in exactly one slab of
/// exactly one cache, on a cell boundary of that cache's cell size.
pub proof fn lemma_pointer_ownership(v: AllocatorView, i: int, a: int)
    requires
        v.valid(),
        0 <= i < NUM_CLASSES,
        v.caches[i].live(a),
    ensures
        forall|j: int| 0 <= j < NUM_CLASSES && v.caches[j].owns(a) ==> j == i,
        exists|k: int|
            0 <= k < v.caches[i].slabs().len() && (#[trigger] v.caches[i].slabs()[k]).is_cell(a)
                && v.caches[i].slabs()[k].object_size == class_size(i),
        forall|k1: int, k2: int|
            0 <= k1 < v.caches[i].slabs().len() && 0 <= k2 < v.caches[i].slabs().len()
                && (#[trigger] v.caches[i].slabs()[k1]).contains(a) && (#[trigger] v.caches[
                i].slabs()[k2]).contains(a) ==> k1 == k2,
{
    let c = v.caches[i];
    let s = c.slabs();
    let k = choose|k: int| 0 <= k < s.len() && (#[trigger] s[k]).live(a);
    assert(c.owns(a));
    if k < c.partial.len() {
        assert(c.partial[k] == s[k]);
    } else {
        assert(c.full[k - c.partial.len()] == s[k]);
    }
    assert forall|k1: int, k2: int|
        0 <= k1 < s.len() && 0 <= k2 < s.len() && (#[trigger] s[k1]).contains(a) && (
        #[trigger] s[k2]).contains(a) implies k1 == k2 by {
        if k1 != k2 {
            assert(s[k1].disjoint(s[k2]));
        }
    }
}

/// Replacing cache `i` by one that holds the same addresses and as many
/// cells keeps the allocator valid.
proof fn lemma_replace_cache(o: AllocatorView, n: AllocatorView, i: int, c: CacheView)
    requires
        o.valid(),
        0 <= i < NUM_CLASSES,
        n.pages == o.pages,
        n.caches == o.caches.update(i, c),
        c.valid(),
        c.object_size == o.caches[i].object_size,
        c.total_objects() == o.caches[i].total_objects(),
        forall|q: int| c.owns(q) == o.caches[i].owns(q),
        forall|q: int| c.is_cell(q) == o.caches[i].is_cell(q),
    ensures
        n.valid(),
{
    assert forall|j: int, q: int| 0 <= j < NUM_CLASSES && #[trigger] n.caches[j].is_cell(q) implies q
        % class_size(j) == 0 by {
        assert(o.caches[j].is_cell(q));
    }
    assert forall|j: int, q: int| 0 <= j < NUM_CLASSES && #[trigger] n.caches[j].owns(q) implies n.pages.base
        <= q < n.pages.base + n.pages.next by {
        assert(o.caches[j].owns(q));
    }
    assert forall|j: int, k: int, q: int|
        0 <= j < NUM_CLASSES && 0 <= k < NUM_CLASSES && j != k && #[trigger] n.caches[j].owns(q) implies !#[trigger] n.caches[k].owns(q) by {
        assert(o.caches[j].owns(q));
        if n.caches[k].owns(q) {
            assert(o.caches[k].owns(q));
        }
    }
}

/// Size-class dispatch over per-class caches and a page pool.
pub struct SlabAllocator {
    caches: Vec<SCache>,
    pages: PagePool,
}

impl View for SlabAllocator {
    type V = AllocatorView;

    closed spec fn view(&self) -> AllocatorView {
        AllocatorView { caches: self.caches@.map_values(|c: SCache| c@), pages: self.pages@ }
    }
}

impl SlabAllocator {
    pub closed spec fn wf(&self) -> bool {
        &&& forall|i: int| 0 <= i < self.caches@.len() ==> (#[trigger] self.caches@[i]).wf()
        &&& self.pages.wf()
        &&& self@.valid()
    }

    pub proof fn lemma_valid(&self)
        requires
            self.wf(),
        ensures
            self@.valid(),
    {
    }

    /// An allocator with an empty cache for each class, taking its pages
    /// from the `size` bytes at address `base`. No page is taken yet.
    pub fn new(base: usize, size: usize) -> (r: SlabAllocator)
        requires
            0 < base,
            base + size <= usize::MAX,
        ensures
            r.wf(),
            r@.pages == (PoolView { base: base as int, size: size as int, next: 0 }),
            forall|i: int|
                0 <= i < NUM_CLASSES ==> (#[trigger] r@.caches[i]).partial.len() == 0
                    && r@.caches[i].full.len() == 0,
    {
        let mut caches: Vec<SCache> = Vec::new();
        let mut i: usize = 0;
        while i < NUM_CLASSES
            invariant
                0 <= i <= NUM_CLASSES,
                caches@.len() == i,
                forall|j: int|
                    0 <= j < i ==> {
                        let c = #[trigger] caches@[j];
                        c.wf() && c@ == (CacheView {
                            object_size: class_size(j),
                            partial: seq![],
                            full: seq![],
                        })
                    },
            decreases NUM_CLASSES - i,
        {
            caches.push(SCache::new(cache_size(i)));
            i += 1;
        }
        let r = SlabAllocator { caches, pages: PagePool::new(base, size) };
        assert forall|j: int| 0 <= j < NUM_CLASSES implies (#[trigger] r@.caches[j]).slabs()
            =~= seq![] by {
            assert(r@.caches[j] == r.caches@[j]@);
        }
        r
    }

    /// The cell size that a request of `size` bytes is served with; `None`
    /// over `MAX_CACHE_SIZE` bytes.
    pub fn object_size_for(&self, size: usize) -> (r: Option<usize>)
        ensures
            size > MAX_CACHE_SIZE ==> r.is_none(),
            size <= MAX_CACHE_SIZE ==> r == Some(smallest_class(size as int) as usize),
    {
        if size > MAX_CACHE_SIZE {
            return None;
        }
        let mut i: usize = 0;
        while i < NUM_CLASSES
            invariant
                0 <= i <= NUM_CLASSES,
                size <= MAX_CACHE_SIZE,
                i > 0 ==> size > class_size(i - 1),
            decreases NUM_CLASSES - i,
        {
            let cache_size = cache_size(i);
            if size <= cache_size {
                return Some(cache_size);
            }
            i += 1;
        }
        None
    }

    /// What `stats` reports for the cache of class `i`.
    pub fn cache_stats(&self, i: usize) -> (r: CacheStats)
        requires
            self.wf(),
            i < NUM_CLASSES,
        ensures
            r.partial_slabs == self@.caches[i as int].partial.len(),
            r.full_slabs == self@.caches[i as int].full.len(),
            r.total_objects == self@.caches[i as int].total_objects(),
            r.used_objects == self@.caches[i as int].used_objects(),
    {
        self.caches[i].stats()
    }

    /// Takes a page from the pool, builds a slab of class `i` in it and
    /// hands the slab to that class's cache. `false` when the pool is
    /// exhausted.
    fn refill(&mut self, i: usize) -> (r: bool)
        requires
            old(self).wf(),
            i < NUM_CLASSES,
        ensures
            final(self).wf(),
            r == old(self)@.pages.can_supply(),
            !r ==> final(self)@ == old(self)@,
            r ==> final(self)@.caches[i as int] == (CacheView {
                partial: old(self)@.caches[i as int].partial.push(
                    fresh_slab_at(i as int, old(self)@.pages.next_page()),
                ),
                ..old(self)@.caches[i as int]
            }),
            r ==> final(self)@.pages == (PoolView {
                next: old(self)@.pages.next_page() + PAGE_SIZE - old(self)@.pages.base,
                ..old(self)@.pages
            }),
            forall|q: int| final(self)@.caches[i as int].live(q) == old(self)@.caches[i as int].live(q),
            forall|j: int|
                0 <= j < NUM_CLASSES && j != i ==> final(self)@.caches[j] == old(self)@.caches[j],
    {
        let ghost o = self@;
        let page = match self.pages.acquire_page() {
            None => {
                return false;
            },
            Some(p) => p,
        };
        proof {
            self.pages.lemma_valid();
        }
        let slab = slab_for_page(i, page);
        let ghost t = slab@;
        let ghost c0 = o.caches[i as int];
        assert(self.caches@[i as int]@ == c0);
        proof {
            slab.lemma_valid();
            assert(t.capacity <= t.capacity * t.object_size) by (nonlinear_arith)
                requires
                    t.object_size >= 8,
                    t.capacity >= 1,
            ;
            assert forall|q: int| t.contains(q) implies !c0.owns(q) by {
                if c0.owns(q) {
                    assert(o.caches[i as int].owns(q));
                }
            }
        }
        self.caches[i].insert(slab);
        let ghost n = self@;
        let ghost c1 = n.caches[i as int];
        assert(n.caches =~= o.caches.update(i as int, c1));
        assert(c1 == self.caches@[i as int]@);
        assert(page >= o.pages.base + o.pages.next);
        assert(n.pages.base + n.pages.next == page + PAGE_SIZE);
        assert(forall|q: int| t.contains(q) ==> page <= q < page + PAGE_SIZE);
        assert forall|j: int, q: int| 0 <= j < NUM_CLASSES && #[trigger] n.caches[j].is_cell(q) implies q
            % class_size(j) == 0 by {
            if j != i {
                assert(o.caches[j].is_cell(q));
            } else if c0.is_cell(q) {
                assert(o.caches[i as int].is_cell(q));
            } else {
                assert(c1.is_cell(q) == (c0.is_cell(q) || t.is_cell(q)));
                assert(t.is_cell(q));
                lemma_cell_aligned(page as int, i as int, q);
            }
        }
        assert forall|q: int| c1.live(q) == c0.live(q) by {
            assert(c1.live(q) == (c0.live(q) || t.live(q)));
            assert(!t.live(q));
        }
        assert(c1.total_objects() <= n.pages.next);
        assert forall|j: int| 0 <= j < NUM_CLASSES implies {
            let c = #[trigger] n.caches[j];
            c.valid() && c.object_size == class_size(j) && c.total_objects() <= n.pages.next
        } by {
            if j != i {
                assert(n.caches[j] == o.caches[j]);
            } else {
                self.caches@[i as int].lemma_valid();
            }
        }
        assert forall|j: int| 0 <= j < self.caches@.len() implies (#[trigger] self.caches@[j]).wf() by {
            if j != i {
                assert(self.caches@[j] == old(self).caches@[j]);
            }
        }
        assert forall|j: int, q: int| 0 <= j < NUM_CLASSES && #[trigger] n.caches[j].owns(q) implies n.pages.base
            <= q < n.pages.base + n.pages.next by {
            if j != i {
                assert(o.caches[j].owns(q));
            } else if c0.owns(q) {
                assert(o.caches[i as int].owns(q));
            }
        }
        assert forall|j: int, k: int, q: int|
            0 <= j < NUM_CLASSES && 0 <= k < NUM_CLASSES && j != k && #[trigger] n.caches[j].owns(q) implies !#[trigger] n.caches[k].owns(q) by {
            if n.caches[k].owns(q) {
                if j == i {
                    assert(o.caches[k].owns(q));
                    if c0.owns(q) {
                        assert(o.caches[i as int].owns(q));
                    }
                } else if k == i {
                    assert(o.caches[j].owns(q));
                    if c0.owns(q) {
                        assert(o.caches[i as int].owns(q));
                    }
                } else {
                    assert(o.caches[j].owns(q));
                    assert(o.caches[k].owns(q));
                }
            }
        }
        true
    }

    /// Serves a request of `size` bytes aligned to `align` from the cache of
    /// its class, refilling that cache with one page when it has no free
    /// cell. `None` for requests over `MAX_CACHE_SIZE` bytes, for alignments
    /// beyond the class's cell size (both without taking a page), and when
    /// the cache is out of cells and the pool out of pages. A request of zero
    /// bytes is served by the smallest class, like any other, so each one
    /// gets a distinct cell that `deallocate` takes back with size zero.
    pub fn allocate(&mut self, size: usize, align: usize) -> (r: Option<usize>)
        requires
            old(self).wf(),
        ensures
            final(self).wf(),
            size > MAX_CACHE_SIZE || align > smallest_class(size as int) ==> r.is_none() && final(self)@ == old(self)@,
            size <= MAX_CACHE_SIZE && align <= smallest_class(size as int) ==> ({
                let i = class_index_for(size as int);
                &&& r.is_none() <==> (old(self)@.caches[i].partial.len() == 0
                    && !old(self)@.pages.can_supply())
                &&& r.is_none() ==> final(self)@ == old(self)@
                &&& old(self)@.caches[i].partial.len() > 0 ==> final(self)@.pages == old(self)@.pages
                &&& old(self)@.caches[i].partial.len() == 0 && r.is_some() ==> final(self)@.pages == (
                PoolView {
                    next: old(self)@.pages.next_page() + PAGE_SIZE - old(self)@.pages.base,
                    ..old(self)@.pages
                })
                &&& r.is_some() ==> r.unwrap() as int % smallest_class(size as int) == 0
                &&& r.is_some() && 0 < align && smallest_class(size as int) % align as int == 0
                    ==> r.unwrap() as int % align as int == 0
                &&& r.is_some() ==> !old(self)@.caches[i].live(r.unwrap() as int) && final(self)@.caches[i].live(r.unwrap() as int)
                &&& r.is_some() ==> forall|q: int|
                    q != r.unwrap() as int ==> final(self)@.caches[i].live(q) == old(self)@.caches[i].live(q)
                &&& forall|j: int|
                    0 <= j < NUM_CLASSES && j != i ==> final(self)@.caches[j] == old(self)@.caches[j]
            }),
    {
        let i = match class_for(size, align) {
            None => {
                return None;
            },
            Some(i) => i,
        };
        let ghost o = self@;
        let ghost c0 = o.caches[i as int];
        assert(self.caches@[i as int]@ == c0);
        let r = self.caches[i].allocate();
        let ghost c1 = self.caches@[i as int]@;
        assert(self@.caches =~= o.caches.update(i as int, c1));
        assert forall|j: int| 0 <= j < self.caches@.len() implies (#[trigger] self.caches@[j]).wf() by {
            if j != i {
                assert(self.caches@[j] == old(self).caches@[j]);
            }
        }
        proof {
            self.caches@[i as int].lemma_valid();
            lemma_replace_cache(o, self@, i as int, c1);
        }
        if r.is_some() {
            proof {
                self.lemma_returned_aligned(i as int, r.unwrap() as int, align as int);
            }
            return r;
        }
        assert(c1 == c0);
        assert(self@.caches =~= o.caches);
        assert(self@ == o);
        if !self.refill(i) {
            return None;
        }
        let ghost m = self@;
        let ghost before = self.caches@;
        let ghost c2 = m.caches[i as int];
        assert(self.caches@[i as int]@ == c2);
        let r2 = self.caches[i].allocate();
        let ghost c3 = self.caches@[i as int]@;
        assert(self@.caches =~= m.caches.update(i as int, c3));
        assert forall|j: int| 0 <= j < self.caches@.len() implies (#[trigger] self.caches@[j]).wf() by {
            if j != i {
                assert(self.caches@[j] == before[j]);
            }
        }
        proof {
            self.caches@[i as int].lemma_valid();
            lemma_replace_cache(m, self@, i as int, c3);
            if r2.is_some() {
                self.lemma_returned_aligned(i as int, r2.unwrap() as int, align as int);
            }
        }
        r2
    }

    /// A handed-out cell of class `i` is aligned to the class's cell size,
    /// and so to every divisor of it.
    proof fn lemma_returned_aligned(&self, i: int, a: int, align: int)
        requires
            self.wf(),
            0 <= i < NUM_CLASSES,
            self@.caches[i].live(a),
        ensures
            a % class_size(i) == 0,
            0 < align && class_size(i) % align == 0 ==> a % align == 0,
    {
        let c = self@.caches[i];
        let k = choose|k: int| 0 <= k < c.slabs().len() && (#[trigger] c.slabs()[k]).live(a);
        assert(c.slabs()[k].is_cell(a));
        assert(c.is_cell(a));
        if 0 < align && class_size(i) % align == 0 {
            lemma_mod_divisor(a, class_size(i), align);
        }
    }

    /// Gives back the cell `ptr` of a request of `size` bytes to the cache
    /// of that class. Nothing happens for a null `ptr` or a size over
    /// `MAX_CACHE_SIZE`.
    pub fn deallocate(&mut self, ptr: usize, size: usize)
        requires
            old(self).wf(),
            ptr != 0 && size <= MAX_CACHE_SIZE ==> (old(self)@.caches[class_index_for(
                size as int,
            )].owns(ptr as int) ==> old(self)@.caches[class_index_for(size as int)].live(
                ptr as int,
            )),
        ensures
            final(self).wf(),
            ptr == 0 || size > MAX_CACHE_SIZE ==> final(self)@ == old(self)@,
            ptr != 0 && size <= MAX_CACHE_SIZE ==> ({
                let i = class_index_for(size as int);
                &&& old(self)@.caches[i].owns(ptr as int) ==> old(self)@.caches[i].gives_back(
                    final(self)@.caches[i],
                    ptr as int,
                )
                &&& !old(self)@.caches[i].owns(ptr as int) ==> final(self)@.caches[i] == old(self)@.caches[i]
                &&& forall|q: int| final(self)@.caches[i].owns(q) == old(self)@.caches[i].owns(q)
                &&& final(self)@.caches[i].total_objects() == old(self)@.caches[i].total_objects()
                &&& forall|q: int|
                    final(self)@.caches[i].live(q) == (old(self)@.caches[i].live(q) && q
                        != ptr as int)
                &&& forall|j: int|
                    0 <= j < NUM_CLASSES && j != i ==> final(self)@.caches[j] == old(self)@.caches[j]
                &&& final(self)@.pages == old(self)@.pages
            }),
    {
        if ptr == 0 {
            return;
        }
        let i = match get_cache_index(size) {
            None => {
                return;
            },
            Some(i) => i,
        };
        let ghost o = self@;
        let ghost c0 = o.caches[i as int];
        assert(self.caches@[i as int]@ == c0);
        let _owned = self.caches[i].dealloc(ptr);
        let ghost c1 = self.caches@[i as int]@;
        assert(self@.caches =~= o.caches.update(i as int, c1));
        assert forall|j: int| 0 <= j < self.caches@.len() implies (#[trigger] self.caches@[j]).wf() by {
            if j != i {
                assert(self.caches@[j] == old(self).caches@[j]);
            }
        }
        proof {
            self.caches@[i as int].lemma_valid();
            lemma_replace_cache(o, self@, i as int, c1);
        }
    }
}

} // verus!
