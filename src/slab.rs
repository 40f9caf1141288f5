//! One page of equal-sized cells threaded by an in-band free-list.
//!
//! Cells are identified by their addresses, `memory + i * object_size`. The
//! first word of every cell is kept in the slab's `links` table: while a cell
//! is free it holds the address of the next free cell, or `None` at the end of
//! the list; while the cell is handed out its word is not read.
use vstd::arithmetic::div_mod::{
    lemma_div_multiples_vanish, lemma_fundamental_div_mod, lemma_mod_multiples_vanish,
    lemma_mod_pos_bound,
};
use vstd::arithmetic::mul::{lemma_mul_inequality, lemma_mul_is_commutative};
use vstd::prelude::*;
use vstd::set_lib::{lemma_int_range, lemma_len_subset, lemma_set_disjoint_lens, set_int_range};

verus! {

/// The smallest cell: it must hold the machine word of a free-list link.
pub const MIN_OBJECT_SIZE: usize = 8;

/// The mathematical picture of a slab.
pub struct SlabView {
    /// Address of cell 0 (zero until the slab is initialized).
    pub memory: int,
    pub object_size: int,
    pub capacity: int,
    /// Whether `init` has installed the backing region.
    pub ready: bool,
    /// Indices of the free cells, in free-list order (head first).
    pub free: Seq<int>,
}

impl SlabView {
    pub open spec fn cell_addr(self, i: int) -> int {
        self.memory + i * self.object_size
    }

    /// One past the last byte of the cell array.
    pub open spec fn end(self) -> int {
        self.memory + self.capacity * self.object_size
    }

    pub open spec fn contains(self, p: int) -> bool {
        self.ready && self.memory <= p < self.end()
    }

    pub open spec fn index_of(self, p: int) -> int {
        (p - self.memory) / self.object_size
    }

    /// `p` is the address of one of the slab's cells.
    pub open spec fn is_cell(self, p: int) -> bool {
        self.contains(p) && (p - self.memory) % self.object_size == 0
    }

    /// `p` is a cell that is currently handed out.
    pub open spec fn live(self, p: int) -> bool {
        self.is_cell(p) && !self.free.contains(self.index_of(p))
    }

    /// Indices of the cells that are handed out.
    pub open spec fn allocated(self) -> Set<int> {
        Set::new(|i: int| 0 <= i < self.capacity && !self.free.contains(i))
    }

    pub open spec fn is_full(self) -> bool {
        self.free.len() == 0
    }

    pub open spec fn is_empty(self) -> bool {
        self.free.len() == self.capacity
    }

    /// The two slabs' cell arrays share no byte.
    pub open spec fn disjoint(self, other: SlabView) -> bool {
        self.end() <= other.memory || other.end() <= self.memory
    }

    pub open spec fn valid(self) -> bool {
        &&& MIN_OBJECT_SIZE <= self.object_size
        &&& 1 <= self.capacity
        &&& 0 <= self.memory
        &&& self.end() <= usize::MAX
        &&& self.free.len() <= self.capacity
        &&& self.free.no_duplicates()
        &&& forall|k: int| 0 <= k < self.free.len() ==> 0 <= #[trigger] self.free[k] < self.capacity
        &&& !self.ready ==> self.memory == 0 && self.free.len() == 0
        &&& self.ready ==> self.memory > 0
    }

    /// The slab after its head cell was popped.
    pub open spec fn after_alloc(self) -> SlabView {
        SlabView { free: self.free.drop_first(), ..self }
    }

    /// The slab after cell `p` was pushed back on its free-list.
    pub open spec fn after_dealloc(self, p: int) -> SlabView {
        SlabView { free: seq![self.index_of(p)] + self.free, ..self }
    }
}

/// Index and address of a cell agree.
pub proof fn lemma_cell_addr(v: SlabView, i: int)
    requires
        v.valid(),
        0 <= i < v.capacity,
    ensures
        v.memory <= v.cell_addr(i),
        v.cell_addr(i) + v.object_size <= v.end(),
        v.index_of(v.cell_addr(i)) == i,
        (v.cell_addr(i) - v.memory) % v.object_size == 0,
{
    let os = v.object_size;
    assert(0 <= i * os) by (nonlinear_arith)
        requires
            0 <= i,
            0 < os,
    ;
    assert(i * os + os == (i + 1) * os) by (nonlinear_arith);
    lemma_mul_inequality(i + 1, v.capacity, os);
    lemma_mul_is_commutative(i, os);
    assert(v.cell_addr(i) - v.memory == os * i);
    lemma_div_multiples_vanish(i, os);
    lemma_mod_multiples_vanish(i, 0, os);
}

/// An aligned address inside the cell array is the address of a cell.
pub proof fn lemma_cell_index(v: SlabView, p: int)
    requires
        v.valid(),
        v.is_cell(p),
    ensures
        0 <= v.index_of(p) < v.capacity,
        v.cell_addr(v.index_of(p)) == p,
{
    let os = v.object_size;
    let x = p - v.memory;
    let q = x / os;
    lemma_fundamental_div_mod(x, os);
    assert(x == os * q);
    assert(0 <= q < v.capacity) by (nonlinear_arith)
        requires
            x == os * q,
            0 <= x < v.capacity * os,
            0 < os,
    ;
    lemma_mul_is_commutative(q, os);
}

/// A handed-out cell leaves room on the free-list.
proof fn lemma_free_below_capacity(v: SlabView, i: int)
    requires
        v.valid(),
        0 <= i < v.capacity,
        !v.free.contains(i),
    ensures
        v.free.len() < v.capacity,
{
    let f = v.free.to_set();
    let r = set_int_range(0, v.capacity);
    v.free.unique_seq_to_set();
    lemma_int_range(0, v.capacity);
    assert(f.subset_of(r)) by {
        assert forall|x: int| f.contains(x) implies r.contains(x) by {
            let k = choose|k: int| 0 <= k < v.free.len() && v.free[k] == x;
        }
    }
    f.lemma_subset_not_in_lt(r, i);
}

/// Every cell of an initialized slab is either free or handed out, never
/// both: the free count and the allocated count add up to the capacity.
pub proof fn lemma_capacity_conservation(s: &Slab)
    requires
        s.wf(),
        s@.ready,
    ensures
        s@.free.len() + s@.allocated().len() == s@.capacity,
        s@.capacity - s@.free.len() == s@.allocated().len(),
{
    let v = s@;
    let f = v.free.to_set();
    let a = v.allocated();
    let r = set_int_range(0, v.capacity);
    v.free.unique_seq_to_set();
    lemma_int_range(0, v.capacity);
    assert(f + a =~= r) by {
        assert forall|x: int| f.contains(x) implies r.contains(x) by {
            let k = choose|k: int| 0 <= k < v.free.len() && v.free[k] == x;
        }
    }
    assert(f.disjoint(a));
    lemma_len_subset(f, r);
    lemma_len_subset(a, r);
    lemma_set_disjoint_lens(f, a);
}

/// Popping the head cell makes exactly that cell live.
pub proof fn lemma_live_after_alloc(v: SlabView, q: int)
    requires
        v.valid(),
        v.free.len() > 0,
    ensures
        v.after_alloc().live(q) <==> (v.live(q) || q == v.cell_addr(v.free[0])),
        !v.live(v.cell_addr(v.free[0])),
{
    let w = v.after_alloc();
    let a = v.cell_addr(v.free[0]);
    lemma_cell_addr(v, v.free[0]);
    assert(!w.free.contains(v.free[0])) by {
        if w.free.contains(v.free[0]) {
            let k = choose|k: int| 0 <= k < w.free.len() && w.free[k] == v.free[0];
            assert(v.free[k + 1] == v.free[0]);
        }
    }
    if v.is_cell(q) {
        lemma_cell_index(v, q);
        let i = v.index_of(q);
        if w.free.contains(i) {
            let k = choose|k: int| 0 <= k < w.free.len() && w.free[k] == i;
            assert(v.free[k + 1] == i);
        }
        if v.free.contains(i) && i != v.free[0] {
            let k = choose|k: int| 0 <= k < v.free.len() && v.free[k] == i;
            assert(w.free[k - 1] == i);
        }
    }
}

/// Pushing a live cell back makes exactly that cell free.
pub proof fn lemma_live_after_dealloc(v: SlabView, p: int, q: int)
    requires
        v.valid(),
        v.live(p),
    ensures
        v.after_dealloc(p).live(q) <==> (v.live(q) && q != p),
{
    let w = v.after_dealloc(p);
    lemma_cell_index(v, p);
    assert(w.free[0] == v.index_of(p));
    if v.is_cell(q) {
        lemma_cell_index(v, q);
        let i = v.index_of(q);
        if w.free.contains(i) && i != v.index_of(p) {
            let k = choose|k: int| 0 <= k < w.free.len() && w.free[k] == i;
            assert(v.free[k - 1] == i);
        }
        if v.free.contains(i) {
            let k = choose|k: int| 0 <= k < v.free.len() && v.free[k] == i;
            assert(w.free[k + 1] == i);
        }
    }
}

/// The model after `n` successive pops.
pub open spec fn after_allocs(v: SlabView, n: nat) -> SlabView
    decreases n,
{
    if n == 0 {
        v
    } else {
        after_allocs(v, (n - 1) as nat).after_alloc()
    }
}

/// The address that the pop number `n` (counting from zero) hands out.
pub open spec fn nth_alloc(v: SlabView, n: nat) -> int {
    let w = after_allocs(v, n);
    w.cell_addr(w.free[0])
}

/// A freshly initialized slab: every cell free, in address order.
pub open spec fn is_fresh(v: SlabView) -> bool {
    v.valid() && v.ready && v.free == Seq::new(v.capacity as nat, |i: int| i)
}

proof fn lemma_after_allocs_free(v: SlabView, n: nat)
    requires
        n <= v.free.len(),
    ensures
        after_allocs(v, n) == (SlabView { free: v.free.subrange(n as int, v.free.len() as int), ..v }),
    decreases n,
{
    if n == 0 {
        assert(v.free.subrange(0, v.free.len() as int) =~= v.free);
    } else {
        lemma_after_allocs_free(v, (n - 1) as nat);
        assert(v.free.subrange(n - 1, v.free.len() as int).drop_first() =~= v.free.subrange(
            n as int,
            v.free.len() as int,
        ));
    }
}

/// Successive pops from a fresh slab hand out the cells in address order:
/// pop number `k` gives the cell at `memory + k * object_size`, so `n` pops
/// give `n` distinct aligned addresses inside the cell array.
pub proof fn lemma_fresh_allocs_distinct(v: SlabView, n: nat)
    requires
        is_fresh(v),
        n <= v.capacity,
    ensures
        forall|k: nat| k < n ==> #[trigger] nth_alloc(v, k) == v.cell_addr(k as int),
        forall|k: nat| k < n ==> v.is_cell(#[trigger] nth_alloc(v, k)),
        forall|j: nat, k: nat| j < k < n ==> nth_alloc(v, j) != nth_alloc(v, k),
{
    assert forall|k: nat| k < n implies #[trigger] nth_alloc(v, k) == v.cell_addr(k as int) && v.is_cell(
        nth_alloc(v, k),
    ) by {
        lemma_after_allocs_free(v, k);
        lemma_cell_addr(v, k as int);
    }
    assert forall|j: nat, k: nat| j < k < n implies nth_alloc(v, j) != nth_alloc(v, k) by {
        lemma_cell_addr(v, j as int);
        lemma_cell_addr(v, k as int);
    }
}

/// A fresh slab serves exactly `capacity` pops; the next one finds the
/// free-list empty.
pub proof fn lemma_fresh_exhaustion(v: SlabView)
    requires
        is_fresh(v),
    ensures
        forall|k: nat| k < v.capacity ==> #[trigger] after_allocs(v, k).free.len() > 0,
        after_allocs(v, v.capacity as nat).free.len() == 0,
{
    assert forall|k: nat| k < v.capacity implies #[trigger] after_allocs(v, k).free.len() > 0 by {
        lemma_after_allocs_free(v, k);
    }
    lemma_after_allocs_free(v, v.capacity as nat);
}

/// Popping a cell and pushing the same cell back restores the slab: the free
/// count is what it was and the cell is free again, at the head of the list.
pub proof fn lemma_alloc_dealloc_round_trip(v: SlabView)
    requires
        v.valid(),
        v.free.len() > 0,
    ensures
        v.after_alloc().live(v.cell_addr(v.free[0])),
        v.after_alloc().after_dealloc(v.cell_addr(v.free[0])) == v,
        v.after_alloc().after_dealloc(v.cell_addr(v.free[0])).free.len() == v.free.len(),
{
    let w = v.after_alloc();
    let a = v.cell_addr(v.free[0]);
    lemma_cell_addr(v, v.free[0]);
    assert(!w.free.contains(v.free[0])) by {
        if w.free.contains(v.free[0]) {
            let k = choose|k: int| 0 <= k < w.free.len() && w.free[k] == v.free[0];
            assert(v.free[k + 1] == v.free[0]);
        }
    }
    assert(seq![v.free[0]] + v.free.drop_first() =~= v.free);
}

/// A page divided into equal cells with a free-list threaded through them.
pub struct Slab {
    memory: usize,
    object_size: usize,
    capacity: usize,
    free_count: usize,
    free_list_head: Option<usize>,
    /// First word of each cell (empty until the slab is initialized).
    links: Vec<Option<usize>>,
    /// Indices of the free cells in list order.
    free_cells: Ghost<Seq<int>>,
}

impl View for Slab {
    type V = SlabView;

    closed spec fn view(&self) -> SlabView {
        SlabView {
            memory: self.memory as int,
            object_size: self.object_size as int,
            capacity: self.capacity as int,
            ready: self.links@.len() > 0,
            free: self.free_cells@,
        }
    }
}

impl Slab {
    /// The free-list threaded through `links` has exactly the cells of
    /// `free_cells`, in that order.
    pub closed spec fn wf(&self) -> bool {
        let v = self@;
        &&& v.valid()
        &&& self.free_count as int == v.free.len()
        &&& v.ready ==> self.links@.len() == v.capacity
        &&& self.free_list_head == if v.free.len() > 0 {
            Some(v.cell_addr(v.free[0]) as usize)
        } else {
            None::<usize>
        }
        &&& forall|k: int|
            0 <= k < v.free.len() ==> self.links@[#[trigger] self.free_cells@[k]] == if k + 1
                < v.free.len() {
                Some(v.cell_addr(v.free[k + 1]) as usize)
            } else {
                None::<usize>
            }
    }

    /// Facts of the model that hold of every well-formed slab.
    pub proof fn lemma_valid(&self)
        requires
            self.wf(),
        ensures
            self@.valid(),
    {
    }

    /// A slab header for cells of `object_size` bytes in `slab_size` bytes;
    /// no backing region yet.
    pub fn new(object_size: usize, slab_size: usize) -> (r: Slab)
        requires
            object_size >= MIN_OBJECT_SIZE,
            slab_size >= object_size,
        ensures
            r.wf(),
            r@ == (SlabView {
                memory: 0,
                object_size: object_size as int,
                capacity: slab_size as int / object_size as int,
                ready: false,
                free: Seq::empty(),
            }),
    {
        let capacity = slab_size / object_size;
        proof {
            let x = slab_size as int;
            let d = object_size as int;
            let q = x / d;
            lemma_fundamental_div_mod(x, d);
            lemma_mod_pos_bound(x, d);
            lemma_mul_is_commutative(q, d);
            assert(q >= 1) by (nonlinear_arith)
                requires
                    x == d * q + x % d,
                    x % d < d,
                    x >= d,
                    d > 0,
            ;
        }
        Slab {
            memory: 0,
            object_size,
            capacity,
            free_count: 0,
            free_list_head: None,
            links: Vec::new(),
            free_cells: Ghost(Seq::empty()),
        }
    }

    /// Installs the backing region at `memory` and threads every cell onto
    /// the free-list in address order. Done once per slab.
    pub fn init(&mut self, memory: usize)
        requires
            old(self).wf(),
            !old(self)@.ready,
            memory > 0,
            memory + old(self)@.capacity * old(self)@.object_size <= usize::MAX,
        ensures
            final(self).wf(),
            final(self)@ == (SlabView {
                memory: memory as int,
                ready: true,
                free: Seq::new(old(self)@.capacity as nat, |i: int| i),
                ..old(self)@
            }),
    {
        let cap = self.capacity;
        let os = self.object_size;
        let ghost v = SlabView {
            memory: memory as int,
            ready: true,
            free: Seq::new(cap as nat, |i: int| i),
            ..self@
        };
        let mut links: Vec<Option<usize>> = Vec::new();
        let mut i: usize = 0;
        while i < cap
            invariant
                v.valid(),
                v.memory == memory,
                v.capacity == cap,
                v.object_size == os,
                0 <= i <= cap,
                links@.len() == i,
                forall|k: int|
                    0 <= k < i ==> #[trigger] links@[k] == if k + 1 < cap {
                        Some(v.cell_addr(k + 1) as usize)
                    } else {
                        None::<usize>
                    },
            decreases cap - i,
        {
            let link = if i + 1 < cap {
                proof {
                    lemma_cell_addr(v, i + 1);
                }
                Some(memory + (i + 1) * os)
            } else {
                None
            };
            links.push(link);
            i += 1;
        }
        proof {
            lemma_cell_addr(v, 0);
        }
        self.memory = memory;
        self.links = links;
        self.free_count = cap;
        self.free_list_head = Some(memory);
        self.free_cells = Ghost(v.free);
        assert(self@ == v);
    }

    /// Pops the head of the free-list; `None` when every cell is handed out.
    pub fn allocate(&mut self) -> (r: Option<usize>)
        requires
            old(self).wf(),
        ensures
            final(self).wf(),
            old(self)@.free.len() == 0 ==> r.is_none() && final(self)@ == old(self)@,
            old(self)@.free.len() > 0 ==> r == Some(old(self)@.cell_addr(old(self)@.free[0]) as usize)
                && final(self)@ == old(self)@.after_alloc(),
    {
        if self.free_count == 0 {
            return None;
        }
        match self.free_list_head {
            None => None,
            Some(addr) => {
                let ghost v = self@;
                proof {
                    lemma_cell_addr(v, v.free[0]);
                }
                let idx = (addr - self.memory) / self.object_size;
                let next = self.links[idx];
                self.free_list_head = next;
                self.free_count = self.free_count - 1;
                self.free_cells = Ghost(self.free_cells@.drop_first());
                assert(self@ == v.after_alloc());
                assert forall|k: int| 0 <= k < self@.free.len() implies self.links@[
                    #[trigger] self.free_cells@[k]] == if k + 1 < self@.free.len() {
                    Some(self@.cell_addr(self@.free[k + 1]) as usize)
                } else {
                    None::<usize>
                } by {
                    assert(self.free_cells@[k] == v.free[k + 1]);
                }
                Some(addr)
            }
        }
    }

    /// Pushes the handed-out cell `ptr` back on the free-list.
    pub fn dealloc(&mut self, ptr: usize)
        requires
            old(self).wf(),
            old(self)@.live(ptr as int),
        ensures
            final(self).wf(),
            final(self)@ == old(self)@.after_dealloc(ptr as int),
    {
        let ghost v = self@;
        proof {
            lemma_cell_index(v, ptr as int);
            lemma_free_below_capacity(v, v.index_of(ptr as int));
        }
        let idx = (ptr - self.memory) / self.object_size;
        let head = self.free_list_head;
        self.links.set(idx, head);
        self.free_list_head = Some(ptr);
        self.free_count = self.free_count + 1;
        self.free_cells = Ghost(seq![idx as int] + self.free_cells@);
        assert(self@ == v.after_dealloc(ptr as int));
        assert(self@.valid()) by {
            assert forall|a: int, b: int|
                0 <= a < self@.free.len() && 0 <= b < self@.free.len() && a != b implies
                self@.free[a] != self@.free[b] by {
                if a > 0 && b > 0 {
                    assert(self@.free[a] == v.free[a - 1]);
                    assert(self@.free[b] == v.free[b - 1]);
                } else if a == 0 {
                    assert(self@.free[b] == v.free[b - 1]);
                } else {
                    assert(self@.free[a] == v.free[a - 1]);
                }
            }
            assert forall|k: int| 0 <= k < self@.free.len() implies 0 <= #[trigger] self@.free[k]
                < self@.capacity by {
                if k > 0 {
                    assert(self@.free[k] == v.free[k - 1]);
                }
            }
        }
        assert forall|k: int| 0 <= k < self@.free.len() implies self.links@[
            #[trigger] self.free_cells@[k]] == if k + 1 < self@.free.len() {
            Some(self@.cell_addr(self@.free[k + 1]) as usize)
        } else {
            None::<usize>
        } by {
            if k > 0 {
                assert(self.free_cells@[k] == v.free[k - 1]);
                assert(v.free[k - 1] != idx);
            }
        }
    }

    /// Whether `ptr` falls inside the cell array; neither alignment nor
    /// free/used status is looked at.
    pub fn contains(&self, ptr: usize) -> (r: bool)
        requires
            self.wf(),
        ensures
            r == self@.contains(ptr as int),
    {
        let end = self.memory + self.capacity * self.object_size;
        self.links.len() > 0 && self.memory <= ptr && ptr < end
    }

    pub fn free_count(&self) -> (r: usize)
        requires
            self.wf(),
        ensures
            r == self@.free.len(),
    {
        self.free_count
    }

    pub fn capacity(&self) -> (r: usize)
        ensures
            r == self@.capacity,
    {
        self.capacity
    }

    pub fn object_size(&self) -> (r: usize)
        ensures
            r == self@.object_size,
    {
        self.object_size
    }

    /// Number of cells handed out.
    pub fn used_count(&self) -> (r: usize)
        requires
            self.wf(),
        ensures
            r == self@.capacity - self@.free.len(),
    {
        self.capacity - self.free_count
    }

    pub fn is_full(&self) -> (r: bool)
        requires
            self.wf(),
        ensures
            r == self@.is_full(),
    {
        self.free_count == 0
    }

    pub fn is_empty(&self) -> (r: bool)
        requires
            self.wf(),
        ensures
            r == self@.is_empty(),
    {
        self.free_count == self.capacity
    }
}

} // verus!
