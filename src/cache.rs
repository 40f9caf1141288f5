//! The slabs of one size class, kept in two buckets: `partial` (slabs with a
//! free cell) and `full` (slabs with none).
//!
//! Each bucket is a stack: its last element is the head of the list, so that
//! inserting a slab or migrating one between buckets is a push at the head.
use crate::slab::{lemma_cell_addr, lemma_live_after_alloc, lemma_live_after_dealloc, Slab, SlabView};
use vstd::prelude::*;

verus! {

/// What `stats` reports about a cache.
pub struct CacheStats {
    pub partial_slabs: usize,
    pub full_slabs: usize,
    pub total_objects: usize,
    pub used_objects: usize,
}

/// The mathematical picture of a cache.
pub struct CacheView {
    pub object_size: int,
    /// The partial bucket, head last.
    pub partial: Seq<SlabView>,
    /// The full bucket, head last.
    pub full: Seq<SlabView>,
}

/// Sum of the capacities of the slabs.
pub open spec fn sum_capacity(s: Seq<SlabView>) -> int
    decreases s.len(),
{
    if s.len() == 0 {
        0
    } else {
        sum_capacity(s.drop_last()) + s.last().capacity
    }
}

/// Sum of the handed-out cells of the slabs.
pub open spec fn sum_used(s: Seq<SlabView>) -> int
    decreases s.len(),
{
    if s.len() == 0 {
        0
    } else {
        sum_used(s.drop_last()) + (s.last().capacity - s.last().free.len())
    }
}

/// No two slabs of `s` share a byte.
pub open spec fn pairwise_disjoint(s: Seq<SlabView>) -> bool {
    forall|i: int, j: int|
        0 <= i < s.len() && 0 <= j < s.len() && i != j ==> (#[trigger] s[i]).disjoint(
            #[trigger] s[j],
        )
}

/// Some slab of `s` has `p` in its cell array.
pub open spec fn seq_owns(s: Seq<SlabView>, p: int) -> bool {
    exists|i: int| 0 <= i < s.len() && (#[trigger] s[i]).contains(p)
}

/// Some slab of `s` has a cell at address `p`.
pub open spec fn seq_cells(s: Seq<SlabView>, p: int) -> bool {
    exists|i: int| 0 <= i < s.len() && (#[trigger] s[i]).is_cell(p)
}

/// Some slab of `s` has `p` as a handed-out cell.
pub open spec fn seq_live(s: Seq<SlabView>, p: int) -> bool {
    exists|i: int| 0 <= i < s.len() && (#[trigger] s[i]).live(p)
}

/// Two slab models over the same cell array.
pub open spec fn same_place(x: SlabView, y: SlabView) -> bool {
    x.memory == y.memory && x.object_size == y.object_size && x.capacity == y.capacity && x.ready
        == y.ready
}

impl CacheView {
    /// All slabs of the cache, partial bucket first.
    pub open spec fn slabs(self) -> Seq<SlabView> {
        self.partial + self.full
    }

    pub open spec fn owns(self, p: int) -> bool {
        seq_owns(self.slabs(), p)
    }

    pub open spec fn live(self, p: int) -> bool {
        seq_live(self.slabs(), p)
    }

    /// `p` is the address of a cell of one of the slabs.
    pub open spec fn is_cell(self, p: int) -> bool {
        seq_cells(self.slabs(), p)
    }

    /// `next` is this cache after the handed-out cell `p` went back to the
    /// slab holding it: updated in place in the partial bucket, or moved from
    /// the full bucket to the head of the partial bucket.
    pub open spec fn gives_back(self, next: CacheView, p: int) -> bool {
        next.object_size == self.object_size && ((exists|i: int|
            0 <= i < self.partial.len() && (#[trigger] self.partial[i]).contains(p)
                && next.partial == self.partial.update(i, self.partial[i].after_dealloc(p))
                && next.full == self.full) || (exists|j: int|
            0 <= j < self.full.len() && (#[trigger] self.full[j]).contains(p) && next.partial
                == self.partial.push(self.full[j].after_dealloc(p)) && next.full
                == self.full.remove(j)))
    }

    pub open spec fn total_objects(self) -> int {
        sum_capacity(self.slabs())
    }

    pub open spec fn used_objects(self) -> int {
        sum_used(self.slabs())
    }

    /// Every slab of `partial` has a free cell, every slab of `full` has
    /// none; all hold cells of the cache's size and own disjoint memory.
    pub open spec fn valid(self) -> bool {
        &&& forall|i: int|
            0 <= i < self.partial.len() ==> {
                let s = #[trigger] self.partial[i];
                s.valid() && s.ready && s.object_size == self.object_size && s.free.len() > 0
            }
        &&& forall|i: int|
            0 <= i < self.full.len() ==> {
                let s = #[trigger] self.full[i];
                s.valid() && s.ready && s.object_size == self.object_size && s.free.len() == 0
            }
        &&& pairwise_disjoint(self.slabs())
        &&& self.total_objects() <= usize::MAX
    }
}

pub proof fn lemma_sum_concat(a: Seq<SlabView>, b: Seq<SlabView>)
    ensures
        sum_capacity(a + b) == sum_capacity(a) + sum_capacity(b),
        sum_used(a + b) == sum_used(a) + sum_used(b),
    decreases b.len(),
{
    if b.len() == 0 {
        assert(a + b =~= a);
    } else {
        assert((a + b).drop_last() =~= a + b.drop_last());
        lemma_sum_concat(a, b.drop_last());
    }
}

proof fn lemma_sum_split(s: Seq<SlabView>, i: int)
    requires
        0 <= i < s.len(),
    ensures
        sum_capacity(s) == sum_capacity(s.take(i)) + s[i].capacity + sum_capacity(s.skip(i + 1)),
{
    assert(s =~= s.take(i) + seq![s[i]] + s.skip(i + 1));
    lemma_sum_concat(s.take(i) + seq![s[i]], s.skip(i + 1));
    lemma_sum_concat(s.take(i), seq![s[i]]);
    let one = seq![s[i]];
    assert(one.drop_last() =~= Seq::<SlabView>::empty());
    assert(sum_capacity(one) == sum_capacity(one.drop_last()) + one.last().capacity);
    assert(sum_capacity(one) == s[i].capacity);
}

proof fn lemma_sum_update(s: Seq<SlabView>, i: int, t: SlabView)
    requires
        0 <= i < s.len(),
        t.capacity == s[i].capacity,
    ensures
        sum_capacity(s.update(i, t)) == sum_capacity(s),
{
    let u = s.update(i, t);
    lemma_sum_split(s, i);
    lemma_sum_split(u, i);
    assert(u.take(i) =~= s.take(i));
    assert(u.skip(i + 1) =~= s.skip(i + 1));
}

proof fn lemma_sum_remove(s: Seq<SlabView>, i: int)
    requires
        0 <= i < s.len(),
    ensures
        sum_capacity(s.remove(i)) == sum_capacity(s) - s[i].capacity,
{
    lemma_sum_split(s, i);
    assert(s.remove(i) =~= s.take(i) + s.skip(i + 1));
    lemma_sum_concat(s.take(i), s.skip(i + 1));
}

/// The handed-out cells never outnumber the cells.
pub proof fn lemma_used_le_total(s: Seq<SlabView>)
    requires
        forall|i: int| 0 <= i < s.len() ==> (#[trigger] s[i]).valid(),
    ensures
        0 <= sum_used(s) <= sum_capacity(s),
    decreases s.len(),
{
    if s.len() > 0 {
        assert(s.last() == s[s.len() - 1]);
        lemma_used_le_total(s.drop_last());
    }
}

proof fn lemma_prefix_sum(s: Seq<SlabView>, i: int)
    requires
        0 <= i < s.len(),
        forall|j: int| 0 <= j < s.len() ==> (#[trigger] s[j]).valid(),
    ensures
        sum_capacity(s.take(i + 1)) == sum_capacity(s.take(i)) + s[i].capacity,
        sum_used(s.take(i + 1)) == sum_used(s.take(i)) + (s[i].capacity - s[i].free.len()),
        0 <= sum_used(s.take(i + 1)) <= sum_capacity(s.take(i + 1)) <= sum_capacity(s),
{
    assert(s.take(i + 1).drop_last() =~= s.take(i));
    assert(s.take(i + 1).last() == s[i]);
    assert(s =~= s.take(i + 1) + s.skip(i + 1));
    lemma_sum_concat(s.take(i + 1), s.skip(i + 1));
    lemma_used_le_total(s.take(i + 1));
    lemma_used_le_total(s.skip(i + 1));
}

/// `new_s` holds the slabs of `old_s` in another order (`f` maps new
/// positions to old ones, `g` back), all unchanged but slab `k`, which keeps
/// its cell array.
proof fn lemma_rearrange(
    old_s: Seq<SlabView>,
    new_s: Seq<SlabView>,
    k: int,
    f: spec_fn(int) -> int,
    g: spec_fn(int) -> int,
)
    requires
        0 <= k < old_s.len(),
        forall|i: int|
            0 <= i < new_s.len() ==> {
                &&& 0 <= #[trigger] f(i) < old_s.len()
                &&& g(f(i)) == i
                &&& same_place(new_s[i], old_s[f(i)])
                &&& f(i) != k ==> new_s[i] == old_s[f(i)]
            },
        forall|j: int| 0 <= j < old_s.len() ==> 0 <= #[trigger] g(j) < new_s.len() && f(g(j)) == j,
        pairwise_disjoint(old_s),
    ensures
        pairwise_disjoint(new_s),
        forall|q: int| seq_owns(new_s, q) == seq_owns(old_s, q),
        forall|q: int| seq_cells(new_s, q) == seq_cells(old_s, q),
        forall|q: int|
            seq_live(new_s, q) <==> (new_s[g(k)].live(q) || exists|j: int|
                0 <= j < old_s.len() && j != k && (#[trigger] old_s[j]).live(q)),
{
    assert forall|i: int, j: int|
        0 <= i < new_s.len() && 0 <= j < new_s.len() && i != j implies (#[trigger] new_s[i]).disjoint(
        #[trigger] new_s[j],
    ) by {
        assert(old_s[f(i)].disjoint(old_s[f(j)]));
    }
    assert forall|q: int| seq_owns(new_s, q) == seq_owns(old_s, q) by {
        if seq_owns(new_s, q) {
            let i = choose|i: int| 0 <= i < new_s.len() && (#[trigger] new_s[i]).contains(q);
            assert(old_s[f(i)].contains(q));
        }
        if seq_owns(old_s, q) {
            let j = choose|j: int| 0 <= j < old_s.len() && (#[trigger] old_s[j]).contains(q);
            assert(new_s[g(j)].contains(q));
        }
    }
    assert forall|q: int| seq_cells(new_s, q) == seq_cells(old_s, q) by {
        if seq_cells(new_s, q) {
            let i = choose|i: int| 0 <= i < new_s.len() && (#[trigger] new_s[i]).is_cell(q);
            assert(old_s[f(i)].is_cell(q));
        }
        if seq_cells(old_s, q) {
            let j = choose|j: int| 0 <= j < old_s.len() && (#[trigger] old_s[j]).is_cell(q);
            assert(new_s[g(j)].is_cell(q));
        }
    }
    assert forall|q: int|
        seq_live(new_s, q) <==> (new_s[g(k)].live(q) || exists|j: int|
            0 <= j < old_s.len() && j != k && (#[trigger] old_s[j]).live(q)) by {
        if seq_live(new_s, q) {
            let i = choose|i: int| 0 <= i < new_s.len() && (#[trigger] new_s[i]).live(q);
            if f(i) != k {
                assert(old_s[f(i)].live(q));
            }
        }
        if exists|j: int| 0 <= j < old_s.len() && j != k && (#[trigger] old_s[j]).live(q) {
            let j = choose|j: int| 0 <= j < old_s.len() && j != k && (#[trigger] old_s[j]).live(q);
            assert(new_s[g(j)].live(q));
        }
        if new_s[g(k)].live(q) {
            assert(seq_live(new_s, q));
        }
    }
}

/// In a cache whose slabs are disjoint, only slab `k` can hold a cell of slab `k`.
proof fn lemma_only_owner(s: Seq<SlabView>, k: int, q: int)
    requires
        pairwise_disjoint(s),
        0 <= k < s.len(),
        s[k].contains(q),
    ensures
        forall|j: int| 0 <= j < s.len() && j != k ==> !(#[trigger] s[j]).contains(q),
{
    assert forall|j: int| 0 <= j < s.len() && j != k implies !(#[trigger] s[j]).contains(q) by {
        assert(s[k].disjoint(s[j]));
    }
}

/// Two initialized slabs with no address in common have disjoint cell arrays.
proof fn lemma_disjoint_of_no_common(x: SlabView, t: SlabView)
    requires
        x.valid(),
        t.valid(),
        x.ready,
        t.ready,
        forall|q: int| t.contains(q) ==> !x.contains(q),
    ensures
        x.disjoint(t),
        t.disjoint(x),
{
    lemma_cell_addr(x, 0);
    lemma_cell_addr(t, 0);
    let q = if x.memory < t.memory {
        t.memory
    } else {
        x.memory
    };
    assert(!(t.contains(q) && x.contains(q)));
}

/// The slabs of one size class.
pub struct SCache {
    partial: Vec<Slab>,
    full: Vec<Slab>,
    object_size: usize,
}

pub open spec fn slab_views(v: Seq<Slab>) -> Seq<SlabView> {
    v.map_values(|s: Slab| s@)
}

impl View for SCache {
    type V = CacheView;

    closed spec fn view(&self) -> CacheView {
        CacheView {
            object_size: self.object_size as int,
            partial: slab_views(self.partial@),
            full: slab_views(self.full@),
        }
    }
}

impl SCache {
    pub closed spec fn wf(&self) -> bool {
        &&& forall|i: int| 0 <= i < self.partial@.len() ==> (#[trigger] self.partial@[i]).wf()
        &&& forall|i: int| 0 <= i < self.full@.len() ==> (#[trigger] self.full@[i]).wf()
        &&& self@.valid()
    }

    /// Facts of the model that hold of every well-formed cache.
    pub proof fn lemma_valid(&self)
        requires
            self.wf(),
        ensures
            self@.valid(),
    {
    }

    /// An empty cache for cells of `object_size` bytes.
    pub fn new(object_size: usize) -> (r: SCache)
        ensures
            r.wf(),
            r@ == (CacheView { object_size: object_size as int, partial: seq![], full: seq![] }),
    {
        let r = SCache { partial: Vec::new(), full: Vec::new(), object_size };
        assert(r@.partial =~= seq![]);
        assert(r@.full =~= seq![]);
        assert(r@.slabs() =~= seq![]);
        r
    }

    pub fn object_size(&self) -> (r: usize)
        ensures
            r == self@.object_size,
    {
        self.object_size
    }

    /// Hands a slab with a free cell to the cache: it becomes the head of the
    /// partial bucket. Its cell array must not overlap the cache's slabs.
    pub fn insert(&mut self, slab: Slab)
        requires
            old(self).wf(),
            slab.wf(),
            slab@.object_size == old(self)@.object_size,
            !slab@.is_full(),
            forall|q: int| slab@.contains(q) ==> !old(self)@.owns(q),
            old(self)@.total_objects() + slab@.capacity <= usize::MAX,
        ensures
            final(self).wf(),
            final(self)@ == (CacheView { partial: old(self)@.partial.push(slab@), ..old(self)@ }),
            forall|q: int| #[trigger] final(self)@.owns(q) == (old(self)@.owns(q) || slab@.contains(q)),
            forall|q: int| #[trigger] final(self)@.is_cell(q) == (old(self)@.is_cell(q) || slab@.is_cell(q)),
            forall|q: int| #[trigger] final(self)@.live(q) == (old(self)@.live(q) || slab@.live(q)),
            final(self)@.total_objects() == old(self)@.total_objects() + slab@.capacity,
    {
        let ghost o = self@;
        let ghost t = slab@;
        proof {
            slab.lemma_valid();
        }
        self.partial.push(slab);
        assert forall|i: int| 0 <= i < self.partial@.len() implies (#[trigger] self.partial@[i]).wf() by {
            if i < old(self).partial@.len() {
                assert(self.partial@[i] == old(self).partial@[i]);
            }
        }
        assert(self@.partial =~= o.partial.push(t));
        assert(self@.full =~= o.full);
        let ghost pl = o.partial.len() as int;
        let ghost ns = self@.slabs();
        let ghost os = o.slabs();
        assert forall|i: int| 0 <= i < ns.len() && i != pl implies #[trigger] ns[i] == os[if i < pl {
            i
        } else {
            i - 1
        }] by {}
        assert(ns[pl] == t);
        assert forall|i: int| 0 <= i < os.len() implies (#[trigger] os[i]).disjoint(t) by {
            {
                if i < pl {
                    assert(o.partial[i] == os[i]);
                } else {
                    assert(o.full[i - pl] == os[i]);
                }
                assert forall|q: int| t.contains(q) implies !os[i].contains(q) by {
                    if os[i].contains(q) {
                        assert(seq_owns(os, q));
                    }
                }
                lemma_disjoint_of_no_common(os[i], t);
            }
        }
        assert(pairwise_disjoint(ns)) by {
            assert forall|i: int, j: int|
                0 <= i < ns.len() && 0 <= j < ns.len() && i != j implies (#[trigger] ns[i]).disjoint(
                #[trigger] ns[j],
            ) by {
                let fi = if i < pl {
                    i
                } else {
                    i - 1
                };
                let fj = if j < pl {
                    j
                } else {
                    j - 1
                };
                if i == pl {
                    assert(os[fj].disjoint(t));
                } else if j == pl {
                    assert(os[fi].disjoint(t));
                } else {
                    assert(os[fi].disjoint(os[fj]));
                }
            }
        }
        proof {
            lemma_sum_concat(o.partial.push(t), o.full);
            lemma_sum_concat(o.partial, o.full);
            assert(o.partial.push(t).drop_last() =~= o.partial);
            assert forall|q: int|
                #![auto]
                self@.owns(q) == (o.owns(q) || t.contains(q)) && self@.live(q) == (o.live(q)
                    || t.live(q)) && self@.is_cell(q) == (o.is_cell(q) || t.is_cell(q)) by {
                if self@.is_cell(q) {
                    let i = choose|i: int| 0 <= i < ns.len() && (#[trigger] ns[i]).is_cell(q);
                    if i != pl {
                        assert(os[if i < pl {
                            i
                        } else {
                            i - 1
                        }].is_cell(q));
                    }
                }
                if o.is_cell(q) {
                    let j = choose|j: int| 0 <= j < os.len() && (#[trigger] os[j]).is_cell(q);
                    assert(ns[if j < pl {
                        j
                    } else {
                        j + 1
                    }].is_cell(q));
                }
                if self@.owns(q) {
                    let i = choose|i: int| 0 <= i < ns.len() && (#[trigger] ns[i]).contains(q);
                    if i != pl {
                        assert(os[if i < pl {
                            i
                        } else {
                            i - 1
                        }].contains(q));
                    }
                }
                if o.owns(q) {
                    let j = choose|j: int| 0 <= j < os.len() && (#[trigger] os[j]).contains(q);
                    assert(ns[if j < pl {
                        j
                    } else {
                        j + 1
                    }].contains(q));
                }
                if self@.live(q) {
                    let i = choose|i: int| 0 <= i < ns.len() && (#[trigger] ns[i]).live(q);
                    if i != pl {
                        assert(os[if i < pl {
                            i
                        } else {
                            i - 1
                        }].live(q));
                    }
                }
                if o.live(q) {
                    let j = choose|j: int| 0 <= j < os.len() && (#[trigger] os[j]).live(q);
                    assert(ns[if j < pl {
                        j
                    } else {
                        j + 1
                    }].live(q));
                }
            }
        }
    }

    /// Whatever operations a cache has gone through, a slab of its partial
    /// bucket has a free cell and a slab of its full bucket has none; all of
    /// them hold cells of the cache's size.
    pub proof fn lemma_bucket_discipline(&self)
        requires
            self.wf(),
        ensures
            forall|i: int|
                0 <= i < self@.partial.len() ==> (#[trigger] self@.partial[i]).free.len() > 0
                    && self@.partial[i].object_size == self@.object_size,
            forall|i: int|
                0 <= i < self@.full.len() ==> (#[trigger] self@.full[i]).free.len() == 0
                    && self@.full[i].object_size == self@.object_size,
    {
    }

    /// Takes a cell from the head of the partial bucket; a slab that this
    /// leaves full moves to the head of the full bucket. `None` when the
    /// partial bucket is empty.
    pub fn allocate(&mut self) -> (r: Option<usize>)
        requires
            old(self).wf(),
        ensures
            final(self).wf(),
            final(self)@.object_size == old(self)@.object_size,
            old(self)@.partial.len() == 0 ==> r.is_none() && final(self)@ == old(self)@,
            old(self)@.partial.len() > 0 ==> ({
                let s = old(self)@.partial.last();
                let t = s.after_alloc();
                &&& r == Some(s.cell_addr(s.free[0]) as usize)
                &&& t.free.len() == 0 ==> final(self)@.partial == old(self)@.partial.drop_last()
                    && final(self)@.full == old(self)@.full.push(t)
                &&& t.free.len() > 0 ==> final(self)@.partial == old(
                    self,
                )@.partial.drop_last().push(t) && final(self)@.full == old(self)@.full
            }),
            forall|q: int| final(self)@.owns(q) == old(self)@.owns(q),
            forall|q: int| final(self)@.is_cell(q) == old(self)@.is_cell(q),
            final(self)@.total_objects() == old(self)@.total_objects(),
            r.is_some() ==> !old(self)@.live(r.unwrap() as int) && final(self)@.live(
                r.unwrap() as int,
            ),
            r.is_some() ==> forall|q: int|
                q != r.unwrap() as int ==> final(self)@.live(q) == old(self)@.live(q),
    {
        let ghost o = self@;
        let n = self.partial.len();
        if n == 0 {
            return None;
        }
        let mut s = match self.partial.pop() {
            Some(s) => s,
            None => { return None; },
        };
        assert(self.partial@ == old(self).partial@.drop_last());
        let ghost sv = s@;
        assert(sv == o.partial.last());
        assert(o.partial[n - 1] == sv);
        let r = s.allocate();
        let ghost t = s@;
        let ghost k = n - 1;
        let ghost pl = n as int;
        let ghost fl = o.full.len() as int;
        let ghost os = o.slabs();
        assert(os[k] == sv);
        proof {
            s.lemma_valid();
        }
        if s.is_full() {
            self.full.push(s);
            assert(self@.partial =~= o.partial.drop_last());
            assert(self@.full =~= o.full.push(t));
            let ghost ns = self@.slabs();
            let ghost f = |i: int|
                if i < k {
                    i
                } else if i < k + fl {
                    i + 1
                } else {
                    k
                };
            let ghost g = |j: int|
                if j < k {
                    j
                } else if j == k {
                    k + fl
                } else {
                    j - 1
                };
            assert forall|i: int| 0 <= i < ns.len() implies {
                &&& 0 <= #[trigger] f(i) < os.len()
                &&& g(f(i)) == i
                &&& same_place(ns[i], os[f(i)])
                &&& f(i) != k ==> ns[i] == os[f(i)]
            } by {
                if i < k {
                } else if i < k + fl {
                    assert(ns[i] == o.full[i - k]);
                    assert(os[i + 1] == o.full[i - k]);
                } else {
                    assert(ns[i] == t);
                }
            }
            proof {
                lemma_rearrange(os, ns, k, f, g);
                lemma_sum_concat(o.partial, o.full);
                lemma_sum_concat(o.partial.drop_last(), o.full.push(t));
                assert(o.full.push(t).drop_last() =~= o.full);
            }
        } else {
            self.partial.push(s);
            assert(self@.partial =~= o.partial.drop_last().push(t));
            assert(self@.full =~= o.full);
            let ghost ns = self@.slabs();
            assert(ns =~= os.update(k, t));
            let ghost f = |i: int| i;
            proof {
                lemma_rearrange(os, ns, k, f, f);
                lemma_sum_update(os, k, t);
            }
        }
        proof {
            let a = sv.cell_addr(sv.free[0]);
            let ns = self@.slabs();
            lemma_cell_addr(sv, sv.free[0]);
            assert(os[k].contains(a));
            lemma_only_owner(os, k, a);
            assert forall|q: int| #![auto] self@.live(q) == (o.live(q) || q == a) by {
                lemma_live_after_alloc(sv, q);
                if o.live(q) {
                    let j = choose|j: int| 0 <= j < os.len() && (#[trigger] os[j]).live(q);
                }
            }
            lemma_live_after_alloc(sv, a);
            assert(!o.live(a)) by {
                if o.live(a) {
                    let j = choose|j: int| 0 <= j < os.len() && (#[trigger] os[j]).live(a);
                }
            }
        }
        r
    }

    /// Gives back the cell `ptr` to the slab whose cell array holds it; a
    /// slab that leaves the full bucket this way moves to the head of the
    /// partial bucket. `false` when no slab of the cache holds `ptr`.
    pub fn dealloc(&mut self, ptr: usize) -> (r: bool)
        requires
            old(self).wf(),
            old(self)@.owns(ptr as int) ==> old(self)@.live(ptr as int),
        ensures
            final(self).wf(),
            final(self)@.object_size == old(self)@.object_size,
            r == old(self)@.owns(ptr as int),
            !r ==> final(self)@ == old(self)@,
            r ==> old(self)@.gives_back(final(self)@, ptr as int),
            forall|q: int| final(self)@.owns(q) == old(self)@.owns(q),
            forall|q: int| final(self)@.is_cell(q) == old(self)@.is_cell(q),
            final(self)@.total_objects() == old(self)@.total_objects(),
            forall|q: int| final(self)@.live(q) == (old(self)@.live(q) && q != ptr as int),
    {
        let ghost o = self@;
        let ghost os = o.slabs();
        let ghost pl = o.partial.len() as int;
        let np = self.partial.len();
        let mut i: usize = 0;
        while i < np
            invariant
                *self == *old(self),
                self.wf(),
                old(self)@.owns(ptr as int) ==> old(self)@.live(ptr as int),
                o == self@,
                os == o.slabs(),
                np == o.partial.len(),
                pl == np,
                0 <= i <= np,
                forall|j: int| 0 <= j < i ==> !(#[trigger] o.partial[j]).contains(ptr as int),
            decreases np - i,
        {
            assert(self.partial@[i as int]@ == o.partial[i as int]);
            if self.partial[i].contains(ptr) {
                let ghost k = i as int;
                let ghost sv = o.partial[k];
                assert(os[k] == sv);
                assert(seq_owns(os, ptr as int));
                proof {
                    lemma_only_owner(os, k, ptr as int);
                    assert(old(self)@.owns(ptr as int));
                    assert(old(self)@.live(ptr as int));
                    let j = choose|j: int| 0 <= j < os.len() && (#[trigger] os[j]).live(ptr as int);
                    assert(sv.live(ptr as int));
                }
                self.partial[i].dealloc(ptr);
                let ghost t = o.partial[k].after_dealloc(ptr as int);
                assert(self.partial@[k]@ == t);
                assert forall|j: int| 0 <= j < self.partial@.len() implies (#[trigger] self.partial@[j]).wf() by {
                    if j != k {
                        assert(self.partial@[j] == old(self).partial@[j]);
                    }
                }
                assert(self@.partial =~= o.partial.update(k, t));
                assert(self@.full =~= o.full);
                let ghost ns = self@.slabs();
                assert(ns =~= os.update(k, t));
                let ghost f = |x: int| x;
                proof {
                    self.partial@[k].lemma_valid();
                    lemma_rearrange(os, ns, k, f, f);
                    lemma_sum_update(os, k, t);
                    assert forall|q: int| #![auto] self@.live(q) == (o.live(q) && q != ptr as int) by {
                        lemma_live_after_dealloc(sv, ptr as int, q);
                        if o.live(q) {
                            let j = choose|j: int| 0 <= j < os.len() && (#[trigger] os[j]).live(q);
                        }
                    }
                }
                return true;
            }
            i += 1;
        }
        let nf = self.full.len();
        let mut i: usize = 0;
        while i < nf
            invariant
                *self == *old(self),
                self.wf(),
                old(self)@.owns(ptr as int) ==> old(self)@.live(ptr as int),
                o == self@,
                os == o.slabs(),
                pl == o.partial.len(),
                nf == o.full.len(),
                0 <= i <= nf,
                forall|j: int| 0 <= j < pl ==> !(#[trigger] o.partial[j]).contains(ptr as int),
                forall|j: int| 0 <= j < i ==> !(#[trigger] o.full[j]).contains(ptr as int),
            decreases nf - i,
        {
            assert(self.full@[i as int]@ == o.full[i as int]);
            if self.full[i].contains(ptr) {
                let ghost j0 = i as int;
                let ghost k = pl + j0;
                let ghost fl = nf as int;
                let ghost sv = o.full[j0];
                assert(os[k] == sv);
                assert(seq_owns(os, ptr as int));
                proof {
                    lemma_only_owner(os, k, ptr as int);
                    assert(old(self)@.owns(ptr as int));
                    assert(old(self)@.live(ptr as int));
                    let j = choose|j: int| 0 <= j < os.len() && (#[trigger] os[j]).live(ptr as int);
                    assert(sv.live(ptr as int));
                }
                let mut s = self.full.remove(i);
                s.dealloc(ptr);
                let ghost t = s@;
                proof {
                    s.lemma_valid();
                }
                self.partial.push(s);
                assert forall|j: int| 0 <= j < self.partial@.len() implies (#[trigger] self.partial@[j]).wf() by {
                    if j < pl {
                        assert(self.partial@[j] == old(self).partial@[j]);
                    }
                }
                assert forall|j: int| 0 <= j < self.full@.len() implies (#[trigger] self.full@[j]).wf() by {
                    if j < j0 {
                        assert(self.full@[j] == old(self).full@[j]);
                    } else {
                        assert(self.full@[j] == old(self).full@[j + 1]);
                    }
                }
                assert(self@.partial =~= o.partial.push(t));
                assert(self@.full =~= o.full.remove(j0));
                let ghost ns = self@.slabs();
                let ghost f = |x: int|
                    if x < pl {
                        x
                    } else if x == pl {
                        k
                    } else if x <= k {
                        x - 1
                    } else {
                        x
                    };
                let ghost g = |y: int|
                    if y < pl {
                        y
                    } else if y == k {
                        pl
                    } else if y < k {
                        y + 1
                    } else {
                        y
                    };
                assert forall|x: int| 0 <= x < ns.len() implies {
                    &&& 0 <= #[trigger] f(x) < os.len()
                    &&& g(f(x)) == x
                    &&& same_place(ns[x], os[f(x)])
                    &&& f(x) != k ==> ns[x] == os[f(x)]
                } by {
                    if x < pl {
                    } else if x == pl {
                        assert(ns[x] == t);
                    } else if x <= k {
                        assert(ns[x] == o.full.remove(j0)[x - pl - 1]);
                        assert(os[x - 1] == o.full[x - 1 - pl]);
                    } else {
                        assert(ns[x] == o.full.remove(j0)[x - pl - 1]);
                        assert(os[x] == o.full[x - pl]);
                    }
                }
                proof {
                    lemma_rearrange(os, ns, k, f, g);
                    lemma_sum_concat(o.partial, o.full);
                    lemma_sum_concat(o.partial.push(t), o.full.remove(j0));
                    assert(o.partial.push(t).drop_last() =~= o.partial);
                    lemma_sum_remove(o.full, j0);
                    assert forall|q: int| #![auto] self@.live(q) == (o.live(q) && q != ptr as int) by {
                        lemma_live_after_dealloc(sv, ptr as int, q);
                        if o.live(q) {
                            let j = choose|j: int| 0 <= j < os.len() && (#[trigger] os[j]).live(q);
                        }
                    }
                    assert(o.full[j0].contains(ptr as int));
                }
                return true;
            }
            i += 1;
        }
        assert(!o.owns(ptr as int)) by {
            if o.owns(ptr as int) {
                let j = choose|j: int| 0 <= j < os.len() && (#[trigger] os[j]).contains(ptr as int);
                if j < pl {
                    assert(o.partial[j] == os[j]);
                } else {
                    assert(o.full[j - pl] == os[j]);
                }
            }
        }
        false
    }

    /// Counts the slabs of each bucket, their cells and their handed-out
    /// cells.
    pub fn stats(&self) -> (r: CacheStats)
        requires
            self.wf(),
        ensures
            r.partial_slabs == self@.partial.len(),
            r.full_slabs == self@.full.len(),
            r.total_objects == self@.total_objects(),
            r.used_objects == self@.used_objects(),
    {
        let ghost ps = self@.partial;
        let ghost fs = self@.full;
        proof {
            lemma_sum_concat(ps, fs);
            lemma_used_le_total(ps);
            lemma_used_le_total(fs);
            assert(ps.take(0) =~= seq![]);
            assert(fs.take(0) =~= seq![]);
        }
        let np = self.partial.len();
        let nf = self.full.len();
        let mut total: usize = 0;
        let mut used: usize = 0;
        let mut i: usize = 0;
        while i < np
            invariant
                self.wf(),
                ps == self@.partial,
                fs == self@.full,
                np == ps.len(),
                0 <= i <= np,
                sum_capacity(ps) + sum_capacity(fs) <= usize::MAX,
                total == sum_capacity(ps.take(i as int)),
                used == sum_used(ps.take(i as int)),
            decreases np - i,
        {
            proof {
                lemma_prefix_sum(ps, i as int);
                lemma_used_le_total(fs);
            }
            assert(self.partial@[i as int]@ == ps[i as int]);
            let slab = &self.partial[i];
            total = total + slab.capacity();
            used = used + slab.used_count();
            i += 1;
        }
        assert(ps.take(np as int) =~= ps);
        let mut j: usize = 0;
        while j < nf
            invariant
                self.wf(),
                ps == self@.partial,
                fs == self@.full,
                nf == fs.len(),
                0 <= j <= nf,
                sum_capacity(ps) + sum_capacity(fs) <= usize::MAX,
                0 <= sum_used(ps) <= sum_capacity(ps),
                total == sum_capacity(ps) + sum_capacity(fs.take(j as int)),
                used == sum_used(ps) + sum_used(fs.take(j as int)),
            decreases nf - j,
        {
            proof {
                lemma_prefix_sum(fs, j as int);
            }
            assert(self.full@[j as int]@ == fs[j as int]);
            let slab = &self.full[j];
            total = total + slab.capacity();
            used = used + slab.used_count();
            j += 1;
        }
        assert(fs.take(nf as int) =~= fs);
        CacheStats { partial_slabs: np, full_slabs: nf, total_objects: total, used_objects: used }
    }
}

} // verus!
