//! A page provider: a bump pointer over a fixed region that hands out
//! 4096-byte aligned pages and never takes one back.
use vstd::prelude::*;

verus! {

pub const PAGE_SIZE: usize = 4096;

/// The first page boundary at or above `a`.
pub open spec fn align_up(a: int) -> int {
    a + (PAGE_SIZE - a % PAGE_SIZE as int) % PAGE_SIZE as int
}

/// The mathematical picture of a pool.
pub struct PoolView {
    /// Address of the region.
    pub base: int,
    /// Bytes in the region.
    pub size: int,
    /// Bytes of the region used so far (pages and alignment padding).
    pub next: int,
}

impl PoolView {
    pub open spec fn valid(self) -> bool {
        0 < self.base && 0 <= self.next <= self.size && self.base + self.size <= usize::MAX
    }

    /// Address of the page the pool hands out next.
    pub open spec fn next_page(self) -> int {
        align_up(self.base + self.next)
    }

    /// Whether one more page fits in the region.
    pub open spec fn can_supply(self) -> bool {
        self.next_page() + PAGE_SIZE <= self.base + self.size
    }
}

pub struct PagePool {
    base: usize,
    size: usize,
    next: usize,
}

impl View for PagePool {
    type V = PoolView;

    closed spec fn view(&self) -> PoolView {
        PoolView { base: self.base as int, size: self.size as int, next: self.next as int }
    }
}

impl PagePool {
    pub closed spec fn wf(&self) -> bool {
        self@.valid()
    }

    pub proof fn lemma_valid(&self)
        requires
            self.wf(),
        ensures
            self@.valid(),
    {
    }

    /// A pool over the `size` bytes at address `base`, none used yet. The
    /// region cannot start at the null address.
    pub fn new(base: usize, size: usize) -> (r: PagePool)
        requires
            0 < base,
            base + size <= usize::MAX,
        ensures
            r.wf(),
            r@ == (PoolView { base: base as int, size: size as int, next: 0 }),
    {
        PagePool { base, size, next: 0 }
    }

    /// The next page boundary in the region, if a whole page fits there;
    /// the pool moves past it.
    pub fn acquire_page(&mut self) -> (r: Option<usize>)
        requires
            old(self).wf(),
        ensures
            final(self).wf(),
            old(self)@.can_supply() ==> r == Some(old(self)@.next_page() as usize) && final(self)@
                == (PoolView {
                next: old(self)@.next_page() + PAGE_SIZE - old(self)@.base,
                ..old(self)@
            }),
            !old(self)@.can_supply() ==> r.is_none() && final(self)@ == old(self)@,
            r.is_some() ==> r.unwrap() as int % PAGE_SIZE as int == 0,
    {
        let cur = self.base + self.next;
        let rem = cur % PAGE_SIZE;
        let off = if rem == 0 {
            0
        } else {
            PAGE_SIZE - rem
        };
        let avail = self.size - self.next;
        if off > avail || avail - off < PAGE_SIZE {
            return None;
        }
        let page = cur + off;
        self.next = self.next + off + PAGE_SIZE;
        assert(page as int % PAGE_SIZE as int == 0) by (nonlinear_arith)
            requires
                page == cur + off,
                rem == cur % PAGE_SIZE,
                off == if rem == 0 {
                    0
                } else {
                    PAGE_SIZE - rem
                },
                PAGE_SIZE == 4096,
        ;
        Some(page)
    }
}

} // verus!
