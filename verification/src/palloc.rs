//! The physical page pool: a bitmap allocator over a contiguous region of
//! page-sized units, handing out single pages and contiguous runs by
//! physical address.

use vstd::prelude::*;

use crate::{PAGE_SIZE, page_aligned};
use crate::vm::VmError;

verus! {

/// A physical-page handle: a page-aligned physical address. Validity is a
/// pool-tracked fact, not embedded in the value.
#[derive(Debug)]
pub struct Page {
    pub addr: u64,
}

/// A bitmap allocator over the physical pages in `[base, base + used.len() * PAGE_SIZE)`.
/// `used[i]` is true exactly when the i-th page is allocated.
pub struct PagePool {
    pub base: u64,
    pub used: Vec<bool>,
}

impl PagePool {
    /// The pool is well formed: its base is page-aligned and the whole
    /// region fits in the address space.
    pub open spec fn wf(self) -> bool {
        &&& page_aligned(self.base)
        &&& self.base + self.used@.len() * PAGE_SIZE <= u64::MAX
    }

    /// Occupancy bitmap, one entry per page.
    pub open spec fn view(self) -> Seq<bool> {
        self.used@
    }

    pub open spec fn base_spec(self) -> u64 {
        self.base
    }

    /// Number of pages the pool governs.
    pub open spec fn npages(self) -> nat {
        self.used@.len()
    }

    /// One past the last address the pool governs.
    pub open spec fn limit_spec(self) -> int {
        self.base + self.used@.len() * PAGE_SIZE
    }

    /// The bitmap index of an address (meaningful only for governed addresses).
    pub open spec fn index_of(self, addr: u64) -> int {
        (addr - self.base) / (PAGE_SIZE as int)
    }

    /// The address of the page with bitmap index `i`.
    pub open spec fn addr_of(self, i: int) -> int {
        self.base + i * PAGE_SIZE
    }

    /// `addr` names a page governed by this pool.
    pub open spec fn in_range(self, addr: u64) -> bool {
        &&& page_aligned(addr)
        &&& self.base <= addr < self.limit_spec()
    }

    /// `addr` names a governed page that is currently allocated.
    pub open spec fn is_allocated(self, addr: u64) -> bool {
        self.in_range(addr) && self.used@[self.index_of(addr)]
    }

    /// The pages `[i, i + n)` are all free.
    pub open spec fn run_free(self, i: int, n: int) -> bool {
        forall|j: int| i <= j < i + n ==> !self.used@[j]
    }

    pub proof fn lemma_index_addr(self, addr: u64)
        requires
            self.wf(),
            self.in_range(addr),
        ensures
            0 <= self.index_of(addr) < self.npages(),
            self.addr_of(self.index_of(addr)) == addr,
    {
        let i = self.index_of(addr);
        assert(addr - self.base == i * PAGE_SIZE) by (nonlinear_arith)
            requires
                page_aligned(addr),
                page_aligned(self.base),
                self.base <= addr,
                i == (addr - self.base) / (PAGE_SIZE as int),
        {}
        assert(i < self.npages()) by (nonlinear_arith)
            requires
                addr < self.base + self.npages() * PAGE_SIZE,
                addr - self.base == i * PAGE_SIZE,
        {}
    }

    pub proof fn lemma_addr_index(self, i: int)
        requires
            self.wf(),
            0 <= i < self.npages(),
        ensures
            self.addr_of(i) <= u64::MAX,
            self.in_range(self.addr_of(i) as u64),
            self.index_of(self.addr_of(i) as u64) == i,
    {
        assert(i * PAGE_SIZE + PAGE_SIZE <= self.npages() * PAGE_SIZE) by (nonlinear_arith)
            requires 0 <= i < self.npages(),
        {}
        let a = self.addr_of(i);
        assert(a % (PAGE_SIZE as int) == 0 && (a - self.base) / (PAGE_SIZE as int) == i)
            by (nonlinear_arith)
            requires
                a == self.base + i * PAGE_SIZE,
                page_aligned(self.base),
                0 <= i,
        {}
    }

    /// Create a pool governing `[base, limit)`, with every page free.
    pub fn new(base: u64, limit: u64) -> (r: Self)
        requires
            page_aligned(base),
            page_aligned(limit),
            base <= limit,
            (limit - base) / (PAGE_SIZE as int) <= usize::MAX,
        ensures
            r.wf(),
            r.base_spec() == base,
            r.limit_spec() == limit,
            r.npages() == (limit - base) / (PAGE_SIZE as int),
            forall|j: int| 0 <= j < r.npages() ==> !r@[j],
    {
        let n = ((limit - base) / PAGE_SIZE) as usize;
        let mut used: Vec<bool> = Vec::new();
        let mut k: usize = 0;
        while k < n
            invariant
                used@.len() == k,
                k <= n,
                forall|j: int| 0 <= j < k ==> !used@[j],
            decreases n - k,
        {
            used.push(false);
            k = k + 1;
        }
        proof {
            assert(n * PAGE_SIZE == limit - base) by (nonlinear_arith)
                requires
                    n == (limit - base) / (PAGE_SIZE as int),
                    page_aligned(base),
                    page_aligned(limit),
                    base <= limit,
            {}
        }
        PagePool { base, used }
    }

    /// Allocate a single free page (first fit).
    ///
    /// Succeeds exactly when some page is free; the returned page was free
    /// and is the only page whose state changes.
    pub fn palloc(&mut self) -> (r: Result<Page, VmError>)
        requires
            old(self).wf(),
        ensures
            final(self).wf(),
            final(self).base_spec() == old(self).base_spec(),
            final(self)@.len() == old(self)@.len(),
            match r {
                Ok(p) => {
                    &&& old(self).in_range(p.addr)
                    &&& !old(self).is_allocated(p.addr)
                    &&& final(self).is_allocated(p.addr)
                    &&& final(self)@ == old(self)@.update(old(self).index_of(p.addr), true)
                },
                Err(e) => {
                    &&& e == VmError::OutOfPages
                    &&& final(self)@ == old(self)@
                    &&& forall|j: int| 0 <= j < final(self)@.len() ==> final(self)@[j]
                },
            },
    {
        let n = self.used.len();
        let mut k: usize = 0;
        while k < n
            invariant
                old(self).wf(),
                *self == *old(self),
                n == self@.len(),
                k <= n,
                forall|j: int| 0 <= j < k ==> self@[j],
            decreases n - k,
        {
            if !self.used[k] {
                self.used.set(k, true);
                proof {
                    self.lemma_addr_index(k as int);
                    assert(old(self).addr_of(k as int) == self.addr_of(k as int));
                }
                let addr = self.base + (k as u64) * PAGE_SIZE;
                return Ok(Page { addr });
            }
            k = k + 1;
        }
        Err(VmError::OutOfPages)
    }

    /// Allocate `num` physically contiguous free pages (first fit), returning
    /// the address of the first.
    ///
    /// Succeeds exactly when a contiguous free run of length `num` exists;
    /// fragmentation with enough total free pages is still a failure.
    pub fn palloc_plural(&mut self, num: usize) -> (r: Result<u64, VmError>)
        requires
            old(self).wf(),
            num >= 1,
        ensures
            final(self).wf(),
            final(self).base_spec() == old(self).base_spec(),
            final(self)@.len() == old(self)@.len(),
            match r {
                Ok(addr) => {
                    &&& old(self).in_range(addr)
                    &&& old(self).index_of(addr) + num <= old(self).npages()
                    &&& old(self).run_free(old(self).index_of(addr), num as int)
                    &&& forall|j: int| 0 <= j < final(self)@.len() ==>
                        final(self)@[j] == if old(self).index_of(addr) <= j
                            < old(self).index_of(addr) + num { true } else { old(self)@[j] }
                },
                Err(e) => {
                    &&& e == VmError::OutOfPages
                    &&& final(self)@ == old(self)@
                    &&& forall|i: int| 0 <= i && i + num <= old(self).npages() ==>
                        !old(self).run_free(i, num as int)
                },
            },
    {
        let n = self.used.len();
        if num > n {
            proof {
                assert forall|i: int| 0 <= i && i + num <= old(self).npages() implies
                    !old(self).run_free(i, num as int) by {}
            }
            return Err(VmError::OutOfPages);
        }
        let mut start: usize = 0;
        // first-fit scan: no free run of length `num` begins before `start`
        while start <= n - num
            invariant
                old(self).wf(),
                *self == *old(self),
                n == self@.len(),
                num >= 1,
                num <= n,
                start <= n,
                forall|i: int| 0 <= i < start ==> !self.run_free(i, num as int),
            decreases n - start,
        {
            // check whether [start, start + num) is free
            let mut k: usize = 0;
            let mut blocked: usize = 0;
            let mut hit = false;
            while k < num
                invariant
                    old(self).wf(),
                    *self == *old(self),
                    n == self@.len(),
                    start + num <= n,
                    k <= num,
                    !hit ==> forall|j: int| start <= j < start + k ==> !self@[j],
                    hit ==> start <= blocked < start + k && self@[blocked as int],
                decreases num - k,
            {
                if self.used[start + k] {
                    hit = true;
                    blocked = start + k;
                    k = num;
                } else {
                    k = k + 1;
                }
            }
            if !hit {
                // found a free run at start: mark it allocated
                let mut m: usize = 0;
                while m < num
                    invariant
                        old(self).wf(),
                        self.base == old(self).base,
                        n == self@.len(),
                        self@.len() == old(self)@.len(),
                        start + num <= n,
                        m <= num,
                        forall|j: int| 0 <= j < self@.len() ==>
                            self@[j] == if start <= j < start + m { true } else { old(self)@[j] },
                    decreases num - m,
                {
                    self.used.set(start + m, true);
                    m = m + 1;
                }
                proof {
                    self.lemma_addr_index(start as int);
                }
                return Ok(self.base + (start as u64) * PAGE_SIZE);
            }
            // runs beginning at or before `blocked` are all blocked by it
            let next = blocked + 1;
            proof {
                assert forall|i: int| 0 <= i < next implies !self.run_free(i, num as int) by {
                    if start <= i {
                        assert(i <= blocked < i + num);
                        assert(self@[blocked as int]);
                    }
                }
            }
            start = next;
        }
        proof {
            assert forall|i: int| 0 <= i && i + num <= old(self).npages() implies
                !old(self).run_free(i, num as int) by {}
        }
        Err(VmError::OutOfPages)
    }

    /// Return a single page to the pool.
    ///
    /// Rejected (with the pool unchanged) when the page is not a governed,
    /// currently-allocated page: freeing twice is an ownership violation.
    pub fn pfree(&mut self, page: Page) -> (r: Result<(), VmError>)
        requires
            old(self).wf(),
        ensures
            final(self).wf(),
            final(self).base_spec() == old(self).base_spec(),
            final(self)@.len() == old(self)@.len(),
            match r {
                Ok(()) => {
                    &&& old(self).is_allocated(page.addr)
                    &&& final(self)@ == old(self)@.update(old(self).index_of(page.addr), false)
                },
                Err(e) => {
                    &&& e == VmError::PfreeFail
                    &&& !old(self).is_allocated(page.addr)
                    &&& final(self)@ == old(self)@
                },
            },
    {
        let addr = page.addr;
        if addr % PAGE_SIZE != 0 || addr < self.base {
            return Err(VmError::PfreeFail);
        }
        let i = (addr - self.base) / PAGE_SIZE;
        if i >= self.used.len() as u64 {
            proof {
                if old(self).in_range(addr) {
                    old(self).lemma_index_addr(addr);
                }
            }
            return Err(VmError::PfreeFail);
        }
        proof {
            assert(addr < self.limit_spec()) by (nonlinear_arith)
                requires
                    addr >= self.base,
                    page_aligned(addr),
                    page_aligned(self.base),
                    (addr - self.base) / (PAGE_SIZE as int) < self.npages(),
                    self.limit_spec() == self.base + self.npages() * PAGE_SIZE,
            {}
        }
        let iu = i as usize;
        if !self.used[iu] {
            return Err(VmError::PfreeFail);
        }
        self.used.set(iu, false);
        Ok(())
    }

    /// Return a contiguous run of `num` pages to the pool.
    ///
    /// The whole run must be governed and allocated; otherwise the call is
    /// rejected and the pool is unchanged.
    pub fn pfree_plural(&mut self, addr: u64, num: usize) -> (r: Result<(), VmError>)
        requires
            old(self).wf(),
            num >= 1,
        ensures
            final(self).wf(),
            final(self).base_spec() == old(self).base_spec(),
            final(self)@.len() == old(self)@.len(),
            match r {
                Ok(()) => {
                    &&& old(self).in_range(addr)
                    &&& old(self).index_of(addr) + num <= old(self).npages()
                    &&& forall|j: int| old(self).index_of(addr) <= j
                        < old(self).index_of(addr) + num ==> old(self)@[j]
                    &&& forall|j: int| 0 <= j < final(self)@.len() ==>
                        final(self)@[j] == if old(self).index_of(addr) <= j
                            < old(self).index_of(addr) + num { false } else { old(self)@[j] }
                },
                Err(e) => {
                    &&& e == VmError::PfreeFail
                    &&& final(self)@ == old(self)@
                    &&& !(old(self).in_range(addr)
                        && old(self).index_of(addr) + num <= old(self).npages()
                        && (forall|j: int| old(self).index_of(addr) <= j
                            < old(self).index_of(addr) + num ==> old(self)@[j]))
                },
            },
    {
        if addr % PAGE_SIZE != 0 || addr < self.base {
            return Err(VmError::PfreeFail);
        }
        let iw = (addr - self.base) / PAGE_SIZE;
        if iw >= self.used.len() as u64 {
            proof {
                if old(self).in_range(addr) {
                    old(self).lemma_index_addr(addr);
                }
            }
            return Err(VmError::PfreeFail);
        }
        let i = iw as usize;
        if num > self.used.len() || i > self.used.len() - num {
            return Err(VmError::PfreeFail);
        }
        proof {
            assert(addr < self.limit_spec()) by (nonlinear_arith)
                requires
                    addr >= self.base,
                    page_aligned(addr),
                    page_aligned(self.base),
                    (addr - self.base) / (PAGE_SIZE as int) + num <= self.npages(),
                    num >= 1,
                    self.limit_spec() == self.base + self.npages() * PAGE_SIZE,
            {}
        }
        // first pass: every page of the run must be allocated
        let mut k: usize = 0;
        while k < num
            invariant
                old(self).wf(),
                *self == *old(self),
                old(self).in_range(addr),
                i == old(self).index_of(addr),
                i + num <= self@.len(),
                i + num <= usize::MAX,
                k <= num,
                forall|j: int| i <= j < i + k ==> self@[j],
            decreases num - k,
        {
            if !self.used[i + k] {
                return Err(VmError::PfreeFail);
            }
            k = k + 1;
        }
        // second pass: clear the run
        let mut m: usize = 0;
        while m < num
            invariant
                old(self).wf(),
                self.base == old(self).base,
                self@.len() == old(self)@.len(),
                i + num <= self@.len(),
                i + num <= usize::MAX,
                m <= num,
                forall|j: int| 0 <= j < self@.len() ==>
                    self@[j] == if i <= j < i + m { false } else { old(self)@[j] },
            decreases num - m,
        {
            self.used.set(i + m, false);
            m = m + 1;
        }
        Ok(())
    }

    /// The number of free pages currently in the pool.
    pub fn free_page_count(&self) -> (r: usize)
        ensures
            r == count_free(self@, self@.len() as int),
    {
        let mut k: usize = 0;
        let mut c: usize = 0;
        let n = self.used.len();
        while k < n
            invariant
                n == self@.len(),
                k <= n,
                c == count_free(self@, k as int),
                c <= k,
            decreases n - k,
        {
            if !self.used[k] {
                c = c + 1;
            }
            k = k + 1;
        }
        c
    }

    /// Whether `addr` names a governed page that is currently allocated.
    pub fn allocated(&self, addr: u64) -> (r: bool)
        requires
            self.wf(),
        ensures
            r == self.is_allocated(addr),
    {
        if addr % PAGE_SIZE != 0 || addr < self.base {
            return false;
        }
        let i = (addr - self.base) / PAGE_SIZE;
        if i >= self.used.len() as u64 {
            proof {
                if self.in_range(addr) {
                    self.lemma_index_addr(addr);
                }
            }
            return false;
        }
        proof {
            assert(addr < self.limit_spec()) by (nonlinear_arith)
                requires
                    addr >= self.base,
                    page_aligned(addr),
                    page_aligned(self.base),
                    (addr - self.base) / (PAGE_SIZE as int) < self.npages(),
                    self.limit_spec() == self.base + self.npages() * PAGE_SIZE,
            {}
        }
        self.used[i as usize]
    }
}

/// How many of the first `n` bitmap entries are free.
pub open spec fn count_free(s: Seq<bool>, n: int) -> int
    decreases n,
{
    if n <= 0 {
        0
    } else {
        count_free(s, n - 1) + if s[n - 1] { 0int } else { 1int }
    }
}


/// A full prefix counts no free entries.
pub proof fn lemma_count_free_full(s: Seq<bool>, n: int)
    requires
        forall|j: int| 0 <= j < n ==> s[j],
    ensures
        count_free(s, n) == 0,
    decreases n,
{
    if n > 0 {
        lemma_count_free_full(s, n - 1);
    }
}

/// Marking one free entry allocated lowers the count by one.
pub proof fn lemma_count_free_update(s: Seq<bool>, j: int, n: int)
    requires
        0 <= j < n <= s.len(),
        !s[j],
    ensures
        count_free(s.update(j, true), n) == count_free(s, n) - 1,
    decreases n,
{
    if n > 0 {
        if j == n - 1 {
            lemma_count_free_same(s, s.update(j, true), n - 1);
        } else {
            lemma_count_free_update(s, j, n - 1);
        }
    }
}

/// Sequences equal on a prefix count it the same.
pub proof fn lemma_count_free_same(s: Seq<bool>, t: Seq<bool>, n: int)
    requires
        forall|j: int| 0 <= j < n ==> s[j] == t[j],
    ensures
        count_free(s, n) == count_free(t, n),
    decreases n,
{
    if n > 0 {
        lemma_count_free_same(s, t, n - 1);
    }
}

/// The count is never negative.
pub proof fn lemma_count_free_nonneg(s: Seq<bool>, n: int)
    ensures
        count_free(s, n) >= 0,
    decreases n,
{
    if n > 0 {
        lemma_count_free_nonneg(s, n - 1);
    }
}

} // verus!
