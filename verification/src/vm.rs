//! Kernel virtual-memory subsystem: error taxonomy, owning extents of
//! physical pages, and construction of the kernel's own address space.

use vstd::prelude::*;

use crate::{PAGE_SIZE, page_aligned};
use crate::palloc::PagePool;
use crate::hal::{PageMapFlags, HALVMError, pte_of_flags, pgtbl_insert_range, pgtbl_new_empty};
use crate::layout::MachineLayout;
use crate::ptable::{
    PageTable, pool_grown, table_fresh, owned_set, lemma_grown_trans, lemma_grown_from_scratch,
    first_vpn, page_count, align_down, with_valid, map_in_bounds, VA_TOP, VPN_TOP,
};

verus! {

/// Error cases of the kernel VM system.
#[derive(Clone, Copy, Debug, PartialEq, Eq, Structural)]
pub enum VmError {
    /// No free page (or no contiguous free run of the requested length).
    OutOfPages,
    /// A multi-page request could only be partially satisfied.
    PartialPalloc,
    /// A page-table operation failed for want of pages.
    PallocFail,
    /// A page was returned that the pool does not consider allocated.
    PfreeFail,
    /// The general-purpose allocator is out of space.
    GNoSpace,
    /// The kernel itself is out of memory.
    Koom,
}


// ---------------------------------------------------------------------
// Physical page extents

/// An owning handle over `num` contiguous physical pages starting at `head`:
/// the one sanctioned channel through which physical memory leaves the VM
/// subsystem. While the extent is live its pages are allocated in the pool;
/// releasing it returns exactly those pages, exactly once.
#[derive(Debug)]
pub struct PhysPageExtent {
    pub head: u64,
    pub num: u64,
}

impl PhysPageExtent {
    /// Shape validity: an aligned, nonempty run that fits the address space.
    pub open spec fn wf(self) -> bool {
        &&& page_aligned(self.head)
        &&& self.num >= 1
        &&& self.head + self.num * PAGE_SIZE <= u64::MAX
    }

    /// The page `a` belongs to this extent.
    pub open spec fn owns(self, a: u64) -> bool {
        &&& page_aligned(a)
        &&& self.head <= a < self.head + self.num * PAGE_SIZE
    }

    /// Every page of this extent is allocated in `pool`.
    pub open spec fn owned_by(self, pool: PagePool) -> bool {
        forall|a: u64| #[trigger] self.owns(a) ==> pool.is_allocated(a)
    }

    /// The set of pages this extent owns.
    pub open spec fn page_set(self) -> Set<u64> {
        Set::new(|a: u64| self.owns(a))
    }

    pub fn new(head: u64, num: u64) -> (r: Self)
        ensures
            r.head == head,
            r.num == num,
    {
        Self { head, num }
    }

    /// The address of the extent's first page.
    pub fn start(&self) -> (r: u64)
        ensures
            r == self.head,
    {
        self.head
    }

    /// One past the extent's last address.
    pub fn end(&self) -> (r: u64)
        requires
            self.wf(),
        ensures
            r == self.head + self.num * PAGE_SIZE,
    {
        self.head + self.num * PAGE_SIZE
    }

    /// Return the extent's pages to the pool. The extent must still own its
    /// pages; giving up pages twice is an ownership violation this contract
    /// excludes.
    pub fn release(self, pool: &mut PagePool)
        requires
            old(pool).wf(),
            self.wf(),
            self.num <= usize::MAX,
            self.owned_by(*old(pool)),
            old(pool).in_range(self.head),
        ensures
            final(pool).wf(),
            final(pool).base_spec() == old(pool).base_spec(),
            final(pool)@.len() == old(pool)@.len(),
            forall|j: int| 0 <= j < final(pool)@.len() ==>
                #[trigger] final(pool)@[j]
                    == (old(pool)@[j] && !self.owns(final(pool).addr_of(j) as u64)),
    {
        proof {
            let p0 = *old(pool);
            p0.lemma_index_addr(self.head);
            let i0 = p0.index_of(self.head);
            // the whole run lies inside the pool
            let last = (self.head + (self.num - 1) * PAGE_SIZE) as u64;
            assert(page_aligned(last) && self.head <= last
                && last < self.head + self.num * PAGE_SIZE) by (nonlinear_arith)
                requires
                    page_aligned(self.head),
                    self.num >= 1,
                    self.head + self.num * PAGE_SIZE <= u64::MAX,
                    last == self.head + (self.num - 1) * PAGE_SIZE,
                    PAGE_SIZE == 4096,
            {}
            assert(self.owns(last));
            assert(p0.is_allocated(last));
            p0.lemma_index_addr(last);
            assert(p0.index_of(last) == i0 + self.num - 1) by (nonlinear_arith)
                requires
                    p0.addr_of(i0) == self.head,
                    p0.addr_of(p0.index_of(last)) == last,
                    last == self.head + (self.num - 1) * PAGE_SIZE,
                    p0.index_of(last) == (last - p0.base_spec()) / (PAGE_SIZE as int),
                    i0 == (self.head - p0.base_spec()) / (PAGE_SIZE as int),
                    self.head >= p0.base_spec(),
                    last >= p0.base_spec(),
                    page_aligned(p0.base_spec()),
                    page_aligned(self.head),
                    page_aligned(last),
            {}
            assert forall|j: int| i0 <= j < i0 + self.num implies p0@[j] by {
                p0.lemma_addr_index(j);
                let a = p0.addr_of(j) as u64;
                assert(self.head <= a < self.head + self.num * PAGE_SIZE) by (nonlinear_arith)
                    requires
                        a == p0.base_spec() + j * PAGE_SIZE,
                        self.head == p0.base_spec() + i0 * PAGE_SIZE,
                        i0 <= j < i0 + self.num,
                {}
                assert(self.owns(a));
                assert(p0.is_allocated(a));
            }
            assert(extent_run_in_pool(self, p0, i0));
        }
        let res = pool.pfree_plural(self.head, self.num as usize);
        proof {
            let p0 = *old(pool);
            let i0 = p0.index_of(self.head);
            assert(res is Ok);
            assert forall|j: int| 0 <= j < pool@.len() implies
                #[trigger] pool@[j]
                    == (p0@[j] && !self.owns(pool.addr_of(j) as u64)) by {
                p0.lemma_addr_index(j);
                let a = pool.addr_of(j) as u64;
                if i0 <= j < i0 + self.num {
                    assert(self.head <= a < self.head + self.num * PAGE_SIZE)
                        by (nonlinear_arith)
                        requires
                            a == p0.base_spec() + j * PAGE_SIZE,
                            self.head == p0.base_spec() + i0 * PAGE_SIZE,
                            i0 <= j < i0 + self.num,
                    {}
                    assert(self.owns(a));
                } else {
                    if self.owns(a) {
                        assert(i0 <= j < i0 + self.num) by (nonlinear_arith)
                            requires
                                a == p0.base_spec() + j * PAGE_SIZE,
                                self.head == p0.base_spec() + i0 * PAGE_SIZE,
                                self.head <= a < self.head + self.num * PAGE_SIZE,
                        {}
                        assert(false);
                    }
                }
            }
        }
        match res {
            Ok(()) => {},
            Err(_) => {
                proof {
                    assert(false);
                }
            },
        }
    }
}

/// The extent's run occupies bitmap indices `[i0, i0 + num)` of the pool.
pub open spec fn extent_run_in_pool(e: PhysPageExtent, p: PagePool, i0: int) -> bool {
    &&& i0 == p.index_of(e.head)
    &&& i0 + e.num <= p.npages()
}

/// Request `num` contiguous physical pages as an owning extent. This is the
/// one way physical pages leave the VM subsystem. Succeeds exactly when a
/// contiguous free run of that length exists; the new extent's pages were
/// free and are now allocated, and nothing else changes.
pub fn request_phys_page(pool: &mut PagePool, num: usize) -> (r: Result<PhysPageExtent, VmError>)
    requires
        old(pool).wf(),
        num >= 1,
    ensures
        final(pool).wf(),
        final(pool).base_spec() == old(pool).base_spec(),
        final(pool)@.len() == old(pool)@.len(),
        match r {
            Ok(e) => {
                &&& e.wf()
                &&& e.num == num
                &&& e.owned_by(*final(pool))
                &&& old(pool).in_range(e.head)
                &&& pool_grown(*old(pool), *final(pool), e.page_set())
            },
            Err(err) => {
                &&& err == VmError::OutOfPages
                &&& final(pool)@ == old(pool)@
                &&& forall|i: int| 0 <= i && i + num <= old(pool).npages() ==>
                    !old(pool).run_free(i, num as int)
            },
        },
{
    let addr = match pool.palloc_plural(num) {
        Ok(a) => a,
        Err(_) => {
            return Err(VmError::OutOfPages);
        },
    };
    let e = PhysPageExtent { head: addr, num: num as u64 };
    proof {
        let p0 = *old(pool);
        let i0 = p0.index_of(addr);
        p0.lemma_index_addr(addr);
        assert(e.wf()) by (nonlinear_arith)
            requires
                page_aligned(addr),
                e.head == addr,
                e.num == num,
                num >= 1,
                i0 == p0.index_of(addr),
                p0.addr_of(i0) == addr,
                i0 + num <= p0.npages(),
                p0.base_spec() + p0.npages() * PAGE_SIZE <= u64::MAX,
                addr == p0.base_spec() + i0 * PAGE_SIZE,
        {}
        assert forall|j: int| 0 <= j < pool@.len() implies
            #[trigger] pool@[j] == (p0@[j]
                || e.page_set().contains(pool.addr_of(j) as u64)) by {
            p0.lemma_addr_index(j);
            let a = pool.addr_of(j) as u64;
            if i0 <= j < i0 + num {
                assert(e.head <= a < e.head + e.num * PAGE_SIZE) by (nonlinear_arith)
                    requires
                        a == p0.base_spec() + j * PAGE_SIZE,
                        e.head == p0.base_spec() + i0 * PAGE_SIZE,
                        i0 <= j < i0 + e.num,
                        num == e.num,
                {}
                assert(e.owns(a));
            } else {
                if e.owns(a) {
                    assert(i0 <= j < i0 + num) by (nonlinear_arith)
                        requires
                            a == p0.base_spec() + j * PAGE_SIZE,
                            e.head == p0.base_spec() + i0 * PAGE_SIZE,
                            e.head <= a < e.head + e.num * PAGE_SIZE,
                            num == e.num,
                    {}
                    assert(false);
                }
            }
        }
        assert forall|a: u64| #[trigger] e.page_set().contains(a) implies
            pool.in_range(a) && !p0.is_allocated(a) by {
            assert(e.owns(a));
            p0.lemma_index_addr_extent(e, a, i0);
        }
        assert forall|a: u64| #[trigger] e.owns(a) implies pool.is_allocated(a) by {
            assert(e.page_set().contains(a));
            assert(pool.in_range(a));
            let j = pool.index_of(a);
            pool.lemma_index_addr(a);
            assert(pool@[j] == (old(pool)@[j] || e.page_set().contains(pool.addr_of(j) as u64)));
        }
    }
    Ok(e)
}

impl PagePool {
    /// An owned page of an in-pool extent run lies at an in-run bitmap index,
    /// inside the pool, on a page that was free when the run was handed out.
    proof fn lemma_index_addr_extent(self, e: PhysPageExtent, a: u64, i0: int)
        requires
            self.wf(),
            e.wf(),
            e.owns(a),
            i0 == self.index_of(e.head),
            self.in_range(e.head),
            i0 + e.num <= self.npages(),
            self.run_free(i0, e.num as int),
        ensures
            self.in_range(a),
            i0 <= self.index_of(a) < i0 + e.num,
            !self.is_allocated(a),
    {
        self.lemma_index_addr(e.head);
        assert(a < self.base_spec() + self.npages() * PAGE_SIZE && a >= self.base_spec())
            by (nonlinear_arith)
            requires
                e.head == self.base_spec() + i0 * PAGE_SIZE,
                e.head <= a < e.head + e.num * PAGE_SIZE,
                i0 + e.num <= self.npages(),
                i0 >= 0,
        {}
        assert(self.in_range(a));
        self.lemma_index_addr(a);
        assert(i0 <= self.index_of(a) < i0 + e.num) by (nonlinear_arith)
            requires
                self.addr_of(self.index_of(a)) == a,
                self.addr_of(i0) == e.head,
                e.head <= a < e.head + e.num * PAGE_SIZE,
                self.addr_of(self.index_of(a)) == self.base_spec() + self.index_of(a) * PAGE_SIZE,
                self.addr_of(i0) == self.base_spec() + i0 * PAGE_SIZE,
        {}
    }
}

/// Exercise extent allocation and release: two live extents never share a
/// page, and releasing them in either order returns the pool, on every
/// path, to exactly the occupancy it started with.
pub fn test_phys_page(pool: &mut PagePool) -> (ok: bool)
    requires
        old(pool).wf(),
    ensures
        final(pool).wf(),
        final(pool)@ == old(pool)@,
{
    let a = match request_phys_page(pool, 1) {
        Ok(e) => e,
        Err(_) => {
            return false;
        },
    };
    let ghost pool1 = *pool;
    let b = match request_phys_page(pool, 2) {
        Ok(e) => e,
        Err(_) => {
            a.release(pool);
            proof {
                lemma_extent_round_trip(*old(pool), pool1, *pool, a);
                assert(pool@ =~= old(pool)@);
            }
            return false;
        },
    };
    let ghost pool2 = *pool;
    proof {
        assert forall|x: u64| #[trigger] a.owns(x) implies pool.is_allocated(x) by {
            assert(pool1.is_allocated(x));
            pool1.lemma_index_addr(x);
            let j = pool1.index_of(x);
            assert(pool2@[j] == (pool1@[j] || b.page_set().contains(pool2.addr_of(j) as u64)));
        }
    }
    a.release(pool);
    let ghost pool3 = *pool;
    proof {
        assert forall|x: u64| #[trigger] b.owns(x) implies pool.is_allocated(x) by {
            assert(b.page_set().contains(x));
            assert(pool2.is_allocated(x));
            pool2.lemma_index_addr(x);
            let j = pool2.index_of(x);
            assert(pool@[j] == (pool2@[j] && !a.owns(pool.addr_of(j) as u64)));
            if a.owns(x) {
                assert(pool1.is_allocated(x));
                assert(!pool1.is_allocated(x));
            }
            assert(pool@[j]);
        }
    }
    b.release(pool);
    let ghost pool4 = *pool;
    proof {
        // both extents gone: the pool is exactly as it began
        assert forall|j: int| 0 <= j < pool4@.len() implies pool4@[j] == old(pool)@[j] by {
            let x = pool4.addr_of(j) as u64;
            assert(pool4@[j] == (pool3@[j] && !b.owns(x)));
            assert(pool3@[j] == (pool2@[j] && !a.owns(x)));
            assert(pool2@[j] == (pool1@[j] || b.page_set().contains(pool2.addr_of(j) as u64)));
            assert(pool1@[j] == (old(pool)@[j]
                || a.page_set().contains(pool1.addr_of(j) as u64)));
            if old(pool)@[j] {
                old(pool).lemma_addr_index(j);
                if a.owns(x) {
                    assert(a.page_set().contains(x));
                    assert(!old(pool).is_allocated(x));
                    assert(false);
                }
                if b.owns(x) {
                    assert(b.page_set().contains(x));
                    assert(!pool1.is_allocated(x));
                    assert(pool1@[j]);
                    assert(false);
                }
            }
        }
        assert(pool4@ =~= old(pool)@);
    }
    let c = match request_phys_page(pool, 1) {
        Ok(e) => e,
        Err(_) => {
            return false;
        },
    };
    let ghost pool5 = *pool;
    c.release(pool);
    proof {
        lemma_extent_round_trip(pool4, pool5, *pool, c);
        assert(pool@ =~= old(pool)@);
    }
    true
}

// ---------------------------------------------------------------------
// Kernel address space

/// Every page of `[start, end)` translates, under `pt`, to itself with the
/// entry bits `pte` (an identity mapping).
pub open spec fn region_mapped(pt: PageTable, start: int, end: int, pte: u64) -> bool {
    forall|v: int| start as int / (PAGE_SIZE as int) <= v < end as int / (PAGE_SIZE as int) ==>
        #[trigger] pt.lookup(v as nat) == Some(((v * PAGE_SIZE) as u64, pte))
}

/// Identity-map the aligned region `[start, end)` into `pt` with `flags`.
/// Whatever was already mapped elsewhere stays untouched; on failure the
/// translations are exactly as before (though the tree may hold more,
/// still-invalid, levels).
pub fn kmap_region(
    pt: &mut PageTable, pool: &mut PagePool, start: u64, end: u64, flags: PageMapFlags,
) -> (r: Result<(), VmError>)
    requires
        old(pt).wf(),
        old(pool).wf(),
        old(pt).owned_by(*old(pool)),
        page_aligned(start),
        page_aligned(end),
        start < end,
        end <= VA_TOP,
    ensures
        final(pt).wf(),
        final(pool).wf(),
        final(pt).owned_by(*final(pool)),
        final(pt).base == old(pt).base,
        forall|a: u64| old(pt).owns(a) ==> final(pt).owns(a),
        pool_grown(*old(pool), *final(pool), table_fresh(*old(pt), *final(pt))),
        match r {
            Ok(()) => {
                &&& region_mapped(*final(pt), start as int, end as int,
                    with_valid(pte_of_flags(flags)))
                &&& forall|v: int| start as int / (PAGE_SIZE as int) <= v < end as int / (PAGE_SIZE as int)
                    ==> !(#[trigger] old(pt).mapped(v as nat))
                &&& forall|v: nat| v < VPN_TOP
                    && !((start as int / (PAGE_SIZE as int)) <= v < (end as int / (PAGE_SIZE as int)))
                    ==> #[trigger] final(pt).lookup(v) == old(pt).lookup(v)
            },
            Err(e) => {
                &&& e == VmError::PallocFail
                &&& forall|v: nat| v < VPN_TOP ==>
                    #[trigger] final(pt).lookup(v) == old(pt).lookup(v)
                &&& (forall|j: int| 0 <= j < final(pool)@.len() ==> final(pool)@[j])
                    || (exists|v: int| start as int / (PAGE_SIZE as int) <= v
                        < end as int / (PAGE_SIZE as int)
                        && #[trigger] old(pt).mapped(v as nat))
            },
        },
        ((forall|v: int| start as int / (PAGE_SIZE as int) <= v
            < end as int / (PAGE_SIZE as int)
            ==> !(#[trigger] old(pt).mapped(v as nat)))
            && (forall|v: int| start as int / (PAGE_SIZE as int) <= v
                < end as int / (PAGE_SIZE as int)
                ==> #[trigger] old(pt).path_present(v as nat)))
            ==> r is Ok,
        ((forall|v: int| start as int / (PAGE_SIZE as int) <= v
            < end as int / (PAGE_SIZE as int)
            ==> !(#[trigger] old(pt).mapped(v as nat)))
            && crate::palloc::count_free(old(pool)@, old(pool)@.len() as int)
                >= 2 * (end as int / (PAGE_SIZE as int) - start as int / (PAGE_SIZE as int)))
            ==> r is Ok,
        crate::palloc::count_free(final(pool)@, final(pool)@.len() as int)
            >= crate::palloc::count_free(old(pool)@, old(pool)@.len() as int)
                - 2 * (end as int / (PAGE_SIZE as int) - start as int / (PAGE_SIZE as int)),
{
    proof {
        lemma_aligned_region(start, end);
    }
    let res = pgtbl_insert_range(pt, pool, start, start, end - start, flags);
    proof {
        let first = first_vpn(start);
        let cnt = page_count(start, (end - start) as u64);
        assert(cnt == end as int / (PAGE_SIZE as int) - start as int / (PAGE_SIZE as int));
        assert(crate::palloc::count_free(pool@, pool@.len() as int)
            >= crate::palloc::count_free(old(pool)@, old(pool)@.len() as int) - 2 * cnt);
        if (forall|v: int| start as int / (PAGE_SIZE as int) <= v
            < end as int / (PAGE_SIZE as int)
            ==> !(#[trigger] old(pt).mapped(v as nat))) {
            assert forall|k: int| 0 <= k < cnt implies
                !(#[trigger] old(pt).mapped((first + k) as nat)) by {
                assert(!old(pt).mapped(((first + k) as int) as nat));
            }
            if (forall|v: int| start as int / (PAGE_SIZE as int) <= v
                < end as int / (PAGE_SIZE as int)
                ==> #[trigger] old(pt).path_present(v as nat)) {
                assert forall|k: int| 0 <= k < cnt implies
                    #[trigger] old(pt).path_present((first + k) as nat) by {
                    assert(old(pt).path_present(((first + k) as int) as nat));
                }
            }
        }
        if res is Err {
            match res {
                Err(crate::hal::HALVMError::AlreadyMapped) => {
                    let k = choose|k: int| 0 <= k < cnt
                        && #[trigger] old(pt).mapped((first + k) as nat);
                    assert(start as int / (PAGE_SIZE as int) <= first + k
                        < end as int / (PAGE_SIZE as int));
                    assert(old(pt).mapped(((first + k) as int) as nat));
                },
                _ => {},
            }
        }
    }
    match res {
        Ok(()) => {
            proof {
                let pte = with_valid(pte_of_flags(flags));
                let first = first_vpn(start);
                let cnt = page_count(start, (end - start) as u64);
                assert forall|v: int| start as int / (PAGE_SIZE as int) <= v
                    < end as int / (PAGE_SIZE as int) implies
                    #[trigger] pt.lookup(v as nat) == Some(((v * PAGE_SIZE) as u64, pte)) by {
                    let k = v - first;
                    assert(0 <= k < cnt);
                    assert(pt.lookup((first + k) as nat)
                        == Some(((align_down(start) + k * PAGE_SIZE) as u64, pte)));
                    assert(align_down(start) + k * PAGE_SIZE == v * PAGE_SIZE)
                        by (nonlinear_arith)
                        requires
                            page_aligned(start),
                            first == start as int / (PAGE_SIZE as int),
                            align_down(start) == start - (start as int) % (PAGE_SIZE as int),
                            k == v - first,
                    {}
                }
                assert forall|v: int| start as int / (PAGE_SIZE as int) <= v
                    < end as int / (PAGE_SIZE as int) implies
                    !(#[trigger] old(pt).mapped(v as nat)) by {
                    let k = v - first;
                    assert(0 <= k < cnt);
                    assert(!old(pt).mapped((first + k) as nat));
                }
            }
            Ok(())
        },
        Err(_) => {
            proof {
                assert(map_in_bounds(start, start, (end - start) as u64));
            }
            Err(VmError::PallocFail)
        },
    }
}

/// For an aligned nonempty region, the touched pages are exactly
/// `[start / PAGE_SIZE, end / PAGE_SIZE)` and the physical target is in bounds.
pub proof fn lemma_aligned_region(start: u64, end: u64)
    requires
        page_aligned(start),
        page_aligned(end),
        start < end,
        end <= VA_TOP,
    ensures
        first_vpn(start) == start as int / (PAGE_SIZE as int),
        align_down(start) == start,
        page_count(start, (end - start) as u64)
            == end as int / (PAGE_SIZE as int) - start as int / (PAGE_SIZE as int),
        page_count(start, (end - start) as u64) >= 1,
        map_in_bounds(start, start, (end - start) as u64),
{
    let size = (end - start) as u64;
    assert(align_down(start) == start);
    assert((end - 1) as int / (PAGE_SIZE as int) == end as int / (PAGE_SIZE as int) - 1
        && end as int / (PAGE_SIZE as int) - 1 >= start as int / (PAGE_SIZE as int)
        && (end as int / (PAGE_SIZE as int)) * PAGE_SIZE == end)
        by (nonlinear_arith)
        requires
            page_aligned(start),
            page_aligned(end),
            start < end,
    {}
    assert(start + (page_count(start, size)) * PAGE_SIZE <= VA_TOP) by (nonlinear_arith)
        requires
            page_aligned(start),
            page_aligned(end),
            start < end,
            end <= VA_TOP,
            page_count(start, size)
                == end as int / (PAGE_SIZE as int) - start as int / (PAGE_SIZE as int),
            (end as int / (PAGE_SIZE as int)) * PAGE_SIZE == end,
            (start as int / (PAGE_SIZE as int)) * PAGE_SIZE == start,
    {}
}

/// A virtual page mapped by the first three kernel regions: code,
/// read-only data, mutable data.
pub open spec fn head_vpn(l: MachineLayout, v: int) -> bool {
    ||| l.text_start as int / (PAGE_SIZE as int) <= v < l.text_end as int / (PAGE_SIZE as int)
    ||| l.rodata_start as int / (PAGE_SIZE as int) <= v < l.rodata_end as int / (PAGE_SIZE as int)
    ||| l.data_start as int / (PAGE_SIZE as int) <= v < l.data_end as int / (PAGE_SIZE as int)
}

/// A virtual page in the stack of one of the first `n` harts.
pub open spec fn stacks_vpn_upto(l: MachineLayout, n: int, v: int) -> bool {
    exists|t: int| 0 <= t < n
        && #[trigger] l.stack_lo(t) / (PAGE_SIZE as int) <= v
            < l.stack_hi(t) / (PAGE_SIZE as int)
}

/// A virtual page in an interrupt stack of one of the first `n` harts.
pub open spec fn intstacks_vpn_upto(l: MachineLayout, n: int, v: int) -> bool {
    exists|t: int| 0 <= t < n
        && (#[trigger] l.m_intstack(t) / (PAGE_SIZE as int) == v
            || l.s_intstack(t) / (PAGE_SIZE as int) == v)
}

/// A virtual page the kernel address space maps: the kernel's own sections,
/// each hart's stack and interrupt-stack pages, and the identity-mapped heap
/// up to the end of memory. Guard pages are deliberately absent.
pub open spec fn kernel_vpn(l: MachineLayout, v: int) -> bool {
    ||| head_vpn(l, v)
    ||| stacks_vpn_upto(l, l.nhart as int, v)
    ||| intstacks_vpn_upto(l, l.nhart as int, v)
    ||| l.bss_start as int / (PAGE_SIZE as int) <= v < l.memory_end as int / (PAGE_SIZE as int)
}

/// The finished kernel table: code executable, read-only data read-only,
/// mutable data and stacks writable, the heap identity-mapped to the end of
/// memory, and nothing else (in particular no guard page) mapped at all.
pub open spec fn kernel_table_ok(pt: PageTable, l: MachineLayout) -> bool {
    &&& region_mapped(pt, l.text_start as int, l.text_end as int, 11)
    &&& region_mapped(pt, l.rodata_start as int, l.rodata_end as int, 3)
    &&& region_mapped(pt, l.data_start as int, l.data_end as int, 7)
    &&& forall|s: int| 0 <= s < l.nhart ==>
        region_mapped(pt, #[trigger] l.stack_lo(s), l.stack_hi(s), 7)
    &&& forall|i: int| 0 <= i < l.nhart ==>
        region_mapped(pt, #[trigger] l.m_intstack(i), l.m_intstack(i) + PAGE_SIZE, 7)
    &&& forall|i: int| 0 <= i < l.nhart ==>
        region_mapped(pt, #[trigger] l.s_intstack(i), l.s_intstack(i) + PAGE_SIZE, 7)
    &&& region_mapped(pt, l.bss_start as int, l.bss_end as int, 7)
    &&& region_mapped(pt, l.bss_end as int, l.memory_end as int, 7)
    &&& forall|v: nat| v < VPN_TOP && !kernel_vpn(l, v as int) ==> !(#[trigger] pt.mapped(v))
}

/// An already-mapped region is untouched by a later insert, because the
/// later insert proved its own range unmapped before writing.
pub proof fn lemma_region_preserved(
    pt0: PageTable, pt1: PageTable, a: int, b: int, pte: u64, ns: int, ne: int,
)
    requires
        region_mapped(pt0, a, b, pte),
        0 <= a,
        b <= VA_TOP,
        forall|v: int| ns <= v < ne ==> !(#[trigger] pt0.mapped(v as nat)),
        forall|v: nat| v < VPN_TOP && !(ns <= v < ne) ==>
            #[trigger] pt1.lookup(v) == pt0.lookup(v),
    ensures
        region_mapped(pt1, a, b, pte),
{
    assert forall|v: int| a / (PAGE_SIZE as int) <= v < b / (PAGE_SIZE as int) implies
        #[trigger] pt1.lookup(v as nat) == Some(((v * PAGE_SIZE) as u64, pte)) by {
        assert(pt0.lookup(v as nat) == Some(((v * PAGE_SIZE) as u64, pte)));
        assert(v < VPN_TOP) by (nonlinear_arith)
            requires
                v < b / (PAGE_SIZE as int),
                b <= VA_TOP,
                VA_TOP == VPN_TOP * PAGE_SIZE,
        {}
        if ns <= v < ne {
            assert(!pt0.mapped(v as nat));
            assert(false);
        }
    }
}

/// Tear a partially built kernel table down again, leaving the pool exactly
/// as it was before the build started.
fn kmap_abort(pt: PageTable, pool: &mut PagePool, Ghost(pool0): Ghost<PagePool>)
    -> (r: Result<PageTable, VmError>)
    requires
        pt.wf(),
        old(pool).wf(),
        pt.owned_by(*old(pool)),
        pool0.wf(),
        pool_grown(pool0, *old(pool), owned_set(pt)),
    ensures
        final(pool).wf(),
        final(pool).base_spec() == pool0.base_spec(),
        final(pool)@ == pool0@,
        r == Err::<PageTable, VmError>(VmError::PallocFail),
{
    let ghost pool_pre = *pool;
    pt.free(pool);
    proof {
        assert forall|j: int| 0 <= j < pool@.len() implies pool@[j] == pool0@[j] by {
            pool0.lemma_addr_index(j);
            let a = pool.addr_of(j) as u64;
            assert(pool.addr_of(j) == pool_pre.addr_of(j) && pool.addr_of(j) == pool0.addr_of(j));
            assert(pool@[j] == (pool_pre@[j] && !pt.owns(a)));
            assert(pool_pre@[j] == (pool0@[j] || owned_set(pt).contains(a)));
            if pt.owns(a) {
                assert(owned_set(pt).contains(a));
                assert(!pool0.is_allocated(a));
                assert(!pool0@[j]);
            }
        }
        assert(pool@ =~= pool0@);
    }
    Err(VmError::PallocFail)
}

/// Build the kernel's own page table: code, read-only data, mutable data,
/// per-hart stacks and interrupt stacks (each atop an unmapped guard page),
/// the uninitialized-data section, the identity-mapped heap to the end of
/// memory, and any platform-reserved regions. On failure the pool is
/// restored and the caller sees an allocation error.
#[verifier::rlimit(100)]
pub fn kpage_init(pool: &mut PagePool, l: &MachineLayout) -> (r: Result<PageTable, VmError>)
    requires
        old(pool).wf(),
        l.wf(),
    ensures
        final(pool).wf(),
        final(pool).base_spec() == old(pool).base_spec(),
        final(pool)@.len() == old(pool)@.len(),
        match r {
            Ok(pt) => {
                &&& pt.wf()
                &&& pt.owned_by(*final(pool))
                &&& pool_grown(*old(pool), *final(pool), owned_set(pt))
                &&& kernel_table_ok(pt, *l)
            },
            Err(e) => {
                &&& e == VmError::PallocFail
                &&& final(pool)@ == old(pool)@
            },
        },
{
    let ghost pool0 = *old(pool);
    let mut kt = match pgtbl_new_empty(pool) {
        Ok(p) => p,
        Err(_) => {
            return Err(VmError::PallocFail);
        },
    };
    proof {
        assert forall|j: int| 0 <= j < pool@.len() implies
            #[trigger] pool@[j] == (pool0@[j] || owned_set(kt).contains(pool.addr_of(j) as u64)) by {
            pool0.lemma_addr_index(j);
            let a = pool.addr_of(j) as u64;
            if j == pool0.index_of(kt.base) {
                assert(a == kt.base);
                assert(kt.pages@[0] == kt.base);
                assert(kt.owns(kt.base));
            } else {
                assert(a != kt.base);
                if kt.owns(a) {
                    let m = choose|m: int| 0 <= m < kt.pages@.len() && kt.pages@[m] == a;
                    assert(kt.pages@ =~= seq![kt.base]);
                    assert(false);
                }
            }
        }
        assert forall|a: u64| #[trigger] owned_set(kt).contains(a) implies
            pool.in_range(a) && !pool0.is_allocated(a) by {
            assert(kt.owns(a));
            let m = choose|m: int| 0 <= m < kt.pages@.len() && kt.pages@[m] == a;
            assert(kt.pages@ =~= seq![kt.base]);
            assert(a == kt.base);
        }
        assert(pool_grown(pool0, *pool, owned_set(kt)));
    }

    // kernel code: read and execute
    let ghost kt_a = kt;
    let ghost pool_a = *pool;
    match kmap_region(&mut kt, pool, l.text_start, l.text_end,
        PageMapFlags::read().or(PageMapFlags::execute())) {
        Ok(()) => {},
        Err(_) => {
            proof {
                lemma_grown_from_scratch(kt_a, kt, pool0, pool_a, *pool);
            }
            return kmap_abort(kt, pool, Ghost(pool0));
        },
    }
    proof {
        lemma_grown_from_scratch(kt_a, kt, pool0, pool_a, *pool);
        assert(region_mapped(kt, l.text_start as int, l.text_end as int, 11));
        assert forall|v: nat| v < VPN_TOP
            && !(l.text_start as int / (PAGE_SIZE as int) <= v
                < l.text_end as int / (PAGE_SIZE as int)) implies !(#[trigger] kt.mapped(v)) by {
            assert(kt.lookup(v) == kt_a.lookup(v));
            assert(!kt_a.mapped(v));
        }
    }

    // read-only data
    let ghost kt_b = kt;
    let ghost pool_b = *pool;
    match kmap_region(&mut kt, pool, l.rodata_start, l.rodata_end, PageMapFlags::read()) {
        Ok(()) => {},
        Err(_) => {
            proof {
                lemma_grown_from_scratch(kt_b, kt, pool0, pool_b, *pool);
            }
            return kmap_abort(kt, pool, Ghost(pool0));
        },
    }
    proof {
        lemma_grown_from_scratch(kt_b, kt, pool0, pool_b, *pool);
        lemma_region_preserved(kt_b, kt, l.text_start as int, l.text_end as int, 11,
            l.rodata_start as int / (PAGE_SIZE as int), l.rodata_end as int / (PAGE_SIZE as int));
        assert forall|v: nat| v < VPN_TOP && !head_vpn(*l, v as int)
            implies !(#[trigger] kt.mapped(v)) by {
            assert(kt.lookup(v) == kt_b.lookup(v));
            assert(!kt_b.mapped(v));
        }
    }

    // mutable data
    let ghost kt_c = kt;
    let ghost pool_c = *pool;
    match kmap_region(&mut kt, pool, l.data_start, l.data_end,
        PageMapFlags::read().or(PageMapFlags::write())) {
        Ok(()) => {},
        Err(_) => {
            proof {
                lemma_grown_from_scratch(kt_c, kt, pool0, pool_c, *pool);
            }
            return kmap_abort(kt, pool, Ghost(pool0));
        },
    }
    proof {
        lemma_grown_from_scratch(kt_c, kt, pool0, pool_c, *pool);
        lemma_region_preserved(kt_c, kt, l.text_start as int, l.text_end as int, 11,
            l.data_start as int / (PAGE_SIZE as int), l.data_end as int / (PAGE_SIZE as int));
        lemma_region_preserved(kt_c, kt, l.rodata_start as int, l.rodata_end as int, 3,
            l.data_start as int / (PAGE_SIZE as int), l.data_end as int / (PAGE_SIZE as int));
        assert forall|v: nat| v < VPN_TOP && !head_vpn(*l, v as int)
            implies !(#[trigger] kt.mapped(v)) by {
            assert(kt.lookup(v) == kt_c.lookup(v));
            assert(!kt_c.mapped(v));
        }
    }

    // each hart's stack, leaving the region's first page as a guard
    let nhart = l.nhart;
    let kpages = l.stack_pages;
    let mut s: u64 = 0;
    while s < nhart
        invariant
            l.wf(),
            pool0 == *old(pool),
            pool0.wf(),
            nhart == l.nhart,
            kpages == l.stack_pages,
            kt.wf(),
            pool.wf(),
            kt.owned_by(*pool),
            pool.base_spec() == pool0.base_spec(),
            pool@.len() == pool0@.len(),
            pool_grown(pool0, *pool, owned_set(kt)),
            s <= nhart,
            region_mapped(kt, l.text_start as int, l.text_end as int, 11),
            region_mapped(kt, l.rodata_start as int, l.rodata_end as int, 3),
            region_mapped(kt, l.data_start as int, l.data_end as int, 7),
            forall|t: int| 0 <= t < s ==>
                region_mapped(kt, #[trigger] l.stack_lo(t), l.stack_hi(t), 7),
            forall|v: nat| v < VPN_TOP && !head_vpn(*l, v as int)
                && !stacks_vpn_upto(*l, s as int, v as int) ==> !(#[trigger] kt.mapped(v)),
        decreases nhart - s,
    {
        proof {
            lemma_stack_bounds(*l, s as int);
        }
        let lo = l.stacks_start + PAGE_SIZE * (1 + s * kpages);
        let hi = l.stacks_start + PAGE_SIZE * ((s + 1) * kpages);
        proof {
            assert(lo == l.stack_lo(s as int) && hi == l.stack_hi(s as int)) by (nonlinear_arith)
                requires
                    lo == l.stacks_start + PAGE_SIZE * (1 + s * kpages),
                    hi == l.stacks_start + PAGE_SIZE * ((s + 1) * kpages),
                    l.stack_lo(s as int) == l.stacks_start + (1 + s * kpages) * PAGE_SIZE,
                    l.stack_hi(s as int) == l.stacks_start + (s + 1) * kpages * PAGE_SIZE,
                    l.stack_lo(s as int) <= l.stack_hi(s as int) <= l.stacks_end <= u64::MAX,
            {}
        }
        let ghost kt_s = kt;
        let ghost pool_s = *pool;
        match kmap_region(&mut kt, pool, lo, hi,
            PageMapFlags::read().or(PageMapFlags::write())) {
            Ok(()) => {},
            Err(_) => {
                proof {
                    lemma_grown_from_scratch(kt_s, kt, pool0, pool_s, *pool);
                }
                return kmap_abort(kt, pool, Ghost(pool0));
            },
        }
        proof {
            lemma_grown_from_scratch(kt_s, kt, pool0, pool_s, *pool);
            let ns = lo as int / (PAGE_SIZE as int);
            let ne = hi as int / (PAGE_SIZE as int);
            lemma_region_preserved(kt_s, kt, l.text_start as int, l.text_end as int, 11, ns, ne);
            lemma_region_preserved(kt_s, kt, l.rodata_start as int, l.rodata_end as int, 3, ns, ne);
            lemma_region_preserved(kt_s, kt, l.data_start as int, l.data_end as int, 7, ns, ne);
            assert forall|t: int| 0 <= t < s + 1 implies
                region_mapped(kt, #[trigger] l.stack_lo(t), l.stack_hi(t), 7) by {
                if t < s {
                    lemma_stack_bounds(*l, t);
                    lemma_region_preserved(kt_s, kt, l.stack_lo(t), l.stack_hi(t), 7, ns, ne);
                } else {
                    assert(region_mapped(kt, lo as int, hi as int, 7));
                }
            }
            assert forall|v: nat| v < VPN_TOP && !head_vpn(*l, v as int)
                && !stacks_vpn_upto(*l, s + 1, v as int)
                implies !(#[trigger] kt.mapped(v)) by {
                if ns <= v < ne {
                    assert(l.stack_lo(s as int) / (PAGE_SIZE as int) <= v
                        < l.stack_hi(s as int) / (PAGE_SIZE as int));
                    assert(stacks_vpn_upto(*l, s + 1, v as int));
                } else {
                    assert(kt.lookup(v) == kt_s.lookup(v));
                    if stacks_vpn_upto(*l, s as int, v as int) {
                        let t = choose|t: int| 0 <= t < s
                            && #[trigger] l.stack_lo(t) / (PAGE_SIZE as int) <= v
                                < l.stack_hi(t) / (PAGE_SIZE as int);
                        assert(stacks_vpn_upto(*l, s + 1, v as int));
                        assert(false);
                    }
                    assert(!kt_s.mapped(v));
                }
            }
        }
        s = s + 1;
    }

    // each hart's two interrupt-stack pages, a guard below each
    let mut i: u64 = 0;
    while i < nhart
        invariant
            l.wf(),
            pool0 == *old(pool),
            pool0.wf(),
            nhart == l.nhart,
            kt.wf(),
            pool.wf(),
            kt.owned_by(*pool),
            pool.base_spec() == pool0.base_spec(),
            pool@.len() == pool0@.len(),
            pool_grown(pool0, *pool, owned_set(kt)),
            i <= nhart,
            region_mapped(kt, l.text_start as int, l.text_end as int, 11),
            region_mapped(kt, l.rodata_start as int, l.rodata_end as int, 3),
            region_mapped(kt, l.data_start as int, l.data_end as int, 7),
            forall|t: int| 0 <= t < nhart ==>
                region_mapped(kt, #[trigger] l.stack_lo(t), l.stack_hi(t), 7),
            forall|t: int| 0 <= t < i ==>
                region_mapped(kt, #[trigger] l.m_intstack(t), l.m_intstack(t) + PAGE_SIZE, 7),
            forall|t: int| 0 <= t < i ==>
                region_mapped(kt, #[trigger] l.s_intstack(t), l.s_intstack(t) + PAGE_SIZE, 7),
            forall|v: nat| v < VPN_TOP && !head_vpn(*l, v as int)
                && !stacks_vpn_upto(*l, nhart as int, v as int)
                && !intstacks_vpn_step(*l, i as int, false, v as int)
                ==> !(#[trigger] kt.mapped(v)),
        decreases nhart - i,
    {
        proof {
            lemma_intstack_bounds(*l, i as int);
            assert(l.intstacks_start + PAGE_SIZE * (1 + i * 4) == l.m_intstack(i as int)
                && l.m_intstack(i as int) + PAGE_SIZE * 2 == l.s_intstack(i as int))
                by (nonlinear_arith)
                requires
                    l.m_intstack(i as int) == l.intstacks_start + (1 + i * 4) * PAGE_SIZE,
                    l.s_intstack(i as int) == l.intstacks_start + (3 + i * 4) * PAGE_SIZE,
                    l.s_intstack(i as int) + PAGE_SIZE <= l.intstacks_end <= u64::MAX,
            {}
        }
        let m_lo = l.intstacks_start + PAGE_SIZE * (1 + i * 4);
        let ghost kt_m = kt;
        let ghost pool_m = *pool;
        match kmap_region(&mut kt, pool, m_lo, m_lo + PAGE_SIZE,
            PageMapFlags::read().or(PageMapFlags::write())) {
            Ok(()) => {},
            Err(_) => {
                proof {
                    lemma_grown_from_scratch(kt_m, kt, pool0, pool_m, *pool);
                }
                return kmap_abort(kt, pool, Ghost(pool0));
            },
        }
        let s_lo = m_lo + PAGE_SIZE * 2;
        let ghost kt_n = kt;
        let ghost pool_n = *pool;
        proof {
            lemma_grown_from_scratch(kt_m, kt, pool0, pool_m, *pool);
            intstack_step_facts(*l, kt_m, kt, i as int, m_lo, true);
        }
        match kmap_region(&mut kt, pool, s_lo, s_lo + PAGE_SIZE,
            PageMapFlags::read().or(PageMapFlags::write())) {
            Ok(()) => {},
            Err(_) => {
                proof {
                    lemma_grown_from_scratch(kt_n, kt, pool0, pool_n, *pool);
                }
                return kmap_abort(kt, pool, Ghost(pool0));
            },
        }
        proof {
            lemma_grown_from_scratch(kt_n, kt, pool0, pool_n, *pool);
            intstack_step_facts(*l, kt_n, kt, i as int, s_lo, false);
        }
        i = i + 1;
    }

    // the uninitialized-data section
    let ghost kt_d = kt;
    let ghost pool_d = *pool;
    match kmap_region(&mut kt, pool, l.bss_start, l.bss_end,
        PageMapFlags::read().or(PageMapFlags::write())) {
        Ok(()) => {},
        Err(_) => {
            proof {
                lemma_grown_from_scratch(kt_d, kt, pool0, pool_d, *pool);
            }
            return kmap_abort(kt, pool, Ghost(pool0));
        },
    }
    proof {
        lemma_grown_from_scratch(kt_d, kt, pool0, pool_d, *pool);
        tail_step_facts(*l, kt_d, kt, l.bss_start as int, l.bss_end as int);
    }

    // the rest of physical memory, identity-mapped, as kernel heap
    let ghost kt_e = kt;
    let ghost pool_e = *pool;
    match kmap_region(&mut kt, pool, l.bss_end, l.memory_end,
        PageMapFlags::read().or(PageMapFlags::write())) {
        Ok(()) => {},
        Err(_) => {
            proof {
                lemma_grown_from_scratch(kt_e, kt, pool0, pool_e, *pool);
            }
            return kmap_abort(kt, pool, Ghost(pool0));
        },
    }
    proof {
        lemma_grown_from_scratch(kt_e, kt, pool0, pool_e, *pool);
        tail_step_facts(*l, kt_e, kt, l.bss_end as int, l.memory_end as int);
        assert(region_mapped(kt, l.bss_start as int, l.bss_end as int, 7));
        assert(region_mapped(kt, l.bss_end as int, l.memory_end as int, 7));
    }

    // hardware-specific reserved regions (none on this platform)
    let reserved = crate::hal::kernel_reserved_areas();
    let mut ridx: usize = 0;
    while ridx < reserved.len()
        invariant
            reserved@.len() == 0,
            ridx == 0,
        decreases reserved@.len() - ridx,
    {
        proof {
            assert(false);
        }
    }

    proof {
        assert forall|v: nat| v < VPN_TOP && !kernel_vpn(*l, v as int)
            implies !(#[trigger] kt.mapped(v)) by {
            assert(!head_vpn(*l, v as int));
            assert(!stacks_vpn_upto(*l, l.nhart as int, v as int));
            assert(!intstacks_vpn_upto(*l, l.nhart as int, v as int));
        }
    }
    Ok(kt)
}

/// After one interrupt-stack page insert, every previously mapped kernel
/// region is preserved and the not-mapped tracking extends.
proof fn intstack_step_facts(
    l: MachineLayout, pt0: PageTable, pt1: PageTable, i: int, lo: u64, is_m: bool,
)
    requires
        l.wf(),
        0 <= i < l.nhart,
        lo == if is_m { l.m_intstack(i) } else { l.s_intstack(i) },
        region_mapped(pt1, lo as int, lo as int + PAGE_SIZE, 7),
        forall|v: int| lo as int / (PAGE_SIZE as int) <= v
            < (lo as int + PAGE_SIZE) / (PAGE_SIZE as int)
            ==> !(#[trigger] pt0.mapped(v as nat)),
        forall|v: nat| v < VPN_TOP
            && !((lo as int / (PAGE_SIZE as int)) <= v
                < ((lo as int + PAGE_SIZE) / (PAGE_SIZE as int)))
            ==> #[trigger] pt1.lookup(v) == pt0.lookup(v),
        region_mapped(pt0, l.text_start as int, l.text_end as int, 11),
        region_mapped(pt0, l.rodata_start as int, l.rodata_end as int, 3),
        region_mapped(pt0, l.data_start as int, l.data_end as int, 7),
        forall|t: int| 0 <= t < l.nhart ==>
            region_mapped(pt0, #[trigger] l.stack_lo(t), l.stack_hi(t), 7),
        forall|t: int| 0 <= t < i + if is_m { 0int } else { 1int } ==>
            region_mapped(pt0, #[trigger] l.m_intstack(t), l.m_intstack(t) + PAGE_SIZE, 7),
        forall|t: int| 0 <= t < i ==>
            region_mapped(pt0, #[trigger] l.s_intstack(t), l.s_intstack(t) + PAGE_SIZE, 7),
        forall|v: nat| v < VPN_TOP && !head_vpn(l, v as int)
            && !stacks_vpn_upto(l, l.nhart as int, v as int)
            && !intstacks_vpn_step(l, i, !is_m, v as int)
            ==> !(#[trigger] pt0.mapped(v)),
    ensures
        region_mapped(pt1, l.text_start as int, l.text_end as int, 11),
        region_mapped(pt1, l.rodata_start as int, l.rodata_end as int, 3),
        region_mapped(pt1, l.data_start as int, l.data_end as int, 7),
        forall|t: int| 0 <= t < l.nhart ==>
            region_mapped(pt1, #[trigger] l.stack_lo(t), l.stack_hi(t), 7),
        forall|t: int| 0 <= t < i + if is_m { 1int } else { 1int } ==>
            region_mapped(pt1, #[trigger] l.m_intstack(t), l.m_intstack(t) + PAGE_SIZE, 7),
        forall|t: int| 0 <= t < i + if is_m { 0int } else { 1int } ==>
            region_mapped(pt1, #[trigger] l.s_intstack(t), l.s_intstack(t) + PAGE_SIZE, 7),
        forall|v: nat| v < VPN_TOP && !head_vpn(l, v as int)
            && !stacks_vpn_upto(l, l.nhart as int, v as int)
            && !(if is_m { intstacks_vpn_step(l, i, true, v as int) }
                else { intstacks_vpn_upto(l, i + 1, v as int) })
            ==> !(#[trigger] pt1.mapped(v)),
{
    lemma_intstack_bounds(l, i);
    let ns = lo as int / (PAGE_SIZE as int);
    let ne = ns + 1;
    assert((lo as int + PAGE_SIZE) / (PAGE_SIZE as int) == ne) by (nonlinear_arith)
        requires
            page_aligned(lo),
            ne == lo as int / (PAGE_SIZE as int) + 1,
            PAGE_SIZE == 4096,
    {}
    lemma_region_preserved(pt0, pt1, l.text_start as int, l.text_end as int, 11, ns, ne);
    lemma_region_preserved(pt0, pt1, l.rodata_start as int, l.rodata_end as int, 3, ns, ne);
    lemma_region_preserved(pt0, pt1, l.data_start as int, l.data_end as int, 7, ns, ne);
    assert forall|t: int| 0 <= t < l.nhart implies
        region_mapped(pt1, #[trigger] l.stack_lo(t), l.stack_hi(t), 7) by {
        lemma_stack_bounds(l, t);
        lemma_region_preserved(pt0, pt1, l.stack_lo(t), l.stack_hi(t), 7, ns, ne);
    }
    assert forall|t: int| 0 <= t < i + 1 implies
        region_mapped(pt1, #[trigger] l.m_intstack(t), l.m_intstack(t) + PAGE_SIZE, 7) by {
        if is_m && t == i {
            assert(region_mapped(pt1, lo as int, lo as int + PAGE_SIZE, 7));
        } else {
            lemma_intstack_bounds(l, t);
            lemma_region_preserved(pt0, pt1, l.m_intstack(t), l.m_intstack(t) + PAGE_SIZE,
                7, ns, ne);
        }
    }
    assert forall|t: int| 0 <= t < i + if is_m { 0int } else { 1int } implies
        region_mapped(pt1, #[trigger] l.s_intstack(t), l.s_intstack(t) + PAGE_SIZE, 7) by {
        if !is_m && t == i {
            assert(region_mapped(pt1, lo as int, lo as int + PAGE_SIZE, 7));
        } else {
            lemma_intstack_bounds(l, t);
            lemma_region_preserved(pt0, pt1, l.s_intstack(t), l.s_intstack(t) + PAGE_SIZE,
                7, ns, ne);
        }
    }
    assert forall|v: nat| v < VPN_TOP && !head_vpn(l, v as int)
        && !stacks_vpn_upto(l, l.nhart as int, v as int)
        && !(if is_m { intstacks_vpn_step(l, i, true, v as int) }
            else { intstacks_vpn_upto(l, i + 1, v as int) })
        implies !(#[trigger] pt1.mapped(v)) by {
        if ns <= v < ne {
            assert(v == ns);
            if is_m {
                assert(l.m_intstack(i) / (PAGE_SIZE as int) == v);
                assert(intstacks_vpn_step(l, i, true, v as int));
            } else {
                assert(l.s_intstack(i) / (PAGE_SIZE as int) == v);
                assert(intstacks_vpn_upto(l, i + 1, v as int));
            }
            assert(false);
        } else {
            assert(pt1.lookup(v) == pt0.lookup(v));
            if intstacks_vpn_step(l, i, !is_m, v as int) {
                if intstacks_vpn_upto(l, i, v as int) {
                    let t = choose|t: int| 0 <= t < i
                        && (#[trigger] l.m_intstack(t) / (PAGE_SIZE as int) == v
                            || l.s_intstack(t) / (PAGE_SIZE as int) == v);
                    if is_m {
                        assert(intstacks_vpn_step(l, i, true, v as int));
                    } else {
                        assert(intstacks_vpn_upto(l, i + 1, v as int));
                    }
                } else {
                    assert(!is_m && l.m_intstack(i) / (PAGE_SIZE as int) == v);
                    assert(intstacks_vpn_upto(l, i + 1, v as int));
                }
                assert(false);
            }
            assert(!pt0.mapped(v));
        }
    }
}

/// The interrupt-stack pages written once the first `i` harts are done and,
/// if `m_done`, hart `i`'s machine page too.
pub open spec fn intstacks_vpn_step(l: MachineLayout, i: int, m_done: bool, v: int) -> bool {
    intstacks_vpn_upto(l, i, v) || (m_done && l.m_intstack(i) / (PAGE_SIZE as int) == v)
}

/// After mapping one of the two tail regions (uninitialized data, heap),
/// everything before it is preserved and the not-mapped tracking extends.
proof fn tail_step_facts(l: MachineLayout, pt0: PageTable, pt1: PageTable, a: int, b: int)
    requires
        l.wf(),
        a == l.bss_start || a == l.bss_end,
        b == if a == l.bss_start { l.bss_end as int } else { l.memory_end as int },
        region_mapped(pt1, a, b, 7),
        forall|v: int| a / (PAGE_SIZE as int) <= v < b / (PAGE_SIZE as int)
            ==> !(#[trigger] pt0.mapped(v as nat)),
        forall|v: nat| v < VPN_TOP
            && !((a / (PAGE_SIZE as int)) <= v < (b / (PAGE_SIZE as int)))
            ==> #[trigger] pt1.lookup(v) == pt0.lookup(v),
        region_mapped(pt0, l.text_start as int, l.text_end as int, 11),
        region_mapped(pt0, l.rodata_start as int, l.rodata_end as int, 3),
        region_mapped(pt0, l.data_start as int, l.data_end as int, 7),
        forall|t: int| 0 <= t < l.nhart ==>
            region_mapped(pt0, #[trigger] l.stack_lo(t), l.stack_hi(t), 7),
        forall|t: int| 0 <= t < l.nhart ==>
            region_mapped(pt0, #[trigger] l.m_intstack(t), l.m_intstack(t) + PAGE_SIZE, 7),
        forall|t: int| 0 <= t < l.nhart ==>
            region_mapped(pt0, #[trigger] l.s_intstack(t), l.s_intstack(t) + PAGE_SIZE, 7),
        a == l.bss_start ==> forall|v: nat| v < VPN_TOP && !head_vpn(l, v as int)
            && !stacks_vpn_upto(l, l.nhart as int, v as int)
            && !intstacks_vpn_upto(l, l.nhart as int, v as int)
            ==> !(#[trigger] pt0.mapped(v)),
        a == l.bss_end ==> forall|v: nat| v < VPN_TOP && !head_vpn(l, v as int)
            && !stacks_vpn_upto(l, l.nhart as int, v as int)
            && !intstacks_vpn_upto(l, l.nhart as int, v as int)
            && !((l.bss_start as int / (PAGE_SIZE as int)) <= v
                < (l.bss_end as int / (PAGE_SIZE as int)))
            ==> !(#[trigger] pt0.mapped(v)),
        a == l.bss_end ==> region_mapped(pt0, l.bss_start as int, l.bss_end as int, 7),
    ensures
        region_mapped(pt1, l.text_start as int, l.text_end as int, 11),
        region_mapped(pt1, l.rodata_start as int, l.rodata_end as int, 3),
        region_mapped(pt1, l.data_start as int, l.data_end as int, 7),
        forall|t: int| 0 <= t < l.nhart ==>
            region_mapped(pt1, #[trigger] l.stack_lo(t), l.stack_hi(t), 7),
        forall|t: int| 0 <= t < l.nhart ==>
            region_mapped(pt1, #[trigger] l.m_intstack(t), l.m_intstack(t) + PAGE_SIZE, 7),
        forall|t: int| 0 <= t < l.nhart ==>
            region_mapped(pt1, #[trigger] l.s_intstack(t), l.s_intstack(t) + PAGE_SIZE, 7),
        a == l.bss_end ==> region_mapped(pt1, l.bss_start as int, l.bss_end as int, 7),
        forall|v: nat| v < VPN_TOP && !head_vpn(l, v as int)
            && !stacks_vpn_upto(l, l.nhart as int, v as int)
            && !intstacks_vpn_upto(l, l.nhart as int, v as int)
            && !((l.bss_start as int / (PAGE_SIZE as int)) <= v
                < (b / (PAGE_SIZE as int)))
            ==> !(#[trigger] pt1.mapped(v)),
{
    let ns = a / (PAGE_SIZE as int);
    let ne = b / (PAGE_SIZE as int);
    lemma_region_preserved(pt0, pt1, l.text_start as int, l.text_end as int, 11, ns, ne);
    lemma_region_preserved(pt0, pt1, l.rodata_start as int, l.rodata_end as int, 3, ns, ne);
    lemma_region_preserved(pt0, pt1, l.data_start as int, l.data_end as int, 7, ns, ne);
    assert forall|t: int| 0 <= t < l.nhart implies
        region_mapped(pt1, #[trigger] l.stack_lo(t), l.stack_hi(t), 7) by {
        lemma_stack_bounds(l, t);
        lemma_region_preserved(pt0, pt1, l.stack_lo(t), l.stack_hi(t), 7, ns, ne);
    }
    assert forall|t: int| 0 <= t < l.nhart implies
        region_mapped(pt1, #[trigger] l.m_intstack(t), l.m_intstack(t) + PAGE_SIZE, 7) by {
        lemma_intstack_bounds(l, t);
        lemma_region_preserved(pt0, pt1, l.m_intstack(t), l.m_intstack(t) + PAGE_SIZE, 7, ns, ne);
    }
    assert forall|t: int| 0 <= t < l.nhart implies
        region_mapped(pt1, #[trigger] l.s_intstack(t), l.s_intstack(t) + PAGE_SIZE, 7) by {
        lemma_intstack_bounds(l, t);
        lemma_region_preserved(pt0, pt1, l.s_intstack(t), l.s_intstack(t) + PAGE_SIZE, 7, ns, ne);
    }
    if a == l.bss_end {
        lemma_region_preserved(pt0, pt1, l.bss_start as int, l.bss_end as int, 7, ns, ne);
    }
    assert forall|v: nat| v < VPN_TOP && !head_vpn(l, v as int)
        && !stacks_vpn_upto(l, l.nhart as int, v as int)
        && !intstacks_vpn_upto(l, l.nhart as int, v as int)
        && !((l.bss_start as int / (PAGE_SIZE as int)) <= v < (b / (PAGE_SIZE as int)))
        implies !(#[trigger] pt1.mapped(v)) by {
        assert(l.bss_start as int / (PAGE_SIZE as int) <= ns) by (nonlinear_arith)
            requires
                ns == a / (PAGE_SIZE as int),
                a == l.bss_start || a == l.bss_end,
                l.bss_start <= l.bss_end,
        {}
        assert(ne == b / (PAGE_SIZE as int));
        assert(!(ns <= v < ne));
        assert(pt1.lookup(v) == pt0.lookup(v));
        assert(!pt0.mapped(v));
    }
}

/// Hart `t`'s stack region lies within the stacks section.
pub proof fn lemma_stack_bounds(l: MachineLayout, t: int)
    requires
        l.wf(),
        0 <= t < l.nhart,
    ensures
        l.stacks_start < l.stack_lo(t),
        l.stack_lo(t) < l.stack_hi(t),
        l.stack_hi(t) <= l.stacks_end,
        page_aligned(l.stack_lo(t) as u64),
        page_aligned(l.stack_hi(t) as u64),
{
    assert(l.stacks_start < l.stack_lo(t) && l.stack_lo(t) < l.stack_hi(t)
        && l.stack_hi(t) <= l.stacks_end
        && (l.stack_lo(t) as u64) % PAGE_SIZE == 0 && (l.stack_hi(t) as u64) % PAGE_SIZE == 0)
        by (nonlinear_arith)
        requires
            0 <= t < l.nhart,
            2 <= l.stack_pages,
            page_aligned(l.stacks_start),
            l.stacks_end - l.stacks_start == l.nhart * l.stack_pages * PAGE_SIZE,
            l.stack_lo(t) == l.stacks_start + (1 + t * l.stack_pages) * PAGE_SIZE,
            l.stack_hi(t) == l.stacks_start + (t + 1) * l.stack_pages * PAGE_SIZE,
            l.stacks_end <= VA_TOP,
            PAGE_SIZE == 4096,
    {}
}

/// Hart `t`'s interrupt-stack pages lie within the interrupt-stacks section.
pub proof fn lemma_intstack_bounds(l: MachineLayout, t: int)
    requires
        l.wf(),
        0 <= t < l.nhart,
    ensures
        l.intstacks_start < l.m_intstack(t),
        l.m_intstack(t) + PAGE_SIZE < l.s_intstack(t),
        l.s_intstack(t) + PAGE_SIZE <= l.intstacks_end,
        page_aligned(l.m_intstack(t) as u64),
        page_aligned(l.s_intstack(t) as u64),
{
    assert(l.intstacks_start < l.m_intstack(t)
        && l.m_intstack(t) + PAGE_SIZE < l.s_intstack(t)
        && l.s_intstack(t) + PAGE_SIZE <= l.intstacks_end
        && (l.m_intstack(t) as u64) % PAGE_SIZE == 0
        && (l.s_intstack(t) as u64) % PAGE_SIZE == 0)
        by (nonlinear_arith)
        requires
            0 <= t < l.nhart,
            page_aligned(l.intstacks_start),
            l.intstacks_end - l.intstacks_start == l.nhart * 4 * PAGE_SIZE,
            l.m_intstack(t) == l.intstacks_start + (1 + t * 4) * PAGE_SIZE,
            l.s_intstack(t) == l.intstacks_start + (3 + t * 4) * PAGE_SIZE,
            l.intstacks_end <= VA_TOP,
            PAGE_SIZE == 4096,
    {}
}


// ---------------------------------------------------------------------
// Properties of extent allocation

/// Allocation exclusivity: two extents handed out in succession never share
/// a physical page. (The rejection of freeing an unallocated page is part
/// of the pool's own contracts.)
pub proof fn lemma_extent_exclusive(
    p0: PagePool, p1: PagePool, p2: PagePool, e1: PhysPageExtent, e2: PhysPageExtent,
)
    requires
        p0.wf(),
        pool_grown(p0, p1, e1.page_set()),
        pool_grown(p1, p2, e2.page_set()),
    ensures
        forall|a: u64| !(#[trigger] e1.owns(a) && #[trigger] e2.owns(a)),
{
    assert forall|a: u64| !(#[trigger] e1.owns(a) && #[trigger] e2.owns(a)) by {
        if e1.owns(a) && e2.owns(a) {
            assert(e1.page_set().contains(a));
            assert(e2.page_set().contains(a));
            assert(p2.in_range(a) && !p1.is_allocated(a));
            assert(p1.in_range(a));
            p1.lemma_index_addr(a);
            let j = p1.index_of(a);
            assert(p1@[j] == (p0@[j] || e1.page_set().contains(p1.addr_of(j) as u64)));
            assert(p1@[j]);
            assert(p1.is_allocated(a));
            assert(false);
        }
    }
}

/// Extent round trip: requesting an extent and releasing it returns the
/// pool to its exact prior occupancy, bit for bit.
pub proof fn lemma_extent_round_trip(
    p0: PagePool, p1: PagePool, p2: PagePool, e: PhysPageExtent,
)
    requires
        p0.wf(),
        pool_grown(p0, p1, e.page_set()),
        p2.base_spec() == p1.base_spec(),
        p2@.len() == p1@.len(),
        forall|j: int| 0 <= j < p2@.len() ==>
            #[trigger] p2@[j] == (p1@[j] && !e.owns(p2.addr_of(j) as u64)),
    ensures
        p2@ =~= p0@,
{
    assert forall|j: int| 0 <= j < p2@.len() implies p2@[j] == p0@[j] by {
        let a = p2.addr_of(j) as u64;
        assert(p1@[j] == (p0@[j] || e.page_set().contains(p1.addr_of(j) as u64)));
        assert(p1.addr_of(j) == p2.addr_of(j));
        if e.owns(a) {
            assert(e.page_set().contains(a));
            assert(!p0.is_allocated(a));
            p0.lemma_addr_index(j);
            assert(!p0@[j]);
        }
    }
}









} // verus!
