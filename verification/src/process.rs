//! Processes: the unit of execution. A process owns its page table and the
//! physical extents backing its segments and stack; it is created
//! uninitialized, built from an ELF image, and moves through the lifecycle
//! states as the scheduler starts, pauses and resumes it.

use vstd::prelude::*;

use crate::{PAGE_SIZE, page_aligned};
use crate::palloc::PagePool;
use crate::ptable::{
    PageTable, pool_grown, table_fresh, first_vpn, page_count,
    VA_TOP, VPN_TOP,
};
use crate::hal::{PageMapFlags, pte_of_flags, pgtbl_insert_range, pgtbl_new_empty};
use crate::layout::MachineLayout;
use crate::vm::{
    VmError, PhysPageExtent, request_phys_page, kmap_region, region_mapped,
    lemma_region_preserved,
};
use crate::elf::{
    ELFError, ELFProgram, ProgramHeaderSegment64, PROG_SEG_TYPE_LOAD, PROG_HEADER_SIZE,
};
use crate::id::IdGenerator;

verus! {

/// Lifecycle states of a process.
#[derive(Clone, Copy, Debug, PartialEq, Eq, Structural)]
pub enum ProcessState {
    /// Holds no address space yet; do not attempt to run.
    Uninitialized,
    /// Built from an image but never entered; registers need no restore.
    Unstarted,
    /// Parked and runnable; restore its saved registers to resume.
    Ready,
    /// Currently executing on some hart; nobody else may touch it.
    Running,
    /// Blocked on something.
    Wait,
    /// Out of the running for a while.
    Sleep,
    /// Finished; do not run.
    Dead,
}

/// Process-level errors.
#[derive(Clone, Copy, Debug, PartialEq, Eq, Structural)]
pub enum ProcError {
    /// No memory for the process's page table.
    OOM,
}

/// A process: saved program counter and stack pointer, its id, lifecycle
/// state, its page table, and every physical extent backing its segments
/// and stack (the page table's own pages are recorded in the table).
pub struct Process {
    pub saved_pc: u64,
    pub saved_sp: u64,
    pub id: usize,
    pub state: ProcessState,
    pub pgtbl: PageTable,
    pub phys_pages: Vec<PhysPageExtent>,
}

/// The three pieces of state handed to the low-level switch routine: where
/// to resume, which address space to install, and which stack to use.
/// `resume` selects between first entry and re-entry.
#[derive(Clone, Copy, Debug, PartialEq, Eq, Structural)]
pub struct SwitchCommand {
    pub pc: u64,
    pub pgtbl_base: u64,
    pub sp: u64,
    pub resume: bool,
}

impl Process {
    /// Some extent of this process owns the page `a`.
    pub open spec fn ext_owns(self, a: u64) -> bool {
        exists|k: int| 0 <= k < self.phys_pages@.len()
            && (#[trigger] self.phys_pages@[k]).owns(a)
    }

    /// The page `a` backs this process: its page table or one of its extents.
    pub open spec fn owns(self, a: u64) -> bool {
        self.pgtbl.owns(a) || self.ext_owns(a)
    }

    /// Internal consistency: the table is well formed, every extent is well
    /// formed, and no physical page is owned twice.
    pub open spec fn wf(self) -> bool {
        &&& self.pgtbl.wf()
        &&& forall|k: int| 0 <= k < self.phys_pages@.len() ==>
            (#[trigger] self.phys_pages@[k]).wf() && self.phys_pages@[k].num <= usize::MAX
        &&& forall|a: u64| !(#[trigger] self.pgtbl.owns(a) && self.ext_owns(a))
        &&& forall|k1: int, k2: int, a: u64|
            0 <= k1 < self.phys_pages@.len() && 0 <= k2 < self.phys_pages@.len() && k1 != k2
            ==> !(#[trigger] self.phys_pages@[k1].owns(a)
                && #[trigger] self.phys_pages@[k2].owns(a))
    }

    /// Every page this process owns is allocated in `pool`.
    pub open spec fn owned_by(self, pool: PagePool) -> bool {
        forall|a: u64| #[trigger] self.owns(a) ==> pool.is_allocated(a)
    }

    /// The set of pages this process owns.
    pub open spec fn page_set(self) -> Set<u64> {
        Set::new(|a: u64| self.owns(a))
    }
}

/// Flags for a user segment mapping: always user-accessible, with the
/// requested permissions.
pub fn user_process_flags(r: bool, w: bool, e: bool) -> (f: PageMapFlags)
    ensures
        f == (PageMapFlags {
            read: r, write: w, execute: e, valid: false,
            user: true, global_page: false, accessed: false, dirty: false,
        }),
{
    let mut f = PageMapFlags::user();
    f.read = r;
    f.write = w;
    f.execute = e;
    f
}

/// Flags for mapping kernel memory into a process table: never
/// user-accessible, with the requested permissions.
pub fn kernel_process_flags(r: bool, w: bool, e: bool) -> (f: PageMapFlags)
    ensures
        f == (PageMapFlags {
            read: r, write: w, execute: e, valid: false,
            user: false, global_page: false, accessed: false, dirty: false,
        }),
{
    let mut f = PageMapFlags::empty();
    f.read = r;
    f.write = w;
    f.execute = e;
    f
}

/// The hardware entry bits a user segment with the given permission bits
/// receives: valid, user, and the requested permissions.
pub open spec fn user_pte(r: bool, w: bool, e: bool) -> u64 {
    (1 + (if r { 2u64 } else { 0u64 }) + (if w { 4u64 } else { 0u64 })
        + (if e { 8u64 } else { 0u64 }) + 16) as u64
}

impl Process {
    /// Construct a new process around a freshly allocated, empty page
    /// table. It means nothing until initialized from an image.
    pub fn new_uninit(pool: &mut PagePool) -> (r: Result<Self, ProcError>)
        requires
            old(pool).wf(),
        ensures
            final(pool).wf(),
            final(pool).base_spec() == old(pool).base_spec(),
            final(pool)@.len() == old(pool)@.len(),
            match r {
                Ok(p) => {
                    &&& p.wf()
                    &&& p.owned_by(*final(pool))
                    &&& p.state == ProcessState::Uninitialized
                    &&& p.id == 0
                    &&& p.phys_pages@.len() == 0
                    &&& p.saved_pc == 0 && p.saved_sp == 0
                    &&& forall|v: nat| v < VPN_TOP ==> !(#[trigger] p.pgtbl.mapped(v))
                    &&& pool_grown(*old(pool), *final(pool), p.page_set())
                    &&& forall|a: u64| #[trigger] p.owns(a) ==> !old(pool).is_allocated(a)
                },
                Err(e) => {
                    &&& e == ProcError::OOM
                    &&& final(pool)@ == old(pool)@
                    &&& forall|j: int| 0 <= j < old(pool)@.len() ==> old(pool)@[j]
                },
            },
    {
        let pt = match pgtbl_new_empty(pool) {
            Ok(p) => p,
            Err(_) => {
                return Err(ProcError::OOM);
            },
        };
        let p = Process {
            saved_pc: 0,
            saved_sp: 0,
            id: 0,
            state: ProcessState::Uninitialized,
            pgtbl: pt,
            phys_pages: Vec::new(),
        };
        proof {
            assert forall|a: u64| !(#[trigger] p.ext_owns(a)) by {
                if p.ext_owns(a) {
                    let k = choose|k: int| 0 <= k < p.phys_pages@.len()
                        && p.phys_pages@[k].owns(a);
                    assert(false);
                }
            }
            assert forall|a: u64| #[trigger] p.owns(a) implies
                pool.is_allocated(a) && !old(pool).is_allocated(a) by {
                assert(p.pgtbl.owns(a));
                let m = choose|m: int| 0 <= m < p.pgtbl.pages@.len() && p.pgtbl.pages@[m] == a;
                assert(p.pgtbl.pages@ =~= seq![p.pgtbl.base]);
                assert(a == p.pgtbl.base);
            }
            let p0 = *old(pool);
            assert forall|j: int| 0 <= j < pool@.len() implies
                #[trigger] pool@[j] == (p0@[j] || p.page_set().contains(pool.addr_of(j) as u64)) by {
                p0.lemma_addr_index(j);
                let a = pool.addr_of(j) as u64;
                if j == p0.index_of(p.pgtbl.base) {
                    assert(a == p.pgtbl.base);
                    assert(p.pgtbl.pages@[0] == a);
                    assert(p.pgtbl.owns(a));
                } else {
                    assert(a != p.pgtbl.base);
                    if p.owns(a) {
                        assert(p.pgtbl.owns(a));
                        let m = choose|m: int| 0 <= m < p.pgtbl.pages@.len()
                            && p.pgtbl.pages@[m] == a;
                        assert(p.pgtbl.pages@ =~= seq![p.pgtbl.base]);
                        assert(false);
                    }
                }
            }
            assert(pool_grown(p0, *pool, p.page_set()));
        }
        Ok(p)
    }

    /// Map the kernel's own text, data, stacks and heap into this process's
    /// table with kernel-only permissions, so a trap taken while the process
    /// is current needs no address-space switch. Mappings below the kernel
    /// text (the process's own) are untouched.
    #[verifier::rlimit(100)]
    fn map_kernel_text(&mut self, pool: &mut PagePool, l: &MachineLayout)
        -> (r: Result<(), VmError>)
        requires
            old(self).wf(),
            old(pool).wf(),
            old(self).owned_by(*old(pool)),
            l.wf(),
        ensures
            final(self).wf(),
            final(pool).wf(),
            final(pool).base_spec() == old(pool).base_spec(),
            final(pool)@.len() == old(pool)@.len(),
            final(self).owned_by(*final(pool)),
            final(self).saved_pc == old(self).saved_pc,
            final(self).saved_sp == old(self).saved_sp,
            final(self).id == old(self).id,
            final(self).state == old(self).state,
            final(self).phys_pages@ == old(self).phys_pages@,
            final(self).pgtbl.base == old(self).pgtbl.base,
            forall|a: u64| old(self).owns(a) ==> final(self).owns(a),
            pool_grown(*old(pool), *final(pool),
                table_fresh(old(self).pgtbl, final(self).pgtbl)),
            forall|v: nat| v < l.text_start as int / (PAGE_SIZE as int) ==>
                #[trigger] final(self).pgtbl.lookup(v) == old(self).pgtbl.lookup(v),
            match r {
                Ok(()) => {
                    &&& region_mapped(final(self).pgtbl, l.text_start as int,
                        l.text_end as int, 11)
                    &&& region_mapped(final(self).pgtbl, l.text_end as int,
                        l.rodata_end as int, 3)
                    &&& region_mapped(final(self).pgtbl, l.rodata_end as int,
                        l.data_end as int, 7)
                    &&& forall|s: int| 0 <= s < l.nhart ==>
                        region_mapped(final(self).pgtbl, #[trigger] l.stack_lo(s),
                            l.stack_hi(s), 7)
                    &&& forall|i: int| 0 <= i < l.nhart ==>
                        region_mapped(final(self).pgtbl, #[trigger] l.m_intstack(i),
                            l.m_intstack(i) + PAGE_SIZE, 7)
                    &&& forall|i: int| 0 <= i < l.nhart ==>
                        region_mapped(final(self).pgtbl, #[trigger] l.s_intstack(i),
                            l.s_intstack(i) + PAGE_SIZE, 7)
                    &&& region_mapped(final(self).pgtbl, l.bss_start as int,
                        l.bss_end as int, 7)
                    &&& region_mapped(final(self).pgtbl, l.bss_end as int,
                        l.memory_end as int, 7)
                },
                Err(e) => {
                    &&& e == VmError::Koom
                },
            },
    {
        let ghost self0 = *old(self);
        let ghost pool0 = *old(pool);
        let ghost pt0 = old(self).pgtbl;
        let ghost cut = l.text_start as int / (PAGE_SIZE as int);

        match self.map_kernel_head(pool, l) {
            Ok(()) => {},
            Err(_) => {
                return Err(VmError::Koom);
            },
        }

        // per-hart stacks
        let nhart = l.nhart;
        let kpages = l.stack_pages;
        let mut s: u64 = 0;
        while s < nhart
            invariant
                l.wf(),
                self0 == *old(self),
                pool0 == *old(pool),
                self0.wf(),
                pt0 == self0.pgtbl,
                pool0.wf(),
                self0.owned_by(pool0),
                nhart == l.nhart,
                kpages == l.stack_pages,
                self.wf(),
                pool.wf(),
                self.owned_by(*pool),
                self.saved_pc == self0.saved_pc,
                self.saved_sp == self0.saved_sp,
                self.id == self0.id,
                self.state == self0.state,
                self.phys_pages@ == self0.phys_pages@,
                self.pgtbl.base == pt0.base,
                pool.base_spec() == pool0.base_spec(),
                pool@.len() == pool0@.len(),
                forall|a: u64| self0.owns(a) ==> self.owns(a),
                forall|a: u64| pt0.owns(a) ==> self.pgtbl.owns(a),
                self.pgtbl.owned_by(*pool),
                pool_grown(pool0, *pool, table_fresh(pt0, self.pgtbl)),
                forall|v: nat| v < l.text_start as int / (PAGE_SIZE as int) ==>
                    #[trigger] self.pgtbl.lookup(v) == pt0.lookup(v),
                s <= nhart,
                region_mapped(self.pgtbl, l.text_start as int, l.text_end as int, 11),
                region_mapped(self.pgtbl, l.text_end as int, l.rodata_end as int, 3),
                region_mapped(self.pgtbl, l.rodata_end as int, l.data_end as int, 7),
                forall|t: int| 0 <= t < s ==>
                    region_mapped(self.pgtbl, #[trigger] l.stack_lo(t), l.stack_hi(t), 7),
            decreases nhart - s,
        {
            proof {
                crate::vm::lemma_stack_bounds(*l, s as int);
            }
            let lo = l.stacks_start + PAGE_SIZE * (1 + s * kpages);
            let hi = l.stacks_start + PAGE_SIZE * ((s + 1) * kpages);
            proof {
                assert(lo == l.stack_lo(s as int) && hi == l.stack_hi(s as int))
                    by (nonlinear_arith)
                    requires
                        lo == l.stacks_start + PAGE_SIZE * (1 + s * kpages),
                        hi == l.stacks_start + PAGE_SIZE * ((s + 1) * kpages),
                        l.stack_lo(s as int) == l.stacks_start + (1 + s * kpages) * PAGE_SIZE,
                        l.stack_hi(s as int) == l.stacks_start + (s + 1) * kpages * PAGE_SIZE,
                        l.stack_lo(s as int) <= l.stack_hi(s as int) <= l.stacks_end <= u64::MAX,
                {}
            }
            let ghost pt_s = self.pgtbl;
            let ghost pool_s = *pool;
            let rs = kmap_region(&mut self.pgtbl, pool, lo, hi,
                kernel_process_flags(true, true, false));
            proof {
                self.lemma_table_step(self0, pt0, pt_s, pool0, pool_s, *pool);
                lemma_low_frame(pt0, pt_s, self.pgtbl,
                    l.text_start as int / (PAGE_SIZE as int), lo as int, hi as int);
            }
            match rs {
                Ok(()) => {},
                Err(_) => {
                    return Err(VmError::Koom);
                },
            }
            proof {
                let ns = lo as int / (PAGE_SIZE as int);
                let ne = hi as int / (PAGE_SIZE as int);
                lemma_region_preserved(pt_s, self.pgtbl, l.text_start as int,
                    l.text_end as int, 11, ns, ne);
                lemma_region_preserved(pt_s, self.pgtbl, l.text_end as int,
                    l.rodata_end as int, 3, ns, ne);
                lemma_region_preserved(pt_s, self.pgtbl, l.rodata_end as int,
                    l.data_end as int, 7, ns, ne);
                assert forall|t: int| 0 <= t < s + 1 implies
                    region_mapped(self.pgtbl, #[trigger] l.stack_lo(t), l.stack_hi(t), 7) by {
                    if t < s {
                        crate::vm::lemma_stack_bounds(*l, t);
                        lemma_region_preserved(pt_s, self.pgtbl, l.stack_lo(t), l.stack_hi(t),
                            7, ns, ne);
                    } else {
                        assert(region_mapped(self.pgtbl, lo as int, hi as int, 7));
                    }
                }
            }
            s = s + 1;
        }

        // per-hart interrupt stacks
        let mut i: u64 = 0;
        while i < nhart
            invariant
                l.wf(),
                self0 == *old(self),
                pool0 == *old(pool),
                self0.wf(),
                pt0 == self0.pgtbl,
                pool0.wf(),
                self0.owned_by(pool0),
                nhart == l.nhart,
                self.wf(),
                pool.wf(),
                self.owned_by(*pool),
                self.saved_pc == self0.saved_pc,
                self.saved_sp == self0.saved_sp,
                self.id == self0.id,
                self.state == self0.state,
                self.phys_pages@ == self0.phys_pages@,
                self.pgtbl.base == pt0.base,
                pool.base_spec() == pool0.base_spec(),
                pool@.len() == pool0@.len(),
                forall|a: u64| self0.owns(a) ==> self.owns(a),
                forall|a: u64| pt0.owns(a) ==> self.pgtbl.owns(a),
                self.pgtbl.owned_by(*pool),
                pool_grown(pool0, *pool, table_fresh(pt0, self.pgtbl)),
                forall|v: nat| v < l.text_start as int / (PAGE_SIZE as int) ==>
                    #[trigger] self.pgtbl.lookup(v) == pt0.lookup(v),
                i <= nhart,
                region_mapped(self.pgtbl, l.text_start as int, l.text_end as int, 11),
                region_mapped(self.pgtbl, l.text_end as int, l.rodata_end as int, 3),
                region_mapped(self.pgtbl, l.rodata_end as int, l.data_end as int, 7),
                forall|t: int| 0 <= t < nhart ==>
                    region_mapped(self.pgtbl, #[trigger] l.stack_lo(t), l.stack_hi(t), 7),
                forall|t: int| 0 <= t < i ==>
                    region_mapped(self.pgtbl, #[trigger] l.m_intstack(t),
                        l.m_intstack(t) + PAGE_SIZE, 7),
                forall|t: int| 0 <= t < i ==>
                    region_mapped(self.pgtbl, #[trigger] l.s_intstack(t),
                        l.s_intstack(t) + PAGE_SIZE, 7),
            decreases nhart - i,
        {
            proof {
                crate::vm::lemma_intstack_bounds(*l, i as int);
                assert(l.intstacks_start + PAGE_SIZE * (1 + i * 4) == l.m_intstack(i as int)
                    && l.m_intstack(i as int) + PAGE_SIZE * 2 == l.s_intstack(i as int))
                    by (nonlinear_arith)
                    requires
                        l.m_intstack(i as int) == l.intstacks_start + (1 + i * 4) * PAGE_SIZE,
                        l.s_intstack(i as int) == l.intstacks_start + (3 + i * 4) * PAGE_SIZE,
                        l.s_intstack(i as int) + PAGE_SIZE <= l.intstacks_end <= u64::MAX,
                {}
            }
            let m_lo = l.intstacks_start + PAGE_SIZE * (1 + i * 4);
            let ghost pt_m = self.pgtbl;
            let ghost pool_m = *pool;
            let rm = kmap_region(&mut self.pgtbl, pool, m_lo, m_lo + PAGE_SIZE,
                kernel_process_flags(true, true, false));
            proof {
                self.lemma_table_step(self0, pt0, pt_m, pool0, pool_m, *pool);
                lemma_low_frame(pt0, pt_m, self.pgtbl,
                    l.text_start as int / (PAGE_SIZE as int),
                    m_lo as int, m_lo as int + PAGE_SIZE);
            }
            match rm {
                Ok(()) => {},
                Err(_) => {
                    return Err(VmError::Koom);
                },
            }
            proof {
                let ns = m_lo as int / (PAGE_SIZE as int);
                let ne = ns + 1;
                assert((m_lo + PAGE_SIZE) as int / (PAGE_SIZE as int) == ne)
                    by (nonlinear_arith)
                    requires
                        page_aligned(m_lo),
                        m_lo + PAGE_SIZE <= VA_TOP,
                        ne == m_lo as int / (PAGE_SIZE as int) + 1,
                        PAGE_SIZE == 4096,
                {}
                proc_intstack_step(*l, pt_m, self.pgtbl, i as int, nhart as int, ns, ne, true);
            }
            let s_lo = m_lo + PAGE_SIZE * 2;
            let ghost pt_n = self.pgtbl;
            let ghost pool_n = *pool;
            let rn = kmap_region(&mut self.pgtbl, pool, s_lo, s_lo + PAGE_SIZE,
                kernel_process_flags(true, true, false));
            proof {
                self.lemma_table_step(self0, pt0, pt_n, pool0, pool_n, *pool);
                lemma_low_frame(pt0, pt_n, self.pgtbl,
                    l.text_start as int / (PAGE_SIZE as int),
                    s_lo as int, s_lo as int + PAGE_SIZE);
            }
            match rn {
                Ok(()) => {},
                Err(_) => {
                    return Err(VmError::Koom);
                },
            }
            proof {
                let ns = s_lo as int / (PAGE_SIZE as int);
                let ne = ns + 1;
                assert((s_lo + PAGE_SIZE) as int / (PAGE_SIZE as int) == ne)
                    by (nonlinear_arith)
                    requires
                        page_aligned(s_lo),
                        s_lo + PAGE_SIZE <= VA_TOP,
                        ne == s_lo as int / (PAGE_SIZE as int) + 1,
                        PAGE_SIZE == 4096,
                {}
                proc_intstack_step(*l, pt_n, self.pgtbl, i as int, nhart as int, ns, ne, false);
            }
            i = i + 1;
        }

        match self.map_kernel_tail(pool, l, Ghost(self0), Ghost(pool0)) {
            Ok(()) => {},
            Err(_) => {
                return Err(VmError::Koom);
            },
        }
        Ok(())
    }

    /// The first three kernel regions: code, the gap through the read-only
    /// data, and the mutable data.
    #[verifier::rlimit(100)]
    fn map_kernel_head(&mut self, pool: &mut PagePool, l: &MachineLayout)
        -> (r: Result<(), VmError>)
        requires
            old(self).wf(),
            old(pool).wf(),
            old(self).owned_by(*old(pool)),
            l.wf(),
        ensures
            final(self).wf(),
            final(pool).wf(),
            final(pool).base_spec() == old(pool).base_spec(),
            final(pool)@.len() == old(pool)@.len(),
            final(self).owned_by(*final(pool)),
            final(self).saved_pc == old(self).saved_pc,
            final(self).saved_sp == old(self).saved_sp,
            final(self).id == old(self).id,
            final(self).state == old(self).state,
            final(self).phys_pages@ == old(self).phys_pages@,
            final(self).pgtbl.base == old(self).pgtbl.base,
            forall|a: u64| old(self).owns(a) ==> final(self).owns(a),
            forall|a: u64| old(self).pgtbl.owns(a) ==> final(self).pgtbl.owns(a),
            final(self).pgtbl.owned_by(*final(pool)),
            pool_grown(*old(pool), *final(pool),
                table_fresh(old(self).pgtbl, final(self).pgtbl)),
            forall|v: nat| v < l.text_start as int / (PAGE_SIZE as int) ==>
                #[trigger] final(self).pgtbl.lookup(v) == old(self).pgtbl.lookup(v),
            match r {
                Ok(()) => {
                    &&& region_mapped(final(self).pgtbl, l.text_start as int,
                        l.text_end as int, 11)
                    &&& region_mapped(final(self).pgtbl, l.text_end as int,
                        l.rodata_end as int, 3)
                    &&& region_mapped(final(self).pgtbl, l.rodata_end as int,
                        l.data_end as int, 7)
                },
                Err(e) => {
                    &&& e == VmError::Koom
                },
            },
    {
        let ghost self0 = *old(self);
        let ghost pool0 = *old(pool);
        let ghost pt0 = old(self).pgtbl;
        let ghost cut = l.text_start as int / (PAGE_SIZE as int);
        proof {
            lemma_self_grown_refl(pt0, pool0);
            assert forall|a: u64| #[trigger] pt0.owns(a) implies pool0.is_allocated(a) by {
                assert(self0.owns(a));
            }
        }

        let r1 = kmap_region(&mut self.pgtbl, pool, l.text_start, l.text_end,
            kernel_process_flags(true, false, true));
        proof {
            self.lemma_table_step(self0, pt0, pt0, pool0, pool0, *pool);
            lemma_low_frame(pt0, pt0, self.pgtbl, cut, l.text_start as int, l.text_end as int);
        }
        match r1 {
            Ok(()) => {},
            Err(_) => {
                return Err(VmError::Koom);
            },
        }

        let ghost pt1 = self.pgtbl;
        let ghost pool1 = *pool;
        let r2 = kmap_region(&mut self.pgtbl, pool, l.text_end, l.rodata_end,
            kernel_process_flags(true, false, false));
        proof {
            self.lemma_table_step(self0, pt0, pt1, pool0, pool1, *pool);
            lemma_low_frame(pt0, pt1, self.pgtbl, cut, l.text_end as int, l.rodata_end as int);
            if r2 is Ok {
                lemma_region_preserved(pt1, self.pgtbl, l.text_start as int, l.text_end as int,
                    11, l.text_end as int / (PAGE_SIZE as int),
                    l.rodata_end as int / (PAGE_SIZE as int));
            }
        }
        match r2 {
            Ok(()) => {},
            Err(_) => {
                return Err(VmError::Koom);
            },
        }

        let ghost pt2 = self.pgtbl;
        let ghost pool2 = *pool;
        let r3 = kmap_region(&mut self.pgtbl, pool, l.rodata_end, l.data_end,
            kernel_process_flags(true, true, false));
        proof {
            self.lemma_table_step(self0, pt0, pt2, pool0, pool2, *pool);
            lemma_low_frame(pt0, pt2, self.pgtbl, cut, l.rodata_end as int, l.data_end as int);
            if r3 is Ok {
                let ns = l.rodata_end as int / (PAGE_SIZE as int);
                let ne = l.data_end as int / (PAGE_SIZE as int);
                lemma_region_preserved(pt2, self.pgtbl, l.text_start as int, l.text_end as int,
                    11, ns, ne);
                lemma_region_preserved(pt2, self.pgtbl, l.text_end as int, l.rodata_end as int,
                    3, ns, ne);
            }
        }
        match r3 {
            Ok(()) => {},
            Err(_) => {
                return Err(VmError::Koom);
            },
        }
        Ok(())
    }

    /// The last two kernel regions: the uninitialized-data section and the
    /// identity-mapped heap, preserving everything already mapped.
    #[verifier::rlimit(100)]
    fn map_kernel_tail(
        &mut self, pool: &mut PagePool, l: &MachineLayout,
        Ghost(self0): Ghost<Process>, Ghost(pool0): Ghost<PagePool>,
    ) -> (r: Result<(), VmError>)
        requires
            l.wf(),
            self0.wf(),
            pool0.wf(),
            self0.owned_by(pool0),
            old(self).wf(),
            old(pool).wf(),
            old(self).owned_by(*old(pool)),
            old(self).saved_pc == self0.saved_pc,
            old(self).saved_sp == self0.saved_sp,
            old(self).id == self0.id,
            old(self).state == self0.state,
            old(self).phys_pages@ == self0.phys_pages@,
            old(self).pgtbl.base == self0.pgtbl.base,
            old(pool).base_spec() == pool0.base_spec(),
            old(pool)@.len() == pool0@.len(),
            forall|a: u64| self0.owns(a) ==> old(self).owns(a),
            forall|a: u64| self0.pgtbl.owns(a) ==> old(self).pgtbl.owns(a),
            old(self).pgtbl.owned_by(*old(pool)),
            pool_grown(pool0, *old(pool), table_fresh(self0.pgtbl, old(self).pgtbl)),
            forall|v: nat| v < l.text_start as int / (PAGE_SIZE as int) ==>
                #[trigger] old(self).pgtbl.lookup(v) == self0.pgtbl.lookup(v),
            region_mapped(old(self).pgtbl, l.text_start as int, l.text_end as int, 11),
            region_mapped(old(self).pgtbl, l.text_end as int, l.rodata_end as int, 3),
            region_mapped(old(self).pgtbl, l.rodata_end as int, l.data_end as int, 7),
            forall|t: int| 0 <= t < l.nhart ==>
                region_mapped(old(self).pgtbl, #[trigger] l.stack_lo(t), l.stack_hi(t), 7),
            forall|t: int| 0 <= t < l.nhart ==>
                region_mapped(old(self).pgtbl, #[trigger] l.m_intstack(t),
                    l.m_intstack(t) + PAGE_SIZE, 7),
            forall|t: int| 0 <= t < l.nhart ==>
                region_mapped(old(self).pgtbl, #[trigger] l.s_intstack(t),
                    l.s_intstack(t) + PAGE_SIZE, 7),
        ensures
            final(self).wf(),
            final(pool).wf(),
            final(pool).base_spec() == pool0.base_spec(),
            final(pool)@.len() == pool0@.len(),
            final(self).owned_by(*final(pool)),
            final(self).saved_pc == self0.saved_pc,
            final(self).saved_sp == self0.saved_sp,
            final(self).id == self0.id,
            final(self).state == self0.state,
            final(self).phys_pages@ == self0.phys_pages@,
            final(self).pgtbl.base == self0.pgtbl.base,
            forall|a: u64| self0.owns(a) ==> final(self).owns(a),
            pool_grown(pool0, *final(pool), table_fresh(self0.pgtbl, final(self).pgtbl)),
            forall|v: nat| v < l.text_start as int / (PAGE_SIZE as int) ==>
                #[trigger] final(self).pgtbl.lookup(v) == self0.pgtbl.lookup(v),
            match r {
                Ok(()) => {
                    &&& region_mapped(final(self).pgtbl, l.text_start as int,
                        l.text_end as int, 11)
                    &&& region_mapped(final(self).pgtbl, l.text_end as int,
                        l.rodata_end as int, 3)
                    &&& region_mapped(final(self).pgtbl, l.rodata_end as int,
                        l.data_end as int, 7)
                    &&& forall|s: int| 0 <= s < l.nhart ==>
                        region_mapped(final(self).pgtbl, #[trigger] l.stack_lo(s),
                            l.stack_hi(s), 7)
                    &&& forall|i: int| 0 <= i < l.nhart ==>
                        region_mapped(final(self).pgtbl, #[trigger] l.m_intstack(i),
                            l.m_intstack(i) + PAGE_SIZE, 7)
                    &&& forall|i: int| 0 <= i < l.nhart ==>
                        region_mapped(final(self).pgtbl, #[trigger] l.s_intstack(i),
                            l.s_intstack(i) + PAGE_SIZE, 7)
                    &&& region_mapped(final(self).pgtbl, l.bss_start as int,
                        l.bss_end as int, 7)
                    &&& region_mapped(final(self).pgtbl, l.bss_end as int,
                        l.memory_end as int, 7)
                },
                Err(e) => {
                    &&& e == VmError::Koom
                },
            },
    {
        let ghost pt0 = self0.pgtbl;
        let ghost cut = l.text_start as int / (PAGE_SIZE as int);
        let ghost pt_d = self.pgtbl;
        let ghost pool_d = *pool;
        let rd = kmap_region(&mut self.pgtbl, pool, l.bss_start, l.bss_end,
            kernel_process_flags(true, true, false));
        proof {
            self.lemma_table_step(self0, pt0, pt_d, pool0, pool_d, *pool);
            lemma_low_frame(pt0, pt_d, self.pgtbl, cut, l.bss_start as int, l.bss_end as int);
            if rd is Ok {
                proc_tail_step(*l, pt_d, self.pgtbl, l.bss_start as int, l.bss_end as int);
            }
        }
        match rd {
            Ok(()) => {},
            Err(_) => {
                return Err(VmError::Koom);
            },
        }

        let ghost pt_e = self.pgtbl;
        let ghost pool_e = *pool;
        let re = kmap_region(&mut self.pgtbl, pool, l.bss_end, l.memory_end,
            kernel_process_flags(true, true, false));
        proof {
            self.lemma_table_step(self0, pt0, pt_e, pool0, pool_e, *pool);
            lemma_low_frame(pt0, pt_e, self.pgtbl, cut, l.bss_end as int, l.memory_end as int);
            if re is Ok {
                proc_tail_step(*l, pt_e, self.pgtbl, l.bss_end as int, l.memory_end as int);
            }
        }
        match re {
            Ok(()) => {},
            Err(_) => {
                return Err(VmError::Koom);
            },
        }
        Ok(())
    }

    /// One table-growing step leaves the process's non-table fields, its
    /// well-formedness and its ownership intact.
    proof fn lemma_table_step(
        self, self0: Process, pt0: PageTable, pt_pre: PageTable,
        pool0: PagePool, pool_pre: PagePool, pool_post: PagePool,
    )
        requires
            self0.wf(),
            pt0 == self0.pgtbl,
            pool0.wf(),
            self.saved_pc == self0.saved_pc,
            self.saved_sp == self0.saved_sp,
            self.id == self0.id,
            self.state == self0.state,
            self.phys_pages@ == self0.phys_pages@,
            self.pgtbl.wf(),
            pool_post.wf(),
            self.pgtbl.owned_by(pool_post),
            pt_pre.wf(),
            pool_grown(pool0, pool_pre, table_fresh(pt0, pt_pre)),
            pool_grown(pool_pre, pool_post, table_fresh(pt_pre, self.pgtbl)),
            forall|a: u64| pt0.owns(a) ==> pt_pre.owns(a),
            forall|a: u64| pt_pre.owns(a) ==> self.pgtbl.owns(a),
            self0.owned_by(pool0),
        ensures
            self.wf(),
            self.owned_by(pool_post),
            pool_grown(pool0, pool_post, table_fresh(pt0, self.pgtbl)),
            forall|a: u64| self0.owns(a) ==> self.owns(a),
    {
        crate::ptable::lemma_grown_trans(pt0, pt_pre, self.pgtbl, pool0, pool_pre, pool_post);
        assert forall|a: u64| self0.owns(a) implies self.owns(a) by {
            if self0.ext_owns(a) {
                let k = choose|k: int| 0 <= k < self0.phys_pages@.len()
                    && self0.phys_pages@[k].owns(a);
                assert(self.phys_pages@[k].owns(a));
                assert(self.ext_owns(a));
            }
        }
        assert forall|a: u64| !(#[trigger] self.pgtbl.owns(a) && self.ext_owns(a)) by {
            if self.pgtbl.owns(a) && self.ext_owns(a) {
                let k = choose|k: int| 0 <= k < self.phys_pages@.len()
                    && self.phys_pages@[k].owns(a);
                assert(self0.phys_pages@[k].owns(a));
                assert(self0.ext_owns(a));
                assert(self0.owns(a));
                assert(pool0.is_allocated(a));
                if pt0.owns(a) {
                    assert(self0.pgtbl.owns(a) && self0.ext_owns(a));
                    assert(false);
                } else {
                    assert(table_fresh(pt0, self.pgtbl).contains(a));
                    assert(!pool0.is_allocated(a));
                    assert(false);
                }
            }
        }
        assert forall|a: u64| #[trigger] self.owns(a) implies pool_post.is_allocated(a) by {
            if self.ext_owns(a) {
                let k = choose|k: int| 0 <= k < self.phys_pages@.len()
                    && self.phys_pages@[k].owns(a);
                assert(self0.phys_pages@[k].owns(a));
                assert(self0.ext_owns(a));
                assert(self0.owns(a));
                assert(pool0.is_allocated(a));
                crate::ptable::lemma_alloc_mono(pool0, pool_pre,
                    table_fresh(pt0, pt_pre), a);
                crate::ptable::lemma_alloc_mono(pool_pre, pool_post,
                    table_fresh(pt_pre, self.pgtbl), a);
            }
        }
    }
}

/// Preservation of the accumulated kernel-region mappings in a process
/// table across one interrupt-stack page insert.
proof fn proc_intstack_step(
    l: MachineLayout, pt0: PageTable, pt1: PageTable,
    i: int, nhart: int, ns: int, ne: int, is_m: bool,
)
    requires
        l.wf(),
        0 <= i < nhart == l.nhart,
        ne == ns + 1,
        region_mapped(pt1, (if is_m { l.m_intstack(i) } else { l.s_intstack(i) }),
            (if is_m { l.m_intstack(i) } else { l.s_intstack(i) }) + PAGE_SIZE, 7),
        ns == (if is_m { l.m_intstack(i) } else { l.s_intstack(i) }) / (PAGE_SIZE as int),
        forall|v: int| ns <= v < ne ==> !(#[trigger] pt0.mapped(v as nat)),
        forall|v: nat| v < VPN_TOP && !(ns <= v < ne) ==>
            #[trigger] pt1.lookup(v) == pt0.lookup(v),
        region_mapped(pt0, l.text_start as int, l.text_end as int, 11),
        region_mapped(pt0, l.text_end as int, l.rodata_end as int, 3),
        region_mapped(pt0, l.rodata_end as int, l.data_end as int, 7),
        forall|t: int| 0 <= t < nhart ==>
            region_mapped(pt0, #[trigger] l.stack_lo(t), l.stack_hi(t), 7),
        forall|t: int| 0 <= t < i + if is_m { 0int } else { 1int } ==>
            region_mapped(pt0, #[trigger] l.m_intstack(t), l.m_intstack(t) + PAGE_SIZE, 7),
        forall|t: int| 0 <= t < i ==>
            region_mapped(pt0, #[trigger] l.s_intstack(t), l.s_intstack(t) + PAGE_SIZE, 7),
    ensures
        region_mapped(pt1, l.text_start as int, l.text_end as int, 11),
        region_mapped(pt1, l.text_end as int, l.rodata_end as int, 3),
        region_mapped(pt1, l.rodata_end as int, l.data_end as int, 7),
        forall|t: int| 0 <= t < nhart ==>
            region_mapped(pt1, #[trigger] l.stack_lo(t), l.stack_hi(t), 7),
        forall|t: int| 0 <= t < i + 1 ==>
            region_mapped(pt1, #[trigger] l.m_intstack(t), l.m_intstack(t) + PAGE_SIZE, 7),
        forall|t: int| 0 <= t < i + if is_m { 0int } else { 1int } ==>
            region_mapped(pt1, #[trigger] l.s_intstack(t), l.s_intstack(t) + PAGE_SIZE, 7),
{
    crate::vm::lemma_intstack_bounds(l, i);
    lemma_region_preserved(pt0, pt1, l.text_start as int, l.text_end as int, 11, ns, ne);
    lemma_region_preserved(pt0, pt1, l.text_end as int, l.rodata_end as int, 3, ns, ne);
    lemma_region_preserved(pt0, pt1, l.rodata_end as int, l.data_end as int, 7, ns, ne);
    assert forall|t: int| 0 <= t < nhart implies
        region_mapped(pt1, #[trigger] l.stack_lo(t), l.stack_hi(t), 7) by {
        crate::vm::lemma_stack_bounds(l, t);
        lemma_region_preserved(pt0, pt1, l.stack_lo(t), l.stack_hi(t), 7, ns, ne);
    }
    assert forall|t: int| 0 <= t < i + 1 implies
        region_mapped(pt1, #[trigger] l.m_intstack(t), l.m_intstack(t) + PAGE_SIZE, 7) by {
        if is_m && t == i {
            assert(region_mapped(pt1, l.m_intstack(i), l.m_intstack(i) + PAGE_SIZE, 7));
        } else {
            crate::vm::lemma_intstack_bounds(l, t);
            lemma_region_preserved(pt0, pt1, l.m_intstack(t), l.m_intstack(t) + PAGE_SIZE,
                7, ns, ne);
        }
    }
    assert forall|t: int| 0 <= t < i + if is_m { 0int } else { 1int } implies
        region_mapped(pt1, #[trigger] l.s_intstack(t), l.s_intstack(t) + PAGE_SIZE, 7) by {
        if !is_m && t == i {
            assert(region_mapped(pt1, l.s_intstack(i), l.s_intstack(i) + PAGE_SIZE, 7));
        } else {
            crate::vm::lemma_intstack_bounds(l, t);
            lemma_region_preserved(pt0, pt1, l.s_intstack(t), l.s_intstack(t) + PAGE_SIZE,
                7, ns, ne);
        }
    }
}

/// Preservation of the accumulated kernel-region mappings in a process
/// table across one tail-region insert.
proof fn proc_tail_step(l: MachineLayout, pt0: PageTable, pt1: PageTable, a: int, b: int)
    requires
        l.wf(),
        a == l.bss_start || a == l.bss_end,
        b == if a == l.bss_start { l.bss_end as int } else { l.memory_end as int },
        region_mapped(pt1, a, b, 7),
        forall|v: int| a / (PAGE_SIZE as int) <= v < b / (PAGE_SIZE as int)
            ==> !(#[trigger] pt0.mapped(v as nat)),
        forall|v: nat| v < VPN_TOP
            && !((a / (PAGE_SIZE as int)) <= v < (b / (PAGE_SIZE as int)))
            ==> #[trigger] pt1.lookup(v) == pt0.lookup(v),
        region_mapped(pt0, l.text_start as int, l.text_end as int, 11),
        region_mapped(pt0, l.text_end as int, l.rodata_end as int, 3),
        region_mapped(pt0, l.rodata_end as int, l.data_end as int, 7),
        forall|t: int| 0 <= t < l.nhart ==>
            region_mapped(pt0, #[trigger] l.stack_lo(t), l.stack_hi(t), 7),
        forall|t: int| 0 <= t < l.nhart ==>
            region_mapped(pt0, #[trigger] l.m_intstack(t), l.m_intstack(t) + PAGE_SIZE, 7),
        forall|t: int| 0 <= t < l.nhart ==>
            region_mapped(pt0, #[trigger] l.s_intstack(t), l.s_intstack(t) + PAGE_SIZE, 7),
        a == l.bss_end ==> region_mapped(pt0, l.bss_start as int, l.bss_end as int, 7),
    ensures
        region_mapped(pt1, l.text_start as int, l.text_end as int, 11),
        region_mapped(pt1, l.text_end as int, l.rodata_end as int, 3),
        region_mapped(pt1, l.rodata_end as int, l.data_end as int, 7),
        forall|t: int| 0 <= t < l.nhart ==>
            region_mapped(pt1, #[trigger] l.stack_lo(t), l.stack_hi(t), 7),
        forall|t: int| 0 <= t < l.nhart ==>
            region_mapped(pt1, #[trigger] l.m_intstack(t), l.m_intstack(t) + PAGE_SIZE, 7),
        forall|t: int| 0 <= t < l.nhart ==>
            region_mapped(pt1, #[trigger] l.s_intstack(t), l.s_intstack(t) + PAGE_SIZE, 7),
        a == l.bss_end ==> region_mapped(pt1, l.bss_start as int, l.bss_end as int, 7),
{
    let ns = a / (PAGE_SIZE as int);
    let ne = b / (PAGE_SIZE as int);
    lemma_region_preserved(pt0, pt1, l.text_start as int, l.text_end as int, 11, ns, ne);
    lemma_region_preserved(pt0, pt1, l.text_end as int, l.rodata_end as int, 3, ns, ne);
    lemma_region_preserved(pt0, pt1, l.rodata_end as int, l.data_end as int, 7, ns, ne);
    assert forall|t: int| 0 <= t < l.nhart implies
        region_mapped(pt1, #[trigger] l.stack_lo(t), l.stack_hi(t), 7) by {
        crate::vm::lemma_stack_bounds(l, t);
        lemma_region_preserved(pt0, pt1, l.stack_lo(t), l.stack_hi(t), 7, ns, ne);
    }
    assert forall|t: int| 0 <= t < l.nhart implies
        region_mapped(pt1, #[trigger] l.m_intstack(t), l.m_intstack(t) + PAGE_SIZE, 7) by {
        crate::vm::lemma_intstack_bounds(l, t);
        lemma_region_preserved(pt0, pt1, l.m_intstack(t), l.m_intstack(t) + PAGE_SIZE, 7, ns, ne);
    }
    assert forall|t: int| 0 <= t < l.nhart implies
        region_mapped(pt1, #[trigger] l.s_intstack(t), l.s_intstack(t) + PAGE_SIZE, 7) by {
        crate::vm::lemma_intstack_bounds(l, t);
        lemma_region_preserved(pt0, pt1, l.s_intstack(t), l.s_intstack(t) + PAGE_SIZE, 7, ns, ne);
    }
    if a == l.bss_end {
        lemma_region_preserved(pt0, pt1, l.bss_start as int, l.bss_end as int, 7, ns, ne);
    }
}


/// Reflexive growth for starting a composition chain.
pub proof fn lemma_self_grown_refl(pt: PageTable, p: PagePool)
    ensures
        pool_grown(p, p, table_fresh(pt, pt)),
{
    assert forall|j: int| 0 <= j < p@.len() implies
        #[trigger] p@[j] == (p@[j] || table_fresh(pt, pt).contains(p.addr_of(j) as u64)) by {
        assert(!table_fresh(pt, pt).contains(p.addr_of(j) as u64));
    }
    assert forall|a: u64| #[trigger] table_fresh(pt, pt).contains(a) implies
        p.in_range(a) && !p.is_allocated(a) by {
        assert(false);
    }
}

/// Framing: a mapping step whose range starts at or above the cut leaves
/// everything below the cut exactly as the original table had it.
pub proof fn lemma_low_frame(
    pt0: PageTable, pt_pre: PageTable, pt_post: PageTable, cut: int, a: int, b: int,
)
    requires
        0 <= cut <= VPN_TOP,
        cut <= a / (PAGE_SIZE as int),
        forall|v: nat| v < cut ==> #[trigger] pt_pre.lookup(v) == pt0.lookup(v),
        (forall|v: nat| v < VPN_TOP
            && !((a / (PAGE_SIZE as int)) <= v < (b / (PAGE_SIZE as int)))
            ==> #[trigger] pt_post.lookup(v) == pt_pre.lookup(v))
        || (forall|v: nat| v < VPN_TOP ==> #[trigger] pt_post.lookup(v) == pt_pre.lookup(v)),
    ensures
        forall|v: nat| v < cut ==> #[trigger] pt_post.lookup(v) == pt0.lookup(v),
{
    assert forall|v: nat| v < cut implies
        #[trigger] pt_post.lookup(v) == pt0.lookup(v) by {
        assert(pt_pre.lookup(v) == pt0.lookup(v));
        assert(v < VPN_TOP);
        assert(!((a / (PAGE_SIZE as int)) <= v < (b / (PAGE_SIZE as int))));
        assert(pt_post.lookup(v) == pt_pre.lookup(v));
    }
}


// ---------------------------------------------------------------------
// Building an address space from an image

/// The policy check a LOAD segment must pass, in the order the checks are
/// made: nothing below the first page, nothing over the kernel code (whether
/// the segment begins inside the text or merely reaches into it), equal
/// on-disk and in-memory sizes, alignment of at most one page.
pub open spec fn seg_policy_error(s: ProgramHeaderSegment64, l: MachineLayout)
    -> Option<ELFError> {
    if s.seg_type != PROG_SEG_TYPE_LOAD {
        None
    } else if s.vmem_addr < 0x1000 {
        Some(ELFError::MappedZeroPage)
    } else if (s.vmem_addr >= l.text_start && s.vmem_addr <= l.text_end)
        || (s.vmem_addr < l.text_start && s.size_in_memory > l.text_start - s.vmem_addr) {
        Some(ELFError::MappedKernelText)
    } else if s.size_in_file != s.size_in_memory {
        Some(ELFError::InequalSizes)
    } else if s.alignment > 0x1000 {
        Some(ELFError::ExcessiveAlignment)
    } else {
        None
    }
}

/// The first policy error among the first `n` segments, in file order.
pub open spec fn first_seg_error(
    segs: Seq<ProgramHeaderSegment64>, l: MachineLayout, n: int,
) -> Option<ELFError>
    decreases n,
{
    if n <= 0 {
        None
    } else {
        match first_seg_error(segs, l, n - 1) {
            Some(e) => Some(e),
            None => seg_policy_error(segs[n - 1], l),
        }
    }
}

/// Once a policy error appears in a prefix, it is the error of every
/// longer prefix.
pub proof fn lemma_first_error_mono(
    segs: Seq<ProgramHeaderSegment64>, l: MachineLayout, m: int, n: int,
)
    requires
        0 <= m <= n,
        first_seg_error(segs, l, m) is Some,
    ensures
        first_seg_error(segs, l, n) == first_seg_error(segs, l, m),
    decreases n - m,
{
    if n > m {
        lemma_first_error_mono(segs, l, m, n - 1);
    }
}

/// A segment that passes policy and actually occupies memory.
pub open spec fn seg_accepted(s: ProgramHeaderSegment64, l: MachineLayout) -> bool {
    &&& s.seg_type == PROG_SEG_TYPE_LOAD
    &&& seg_policy_error(s, l) is None
    &&& s.size_in_memory > 0
}

/// Every page of the virtual byte range `[va, va + size)` translates to
/// something with exactly the entry bits `pte`.
pub open spec fn useg_mapped(pt: PageTable, va: u64, size: u64, pte: u64) -> bool {
    forall|v: int| first_vpn(va) <= v < first_vpn(va) + page_count(va, size) ==>
        ((#[trigger] pt.lookup(v as nat)) matches Some(m) && m.1 == pte)
}

/// A user mapping stays intact across a later insert, because the later
/// insert proved its own range unmapped before writing.
pub proof fn lemma_useg_preserved(
    pt0: PageTable, pt1: PageTable, va: u64, size: u64, pte: u64, ns: int, ne: int,
)
    requires
        useg_mapped(pt0, va, size, pte),
        size >= 1,
        va + size <= VA_TOP,
        forall|v: int| ns <= v < ne ==> !(#[trigger] pt0.mapped(v as nat)),
        forall|v: nat| v < VPN_TOP && !(ns <= v < ne) ==>
            #[trigger] pt1.lookup(v) == pt0.lookup(v),
    ensures
        useg_mapped(pt1, va, size, pte),
{
    crate::ptable::lemma_range_facts(va, size);
    assert forall|v: int| first_vpn(va) <= v < first_vpn(va) + page_count(va, size) implies
        ((#[trigger] pt1.lookup(v as nat)) matches Some(m) && m.1 == pte) by {
        assert(pt0.lookup(v as nat) matches Some(m) && m.1 == pte);
        assert(v < VPN_TOP);
        if ns <= v < ne {
            assert(!pt0.mapped(v as nat));
            assert(false);
        }
    }
}

/// The pages of `p1` that `p0` did not own.
pub open spec fn proc_fresh(p0: Process, p1: Process) -> Set<u64> {
    Set::new(|a: u64| p1.owns(a) && !p0.owns(a))
}

impl Process {
    /// One segment-or-stack step: a fresh extent was drawn, the table may
    /// have grown, and the extent was pushed; the process stays consistent
    /// and the pool's growth is exactly the process's fresh pages.
    proof fn lemma_proc_step(
        self, self0: Process, self_cur: Process, e: PhysPageExtent,
        pool0: PagePool, p_cur: PagePool, p_mid: PagePool, p_post: PagePool,
    )
        requires
            pool0.wf(),
            p_cur.wf(),
            p_mid.wf(),
            p_post.wf(),
            self0.wf(),
            self_cur.wf(),
            self0.owned_by(pool0),
            self_cur.owned_by(p_cur),
            pool_grown(pool0, p_cur, proc_fresh(self0, self_cur)),
            // the extent was drawn from p_cur
            e.wf(),
            e.num <= usize::MAX,
            e.owned_by(p_mid),
            pool_grown(p_cur, p_mid, e.page_set()),
            // then the table possibly grew
            self.pgtbl.wf(),
            self.pgtbl.owned_by(p_post),
            pool_grown(p_mid, p_post, table_fresh(self_cur.pgtbl, self.pgtbl)),
            forall|a: u64| self_cur.pgtbl.owns(a) ==> self.pgtbl.owns(a),
            // and the extent was recorded
            self.phys_pages@ == self_cur.phys_pages@.push(e),
            self.id == self_cur.id,
            self.state == self_cur.state,
            forall|a: u64| self0.owns(a) ==> self_cur.owns(a),
        ensures
            self.wf(),
            self.owned_by(p_post),
            pool_grown(pool0, p_post, proc_fresh(self0, self)),
            forall|a: u64| self0.owns(a) ==> self.owns(a),
            forall|a: u64| self_cur.owns(a) ==> self.owns(a),
    {
        let n = self_cur.phys_pages@.len() as int;
        // ownership characterization of the new process value
        assert forall|a: u64| #[trigger] self.ext_owns(a)
            == (self_cur.ext_owns(a) || e.owns(a)) by {
            if self.ext_owns(a) {
                let k = choose|k: int| 0 <= k < self.phys_pages@.len()
                    && self.phys_pages@[k].owns(a);
                if k < n {
                    assert(self_cur.phys_pages@[k].owns(a));
                    assert(self_cur.ext_owns(a));
                } else {
                    assert(self.phys_pages@[n] == e);
                }
            }
            if self_cur.ext_owns(a) {
                let k = choose|k: int| 0 <= k < self_cur.phys_pages@.len()
                    && self_cur.phys_pages@[k].owns(a);
                assert(self.phys_pages@[k].owns(a));
                assert(self.ext_owns(a));
            }
            if e.owns(a) {
                assert(self.phys_pages@[n].owns(a));
                assert(self.ext_owns(a));
            }
        }
        assert forall|a: u64| self_cur.owns(a) implies self.owns(a) by {}
        assert forall|a: u64| self0.owns(a) implies self.owns(a) by {}

        // extent pages were free in p_cur, so they collide with nothing owned
        assert forall|a: u64| #[trigger] e.owns(a) implies
            !self_cur.owns(a) && !self_cur.pgtbl.owns(a) by {
            assert(e.page_set().contains(a));
            assert(!p_cur.is_allocated(a));
            if self_cur.owns(a) {
                assert(p_cur.is_allocated(a));
                assert(false);
            }
        }
        // new table nodes were free in p_mid, so they collide with no extent
        assert forall|a: u64| #[trigger] self.pgtbl.owns(a) implies
            !self.ext_owns(a) by {
            if self.ext_owns(a) {
                if self_cur.pgtbl.owns(a) {
                    if self_cur.ext_owns(a) {
                        assert(!self_cur.wf() || false);
                    } else {
                        assert(e.owns(a));
                        assert(false);
                    }
                } else {
                    assert(table_fresh(self_cur.pgtbl, self.pgtbl).contains(a));
                    assert(!p_mid.is_allocated(a));
                    if self_cur.ext_owns(a) {
                        assert(self_cur.owns(a));
                        assert(p_cur.is_allocated(a));
                        crate::ptable::lemma_alloc_mono(p_cur, p_mid, e.page_set(), a);
                        assert(false);
                    } else {
                        assert(e.owns(a));
                        assert(p_mid.is_allocated(a));
                        assert(false);
                    }
                }
            }
        }
        // pairwise extent disjointness
        assert forall|k1: int, k2: int, a: u64|
            0 <= k1 < self.phys_pages@.len() && 0 <= k2 < self.phys_pages@.len() && k1 != k2
            implies !(#[trigger] self.phys_pages@[k1].owns(a)
                && #[trigger] self.phys_pages@[k2].owns(a)) by {
            if self.phys_pages@[k1].owns(a) && self.phys_pages@[k2].owns(a) {
                if k1 < n && k2 < n {
                    assert(self_cur.phys_pages@[k1].owns(a)
                        && self_cur.phys_pages@[k2].owns(a));
                    assert(false);
                } else {
                    let ko = if k1 < n { k1 } else { k2 };
                    assert(ko < n);
                    assert(self_cur.phys_pages@[ko].owns(a));
                    assert(self_cur.ext_owns(a));
                    assert(self_cur.owns(a));
                    assert(e.owns(a));
                    assert(false);
                }
            }
        }
        assert(self.wf());

        // everything owned is allocated afterwards
        assert forall|a: u64| #[trigger] self.owns(a) implies p_post.is_allocated(a) by {
            if self.pgtbl.owns(a) {
            } else {
                assert(self.ext_owns(a));
                if e.owns(a) {
                    assert(e.page_set().contains(a));
                    crate::ptable::lemma_alloc_mono(p_mid, p_post,
                        table_fresh(self_cur.pgtbl, self.pgtbl), a);
                } else {
                    assert(self_cur.ext_owns(a));
                    assert(self_cur.owns(a));
                    assert(p_cur.is_allocated(a));
                    crate::ptable::lemma_alloc_mono(p_cur, p_mid, e.page_set(), a);
                    crate::ptable::lemma_alloc_mono(p_mid, p_post,
                        table_fresh(self_cur.pgtbl, self.pgtbl), a);
                }
            }
        }

        // compose the pool growth
        let f_a = proc_fresh(self0, self_cur);
        let f_b = e.page_set().union(table_fresh(self_cur.pgtbl, self.pgtbl));
        let f_all = proc_fresh(self0, self);
        crate::ptable::lemma_grown_trans_sets(p_cur, p_mid, p_post,
            e.page_set(), table_fresh(self_cur.pgtbl, self.pgtbl), f_b);
        assert forall|a: u64| #[trigger] f_a.contains(a) implies f_all.contains(a) by {
            assert(self_cur.owns(a) && !self0.owns(a));
            assert(self.owns(a));
        }
        assert forall|a: u64| #[trigger] f_b.contains(a) implies f_all.contains(a) by {
            if e.page_set().contains(a) {
                assert(e.owns(a));
                assert(self.owns(a));
                if self0.owns(a) {
                    assert(pool0.is_allocated(a));
                    crate::ptable::lemma_alloc_mono(pool0, p_cur, f_a, a);
                    assert(false);
                }
            } else {
                assert(table_fresh(self_cur.pgtbl, self.pgtbl).contains(a));
                assert(self.pgtbl.owns(a));
                assert(self.owns(a));
                if self0.owns(a) {
                    assert(pool0.is_allocated(a));
                    crate::ptable::lemma_alloc_mono(pool0, p_cur, f_a, a);
                    crate::ptable::lemma_alloc_mono(p_cur, p_mid, e.page_set(), a);
                    assert(false);
                }
            }
        }
        assert forall|a: u64| #[trigger] f_all.contains(a) implies
            f_a.contains(a) || f_b.contains(a) by {
            assert(self.owns(a) && !self0.owns(a));
            if self.pgtbl.owns(a) {
                if self_cur.pgtbl.owns(a) {
                    assert(self_cur.owns(a));
                    assert(f_a.contains(a));
                } else {
                    assert(table_fresh(self_cur.pgtbl, self.pgtbl).contains(a));
                    assert(f_b.contains(a));
                }
            } else {
                assert(self.ext_owns(a));
                if self_cur.ext_owns(a) {
                    assert(f_a.contains(a));
                } else {
                    assert(e.owns(a));
                    assert(f_b.contains(a));
                }
            }
        }
        crate::ptable::lemma_grown_trans_sets(pool0, p_cur, p_post, f_a, f_b, f_all);
    }
}


impl Process {
    /// Allocate and map the LOAD segments of `elf` into this process's
    /// address space, then a two-page user stack just below the kernel
    /// text, recording its virtual top as the initial stack pointer.
    /// A segment failing a policy check rejects the whole image with the
    /// first such error, in file order.
    #[verifier::rlimit(100)]
    fn populate_pagetable64(&mut self, pool: &mut PagePool, l: &MachineLayout,
        elf: &ELFProgram) -> (r: Result<(), ELFError>)
        requires
            old(self).wf(),
            old(pool).wf(),
            old(self).owned_by(*old(pool)),
            l.wf(),
        ensures
            final(self).wf(),
            final(pool).wf(),
            final(pool).base_spec() == old(pool).base_spec(),
            final(pool)@.len() == old(pool)@.len(),
            final(self).owned_by(*final(pool)),
            final(self).id == old(self).id,
            final(self).state == old(self).state,
            final(self).saved_pc == old(self).saved_pc,
            final(self).pgtbl.base == old(self).pgtbl.base,
            forall|a: u64| old(self).owns(a) ==> final(self).owns(a),
            pool_grown(*old(pool), *final(pool), proc_fresh(*old(self), *final(self))),
            match r {
                Ok(()) => {
                    &&& elf.header.program_entry_size == PROG_HEADER_SIZE
                    &&& first_seg_error(elf.segments@, *l,
                        elf.segments@.len() as int) is None
                    &&& final(self).saved_sp == l.text_start
                    &&& useg_mapped(final(self).pgtbl,
                        (l.text_start - 2 * PAGE_SIZE) as u64, (2 * PAGE_SIZE) as u64, 23)
                    &&& forall|k: int| 0 <= k < elf.segments@.len()
                        && seg_accepted(#[trigger] elf.segments@[k], *l)
                        ==> useg_mapped(final(self).pgtbl, elf.segments@[k].vmem_addr,
                            elf.segments@[k].size_in_memory,
                            user_pte(elf.segments@[k].flags % 8 / 4 == 1,
                                elf.segments@[k].flags % 4 / 2 == 1,
                                elf.segments@[k].flags % 2 == 1))
                },
                Err(e) => {
                    &&& (e == ELFError::BadEntrySize
                        || e == ELFError::MappedZeroPage || e == ELFError::MappedKernelText
                        || e == ELFError::InequalSizes || e == ELFError::ExcessiveAlignment
                        || e == ELFError::FailedAlloc || e == ELFError::FailedMap)
                    &&& (e == ELFError::BadEntrySize)
                        == (elf.header.program_entry_size != PROG_HEADER_SIZE)
                    &&& (e == ELFError::MappedZeroPage || e == ELFError::MappedKernelText
                        || e == ELFError::InequalSizes || e == ELFError::ExcessiveAlignment)
                        ==> first_seg_error(elf.segments@, *l,
                            elf.segments@.len() as int) == Some(e)
                },
            },
            // a policy violation is never masked by anything but an earlier
            // segment's resource failure
            ({
                let scan = first_seg_error(elf.segments@, *l, elf.segments@.len() as int);
                (elf.header.program_entry_size == PROG_HEADER_SIZE && scan is Some)
                    ==> (r == Err::<(), ELFError>(scan->Some_0)
                        || r == Err::<(), ELFError>(ELFError::FailedAlloc)
                        || r == Err::<(), ELFError>(ELFError::FailedMap))
            }),
            // and when no accepted segment precedes the first offender, the
            // policy error itself is forced
            ({
                let scan = first_seg_error(elf.segments@, *l, elf.segments@.len() as int);
                (elf.header.program_entry_size == PROG_HEADER_SIZE && scan is Some
                    && (forall|k: int| 0 <= k < elf.segments@.len()
                        && first_seg_error(elf.segments@, *l, k + 1) is None
                        ==> !seg_accepted(#[trigger] elf.segments@[k], *l)))
                    ==> r == Err::<(), ELFError>(scan->Some_0)
            }),
    {
        let ghost self0 = *old(self);
        let ghost pool0 = *old(pool);
        if elf.header.program_entry_size != 56 {
            proof {
                lemma_self_grown_refl(self.pgtbl, *pool);
                assert(pool_grown(pool0, *pool, proc_fresh(self0, *self))) by {
                    assert(proc_fresh(self0, *self) =~= table_fresh(self.pgtbl, self.pgtbl));
                }
            }
            return Err(ELFError::BadEntrySize);
        }
        let num = elf.segments.len();
        let mut i: usize = 0;
        proof {
            lemma_self_grown_refl(self.pgtbl, *pool);
            assert(pool_grown(pool0, *pool, proc_fresh(self0, *self))) by {
                assert(proc_fresh(self0, *self) =~= table_fresh(self.pgtbl, self.pgtbl));
            }
        }
        while i < num
            invariant
                l.wf(),
                self0 == *old(self),
                pool0 == *old(pool),
                self0.wf(),
                pool0.wf(),
                self0.owned_by(pool0),
                num == elf.segments@.len(),
                elf.header.program_entry_size == PROG_HEADER_SIZE,
                i <= num,
                self.wf(),
                pool.wf(),
                self.owned_by(*pool),
                self.id == self0.id,
                self.state == self0.state,
                self.saved_pc == self0.saved_pc,
                self.pgtbl.base == self0.pgtbl.base,
                pool.base_spec() == pool0.base_spec(),
                pool@.len() == pool0@.len(),
                forall|a: u64| self0.owns(a) ==> self.owns(a),
                pool_grown(pool0, *pool, proc_fresh(self0, *self)),
                first_seg_error(elf.segments@, *l, i as int) is None,
                forall|k: int| 0 <= k < i && seg_accepted(#[trigger] elf.segments@[k], *l)
                    ==> elf.segments@[k].vmem_addr + elf.segments@[k].size_in_memory <= VA_TOP
                        && useg_mapped(self.pgtbl, elf.segments@[k].vmem_addr,
                            elf.segments@[k].size_in_memory,
                            user_pte(elf.segments@[k].flags % 8 / 4 == 1,
                                elf.segments@[k].flags % 4 / 2 == 1,
                                elf.segments@[k].flags % 2 == 1)),
            decreases num - i,
        {
            let segment = elf.segments[i];
            proof {
                assert(first_seg_error(elf.segments@, *l, i + 1)
                    == match first_seg_error(elf.segments@, *l, i as int) {
                        Some(e) => Some(e),
                        None => seg_policy_error(elf.segments@[i as int], *l),
                    });
            }
            if segment.seg_type != PROG_SEG_TYPE_LOAD {
                i = i + 1;
                continue;
            }
            if segment.vmem_addr < 0x1000 {
                proof {
                    assert(first_seg_error(elf.segments@, *l, i + 1)
                        == Some(ELFError::MappedZeroPage));
                    lemma_first_error_mono(elf.segments@, *l, i + 1, num as int);
                }
                return Err(ELFError::MappedZeroPage);
            }
            if (segment.vmem_addr >= l.text_start && segment.vmem_addr <= l.text_end)
                || (segment.vmem_addr < l.text_start
                    && segment.size_in_memory > l.text_start - segment.vmem_addr) {
                proof {
                    assert(first_seg_error(elf.segments@, *l, i + 1)
                        == Some(ELFError::MappedKernelText));
                    lemma_first_error_mono(elf.segments@, *l, i + 1, num as int);
                }
                return Err(ELFError::MappedKernelText);
            }
            if segment.size_in_file != segment.size_in_memory {
                proof {
                    assert(first_seg_error(elf.segments@, *l, i + 1)
                        == Some(ELFError::InequalSizes));
                    lemma_first_error_mono(elf.segments@, *l, i + 1, num as int);
                }
                return Err(ELFError::InequalSizes);
            }
            if segment.alignment > 0x1000 {
                proof {
                    assert(first_seg_error(elf.segments@, *l, i + 1)
                        == Some(ELFError::ExcessiveAlignment));
                    lemma_first_error_mono(elf.segments@, *l, i + 1, num as int);
                }
                return Err(ELFError::ExcessiveAlignment);
            }
            if segment.size_in_memory == 0 {
                i = i + 1;
                continue;
            }
            if segment.size_in_memory > u64::MAX - 4095 {
                return Err(ELFError::FailedAlloc);
            }
            let n_pages = (segment.size_in_memory + 4095) / 4096;
            if n_pages > usize::MAX as u64 {
                return Err(ELFError::FailedAlloc);
            }
            let ghost self_cur = *self;
            let ghost p_cur = *pool;
            let pages = match request_phys_page(pool, n_pages as usize) {
                Ok(p) => p,
                Err(_) => {
                    return Err(ELFError::FailedAlloc);
                },
            };
            let ghost p_mid = *pool;
            proof {
                assert forall|a: u64| #[trigger] self.pgtbl.owns(a) implies
                    pool.is_allocated(a) by {
                    assert(self.owns(a));
                    assert(p_cur.is_allocated(a));
                    crate::ptable::lemma_alloc_mono(p_cur, *pool, pages.page_set(), a);
                }
            }
            let flags = user_process_flags(
                (segment.flags % 8) / 4 == 1,
                (segment.flags % 4) / 2 == 1,
                segment.flags % 2 == 1,
            );
            let ghost pt_pre = self.pgtbl;
            let ins = pgtbl_insert_range(&mut self.pgtbl, pool, segment.vmem_addr,
                pages.start(), segment.size_in_memory, flags);
            self.phys_pages.push(pages);
            proof {
                self.lemma_proc_step(self0, self_cur, pages, pool0, p_cur, p_mid, *pool);
            }
            match ins {
                Ok(()) => {},
                Err(_) => {
                    return Err(ELFError::FailedMap);
                },
            }
            proof {
                let pte = user_pte((segment.flags % 8) / 4 == 1,
                    (segment.flags % 4) / 2 == 1, segment.flags % 2 == 1);
                assert(crate::ptable::with_valid(crate::hal::pte_of_flags(flags)) == pte);
                assert(crate::ptable::map_in_bounds(segment.vmem_addr, pages.head,
                    segment.size_in_memory));
                assert(useg_mapped(self.pgtbl, segment.vmem_addr,
                    segment.size_in_memory, pte)) by {
                    assert forall|v: int| first_vpn(segment.vmem_addr) <= v
                        < first_vpn(segment.vmem_addr)
                            + page_count(segment.vmem_addr, segment.size_in_memory) implies
                        ((#[trigger] self.pgtbl.lookup(v as nat)) matches Some(m)
                            && m.1 == pte) by {
                        let k = v - first_vpn(segment.vmem_addr);
                        assert(self.pgtbl.lookup((first_vpn(segment.vmem_addr) + k) as nat)
                            == Some(((crate::ptable::align_down(pages.head)
                                + k * PAGE_SIZE) as u64, pte)));
                    }
                }
                assert forall|k: int| 0 <= k < i + 1
                    && seg_accepted(#[trigger] elf.segments@[k], *l)
                    implies elf.segments@[k].vmem_addr + elf.segments@[k].size_in_memory
                        <= VA_TOP
                        && useg_mapped(self.pgtbl, elf.segments@[k].vmem_addr,
                            elf.segments@[k].size_in_memory,
                            user_pte(elf.segments@[k].flags % 8 / 4 == 1,
                                elf.segments@[k].flags % 4 / 2 == 1,
                                elf.segments@[k].flags % 2 == 1)) by {
                    if k < i {
                        let sk = elf.segments@[k];
                        let ptek = user_pte(sk.flags % 8 / 4 == 1,
                            sk.flags % 4 / 2 == 1, sk.flags % 2 == 1);
                        assert(useg_mapped(pt_pre, sk.vmem_addr, sk.size_in_memory, ptek));
                        let ns = first_vpn(segment.vmem_addr);
                        let ne = first_vpn(segment.vmem_addr)
                            + page_count(segment.vmem_addr, segment.size_in_memory);
                        assert forall|v: int| ns <= v < ne implies
                            !(#[trigger] pt_pre.mapped(v as nat)) by {
                            let kk = v - ns;
                            assert(!pt_pre.mapped((ns + kk) as nat));
                        }
                        lemma_useg_preserved(pt_pre, self.pgtbl, sk.vmem_addr,
                            sk.size_in_memory, ptek, ns, ne);
                    }
                }
            }
            i = i + 1;
        }

        // the process stack: two pages just below the kernel text
        let ghost self_cur = *self;
        let ghost p_cur = *pool;
        let stack_pages = match request_phys_page(pool, 2) {
            Ok(p) => p,
            Err(_) => {
                return Err(ELFError::FailedAlloc);
            },
        };
        let ghost p_mid = *pool;
        proof {
            assert forall|a: u64| #[trigger] self.pgtbl.owns(a) implies
                pool.is_allocated(a) by {
                assert(self.owns(a));
                assert(p_cur.is_allocated(a));
                crate::ptable::lemma_alloc_mono(p_cur, *pool, stack_pages.page_set(), a);
            }
        }
        let stack_va = l.text_start - 2 * PAGE_SIZE;
        let ghost pt_pre = self.pgtbl;
        let ins = pgtbl_insert_range(&mut self.pgtbl, pool, stack_va,
            stack_pages.start(), 2 * PAGE_SIZE, user_process_flags(true, true, false));
        self.phys_pages.push(stack_pages);
        self.saved_sp = l.text_start;
        proof {
            self.lemma_proc_step(self0, self_cur, stack_pages, pool0, p_cur, p_mid, *pool);
        }
        match ins {
            Ok(()) => {},
            Err(_) => {
                return Err(ELFError::FailedMap);
            },
        }
        proof {
            assert(crate::ptable::with_valid(crate::hal::pte_of_flags(
                PageMapFlags {
                    read: true, write: true, execute: false, valid: false,
                    user: true, global_page: false, accessed: false, dirty: false,
                })) == 23);
            assert(useg_mapped(self.pgtbl, stack_va, (2 * PAGE_SIZE) as u64, 23)) by {
                assert forall|v: int| first_vpn(stack_va) <= v
                    < first_vpn(stack_va) + page_count(stack_va, (2 * PAGE_SIZE) as u64) implies
                    ((#[trigger] self.pgtbl.lookup(v as nat)) matches Some(m)
                        && m.1 == 23) by {
                    let k = v - first_vpn(stack_va);
                    assert(self.pgtbl.lookup((first_vpn(stack_va) + k) as nat)
                        == Some(((crate::ptable::align_down(stack_pages.head)
                            + k * PAGE_SIZE) as u64, 23u64)));
                }
            }
            assert forall|k: int| 0 <= k < num
                && seg_accepted(#[trigger] elf.segments@[k], *l)
                implies useg_mapped(self.pgtbl, elf.segments@[k].vmem_addr,
                    elf.segments@[k].size_in_memory,
                    user_pte(elf.segments@[k].flags % 8 / 4 == 1,
                        elf.segments@[k].flags % 4 / 2 == 1,
                        elf.segments@[k].flags % 2 == 1)) by {
                let sk = elf.segments@[k];
                let ptek = user_pte(sk.flags % 8 / 4 == 1,
                    sk.flags % 4 / 2 == 1, sk.flags % 2 == 1);
                assert(useg_mapped(pt_pre, sk.vmem_addr, sk.size_in_memory, ptek));
                let ns = first_vpn(stack_va);
                let ne = first_vpn(stack_va) + page_count(stack_va, (2 * PAGE_SIZE) as u64);
                assert forall|v: int| ns <= v < ne implies
                    !(#[trigger] pt_pre.mapped(v as nat)) by {
                    let kk = v - ns;
                    assert(!pt_pre.mapped((ns + kk) as nat));
                }
                lemma_useg_preserved(pt_pre, self.pgtbl, sk.vmem_addr,
                    sk.size_in_memory, ptek, ns, ne);
            }
        }
        Ok(())
    }
}


impl Process {
    /// Build this process's address space from an ELF image: assign a
    /// fresh id (a process holding one from an earlier life keeps it), map
    /// the image's LOAD segments and a user stack, map the kernel's own
    /// memory kernel-only, record the entry point, and become `Unstarted`.
    /// Re-initializing an already-built process goes through `reset` first.
    ///
    /// Initializing a running process is excluded outright, as is an image
    /// whose accepted segments would reach the kernel's own memory: every
    /// process must be able to trap into the kernel. That precondition also
    /// excludes segments placed above the kernel image or beyond the end of
    /// memory; such exotic placements are refused at the boundary rather
    /// than accepted and then failed while mapping.
    #[verifier::rlimit(100)]
    pub fn initialize64(
        &mut self, pool: &mut PagePool, ids: &mut IdGenerator,
        l: &MachineLayout, elf: &ELFProgram,
    ) -> (r: Result<(), ELFError>)
        requires
            old(self).wf(),
            old(pool).wf(),
            old(self).owned_by(*old(pool)),
            old(self).state == ProcessState::Uninitialized,
            old(self).phys_pages@.len() == 0,
            old(ids).wf(),
            old(self).id == 0 ==>
                old(ids).freed@.len() > 0 || old(ids).next < usize::MAX,
            old(self).id != 0 ==> old(ids).live().contains(old(self).id),
            l.wf(),
            forall|k: int| 0 <= k < elf.segments@.len()
                && seg_accepted(#[trigger] elf.segments@[k], *l)
                ==> elf.segments@[k].vmem_addr + elf.segments@[k].size_in_memory
                    <= l.text_start,
        ensures
            final(self).wf(),
            final(pool).wf(),
            final(pool).base_spec() == old(pool).base_spec(),
            final(pool)@.len() == old(pool)@.len(),
            final(self).owned_by(*final(pool)),
            final(self).pgtbl.base == old(self).pgtbl.base,
            forall|a: u64| old(self).owns(a) ==> final(self).owns(a),
            pool_grown(*old(pool), *final(pool), proc_fresh(*old(self), *final(self))),
            final(ids).wf(),
            final(self).id >= 1,
            final(ids).live().contains(final(self).id),
            old(self).id == 0 ==> {
                &&& !old(ids).live().contains(final(self).id)
                &&& final(ids).live() =~= old(ids).live().insert(final(self).id)
                &&& (old(ids).freed@.len() > 0 ==> final(self).id == old(ids).freed@.last())
                &&& (old(ids).freed@.len() == 0 ==> final(self).id == old(ids).next)
            },
            old(self).id != 0 ==> {
                &&& final(self).id == old(self).id
                &&& *final(ids) == *old(ids)
            },
            match r {
                Ok(()) => {
                    &&& final(self).state == ProcessState::Unstarted
                    &&& final(self).saved_pc == elf.header.entry
                    &&& final(self).saved_sp == l.text_start
                    &&& elf.header.program_entry_size == PROG_HEADER_SIZE
                    &&& first_seg_error(elf.segments@, *l,
                        elf.segments@.len() as int) is None
                    &&& useg_mapped(final(self).pgtbl,
                        (l.text_start - 2 * PAGE_SIZE) as u64, (2 * PAGE_SIZE) as u64, 23)
                    &&& forall|k: int| 0 <= k < elf.segments@.len()
                        && seg_accepted(#[trigger] elf.segments@[k], *l)
                        ==> useg_mapped(final(self).pgtbl, elf.segments@[k].vmem_addr,
                            elf.segments@[k].size_in_memory,
                            user_pte(elf.segments@[k].flags % 8 / 4 == 1,
                                elf.segments@[k].flags % 4 / 2 == 1,
                                elf.segments@[k].flags % 2 == 1))
                    &&& region_mapped(final(self).pgtbl, l.text_start as int,
                        l.text_end as int, 11)
                    &&& region_mapped(final(self).pgtbl, l.text_end as int,
                        l.rodata_end as int, 3)
                    &&& region_mapped(final(self).pgtbl, l.rodata_end as int,
                        l.data_end as int, 7)
                    &&& forall|s: int| 0 <= s < l.nhart ==>
                        region_mapped(final(self).pgtbl, #[trigger] l.stack_lo(s),
                            l.stack_hi(s), 7)
                    &&& forall|i: int| 0 <= i < l.nhart ==>
                        region_mapped(final(self).pgtbl, #[trigger] l.m_intstack(i),
                            l.m_intstack(i) + PAGE_SIZE, 7)
                    &&& forall|i: int| 0 <= i < l.nhart ==>
                        region_mapped(final(self).pgtbl, #[trigger] l.s_intstack(i),
                            l.s_intstack(i) + PAGE_SIZE, 7)
                    &&& region_mapped(final(self).pgtbl, l.bss_start as int,
                        l.bss_end as int, 7)
                    &&& region_mapped(final(self).pgtbl, l.bss_end as int,
                        l.memory_end as int, 7)
                },
                Err(e) => {
                    &&& final(self).state == ProcessState::Uninitialized
                    &&& (e == ELFError::BadEntrySize
                        || e == ELFError::MappedZeroPage || e == ELFError::MappedKernelText
                        || e == ELFError::InequalSizes || e == ELFError::ExcessiveAlignment
                        || e == ELFError::FailedAlloc || e == ELFError::FailedMap)
                    &&& (e == ELFError::BadEntrySize)
                        == (elf.header.program_entry_size != PROG_HEADER_SIZE)
                    &&& (e == ELFError::MappedZeroPage || e == ELFError::MappedKernelText
                        || e == ELFError::InequalSizes || e == ELFError::ExcessiveAlignment)
                        ==> first_seg_error(elf.segments@, *l,
                            elf.segments@.len() as int) == Some(e)
                },
            },
            // a policy violation is never masked by anything but an earlier
            // segment's resource failure
            ({
                let scan = first_seg_error(elf.segments@, *l, elf.segments@.len() as int);
                (elf.header.program_entry_size == PROG_HEADER_SIZE && scan is Some)
                    ==> (r == Err::<(), ELFError>(scan->Some_0)
                        || r == Err::<(), ELFError>(ELFError::FailedAlloc)
                        || r == Err::<(), ELFError>(ELFError::FailedMap))
            }),
            // and when no accepted segment precedes the first offender, the
            // policy error itself is forced
            ({
                let scan = first_seg_error(elf.segments@, *l, elf.segments@.len() as int);
                (elf.header.program_entry_size == PROG_HEADER_SIZE && scan is Some
                    && (forall|k: int| 0 <= k < elf.segments@.len()
                        && first_seg_error(elf.segments@, *l, k + 1) is None
                        ==> !seg_accepted(#[trigger] elf.segments@[k], *l)))
                    ==> r == Err::<(), ELFError>(scan->Some_0)
            }),
    {
        let ghost self0 = *old(self);
        let ghost pool0 = *old(pool);
        if self.id == 0 {
            let fresh_id = ids.generate();
            self.id = fresh_id;
        }
        proof {
            assert forall|a: u64| #[trigger] self.owns(a) == self0.owns(a) by {
                if self.ext_owns(a) {
                    let k = choose|k: int| 0 <= k < self.phys_pages@.len()
                        && self.phys_pages@[k].owns(a);
                    assert(self0.phys_pages@[k].owns(a));
                    assert(self0.ext_owns(a));
                }
                if self0.ext_owns(a) {
                    let k = choose|k: int| 0 <= k < self0.phys_pages@.len()
                        && self0.phys_pages@[k].owns(a);
                    assert(self.phys_pages@[k].owns(a));
                    assert(self.ext_owns(a));
                }
            }
            assert(self.wf());
            assert forall|a: u64| #[trigger] self.owns(a) implies pool.is_allocated(a) by {
                assert(self0.owns(a));
            }
        }
        let ghost self1 = *self;
        let rp = self.populate_pagetable64(pool, l, elf);
        let ghost self_mid = *self;
        let ghost pool_mid = *pool;
        proof {
            assert(proc_fresh(self1, self_mid) =~= proc_fresh(self0, self_mid)) by {
                assert forall|a: u64| #[trigger] proc_fresh(self1, self_mid).contains(a)
                    == proc_fresh(self0, self_mid).contains(a) by {
                    assert(self1.owns(a) == self0.owns(a));
                }
            }
            assert(pool_grown(pool0, pool_mid, proc_fresh(self0, self_mid)));
        }
        match rp {
            Ok(()) => {},
            Err(e) => {
                return Err(e);
            },
        }
        let rk = self.map_kernel_text(pool, l);
        proof {
            // compose the population growth with the kernel-map growth
            let f_a = proc_fresh(self0, self_mid);
            let f_b = table_fresh(self_mid.pgtbl, self.pgtbl);
            let f_all = proc_fresh(self0, *self);
            assert forall|a: u64| #[trigger] f_a.contains(a) implies f_all.contains(a) by {
                assert(self_mid.owns(a) && !self0.owns(a));
                assert(self.owns(a));
            }
            assert forall|a: u64| #[trigger] f_b.contains(a) implies f_all.contains(a) by {
                assert(self.pgtbl.owns(a));
                assert(self.owns(a));
                if self0.owns(a) {
                    assert(pool0.is_allocated(a));
                    crate::ptable::lemma_alloc_mono(pool0, pool_mid, f_a, a);
                    assert(false);
                }
            }
            assert forall|a: u64| #[trigger] f_all.contains(a) implies
                f_a.contains(a) || f_b.contains(a) by {
                assert(self.owns(a) && !self0.owns(a));
                if self.pgtbl.owns(a) {
                    if self_mid.pgtbl.owns(a) {
                        assert(self_mid.owns(a));
                        assert(f_a.contains(a));
                    } else {
                        assert(f_b.contains(a));
                    }
                } else {
                    assert(self.ext_owns(a));
                    assert(self.phys_pages@ == self_mid.phys_pages@);
                    assert(self_mid.ext_owns(a));
                    assert(self_mid.owns(a));
                    assert(f_a.contains(a));
                }
            }
            crate::ptable::lemma_grown_trans_sets(pool0, pool_mid, *pool, f_a, f_b, f_all);
        }
        match rk {
            Ok(()) => {},
            Err(_) => {
                // the kernel image could not be mapped: surfaced to the
                // caller, who treats a process unable to trap as unusable
                return Err(ELFError::FailedAlloc);
            },
        }
        let ghost self2 = *self;
        self.saved_pc = elf.header.entry;
        self.state = ProcessState::Unstarted;
        proof {
            assert forall|a: u64| #[trigger] self.owns(a) == self2.owns(a) by {
                if self.ext_owns(a) {
                    let k = choose|k: int| 0 <= k < self.phys_pages@.len()
                        && self.phys_pages@[k].owns(a);
                    assert(self2.phys_pages@[k].owns(a));
                    assert(self2.ext_owns(a));
                }
                if self2.ext_owns(a) {
                    let k = choose|k: int| 0 <= k < self2.phys_pages@.len()
                        && self2.phys_pages@[k].owns(a);
                    assert(self.phys_pages@[k].owns(a));
                    assert(self.ext_owns(a));
                }
            }
            assert(self.wf());
            assert forall|a: u64| #[trigger] self.owns(a) implies pool.is_allocated(a) by {
                assert(self2.owns(a));
            }
            assert forall|a: u64| self0.owns(a) implies self.owns(a) by {
                assert(self2.owns(a));
            }
            assert(pool_grown(pool0, *pool, proc_fresh(self0, *self))) by {
                assert(proc_fresh(self0, *self) =~= proc_fresh(self0, self2)) by {
                    assert forall|a: u64| #[trigger] proc_fresh(self0, *self).contains(a)
                        == proc_fresh(self0, self2).contains(a) by {
                        assert(self.owns(a) == self2.owns(a));
                    }
                }
            }
            // the stack and segment mappings lie below the kernel text and
            // were untouched by the kernel mapping
            let cut = l.text_start as int / (PAGE_SIZE as int);
            assert(useg_mapped(self.pgtbl,
                (l.text_start - 2 * PAGE_SIZE) as u64, (2 * PAGE_SIZE) as u64, 23)) by {
                let va = (l.text_start - 2 * PAGE_SIZE) as u64;
                lemma_below_cut_preserved(self_mid.pgtbl, self.pgtbl, va,
                    (2 * PAGE_SIZE) as u64, 23, cut, l.text_start);
            }
            assert forall|k: int| 0 <= k < elf.segments@.len()
                && seg_accepted(#[trigger] elf.segments@[k], *l)
                implies useg_mapped(self.pgtbl, elf.segments@[k].vmem_addr,
                    elf.segments@[k].size_in_memory,
                    user_pte(elf.segments@[k].flags % 8 / 4 == 1,
                        elf.segments@[k].flags % 4 / 2 == 1,
                        elf.segments@[k].flags % 2 == 1)) by {
                let sk = elf.segments@[k];
                lemma_below_cut_preserved(self_mid.pgtbl, self.pgtbl, sk.vmem_addr,
                    sk.size_in_memory, user_pte(sk.flags % 8 / 4 == 1,
                        sk.flags % 4 / 2 == 1, sk.flags % 2 == 1), cut, l.text_start);
            }
        }
        Ok(())
    }
}

/// A user mapping whose byte range ends at or below the cut address is
/// untouched by a step that only changes pages at or above the cut.
pub proof fn lemma_below_cut_preserved(
    pt0: PageTable, pt1: PageTable, va: u64, size: u64, pte: u64, cut: int, cut_addr: u64,
)
    requires
        useg_mapped(pt0, va, size, pte),
        size >= 1,
        va + size <= cut_addr,
        cut_addr <= VA_TOP,
        page_aligned(cut_addr),
        cut == cut_addr as int / (PAGE_SIZE as int),
        forall|v: nat| v < cut ==> #[trigger] pt1.lookup(v) == pt0.lookup(v),
    ensures
        useg_mapped(pt1, va, size, pte),
{
    crate::ptable::lemma_range_facts(va, size);
    assert forall|v: int| first_vpn(va) <= v < first_vpn(va) + page_count(va, size) implies
        ((#[trigger] pt1.lookup(v as nat)) matches Some(m) && m.1 == pte) by {
        assert(pt0.lookup(v as nat) matches Some(m) && m.1 == pte);
        assert(v < cut) by (nonlinear_arith)
            requires
                v <= (va + size - 1) as int / (PAGE_SIZE as int),
                va + size <= cut_addr,
                page_aligned(cut_addr),
                cut == cut_addr as int / (PAGE_SIZE as int),
                size >= 1,
        {}
        assert(pt1.lookup(v as nat) == pt0.lookup(v as nat));
    }
}

impl Process {
    /// Tear the process down: return its page table's pages and every owned
    /// extent to the pool, and release its id. Destroying a running process
    /// is excluded: it must be parked first.
    pub fn destroy(self, pool: &mut PagePool, ids: &mut IdGenerator)
        requires
            self.wf(),
            old(pool).wf(),
            self.owned_by(*old(pool)),
            self.state != ProcessState::Running,
            old(ids).wf(),
            self.id != 0 ==> old(ids).live().contains(self.id),
        ensures
            final(pool).wf(),
            final(pool).base_spec() == old(pool).base_spec(),
            final(pool)@.len() == old(pool)@.len(),
            forall|j: int| 0 <= j < final(pool)@.len() ==>
                #[trigger] final(pool)@[j]
                    == (old(pool)@[j] && !self.owns(final(pool).addr_of(j) as u64)),
            final(ids).wf(),
            self.id != 0 ==> final(ids).live() =~= old(ids).live().remove(self.id),
            self.id != 0 ==> final(ids).freed@ == old(ids).freed@.push(self.id),
            self.id != 0 ==> final(ids).next == old(ids).next,
            self.id == 0 ==> *final(ids) == *old(ids),
    {
        let Process { saved_pc: _, saved_sp: _, id, state: _, pgtbl, phys_pages } = self;
        let ghost pool0 = *old(pool);
        proof {
            assert forall|a: u64| #[trigger] pgtbl.owns(a) implies pool0.is_allocated(a) by {
                assert(self.owns(a));
            }
        }
        pgtbl.free(pool);
        let ghost pool1 = *pool;
        let mut k: usize = 0;
        let n = phys_pages.len();
        proof {
            assert(phys_pages@ == self.phys_pages@);
        }
        while k < n
            invariant
                self.wf(),
                pool0.wf(),
                pool0 == *old(pool),
                self.owned_by(pool0),
                pool.wf(),
                pool.base_spec() == pool0.base_spec(),
                pool@.len() == pool0@.len(),
                n == phys_pages@.len(),
                phys_pages@ == self.phys_pages@,
                pgtbl == self.pgtbl,
                k <= n,
                forall|j: int| 0 <= j < pool@.len() ==>
                    #[trigger] pool@[j] == (pool0@[j]
                        && !self.pgtbl.owns(pool.addr_of(j) as u64)
                        && !ext_owns_prefix(self, k as int, pool.addr_of(j) as u64)),
            decreases n - k,
        {
            let e = PhysPageExtent { head: phys_pages[k].head, num: phys_pages[k].num };
            proof {
                // every page of this extent is still allocated: it is owned
                // by no earlier extent and not by the table
                assert(self.phys_pages@[k as int] == e);
                assert forall|a: u64| #[trigger] e.owns(a) implies pool.is_allocated(a) by {
                    assert(self.ext_owns(a));
                    assert(self.owns(a));
                    assert(pool0.is_allocated(a));
                    pool0.lemma_index_addr(a);
                    let j = pool0.index_of(a);
                    assert(pool.addr_of(j) == a);
                    if self.pgtbl.owns(a) {
                        assert(false);
                    }
                    if ext_owns_prefix(self, k as int, a) {
                        let m = choose|m: int| 0 <= m < k
                            && (#[trigger] self.phys_pages@[m]).owns(a);
                        assert(false);
                    }
                    assert(pool@[j]);
                }
                assert(pool.in_range(e.head)) by {
                    assert(e.owns(e.head)) by (nonlinear_arith)
                        requires
                            e.wf(),
                            page_aligned(e.head),
                            e.num >= 1,
                    {}
                    assert(pool.is_allocated(e.head));
                }
            }
            let ghost pool_pre = *pool;
            e.release(pool);
            proof {
                assert forall|j: int| 0 <= j < pool@.len() implies
                    #[trigger] pool@[j] == (pool0@[j]
                        && !self.pgtbl.owns(pool.addr_of(j) as u64)
                        && !ext_owns_prefix(self, k + 1, pool.addr_of(j) as u64)) by {
                    let a = pool.addr_of(j) as u64;
                    assert(pool@[j] == (pool_pre@[j] && !e.owns(a)));
                    if ext_owns_prefix(self, k + 1, a) {
                        let m = choose|m: int| 0 <= m < k + 1
                            && (#[trigger] self.phys_pages@[m]).owns(a);
                        if m < k {
                            assert(ext_owns_prefix(self, k as int, a));
                        } else {
                            assert(e.owns(a));
                        }
                    }
                    if ext_owns_prefix(self, k as int, a) {
                        let m = choose|m: int| 0 <= m < k
                            && (#[trigger] self.phys_pages@[m]).owns(a);
                        assert(ext_owns_prefix(self, k + 1, a));
                    }
                    if e.owns(a) {
                        assert(self.phys_pages@[k as int].owns(a));
                        assert(ext_owns_prefix(self, k + 1, a));
                    }
                }
            }
            k = k + 1;
        }
        if id != 0 {
            ids.free(id);
        }
        proof {
            assert forall|j: int| 0 <= j < pool@.len() implies
                #[trigger] pool@[j]
                    == (pool0@[j] && !self.owns(pool.addr_of(j) as u64)) by {
                let a = pool.addr_of(j) as u64;
                if self.ext_owns(a) {
                    let m = choose|m: int| 0 <= m < self.phys_pages@.len()
                        && (#[trigger] self.phys_pages@[m]).owns(a);
                    assert(ext_owns_prefix(self, n as int, a));
                }
                if ext_owns_prefix(self, n as int, a) {
                    let m = choose|m: int| 0 <= m < n
                        && (#[trigger] self.phys_pages@[m]).owns(a);
                    assert(self.ext_owns(a));
                }
            }
        }
    }

    /// Enter this process for the first time: it becomes `Running`, and the
    /// caller receives the hand-off record to park in the hart's slot plus
    /// the three-argument command for the low-level entry routine. Control
    /// conceptually never returns to the caller's frame.
    pub fn start(self) -> (r: (crate::hartlocal::GPInfo, SwitchCommand))
        requires
            self.state == ProcessState::Unstarted,
        ensures
            r.0.current_process == (Process { state: ProcessState::Running, ..self }),
            r.1 == (SwitchCommand {
                pc: self.saved_pc,
                pgtbl_base: self.pgtbl.base,
                sp: self.saved_sp,
                resume: false,
            }),
    {
        let saved_pc = self.saved_pc;
        let pgtbl_base = self.pgtbl.base;
        let saved_sp = self.saved_sp;
        let mut p = self;
        p.state = ProcessState::Running;
        let gpi = crate::hartlocal::GPInfo::new(p);
        (gpi, SwitchCommand { pc: saved_pc, pgtbl_base, sp: saved_sp, resume: false })
    }

    /// Re-enter a previously paused process: the saved program counter
    /// points just past the instruction that yielded.
    pub fn resume(self) -> (r: (crate::hartlocal::GPInfo, SwitchCommand))
        requires
            self.state == ProcessState::Ready,
        ensures
            r.0.current_process == (Process { state: ProcessState::Running, ..self }),
            r.1 == (SwitchCommand {
                pc: self.saved_pc,
                pgtbl_base: self.pgtbl.base,
                sp: self.saved_sp,
                resume: true,
            }),
    {
        let saved_pc = self.saved_pc;
        let pgtbl_base = self.pgtbl.base;
        let saved_sp = self.saved_sp;
        let mut p = self;
        p.state = ProcessState::Running;
        let gpi = crate::hartlocal::GPInfo::new(p);
        (gpi, SwitchCommand { pc: saved_pc, pgtbl_base, sp: saved_sp, resume: true })
    }
}

/// `a` is owned by one of the first `n` extents of `p`.
pub open spec fn ext_owns_prefix(p: Process, n: int, a: u64) -> bool {
    exists|m: int| 0 <= m < n && (#[trigger] p.phys_pages@[m]).owns(a)
}


impl Process {
    /// Reset a non-running process to `Uninitialized`, releasing its whole
    /// address space (extents and page table) and replacing the table with
    /// a fresh empty one. The id is kept: together with `initialize64` this
    /// is the sanctioned way to re-initialize an existing process.
    pub fn reset(&mut self, pool: &mut PagePool) -> (r: Result<(), ProcError>)
        requires
            old(self).wf(),
            old(pool).wf(),
            old(self).owned_by(*old(pool)),
            old(self).state != ProcessState::Running,
        ensures
            final(pool).wf(),
            final(pool).base_spec() == old(pool).base_spec(),
            final(pool)@.len() == old(pool)@.len(),
            final(self).id == old(self).id,
            match r {
                Ok(()) => {
                    &&& final(self).wf()
                    &&& final(self).owned_by(*final(pool))
                    &&& final(self).state == ProcessState::Uninitialized
                    &&& final(self).phys_pages@.len() == 0
                    &&& forall|v: nat| v < VPN_TOP ==> !(#[trigger] final(self).pgtbl.mapped(v))
                    &&& forall|j: int| 0 <= j < final(pool)@.len() ==>
                        #[trigger] final(pool)@[j] == ((old(pool)@[j]
                            && !old(self).owns(final(pool).addr_of(j) as u64))
                            || final(self).owns(final(pool).addr_of(j) as u64))
                    &&& forall|a: u64| #[trigger] final(self).owns(a)
                        ==> !old(self).owns(a) && !old(pool).is_allocated(a)
                },
                Err(e) => {
                    &&& e == ProcError::OOM
                    &&& *final(self) == *old(self)
                    &&& final(pool)@ == old(pool)@
                    &&& forall|j: int| 0 <= j < old(pool)@.len() ==> old(pool)@[j]
                },
            },
    {
        let ghost self0 = *old(self);
        let ghost pool0 = *old(pool);
        // allocate the fresh root first, so that failure changes nothing
        let newpt = match pgtbl_new_empty(pool) {
            Ok(t) => t,
            Err(_) => {
                return Err(ProcError::OOM);
            },
        };
        let ghost pool1 = *pool;
        let ghost newpt0 = newpt;
        proof {
            assert forall|a: u64| #[trigger] newpt.owns(a) implies
                !self0.owns(a) && pool1.is_allocated(a) && !pool0.is_allocated(a) by {
                let m = choose|m: int| 0 <= m < newpt.pages@.len() && newpt.pages@[m] == a;
                assert(newpt.pages@ =~= seq![newpt.base]);
                assert(a == newpt.base);
                if self0.owns(a) {
                    assert(pool0.is_allocated(a));
                }
            }
        }
        // release every extent
        let mut k: usize = 0;
        let n = self.phys_pages.len();
        while k < n
            invariant
                self0.wf(),
                pool0.wf(),
                self0.owned_by(pool0),
                pool1.wf(),
                pool1.base_spec() == pool0.base_spec(),
                pool1@.len() == pool0@.len(),
                forall|j: int| 0 <= j < pool1@.len() ==>
                    #[trigger] pool1@[j] == (pool0@[j]
                        || newpt0.owns(pool1.addr_of(j) as u64)),
                forall|a: u64| #[trigger] newpt0.owns(a) ==>
                    !self0.owns(a) && !pool0.is_allocated(a) && pool1.in_range(a),
                *self == self0,
                n == self0.phys_pages@.len(),
                k <= n,
                pool.wf(),
                pool.base_spec() == pool0.base_spec(),
                pool@.len() == pool0@.len(),
                forall|j: int| 0 <= j < pool@.len() ==>
                    #[trigger] pool@[j] == (pool1@[j]
                        && !ext_owns_prefix(self0, k as int, pool.addr_of(j) as u64)),
            decreases n - k,
        {
            let e = PhysPageExtent {
                head: self.phys_pages[k].head,
                num: self.phys_pages[k].num,
            };
            let ghost pool_pre = *pool;
            proof {
                assert(self0.phys_pages@[k as int] == e);
                assert forall|a: u64| #[trigger] e.owns(a) implies pool.is_allocated(a) by {
                    assert(self0.ext_owns(a));
                    assert(self0.owns(a));
                    assert(pool0.is_allocated(a));
                    pool0.lemma_index_addr(a);
                    let j = pool0.index_of(a);
                    assert(pool1@[j]);
                    if ext_owns_prefix(self0, k as int, a) {
                        let m = choose|m: int| 0 <= m < k
                            && (#[trigger] self0.phys_pages@[m]).owns(a);
                        assert(false);
                    }
                    assert(pool@[j]);
                }
                assert(pool.in_range(e.head)) by {
                    assert(e.owns(e.head)) by (nonlinear_arith)
                        requires
                            e.wf(),
                            page_aligned(e.head),
                            e.num >= 1,
                    {}
                    assert(pool.is_allocated(e.head));
                }
            }
            e.release(pool);
            proof {
                assert forall|j: int| 0 <= j < pool@.len() implies
                    #[trigger] pool@[j] == (pool1@[j]
                        && !ext_owns_prefix(self0, k + 1, pool.addr_of(j) as u64)) by {
                    let a = pool.addr_of(j) as u64;
                    assert(pool@[j] == (pool_pre@[j] && !e.owns(a)));
                    if ext_owns_prefix(self0, k + 1, a) {
                        let m = choose|m: int| 0 <= m < k + 1
                            && (#[trigger] self0.phys_pages@[m]).owns(a);
                        if m < k {
                            assert(ext_owns_prefix(self0, k as int, a));
                        } else {
                            assert(e.owns(a));
                        }
                    }
                    if ext_owns_prefix(self0, k as int, a) {
                        let m = choose|m: int| 0 <= m < k
                            && (#[trigger] self0.phys_pages@[m]).owns(a);
                        assert(ext_owns_prefix(self0, k + 1, a));
                    }
                    if e.owns(a) {
                        assert(self0.phys_pages@[k as int].owns(a));
                        assert(ext_owns_prefix(self0, k + 1, a));
                    }
                }
            }
            k = k + 1;
        }
        self.phys_pages = Vec::new();
        // free the old table, install the fresh one
        let mut tmp = newpt;
        core::mem::swap(&mut self.pgtbl, &mut tmp);
        let ghost pool2 = *pool;
        proof {
            assert forall|a: u64| #[trigger] tmp.owns(a) implies pool.is_allocated(a) by {
                assert(self0.pgtbl.owns(a));
                assert(self0.owns(a));
                assert(pool0.is_allocated(a));
                pool0.lemma_index_addr(a);
                let j = pool0.index_of(a);
                assert(pool1@[j]);
                if ext_owns_prefix(self0, n as int, a) {
                    let m = choose|m: int| 0 <= m < n
                        && (#[trigger] self0.phys_pages@[m]).owns(a);
                    assert(self0.ext_owns(a));
                    assert(false);
                }
                assert(pool2@[j]);
            }
        }
        tmp.free(pool);
        self.state = ProcessState::Uninitialized;
        self.saved_pc = 0;
        self.saved_sp = 0;
        proof {
            let sf = *self;
            assert(sf.pgtbl == newpt0);
            assert forall|a: u64| !(#[trigger] sf.ext_owns(a)) by {
                if sf.ext_owns(a) {
                    let m = choose|m: int| 0 <= m < sf.phys_pages@.len()
                        && sf.phys_pages@[m].owns(a);
                    assert(false);
                }
            }
            assert forall|a: u64| #[trigger] sf.owns(a) == newpt0.owns(a) by {}
            assert(sf.wf());
            assert forall|j: int| 0 <= j < pool@.len() implies
                #[trigger] pool@[j] == ((pool0@[j] && !self0.owns(pool.addr_of(j) as u64))
                    || sf.owns(pool.addr_of(j) as u64)) by {
                let a = pool.addr_of(j) as u64;
                pool0.lemma_addr_index(j);
                assert(pool@[j] == (pool2@[j] && !tmp.owns(a)));
                assert(pool2@[j] == (pool1@[j] && !ext_owns_prefix(self0, n as int, a)));
                assert(pool1@[j] == (pool0@[j] || newpt0.owns(a)));
                assert(tmp.owns(a) == self0.pgtbl.owns(a));
                if self0.owns(a) {
                    if self0.ext_owns(a) {
                        let m = choose|m: int| 0 <= m < self0.phys_pages@.len()
                            && (#[trigger] self0.phys_pages@[m]).owns(a);
                        assert(ext_owns_prefix(self0, n as int, a));
                        assert(!pool@[j]);
                    } else {
                        assert(self0.pgtbl.owns(a));
                        assert(!pool@[j]);
                    }
                    assert(!sf.owns(a));
                } else {
                    if ext_owns_prefix(self0, n as int, a) {
                        let m = choose|m: int| 0 <= m < n
                            && (#[trigger] self0.phys_pages@[m]).owns(a);
                        assert(self0.ext_owns(a));
                        assert(false);
                    }
                }
            }
            assert forall|a: u64| #[trigger] sf.owns(a) implies
                pool.is_allocated(a) && !self0.owns(a) && !pool0.is_allocated(a) by {
                assert(newpt0.owns(a));
                pool1.lemma_index_addr(a);
                let j = pool1.index_of(a);
                assert(pool1@[j]);
                assert(pool2@[j] == (pool1@[j] && !ext_owns_prefix(self0, n as int, a)));
                if ext_owns_prefix(self0, n as int, a) {
                    let m = choose|m: int| 0 <= m < n
                        && (#[trigger] self0.phys_pages@[m]).owns(a);
                    assert(self0.ext_owns(a));
                    assert(self0.owns(a));
                    assert(false);
                }
                assert(pool@[j] == (pool2@[j] && !tmp.owns(a)));
                if tmp.owns(a) {
                    assert(self0.owns(a));
                    assert(false);
                }
            }
        }
        Ok(())
    }
}

} // verus!
