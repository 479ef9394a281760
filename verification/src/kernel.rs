//! The kernel's explicitly owned global state and the scheduler's entry
//! points: boot-time construction of the page pool and kernel table,
//! process creation, and the cooperative-yield and exit paths that hand
//! execution between kernel and processes.
//!
//! Invariant: every live process (queued or parked in a hart slot) owns its
//! pages exclusively — no page backs two processes, nor a process and the
//! kernel table — and holds a distinct live id.

use vstd::prelude::*;

use crate::PAGE_SIZE;
use crate::palloc::PagePool;
use crate::ptable::{PageTable, pool_grown, owned_set, VA_TOP};
use crate::hal::{satp_of, pgtbl_swap, kernel_pgtbl_late_setup};
use crate::layout::MachineLayout;
use crate::vm::{VmError, kpage_init, kernel_table_ok};
use crate::elf::{ELFError, ELFProgram};
use crate::id::IdGenerator;
use crate::process::{
    Process, ProcessState, SwitchCommand, proc_fresh, seg_accepted,
};
use crate::sched::ProcessQueue;
use crate::hartlocal::HartSlot;

verus! {

/// No physical page backs both processes.
pub open spec fn procs_disjoint(p: Process, q: Process) -> bool {
    forall|a: u64| !(#[trigger] p.owns(a) && #[trigger] q.owns(a))
}

/// No physical page backs both the process and the table.
pub open spec fn proc_table_disjoint(p: Process, t: PageTable) -> bool {
    forall|a: u64| !(#[trigger] p.owns(a) && #[trigger] t.owns(a))
}

/// The kernel: the machine layout, the physical page pool, the kernel's own
/// page table, the round-robin ready queue, the id generator, and one
/// hand-off slot and active-translation record per hart.
pub struct Kernel {
    pub layout: MachineLayout,
    pub pool: PagePool,
    pub kernel_table: PageTable,
    pub queue: ProcessQueue,
    pub ids: IdGenerator,
    pub slots: Vec<HartSlot>,
    pub active_satp: Vec<u64>,
}

impl Kernel {
    /// The process parked in hart `h`'s slot.
    pub open spec fn slot_proc(self, h: int) -> Process {
        self.slots@[h].slot->Some_0.current_process
    }

    /// A live process is consistent with the kernel's resources.
    pub open spec fn proc_ok(self, p: Process) -> bool {
        &&& p.wf()
        &&& p.owned_by(self.pool)
        &&& p.id != 0
        &&& self.ids.live().contains(p.id)
        &&& proc_table_disjoint(p, self.kernel_table)
    }

    /// The kernel invariant.
    pub open spec fn wf(self) -> bool {
        &&& self.layout.wf()
        &&& self.pool.wf()
        &&& self.kernel_table.wf()
        &&& self.kernel_table.owned_by(self.pool)
        &&& self.ids.wf()
        &&& self.slots@.len() == self.layout.nhart
        &&& self.active_satp@.len() == self.layout.nhart
        &&& self.queue@.len() < usize::MAX
        &&& forall|i: int| 0 <= i < self.queue@.len() ==> {
            &&& self.proc_ok(#[trigger] self.queue@[i])
            &&& (self.queue@[i].state == ProcessState::Ready
                || self.queue@[i].state == ProcessState::Unstarted)
        }
        &&& forall|h: int| 0 <= h < self.slots@.len()
            && (#[trigger] self.slots@[h]).occupied() ==> {
            &&& self.proc_ok(self.slot_proc(h))
            &&& self.slot_proc(h).state == ProcessState::Running
        }
        &&& forall|i: int, j: int| 0 <= i < self.queue@.len() && 0 <= j < self.queue@.len()
            && i != j ==> procs_disjoint(#[trigger] self.queue@[i], #[trigger] self.queue@[j])
                && self.queue@[i].id != self.queue@[j].id
        &&& forall|i: int, h: int| 0 <= i < self.queue@.len() && 0 <= h < self.slots@.len()
            && (#[trigger] self.slots@[h]).occupied()
            ==> procs_disjoint(#[trigger] self.queue@[i], self.slot_proc(h))
                && self.queue@[i].id != self.slot_proc(h).id
        &&& forall|h: int, g: int| 0 <= h < self.slots@.len() && 0 <= g < self.slots@.len()
            && h != g && (#[trigger] self.slots@[h]).occupied()
            && (#[trigger] self.slots@[g]).occupied()
            ==> procs_disjoint(self.slot_proc(h), self.slot_proc(g))
                && self.slot_proc(h).id != self.slot_proc(g).id
    }

    /// Boot the kernel's memory system: build the page pool over the region
    /// from the end of the kernel image to the end of memory, construct the
    /// kernel page table, and set up the (initially empty) process system.
    pub fn global_init(layout: MachineLayout) -> (r: Result<Kernel, VmError>)
        requires
            layout.wf(),
        ensures
            match r {
                Ok(k) => {
                    &&& k.wf()
                    &&& k.layout == layout
                    &&& k.pool.base_spec() == layout.bss_end
                    &&& k.pool.limit_spec() == layout.memory_end
                    &&& k.queue@.len() == 0
                    &&& kernel_table_ok(k.kernel_table, layout)
                    &&& forall|h: int| 0 <= h < k.slots@.len()
                        ==> !(#[trigger] k.slots@[h]).occupied()
                    &&& k.ids.live() =~= Set::<usize>::empty()
                    &&& forall|j: int| 0 <= j < k.pool@.len() ==>
                        (#[trigger] k.pool@[j]
                            == k.kernel_table.owns(k.pool.addr_of(j) as u64))
                },
                Err(e) => e == VmError::PallocFail || e == VmError::OutOfPages,
            },
    {
        proof {
            assert((layout.memory_end - layout.bss_end) / (PAGE_SIZE as int) <= usize::MAX)
                by (nonlinear_arith)
                requires
                    layout.bss_end < layout.memory_end,
                    layout.memory_end <= VA_TOP,
                    VA_TOP == 549755813888,
                    PAGE_SIZE == 4096,
            {}
        }
        let mut pool = PagePool::new(layout.bss_end, layout.memory_end);
        let ghost pool0 = pool;
        let kernel_table = match kpage_init(&mut pool, &layout) {
            Ok(t) => t,
            Err(e) => {
                return Err(e);
            },
        };
        let nhart = layout.nhart;
        let mut slots: Vec<HartSlot> = Vec::new();
        let mut active_satp: Vec<u64> = Vec::new();
        let mut h: u64 = 0;
        while h < nhart
            invariant
                h <= nhart,
                slots@.len() == h,
                active_satp@.len() == h,
                forall|g: int| 0 <= g < h ==> !(#[trigger] slots@[g]).occupied(),
            decreases nhart - h,
        {
            slots.push(HartSlot::new());
            active_satp.push(0);
            h = h + 1;
        }
        let k = Kernel {
            layout,
            pool,
            kernel_table,
            queue: ProcessQueue::new(),
            ids: IdGenerator::new(),
            slots,
            active_satp,
        };
        proof {
            assert forall|j: int| 0 <= j < k.pool@.len() implies
                (#[trigger] k.pool@[j]
                    == k.kernel_table.owns(k.pool.addr_of(j) as u64)) by {
                assert(k.pool@[j] == (pool0@[j]
                    || owned_set(k.kernel_table).contains(k.pool.addr_of(j) as u64)));
                assert(!pool0@[j]);
            }
        }
        Ok(k)
    }

    /// Bring one hart into the kernel address space: record the translation
    /// register value that installs the kernel table on that hart, and run
    /// the platform's late table fixup.
    pub fn local_init(&mut self, hart: usize)
        requires
            old(self).wf(),
            hart < old(self).layout.nhart,
        ensures
            final(self).wf(),
            *final(self) == (Kernel { active_satp: final(self).active_satp, ..*old(self) }),
            final(self).active_satp@ == old(self).active_satp@.update(hart as int,
                satp_of(old(self).kernel_table.base)),
    {
        let satp = pgtbl_swap(&self.kernel_table);
        let _ = kernel_pgtbl_late_setup(&self.kernel_table);
        self.active_satp.set(hart, satp);
    }
}


/// Two process values sharing table and extents own the same pages and are
/// equally well formed.
pub proof fn lemma_owns_eq(p: Process, q: Process)
    requires
        p.pgtbl == q.pgtbl,
        p.phys_pages@ == q.phys_pages@,
    ensures
        forall|a: u64| #[trigger] p.owns(a) == q.owns(a),
        p.wf() ==> q.wf(),
{
    assert forall|a: u64| #[trigger] p.owns(a) == q.owns(a) by {
        if p.ext_owns(a) {
            let k = choose|k: int| 0 <= k < p.phys_pages@.len() && p.phys_pages@[k].owns(a);
            assert(q.phys_pages@[k].owns(a));
            assert(q.ext_owns(a));
        }
        if q.ext_owns(a) {
            let k = choose|k: int| 0 <= k < q.phys_pages@.len() && q.phys_pages@[k].owns(a);
            assert(p.phys_pages@[k].owns(a));
            assert(p.ext_owns(a));
        }
    }
    if p.wf() {
        assert forall|a: u64| !(#[trigger] q.pgtbl.owns(a) && q.ext_owns(a)) by {
            if q.pgtbl.owns(a) && q.ext_owns(a) {
                let k = choose|k: int| 0 <= k < q.phys_pages@.len()
                    && q.phys_pages@[k].owns(a);
                assert(p.phys_pages@[k].owns(a));
                assert(p.ext_owns(a));
                assert(false);
            }
        }
        assert(q.wf());
    }
}

/// A process whose pages are allocated keeps them allocated across a
/// growth step, and owns none of the step's fresh pages.
pub proof fn lemma_proc_preserved(p: Process, pool_a: PagePool, pool_b: PagePool, f: Set<u64>)
    requires
        pool_a.wf(),
        p.owned_by(pool_a),
        pool_grown(pool_a, pool_b, f),
    ensures
        p.owned_by(pool_b),
        forall|a: u64| #[trigger] p.owns(a) ==> !f.contains(a),
{
    assert forall|a: u64| #[trigger] p.owns(a) implies
        pool_b.is_allocated(a) && !f.contains(a) by {
        assert(pool_a.is_allocated(a));
        crate::ptable::lemma_alloc_mono(pool_a, pool_b, f, a);
        if f.contains(a) {
            assert(!pool_a.is_allocated(a));
        }
    }
}

impl Kernel {
    /// Create a process from an ELF image and add it to the ready pool.
    /// On failure everything — pool pages and the provisional id — is
    /// released again, and the error says what was wrong with the image.
    pub fn create_process(&mut self, elf: &ELFProgram) -> (r: Result<(), ELFError>)
        requires
            old(self).wf(),
            old(self).queue@.len() < usize::MAX - 1,
            old(self).ids.freed@.len() > 0 || old(self).ids.next < usize::MAX,
            forall|k: int| 0 <= k < elf.segments@.len()
                && seg_accepted(#[trigger] elf.segments@[k], old(self).layout)
                ==> elf.segments@[k].vmem_addr + elf.segments@[k].size_in_memory
                    <= old(self).layout.text_start,
        ensures
            final(self).wf(),
            final(self).layout == old(self).layout,
            final(self).kernel_table == old(self).kernel_table,
            final(self).slots@ == old(self).slots@,
            final(self).active_satp@ == old(self).active_satp@,
            match r {
                Ok(()) => {
                    &&& final(self).queue@.len() == old(self).queue@.len() + 1
                    &&& forall|i: int| 0 <= i < old(self).queue@.len() ==>
                        #[trigger] final(self).queue@[i] == old(self).queue@[i]
                    &&& final(self).queue@.last().state == ProcessState::Unstarted
                    &&& final(self).queue@.last().id ==
                        (if old(self).ids.freed@.len() > 0 { old(self).ids.freed@.last() }
                         else { old(self).ids.next })
                    &&& !old(self).ids.live().contains(final(self).queue@.last().id)
                    &&& final(self).ids.live() =~= old(self).ids.live()
                        .insert(final(self).queue@.last().id)
                    &&& pool_grown(old(self).pool, final(self).pool,
                        final(self).queue@.last().page_set())
                },
                Err(_) => {
                    &&& final(self).queue@ == old(self).queue@
                    &&& final(self).pool@ == old(self).pool@
                    &&& final(self).ids.live() =~= old(self).ids.live()
                },
            },
            // a policy violation is never masked by anything but a resource failure
            ({
                let scan = crate::process::first_seg_error(elf.segments@, old(self).layout,
                    elf.segments@.len() as int);
                (elf.header.program_entry_size == crate::elf::PROG_HEADER_SIZE
                    && scan is Some)
                    ==> (r == Err::<(), ELFError>(scan->Some_0)
                        || r == Err::<(), ELFError>(ELFError::FailedAlloc)
                        || r == Err::<(), ELFError>(ELFError::FailedMap))
            }),
            // with a free page at hand and no accepted segment before the first
            // offender, the policy error itself is forced
            ({
                let scan = crate::process::first_seg_error(elf.segments@, old(self).layout,
                    elf.segments@.len() as int);
                (elf.header.program_entry_size == crate::elf::PROG_HEADER_SIZE
                    && scan is Some
                    && crate::palloc::count_free(old(self).pool@,
                        old(self).pool@.len() as int) >= 1
                    && (forall|k: int| 0 <= k < elf.segments@.len()
                        && crate::process::first_seg_error(elf.segments@,
                            old(self).layout, k + 1) is None
                        ==> !seg_accepted(#[trigger] elf.segments@[k], old(self).layout)))
                    ==> r == Err::<(), ELFError>(scan->Some_0)
            }),
    {
        let ghost k0 = *old(self);
        let p0 = match Process::new_uninit(&mut self.pool) {
            Ok(p) => p,
            Err(_) => {
                proof {
                    crate::palloc::lemma_count_free_full(k0.pool@, k0.pool@.len() as int);
                }
                return Err(ELFError::FailedAlloc);
            },
        };
        let ghost pool_a = self.pool;
        let mut p = p0;
        let rr = p.initialize64(&mut self.pool, &mut self.ids, &self.layout, elf);
        let ghost pool_b = self.pool;
        proof {
            // everything the process came to own was free before it began
            assert forall|a: u64| #[trigger] p.owns(a) implies
                !k0.pool.is_allocated(a) by {
                if p0.owns(a) {
                } else {
                    assert(proc_fresh(p0, p).contains(a));
                    assert(!pool_a.is_allocated(a));
                    if k0.pool.is_allocated(a) {
                        crate::ptable::lemma_alloc_mono(k0.pool, pool_a, p0.page_set(), a);
                        assert(false);
                    }
                }
            }
        }
        match rr {
            Ok(()) => {},
            Err(e) => {
                let ghost pid = p.id;
                p.destroy(&mut self.pool, &mut self.ids);
                proof {
                    // the pool is byte-for-byte as before the attempt
                    assert forall|j: int| 0 <= j < self.pool@.len() implies
                        #[trigger] self.pool@[j] == k0.pool@[j] by {
                        k0.pool.lemma_addr_index(j);
                        let a = self.pool.addr_of(j) as u64;
                        assert(self.pool@[j] == (pool_b@[j] && !p.owns(a)));
                        assert(pool_b@[j] == (pool_a@[j]
                            || proc_fresh(p0, p).contains(pool_b.addr_of(j) as u64)));
                        assert(pool_a@[j] == (k0.pool@[j]
                            || p0.page_set().contains(pool_a.addr_of(j) as u64)));
                        if p.owns(a) {
                            assert(!k0.pool.is_allocated(a));
                            assert(!k0.pool@[j]);
                        } else {
                            if proc_fresh(p0, p).contains(a) {
                                assert(p.owns(a));
                                assert(false);
                            }
                            if p0.page_set().contains(a) {
                                assert(p0.owns(a));
                                assert(p.owns(a));
                                assert(false);
                            }
                        }
                    }
                    assert(self.pool@ =~= k0.pool@);
                    assert(self.ids.live() =~= k0.ids.live());
                    // the untouched parts of the invariant survive
                    assert forall|i: int| 0 <= i < self.queue@.len() implies
                        self.proc_ok(#[trigger] self.queue@[i])
                            && (self.queue@[i].state == ProcessState::Ready
                                || self.queue@[i].state == ProcessState::Unstarted) by {
                        assert(k0.proc_ok(k0.queue@[i]));
                        assert(self.queue@[i] == k0.queue@[i]);
                        assert forall|a: u64| #[trigger] self.queue@[i].owns(a) implies
                            self.pool.is_allocated(a) by {
                            assert(k0.pool.is_allocated(a));
                        }
                    }
                    assert forall|h: int| 0 <= h < self.slots@.len()
                        && (#[trigger] self.slots@[h]).occupied() implies
                        self.proc_ok(self.slot_proc(h))
                            && self.slot_proc(h).state == ProcessState::Running by {
                        assert(k0.proc_ok(k0.slot_proc(h)));
                        assert(self.slot_proc(h) == k0.slot_proc(h));
                        assert forall|a: u64| #[trigger] self.slot_proc(h).owns(a) implies
                            self.pool.is_allocated(a) by {
                            assert(k0.pool.is_allocated(a));
                        }
                    }
                }
                return Err(e);
            },
        }
        proof {
            // older owners keep their pages and stay disjoint from the new one
            assert forall|i: int| 0 <= i < self.queue@.len() implies
                self.proc_ok(#[trigger] self.queue@[i])
                    && (self.queue@[i].state == ProcessState::Ready
                        || self.queue@[i].state == ProcessState::Unstarted)
                    && procs_disjoint(self.queue@[i], p)
                    && self.queue@[i].id != p.id by {
                assert(k0.proc_ok(k0.queue@[i]));
                assert forall|a: u64| #[trigger] self.queue@[i].owns(a) implies
                    self.pool.is_allocated(a) && !p.owns(a) by {
                    assert(k0.pool.is_allocated(a));
                    crate::ptable::lemma_alloc_mono(k0.pool, pool_a, p0.page_set(), a);
                    crate::ptable::lemma_alloc_mono(pool_a, pool_b, proc_fresh(p0, p), a);
                    if p.owns(a) {
                        assert(!k0.pool.is_allocated(a));
                    }
                }
            }
            assert forall|h: int| 0 <= h < self.slots@.len()
                && (#[trigger] self.slots@[h]).occupied() implies
                self.proc_ok(self.slot_proc(h))
                    && self.slot_proc(h).state == ProcessState::Running
                    && procs_disjoint(self.slot_proc(h), p)
                    && self.slot_proc(h).id != p.id by {
                assert(k0.proc_ok(k0.slot_proc(h)));
                assert(self.slot_proc(h) == k0.slot_proc(h));
                assert forall|a: u64| #[trigger] self.slot_proc(h).owns(a) implies
                    self.pool.is_allocated(a) && !p.owns(a) by {
                    assert(k0.pool.is_allocated(a));
                    crate::ptable::lemma_alloc_mono(k0.pool, pool_a, p0.page_set(), a);
                    crate::ptable::lemma_alloc_mono(pool_a, pool_b, proc_fresh(p0, p), a);
                    if p.owns(a) {
                        assert(!k0.pool.is_allocated(a));
                    }
                }
            }
            // the kernel table keeps its pages and stays disjoint
            assert forall|a: u64| #[trigger] self.kernel_table.owns(a) implies
                self.pool.is_allocated(a) && !p.owns(a) by {
                assert(k0.pool.is_allocated(a));
                crate::ptable::lemma_alloc_mono(k0.pool, pool_a, p0.page_set(), a);
                crate::ptable::lemma_alloc_mono(pool_a, pool_b, proc_fresh(p0, p), a);
                if p.owns(a) {
                    assert(!k0.pool.is_allocated(a));
                }
            }
        }
        let ghost qpre = self.queue@;
        self.queue.insert(p);
        proof {
            // the pool grew by exactly the new process's pages
            assert forall|a: u64| #[trigger] p0.page_set().contains(a) implies
                p.page_set().contains(a) by {
                assert(p0.owns(a));
                assert(p.owns(a));
            }
            assert forall|a: u64| #[trigger] proc_fresh(p0, p).contains(a) implies
                p.page_set().contains(a) by {
                assert(p.owns(a));
            }
            assert forall|a: u64| #[trigger] p.page_set().contains(a) implies
                p0.page_set().contains(a) || proc_fresh(p0, p).contains(a) by {
                assert(p.owns(a));
            }
            crate::ptable::lemma_grown_trans_sets(k0.pool, pool_a, pool_b,
                p0.page_set(), proc_fresh(p0, p), p.page_set());
            assert(self.queue@.last() == p);
            assert forall|i: int| 0 <= i < self.queue@.len() implies
                self.proc_ok(#[trigger] self.queue@[i])
                    && (self.queue@[i].state == ProcessState::Ready
                        || self.queue@[i].state == ProcessState::Unstarted) by {
                if i < qpre.len() {
                    assert(self.queue@[i] == qpre[i]);
                } else {
                    assert(self.queue@[i] == p);
                }
            }
            assert forall|i: int, j: int| 0 <= i < self.queue@.len()
                && 0 <= j < self.queue@.len() && i != j implies
                procs_disjoint(#[trigger] self.queue@[i], #[trigger] self.queue@[j])
                    && self.queue@[i].id != self.queue@[j].id by {
                if i < qpre.len() && j < qpre.len() {
                    assert(self.queue@[i] == qpre[i] && self.queue@[j] == qpre[j]);
                } else if i < qpre.len() {
                    assert(self.queue@[j] == p && self.queue@[i] == qpre[i]);
                } else {
                    assert(self.queue@[i] == p && self.queue@[j] == qpre[j]);
                    assert(procs_disjoint(qpre[j], p));
                    assert forall|a: u64| !(#[trigger] self.queue@[i].owns(a)
                        && #[trigger] self.queue@[j].owns(a)) by {}
                }
            }
            assert forall|i: int, h: int| 0 <= i < self.queue@.len()
                && 0 <= h < self.slots@.len()
                && (#[trigger] self.slots@[h]).occupied() implies
                procs_disjoint(#[trigger] self.queue@[i], self.slot_proc(h))
                    && self.queue@[i].id != self.slot_proc(h).id by {
                if i < qpre.len() {
                    assert(self.queue@[i] == qpre[i]);
                } else {
                    assert(self.queue@[i] == p);
                    assert(procs_disjoint(self.slot_proc(h), p));
                    assert forall|a: u64| !(#[trigger] self.queue@[i].owns(a)
                        && #[trigger] self.slot_proc(h).owns(a)) by {}
                }
            }
        }
        Ok(())
    }
}


impl Kernel {
    /// Take the next ready process and enter it on `hart`: the returned
    /// command is what the low-level switch routine receives; the process
    /// itself is parked in the hart's slot for the trap path to reclaim.
    pub fn dispatch(&mut self, hart: usize) -> (cmd: SwitchCommand)
        requires
            old(self).wf(),
            hart < old(self).layout.nhart,
            old(self).queue@.len() > 0,
            !old(self).slots@[hart as int].occupied(),
        ensures
            final(self).wf(),
            final(self).layout == old(self).layout,
            final(self).pool == old(self).pool,
            final(self).ids == old(self).ids,
            final(self).queue@ == old(self).queue@.subrange(1,
                old(self).queue@.len() as int),
            final(self).slots@[hart as int].occupied(),
            final(self).slot_proc(hart as int)
                == (Process { state: ProcessState::Running, ..old(self).queue@[0] }),
            forall|h: int| 0 <= h < final(self).slots@.len() && h != hart ==>
                #[trigger] final(self).slots@[h] == old(self).slots@[h],
            cmd == (SwitchCommand {
                pc: old(self).queue@[0].saved_pc,
                pgtbl_base: old(self).queue@[0].pgtbl.base,
                sp: old(self).queue@[0].saved_sp,
                resume: old(self).queue@[0].state == ProcessState::Ready,
            }),
    {
        let ghost k0 = *old(self);
        let next = self.queue.get_ready_process();
        let ghost np = next;
        let (gpi, cmd) = match next.state {
            ProcessState::Ready => next.resume(),
            ProcessState::Unstarted => next.start(),
            _ => {
                proof {
                    assert(k0.queue@[0].state == ProcessState::Ready
                        || k0.queue@[0].state == ProcessState::Unstarted);
                }
                unreached()
            },
        };
        self.slots[hart].save_gp_info64(gpi);
        proof {
            let run = self.slot_proc(hart as int);
            assert(k0.proc_ok(np));
            lemma_owns_eq(np, run);
            assert(run.wf());
            assert forall|a: u64| #[trigger] run.owns(a) implies
                self.pool.is_allocated(a) by {
                assert(np.owns(a));
            }
            assert(run.id == np.id && run.id != 0);
            assert(self.ids.live().contains(run.id));
            assert forall|a: u64| !(#[trigger] run.owns(a)
                && #[trigger] self.kernel_table.owns(a)) by {
                assert(run.owns(a) == np.owns(a));
            }
            assert(self.proc_ok(run));
            assert forall|i: int| 0 <= i < self.queue@.len() implies
                self.proc_ok(#[trigger] self.queue@[i])
                    && (self.queue@[i].state == ProcessState::Ready
                        || self.queue@[i].state == ProcessState::Unstarted) by {
                assert(self.queue@[i] == k0.queue@[i + 1]);
            }
            assert forall|i: int, j: int| 0 <= i < self.queue@.len()
                && 0 <= j < self.queue@.len() && i != j implies
                procs_disjoint(#[trigger] self.queue@[i], #[trigger] self.queue@[j])
                    && self.queue@[i].id != self.queue@[j].id by {
                assert(self.queue@[i] == k0.queue@[i + 1]);
                assert(self.queue@[j] == k0.queue@[j + 1]);
            }
            assert forall|i: int, h: int| 0 <= i < self.queue@.len()
                && 0 <= h < self.slots@.len()
                && (#[trigger] self.slots@[h]).occupied() implies
                procs_disjoint(#[trigger] self.queue@[i], self.slot_proc(h))
                    && self.queue@[i].id != self.slot_proc(h).id by {
                assert(self.queue@[i] == k0.queue@[i + 1]);
                if h == hart {
                    assert(procs_disjoint(k0.queue@[i + 1], np));
                    assert forall|a: u64| !(#[trigger] self.queue@[i].owns(a)
                        && #[trigger] self.slot_proc(h).owns(a)) by {
                        assert(run.owns(a) == np.owns(a));
                    }
                } else {
                    assert(self.slots@[h] == k0.slots@[h]);
                    assert(self.slot_proc(h) == k0.slot_proc(h));
                }
            }
            assert forall|h: int, g: int| 0 <= h < self.slots@.len()
                && 0 <= g < self.slots@.len() && h != g
                && (#[trigger] self.slots@[h]).occupied()
                && (#[trigger] self.slots@[g]).occupied() implies
                procs_disjoint(self.slot_proc(h), self.slot_proc(g))
                    && self.slot_proc(h).id != self.slot_proc(g).id by {
                if h == hart {
                    assert(self.slot_proc(g) == k0.slot_proc(g));
                    assert(procs_disjoint(k0.queue@[0], k0.slot_proc(g)));
                    assert forall|a: u64| !(#[trigger] self.slot_proc(h).owns(a)
                        && #[trigger] self.slot_proc(g).owns(a)) by {
                        assert(self.slot_proc(h).owns(a) == np.owns(a));
                    }
                } else if g == hart {
                    assert(self.slot_proc(h) == k0.slot_proc(h));
                    assert(procs_disjoint(k0.queue@[0], k0.slot_proc(h)));
                    assert forall|a: u64| !(#[trigger] self.slot_proc(h).owns(a)
                        && #[trigger] self.slot_proc(g).owns(a)) by {
                        assert(self.slot_proc(g).owns(a) == np.owns(a));
                    }
                } else {
                    assert(self.slot_proc(h) == k0.slot_proc(h));
                    assert(self.slot_proc(g) == k0.slot_proc(g));
                }
            }
        }
        cmd
    }

    /// The cooperative-yield path, entered from a trap with the yielding
    /// process's program counter, stack pointer and a cause code (only the
    /// cooperative cause exists). The current process is reclaimed from the
    /// hart's slot, advanced past the yielding instruction, parked as
    /// `Ready` at the back of the queue, and the next process is entered.
    pub fn pause(&mut self, hart: usize, pc: u64, sp: u64, cause: u64) -> (cmd: SwitchCommand)
        requires
            old(self).wf(),
            hart < old(self).layout.nhart,
            old(self).slots@[hart as int].occupied(),
            old(self).queue@.len() < usize::MAX - 1,
            cause == 0,
            pc + 4 <= u64::MAX,
        ensures
            final(self).wf(),
            final(self).layout == old(self).layout,
            final(self).pool == old(self).pool,
            final(self).ids == old(self).ids,
            final(self).slots@[hart as int].occupied(),
            ({
                let paused = Process {
                    saved_pc: (pc + 4) as u64,
                    saved_sp: sp,
                    state: ProcessState::Ready,
                    ..old(self).slot_proc(hart as int)
                };
                let qmid = old(self).queue@.push(paused);
                &&& final(self).queue@ == qmid.subrange(1, qmid.len() as int)
                &&& final(self).slot_proc(hart as int)
                    == (Process { state: ProcessState::Running, ..qmid[0] })
                &&& cmd == (SwitchCommand {
                    pc: qmid[0].saved_pc,
                    pgtbl_base: qmid[0].pgtbl.base,
                    sp: qmid[0].saved_sp,
                    resume: qmid[0].state == ProcessState::Ready,
                })
            }),
    {
        let ghost k0 = *old(self);
        let gpi = self.slots[hart].restore_gp_info64();
        let mut proc = gpi.current_process;
        let ghost origp = proc;
        proc.saved_pc = pc + 4;
        proc.saved_sp = sp;
        proc.state = ProcessState::Ready;
        let ghost paused = proc;
        proof {
            lemma_owns_eq(origp, paused);
            assert(paused.wf());
            // the paused process re-enters the pool of queued processes
            assert forall|a: u64| #[trigger] paused.owns(a) implies
                self.pool.is_allocated(a) by {
                assert(origp.owns(a));
            }
        }
        self.queue.insert(proc);
        proof {
            assert forall|i: int| 0 <= i < self.queue@.len() implies
                self.proc_ok(#[trigger] self.queue@[i])
                    && (self.queue@[i].state == ProcessState::Ready
                        || self.queue@[i].state == ProcessState::Unstarted) by {
                if i < k0.queue@.len() {
                    assert(self.queue@[i] == k0.queue@[i]);
                } else {
                    assert(self.queue@[i] == paused);
                    assert(k0.proc_ok(origp));
                    assert(paused.id == origp.id && paused.id != 0);
                    assert(self.ids.live().contains(paused.id));
                    assert forall|a: u64| !(#[trigger] paused.owns(a)
                        && #[trigger] self.kernel_table.owns(a)) by {
                        assert(paused.owns(a) == origp.owns(a));
                    }
                    assert(self.proc_ok(paused));
                }
            }
            assert forall|i: int, j: int| 0 <= i < self.queue@.len()
                && 0 <= j < self.queue@.len() && i != j implies
                procs_disjoint(#[trigger] self.queue@[i], #[trigger] self.queue@[j])
                    && self.queue@[i].id != self.queue@[j].id by {
                let n = k0.queue@.len() as int;
                if i < n && j < n {
                    assert(self.queue@[i] == k0.queue@[i] && self.queue@[j] == k0.queue@[j]);
                } else if i < n {
                    assert(self.queue@[j] == paused && self.queue@[i] == k0.queue@[i]);
                    assert(procs_disjoint(k0.queue@[i], k0.slot_proc(hart as int)));
                    assert forall|a: u64| !(#[trigger] self.queue@[i].owns(a)
                        && #[trigger] self.queue@[j].owns(a)) by {
                        assert(paused.owns(a) == origp.owns(a));
                    }
                } else {
                    assert(self.queue@[i] == paused && self.queue@[j] == k0.queue@[j]);
                    assert(procs_disjoint(k0.queue@[j], k0.slot_proc(hart as int)));
                    assert forall|a: u64| !(#[trigger] self.queue@[i].owns(a)
                        && #[trigger] self.queue@[j].owns(a)) by {
                        assert(paused.owns(a) == origp.owns(a));
                    }
                }
            }
            assert forall|i: int, h: int| 0 <= i < self.queue@.len()
                && 0 <= h < self.slots@.len()
                && (#[trigger] self.slots@[h]).occupied() implies
                procs_disjoint(#[trigger] self.queue@[i], self.slot_proc(h))
                    && self.queue@[i].id != self.slot_proc(h).id by {
                assert(h != hart);
                assert(self.slot_proc(h) == k0.slot_proc(h));
                if i < k0.queue@.len() {
                    assert(self.queue@[i] == k0.queue@[i]);
                } else {
                    assert(self.queue@[i] == paused);
                    assert(procs_disjoint(k0.slot_proc(h), k0.slot_proc(hart as int)));
                    assert forall|a: u64| !(#[trigger] self.queue@[i].owns(a)
                        && #[trigger] self.slot_proc(h).owns(a)) by {
                        assert(paused.owns(a) == origp.owns(a));
                    }
                }
            }
            assert forall|h: int| 0 <= h < self.slots@.len()
                && (#[trigger] self.slots@[h]).occupied() implies
                self.proc_ok(self.slot_proc(h))
                    && self.slot_proc(h).state == ProcessState::Running by {
                assert(h != hart);
                assert(self.slots@[h] == k0.slots@[h]);
                assert(self.slot_proc(h) == k0.slot_proc(h));
                assert(k0.proc_ok(k0.slot_proc(h)));
            }
            assert forall|h: int, g: int| 0 <= h < self.slots@.len()
                && 0 <= g < self.slots@.len() && h != g
                && (#[trigger] self.slots@[h]).occupied()
                && (#[trigger] self.slots@[g]).occupied() implies
                procs_disjoint(self.slot_proc(h), self.slot_proc(g))
                    && self.slot_proc(h).id != self.slot_proc(g).id by {
                assert(h != hart && g != hart);
                assert(self.slots@[h] == k0.slots@[h]);
                assert(self.slots@[g] == k0.slots@[g]);
                assert(self.slot_proc(h) == k0.slot_proc(h));
                assert(self.slot_proc(g) == k0.slot_proc(g));
            }
            assert(self.wf());
        }
        self.dispatch(hart)
    }

    /// The exit path: the current process is reclaimed from the hart's
    /// slot, parked out of `Running`, destroyed — returning its page table
    /// and extents to the pool and its id to the generator — and the next
    /// ready process is entered. The queue must hold one.
    pub fn process_exit_rust(&mut self, hart: usize, exit_code: i64) -> (cmd: SwitchCommand)
        requires
            old(self).wf(),
            hart < old(self).layout.nhart,
            old(self).slots@[hart as int].occupied(),
            old(self).queue@.len() > 0,
        ensures
            final(self).wf(),
            final(self).layout == old(self).layout,
            final(self).queue@ == old(self).queue@.subrange(1,
                old(self).queue@.len() as int),
            final(self).slots@[hart as int].occupied(),
            final(self).slot_proc(hart as int)
                == (Process { state: ProcessState::Running, ..old(self).queue@[0] }),
            // the dead process's pages all return to the pool; nothing else moves
            forall|j: int| 0 <= j < final(self).pool@.len() ==>
                #[trigger] final(self).pool@[j] == (old(self).pool@[j]
                    && !old(self).slot_proc(hart as int)
                        .owns(final(self).pool.addr_of(j) as u64)),
            final(self).ids.live() =~= old(self).ids.live()
                .remove(old(self).slot_proc(hart as int).id),
            cmd == (SwitchCommand {
                pc: old(self).queue@[0].saved_pc,
                pgtbl_base: old(self).queue@[0].pgtbl.base,
                sp: old(self).queue@[0].saved_sp,
                resume: old(self).queue@[0].state == ProcessState::Ready,
            }),
    {
        let ghost k0 = *old(self);
        let gpi = self.slots[hart].restore_gp_info64();
        let mut proc = gpi.current_process;
        let ghost origp = proc;
        proc.state = ProcessState::Dead;
        let ghost dead = proc;
        proof {
            lemma_owns_eq(origp, dead);
            assert(dead.wf());
            assert forall|a: u64| #[trigger] dead.owns(a) implies
                self.pool.is_allocated(a) by {
                assert(origp.owns(a));
            }
        }
        let ghost pool_pre = self.pool;
        proc.destroy(&mut self.pool, &mut self.ids);
        proof {
            // every other owner's pages survive: they are disjoint from the dead one
            assert forall|i: int| 0 <= i < self.queue@.len() implies
                self.proc_ok(#[trigger] self.queue@[i])
                    && (self.queue@[i].state == ProcessState::Ready
                        || self.queue@[i].state == ProcessState::Unstarted) by {
                assert(k0.proc_ok(k0.queue@[i]));
                assert(procs_disjoint(k0.queue@[i], origp));
                assert forall|a: u64| #[trigger] self.queue@[i].owns(a) implies
                    self.pool.is_allocated(a) by {
                    assert(pool_pre.is_allocated(a));
                    pool_pre.lemma_index_addr(a);
                    let j = pool_pre.index_of(a);
                    assert(self.pool@[j] == (pool_pre@[j]
                        && !dead.owns(self.pool.addr_of(j) as u64)));
                    if dead.owns(a) {
                        assert(origp.owns(a));
                        assert(false);
                    }
                }
                assert(self.ids.live().contains(self.queue@[i].id)) by {
                    assert(k0.queue@[i].id != origp.id);
                }
            }
            assert forall|h: int| 0 <= h < self.slots@.len()
                && (#[trigger] self.slots@[h]).occupied() implies
                self.proc_ok(self.slot_proc(h))
                    && self.slot_proc(h).state == ProcessState::Running by {
                assert(h != hart);
                assert(self.slot_proc(h) == k0.slot_proc(h));
                assert(k0.proc_ok(k0.slot_proc(h)));
                assert(procs_disjoint(k0.slot_proc(h), origp));
                assert forall|a: u64| #[trigger] self.slot_proc(h).owns(a) implies
                    self.pool.is_allocated(a) by {
                    assert(pool_pre.is_allocated(a));
                    pool_pre.lemma_index_addr(a);
                    let j = pool_pre.index_of(a);
                    assert(self.pool@[j] == (pool_pre@[j]
                        && !dead.owns(self.pool.addr_of(j) as u64)));
                    if dead.owns(a) {
                        assert(origp.owns(a));
                        assert(false);
                    }
                }
                assert(self.ids.live().contains(self.slot_proc(h).id)) by {
                    assert(k0.slot_proc(h).id != origp.id);
                }
            }
            assert forall|a: u64| #[trigger] self.kernel_table.owns(a) implies
                self.pool.is_allocated(a) by {
                assert(pool_pre.is_allocated(a));
                pool_pre.lemma_index_addr(a);
                let j = pool_pre.index_of(a);
                assert(self.pool@[j] == (pool_pre@[j]
                    && !dead.owns(self.pool.addr_of(j) as u64)));
                if dead.owns(a) {
                    assert(origp.owns(a));
                    assert(proc_table_disjoint(origp, k0.kernel_table));
                    assert(false);
                }
            }
            assert forall|j: int| 0 <= j < self.pool@.len() implies
                #[trigger] self.pool@[j] == (k0.pool@[j]
                    && !origp.owns(self.pool.addr_of(j) as u64)) by {
                let a = self.pool.addr_of(j) as u64;
                assert(self.pool@[j] == (pool_pre@[j] && !dead.owns(a)));
                assert(dead.owns(a) == origp.owns(a));
            }
            assert forall|i: int, j: int| 0 <= i < self.queue@.len()
                && 0 <= j < self.queue@.len() && i != j implies
                procs_disjoint(#[trigger] self.queue@[i], #[trigger] self.queue@[j])
                    && self.queue@[i].id != self.queue@[j].id by {
                assert(self.queue@[i] == k0.queue@[i]);
                assert(self.queue@[j] == k0.queue@[j]);
            }
            assert forall|i: int, h: int| 0 <= i < self.queue@.len()
                && 0 <= h < self.slots@.len()
                && (#[trigger] self.slots@[h]).occupied() implies
                procs_disjoint(#[trigger] self.queue@[i], self.slot_proc(h))
                    && self.queue@[i].id != self.slot_proc(h).id by {
                assert(h != hart);
                assert(self.slots@[h] == k0.slots@[h]);
                assert(self.slot_proc(h) == k0.slot_proc(h));
                assert(self.queue@[i] == k0.queue@[i]);
            }
            assert forall|h: int, g: int| 0 <= h < self.slots@.len()
                && 0 <= g < self.slots@.len() && h != g
                && (#[trigger] self.slots@[h]).occupied()
                && (#[trigger] self.slots@[g]).occupied() implies
                procs_disjoint(self.slot_proc(h), self.slot_proc(g))
                    && self.slot_proc(h).id != self.slot_proc(g).id by {
                assert(h != hart && g != hart);
                assert(self.slots@[h] == k0.slots@[h]);
                assert(self.slots@[g] == k0.slots@[g]);
                assert(self.slot_proc(h) == k0.slot_proc(h));
                assert(self.slot_proc(g) == k0.slot_proc(g));
            }
            assert(self.wf());
        }
        self.dispatch(hart)
    }
}

} // verus!
