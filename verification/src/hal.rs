//! The hardware-facing surface of the virtual-memory engine: page-mapping
//! permission flags, the error taxonomy of page-table operations, and the
//! page-table calls the rest of the kernel goes through.

use vstd::prelude::*;

use crate::PAGE_SIZE;
use crate::palloc::PagePool;
use crate::ptable::{
    PageTable, page_map, page_unmap, page_map_post, page_unmap_post, pool_grown, table_fresh,
    PTE_VALID, PTE_READ, PTE_WRITE, PTE_EXEC, PTE_USER, PTE_GLOBAL, PTE_ACCESSED, PTE_DIRTY,
    VPN_TOP,
};

verus! {

/// Things that can be requested of a page mapping. Not every set need be
/// valid for all hardware; an unrepresentable request is a reported error,
/// never silently dropped.
#[derive(Clone, Copy, Debug, PartialEq, Eq, Structural)]
pub struct PageMapFlags {
    pub read: bool,
    pub write: bool,
    pub execute: bool,
    pub valid: bool,
    pub user: bool,
    pub global_page: bool,
    pub accessed: bool,
    pub dirty: bool,
}

impl PageMapFlags {
    /// No flags at all.
    pub fn empty() -> (r: Self)
        ensures
            r == (PageMapFlags {
                read: false, write: false, execute: false, valid: false,
                user: false, global_page: false, accessed: false, dirty: false,
            }),
    {
        PageMapFlags {
            read: false, write: false, execute: false, valid: false,
            user: false, global_page: false, accessed: false, dirty: false,
        }
    }

    /// Readable.
    pub fn read() -> (r: Self)
        ensures r == (PageMapFlags { read: true, ..spec_empty_flags() }),
    {
        let mut f = Self::empty();
        f.read = true;
        f
    }

    /// Writable.
    pub fn write() -> (r: Self)
        ensures r == (PageMapFlags { write: true, ..spec_empty_flags() }),
    {
        let mut f = Self::empty();
        f.write = true;
        f
    }

    /// Executable.
    pub fn execute() -> (r: Self)
        ensures r == (PageMapFlags { execute: true, ..spec_empty_flags() }),
    {
        let mut f = Self::empty();
        f.execute = true;
        f
    }

    /// Accessible from user privilege.
    pub fn user() -> (r: Self)
        ensures r == (PageMapFlags { user: true, ..spec_empty_flags() }),
    {
        let mut f = Self::empty();
        f.user = true;
        f
    }

    /// The union of two flag sets.
    pub fn or(self, o: Self) -> (r: Self)
        ensures
            r == (PageMapFlags {
                read: self.read || o.read,
                write: self.write || o.write,
                execute: self.execute || o.execute,
                valid: self.valid || o.valid,
                user: self.user || o.user,
                global_page: self.global_page || o.global_page,
                accessed: self.accessed || o.accessed,
                dirty: self.dirty || o.dirty,
            }),
    {
        PageMapFlags {
            read: self.read || o.read,
            write: self.write || o.write,
            execute: self.execute || o.execute,
            valid: self.valid || o.valid,
            user: self.user || o.user,
            global_page: self.global_page || o.global_page,
            accessed: self.accessed || o.accessed,
            dirty: self.dirty || o.dirty,
        }
    }

    /// Decode a raw request word. Bits beyond the eight the hardware can
    /// express are a reported error carrying the offending word.
    pub fn from_bits(bits: u32) -> (r: Result<Self, HALVMError>)
        ensures
            bits > 255 ==> r == Err::<PageMapFlags, HALVMError>(HALVMError::UnsupportedFlags(bits)),
            bits <= 255 ==> (r matches Ok(f) && f == spec_flags_of_bits(bits)),
    {
        if bits > 255 {
            return Err(HALVMError::UnsupportedFlags(bits));
        }
        Ok(PageMapFlags {
            read: bits % 2 == 1,
            write: (bits / 2) % 2 == 1,
            execute: (bits / 4) % 2 == 1,
            valid: (bits / 8) % 2 == 1,
            user: (bits / 16) % 2 == 1,
            global_page: (bits / 32) % 2 == 1,
            accessed: (bits / 64) % 2 == 1,
            dirty: (bits / 128) % 2 == 1,
        })
    }
}

/// The all-false flag set.
pub open spec fn spec_empty_flags() -> PageMapFlags {
    PageMapFlags {
        read: false, write: false, execute: false, valid: false,
        user: false, global_page: false, accessed: false, dirty: false,
    }
}

/// The flag set a raw request word (of at most eight bits) denotes.
pub open spec fn spec_flags_of_bits(bits: u32) -> PageMapFlags {
    PageMapFlags {
        read: bits % 2 == 1,
        write: (bits / 2) % 2 == 1,
        execute: (bits / 4) % 2 == 1,
        valid: (bits / 8) % 2 == 1,
        user: (bits / 16) % 2 == 1,
        global_page: (bits / 32) % 2 == 1,
        accessed: (bits / 64) % 2 == 1,
        dirty: (bits / 128) % 2 == 1,
    }
}

/// Things that can go wrong in page-table operations.
#[derive(Clone, Copy, Debug, PartialEq, Eq, Structural)]
pub enum HALVMError {
    /// An address or range does not fit the translation scheme.
    MisalignedAddress,
    /// The pool could not supply a page for a table level.
    FailedAllocation,
    /// The request word holds flags the hardware cannot express.
    UnsupportedFlags(u32),
    /// Part of the range is already validly mapped; mappings are never
    /// silently overwritten.
    AlreadyMapped,
    /// The virtual or physical range reaches beyond what the translation
    /// scheme addresses.
    OutOfBounds,
}

/// The hardware entry bits a flag set translates to.
pub open spec fn pte_of_flags(f: PageMapFlags) -> u64 {
    ((if f.valid { 1u64 } else { 0u64 })
        + (if f.read { 2u64 } else { 0u64 })
        + (if f.execute { 8u64 } else { 0u64 })
        + (if f.write { 4u64 } else { 0u64 })
        + (if f.user { 16u64 } else { 0u64 })
        + (if f.global_page { 32u64 } else { 0u64 })
        + (if f.accessed { 64u64 } else { 0u64 })
        + (if f.dirty { 128u64 } else { 0u64 })) as u64
}

/// Translate a flag set into the hardware's page-table-entry permission bits.
pub fn flags_hal_to_ptable(general: PageMapFlags) -> (r: u64)
    ensures
        r == pte_of_flags(general),
        r <= 255,
{
    let mut out: u64 = 0;
    if general.valid {
        out = out + PTE_VALID;
    }
    if general.read {
        out = out + PTE_READ;
    }
    if general.execute {
        out = out + PTE_EXEC;
    }
    if general.write {
        out = out + PTE_WRITE;
    }
    if general.user {
        out = out + PTE_USER;
    }
    if general.global_page {
        out = out + PTE_GLOBAL;
    }
    if general.accessed {
        out = out + PTE_ACCESSED;
    }
    if general.dirty {
        out = out + PTE_DIRTY;
    }
    out
}


// ---------------------------------------------------------------------
// Page-table calls

/// Nothing is needed before page-table use on this platform.
pub fn pgtbl_setup() {
}

/// Memory regions the platform wants mapped into the kernel table beyond
/// the generic ones, with their permissions. Empty on this platform: the
/// firmware owns the device windows.
pub fn kernel_reserved_areas() -> (r: Vec<(crate::vm::PhysPageExtent, PageMapFlags)>)
    ensures
        r@.len() == 0,
{
    Vec::new()
}

/// The translation-register value that installs `pgtbl`: the paging mode in
/// the top bits and the root page's frame number below.
pub open spec fn satp_of(base: u64) -> u64 {
    (0x8000000000000000u64 + base / PAGE_SIZE) as u64
}

/// Per-table fixup after the kernel table is populated: this platform
/// records the root's address for the trap path, which is the value returned.
pub fn kernel_pgtbl_late_setup(pgtbl: &PageTable) -> (r: u64)
    ensures
        r == pgtbl.base,
{
    pgtbl.base
}

/// Allocate one zeroed page from the pool and wrap it as an empty table:
/// zero-filled means every entry invalid, so nothing is mapped.
pub fn pgtbl_new_empty(pool: &mut PagePool) -> (r: Result<PageTable, HALVMError>)
    requires
        old(pool).wf(),
    ensures
        final(pool).wf(),
        final(pool).base_spec() == old(pool).base_spec(),
        final(pool)@.len() == old(pool)@.len(),
        match r {
            Ok(pt) => {
                &&& pt.wf()
                &&& pt.owned_by(*final(pool))
                &&& pt.pages@ =~= seq![pt.base]
                &&& forall|v: nat| v < VPN_TOP ==> !(#[trigger] pt.mapped(v))
                &&& forall|v: nat| v < VPN_TOP ==> !(#[trigger] pt.path_present(v))
                &&& old(pool).in_range(pt.base)
                &&& !old(pool).is_allocated(pt.base)
                &&& final(pool)@ == old(pool)@.update(old(pool).index_of(pt.base), true)
                &&& crate::palloc::count_free(final(pool)@, final(pool)@.len() as int)
                    == crate::palloc::count_free(old(pool)@, old(pool)@.len() as int) - 1
            },
            Err(e) => {
                &&& e == HALVMError::FailedAllocation
                &&& final(pool)@ == old(pool)@
                &&& forall|j: int| 0 <= j < final(pool)@.len() ==> final(pool)@[j]
            },
        },
{
    match pool.palloc() {
        Ok(page) => {
            let pt = PageTable::new(page.addr);
            proof {
                assert forall|a: u64| #[trigger] pt.owns(a) implies pool.is_allocated(a) by {
                    assert(pt.pages@[0] == page.addr);
                    assert(a == page.addr);
                }
                old(pool).lemma_index_addr(page.addr);
                crate::palloc::lemma_count_free_update(old(pool)@,
                    old(pool).index_of(page.addr), old(pool)@.len() as int);
            }
            Ok(pt)
        },
        Err(_) => Err(HALVMError::FailedAllocation),
    }
}

/// Map `[virt, virt + nbytes)` to the physical pages starting at `phys`,
/// with `flags` translated to hardware bits and validity forced on.
/// Overlap with an existing mapping is rejected, never overwritten.
pub fn pgtbl_insert_range(
    pgtbl: &mut PageTable, pool: &mut PagePool,
    virt: u64, phys: u64, nbytes: u64, flags: PageMapFlags,
) -> (r: Result<(), HALVMError>)
    requires
        old(pgtbl).wf(),
        old(pool).wf(),
        old(pgtbl).owned_by(*old(pool)),
        nbytes >= 1,
    ensures
        final(pgtbl).wf(),
        final(pool).wf(),
        final(pgtbl).owned_by(*final(pool)),
        final(pgtbl).base == old(pgtbl).base,
        forall|a: u64| old(pgtbl).owns(a) ==> final(pgtbl).owns(a),
        pool_grown(*old(pool), *final(pool), table_fresh(*old(pgtbl), *final(pgtbl))),
        page_map_post(*old(pgtbl), *final(pgtbl), *old(pool), *final(pool),
            virt, phys, nbytes, pte_of_flags(flags), r),
        (crate::ptable::map_in_bounds(virt, phys, nbytes)
            && (forall|k: int| 0 <= k < crate::ptable::page_count(virt, nbytes)
                ==> !(#[trigger] old(pgtbl).mapped(
                    (crate::ptable::first_vpn(virt) + k) as nat)))
            && crate::palloc::count_free(old(pool)@, old(pool)@.len() as int)
                >= 2 * crate::ptable::page_count(virt, nbytes))
            ==> r is Ok,
        crate::palloc::count_free(final(pool)@, final(pool)@.len() as int)
            >= crate::palloc::count_free(old(pool)@, old(pool)@.len() as int)
                - 2 * crate::ptable::page_count(virt, nbytes),
{
    let pte = flags_hal_to_ptable(flags);
    page_map(pgtbl, pool, virt, phys, nbytes, pte)
}

/// Invalidate every mapping in `[virt, virt + nbytes)`.
pub fn pgtbl_remove_range(
    pgtbl: &mut PageTable, pool: &mut PagePool, virt: u64, nbytes: u64,
) -> (r: Result<(), HALVMError>)
    requires
        old(pgtbl).wf(),
        old(pool).wf(),
        old(pgtbl).owned_by(*old(pool)),
        nbytes >= 1,
    ensures
        final(pgtbl).wf(),
        final(pool).wf(),
        final(pgtbl).owned_by(*final(pool)),
        final(pgtbl).base == old(pgtbl).base,
        forall|a: u64| old(pgtbl).owns(a) ==> final(pgtbl).owns(a),
        pool_grown(*old(pool), *final(pool), table_fresh(*old(pgtbl), *final(pgtbl))),
        page_unmap_post(*old(pgtbl), *final(pgtbl), *old(pool), *final(pool),
            virt, nbytes, r),
        (virt + nbytes <= crate::ptable::VA_TOP
            && crate::palloc::count_free(old(pool)@, old(pool)@.len() as int)
                >= 2 * crate::ptable::page_count(virt, nbytes))
            ==> r is Ok,
        crate::palloc::count_free(final(pool)@, final(pool)@.len() as int)
            >= crate::palloc::count_free(old(pool)@, old(pool)@.len() as int)
                - 2 * crate::ptable::page_count(virt, nbytes),
{
    page_unmap(pgtbl, pool, virt, nbytes)
}

/// The translation-register value for switching this hart to `pgtbl`;
/// translation caches must be invalidated on both sides of the write.
pub fn pgtbl_swap(pgtbl: &PageTable) -> (r: u64)
    ensures
        r == satp_of(pgtbl.base),
{
    0x8000000000000000u64 + pgtbl.base / PAGE_SIZE
}

/// Walk the whole table and return every page backing any of its levels to
/// the pool, the root included.
pub fn pgtbl_free(pgtbl: PageTable, pool: &mut PagePool)
    requires
        pgtbl.wf(),
        old(pool).wf(),
        pgtbl.owned_by(*old(pool)),
    ensures
        final(pool).wf(),
        final(pool).base_spec() == old(pool).base_spec(),
        final(pool)@.len() == old(pool)@.len(),
        forall|j: int| 0 <= j < final(pool)@.len() ==>
            #[trigger] final(pool)@[j]
                == (old(pool)@[j] && !pgtbl.owns(final(pool).addr_of(j) as u64)),
{
    pgtbl.free(pool)
}

} // verus!
