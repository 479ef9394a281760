//! Three-level radix page table (39-bit virtual addresses, 4096-byte pages,
//! 512 eight-byte entries per level). The tree is modelled as nested tables
//! owned by the root handle; the physical pages backing every level are
//! recorded in the handle so that the whole table can be torn down and its
//! pages returned to the pool.

use vstd::prelude::*;

use crate::{PAGE_SIZE, page_aligned};
use crate::palloc::PagePool;
use crate::vm::VmError;

verus! {

/// One past the largest valid virtual address: 27 index bits plus 12 offset bits.
pub const VA_TOP: u64 = 549755813888;

/// One past the largest virtual page number.
pub const VPN_TOP: u64 = 134217728;

/// Number of entries in one page-table level.
pub const PTE_TOP: usize = 512;

/// Entry permission/status bits, as encoded in a hardware page-table entry.
pub const PTE_VALID: u64 = 1;
pub const PTE_READ: u64 = 2;
pub const PTE_WRITE: u64 = 4;
pub const PTE_EXEC: u64 = 8;
pub const PTE_USER: u64 = 16;
pub const PTE_GLOBAL: u64 = 32;
pub const PTE_ACCESSED: u64 = 64;
pub const PTE_DIRTY: u64 = 128;

/// A bottom-level entry: either invalid or a leaf mapping to a physical
/// frame with permission bits (always including `PTE_VALID`).
pub enum L0Entry {
    Invalid,
    Frame { pa: u64, pte: u64 },
}

/// A bottom-level table: 512 leaf entries.
pub struct L0Table {
    pub entries: Vec<L0Entry>,
}

/// A middle-level entry: either invalid or a pointer to a bottom-level table.
pub enum L1Entry {
    Invalid,
    Table(L0Table),
}

/// A middle-level table: 512 entries.
pub struct L1Table {
    pub entries: Vec<L1Entry>,
}

/// A root-level entry: either invalid or a pointer to a middle-level table.
pub enum L2Entry {
    Invalid,
    Table(L1Table),
}

/// A whole page table: the physical address of its root page, the root
/// level's 512 entries, and the list of physical pages backing every level
/// of the tree (the root page first).
pub struct PageTable {
    pub base: u64,
    pub entries: Vec<L2Entry>,
    pub pages: Vec<u64>,
}

// ---------------------------------------------------------------------
// Virtual page number arithmetic

/// Root-level index of a virtual page number.
pub open spec fn vpn_i2(vpn: nat) -> int {
    (vpn / 262144nat) as int
}

/// Middle-level index of a virtual page number.
pub open spec fn vpn_i1(vpn: nat) -> int {
    ((vpn / 512nat) % 512nat) as int
}

/// Bottom-level index of a virtual page number.
pub open spec fn vpn_i0(vpn: nat) -> int {
    (vpn % 512nat) as int
}

/// A virtual page number decomposes uniquely into its three level indices.
pub proof fn lemma_vpn_parts(vpn: nat)
    requires
        vpn < VPN_TOP,
    ensures
        0 <= vpn_i2(vpn) < 512,
        0 <= vpn_i1(vpn) < 512,
        0 <= vpn_i0(vpn) < 512,
        vpn == vpn_i2(vpn) * 262144 + vpn_i1(vpn) * 512 + vpn_i0(vpn),
{
    let q = vpn / 512nat;
    assert(vpn == q * 512 + vpn % 512nat && vpn % 512nat < 512) by (nonlinear_arith)
        requires q == vpn / 512nat,
    {}
    assert(q / 512nat == vpn / 262144nat) by (nonlinear_arith)
        requires q == vpn / 512nat,
    {}
    assert(q == (q / 512nat) * 512 + q % 512nat && q % 512nat < 512) by (nonlinear_arith) {}
    assert(vpn / 262144nat < 512) by (nonlinear_arith)
        requires vpn < VPN_TOP, VPN_TOP == 512 * 262144,
    {}
    assert(((q / 512nat) * 512 + q % 512nat) * 512 == (q / 512nat) * 262144 + (q % 512nat) * 512)
        by (nonlinear_arith)
    {}
}

/// Distinct virtual page numbers differ in at least one level index.
pub proof fn lemma_vpn_injective(a: nat, b: nat)
    requires
        a < VPN_TOP,
        b < VPN_TOP,
        vpn_i2(a) == vpn_i2(b),
        vpn_i1(a) == vpn_i1(b),
        vpn_i0(a) == vpn_i0(b),
    ensures
        a == b,
{
    lemma_vpn_parts(a);
    lemma_vpn_parts(b);
}

// ---------------------------------------------------------------------
// Well-formedness and the translation function

impl L0Table {
    pub open spec fn wf(self) -> bool {
        self.entries@.len() == 512
    }
}

impl L1Table {
    pub open spec fn wf(self) -> bool {
        &&& self.entries@.len() == 512
        &&& forall|i: int| 0 <= i < 512 ==>
            (#[trigger] self.entries@[i] matches L1Entry::Table(t0) ==> t0.wf())
    }
}

impl PageTable {
    /// Structural well-formedness: full levels throughout, and a duplicate-free
    /// record of page-aligned backing pages whose first entry is the root.
    pub open spec fn wf(self) -> bool {
        &&& self.entries@.len() == 512
        &&& forall|i: int| 0 <= i < 512 ==>
            (#[trigger] self.entries@[i] matches L2Entry::Table(t1) ==> t1.wf())
        &&& self.pages@.len() >= 1
        &&& self.pages@[0] == self.base
        &&& self.pages@.no_duplicates()
        &&& forall|k: int| 0 <= k < self.pages@.len() ==> page_aligned(#[trigger] self.pages@[k])
    }

    /// The physical page `a` backs some level of this table.
    pub open spec fn owns(self, a: u64) -> bool {
        self.pages@.contains(a)
    }

    /// Every page backing this table is currently allocated in `pool`.
    pub open spec fn owned_by(self, pool: PagePool) -> bool {
        forall|a: u64| #[trigger] self.owns(a) ==> pool.is_allocated(a)
    }

    /// What the table translates virtual page `vpn` to: a physical frame
    /// address and the entry's permission bits, or nothing.
    pub open spec fn lookup(self, vpn: nat) -> Option<(u64, u64)> {
        match self.entries@[vpn_i2(vpn)] {
            L2Entry::Invalid => None,
            L2Entry::Table(t1) => match t1.entries@[vpn_i1(vpn)] {
                L1Entry::Invalid => None,
                L1Entry::Table(t0) => match t0.entries@[vpn_i0(vpn)] {
                    L0Entry::Invalid => None,
                    L0Entry::Frame { pa, pte } => Some((pa, pte)),
                },
            },
        }
    }

    /// The intermediate levels on the walk to `vpn` are all present.
    pub open spec fn path_present(self, vpn: nat) -> bool {
        &&& self.entries@[vpn_i2(vpn)] matches L2Entry::Table(t1)
        &&& t1.entries@[vpn_i1(vpn)] matches L1Entry::Table(t0)
    }

    /// `vpn` currently translates to something.
    pub open spec fn mapped(self, vpn: nat) -> bool {
        self.lookup(vpn) is Some
    }
}

/// The pages newly backing `pt1` that did not back `pt0`.
pub open spec fn table_fresh(pt0: PageTable, pt1: PageTable) -> Set<u64> {
    Set::new(|a: u64| pt1.owns(a) && !pt0.owns(a))
}

/// Pool `p1` is pool `p0` with exactly the pages in `fresh` newly allocated;
/// every such page was free in `p0`.
pub open spec fn pool_grown(p0: PagePool, p1: PagePool, fresh: Set<u64>) -> bool {
    &&& p1.base_spec() == p0.base_spec()
    &&& p1@.len() == p0@.len()
    &&& forall|j: int| 0 <= j < p1@.len() ==>
        #[trigger] p1@[j] == (p0@[j] || fresh.contains(p1.addr_of(j) as u64))
    &&& forall|a: u64| #[trigger] fresh.contains(a) ==> p1.in_range(a) && !p0.is_allocated(a)
}

// ---------------------------------------------------------------------
// Construction

/// A fresh bottom-level table with every entry invalid (the state of a
/// zero-filled page).
fn new_l0_table() -> (r: L0Table)
    ensures
        r.wf(),
        forall|i: int| 0 <= i < 512 ==> r.entries@[i] is Invalid,
{
    let mut entries: Vec<L0Entry> = Vec::new();
    let mut k: usize = 0;
    while k < 512
        invariant
            entries@.len() == k,
            k <= 512,
            forall|i: int| 0 <= i < k ==> entries@[i] is Invalid,
        decreases 512 - k,
    {
        entries.push(L0Entry::Invalid);
        k = k + 1;
    }
    L0Table { entries }
}

/// A fresh middle-level table with every entry invalid.
fn new_l1_table() -> (r: L1Table)
    ensures
        r.wf(),
        forall|i: int| 0 <= i < 512 ==> r.entries@[i] is Invalid,
{
    let mut entries: Vec<L1Entry> = Vec::new();
    let mut k: usize = 0;
    while k < 512
        invariant
            entries@.len() == k,
            k <= 512,
            forall|i: int| 0 <= i < k ==> entries@[i] is Invalid,
        decreases 512 - k,
    {
        entries.push(L1Entry::Invalid);
        k = k + 1;
    }
    L1Table { entries }
}

impl PageTable {
    /// Wrap a freshly allocated, zero-filled root page as an empty table:
    /// nothing is mapped.
    pub fn new(addr: u64) -> (r: Self)
        requires
            page_aligned(addr),
        ensures
            r.wf(),
            r.base == addr,
            r.pages@ =~= seq![addr],
            forall|v: nat| v < VPN_TOP ==> !(#[trigger] r.mapped(v)),
            forall|v: nat| v < VPN_TOP ==> !(#[trigger] r.path_present(v)),
    {
        let mut entries: Vec<L2Entry> = Vec::new();
        let mut k: usize = 0;
        while k < 512
            invariant
                entries@.len() == k,
                k <= 512,
                forall|i: int| 0 <= i < k ==> entries@[i] is Invalid,
            decreases 512 - k,
        {
            entries.push(L2Entry::Invalid);
            k = k + 1;
        }
        let mut pages: Vec<u64> = Vec::new();
        pages.push(addr);
        let r = PageTable { base: addr, entries, pages };
        proof {
            assert forall|v: nat| v < VPN_TOP implies !(#[trigger] r.mapped(v)) by {
                lemma_vpn_parts(v);
                assert(r.entries@[vpn_i2(v)] is Invalid);
            }
            assert forall|v: nat| v < VPN_TOP implies !(#[trigger] r.path_present(v)) by {
                lemma_vpn_parts(v);
                assert(r.entries@[vpn_i2(v)] is Invalid);
            }
        }
        r
    }

    /// Read what the table maps `vpn` to.
    pub fn walk_lookup(&self, vpn: u64) -> (r: Option<(u64, u64)>)
        requires
            self.wf(),
            vpn < VPN_TOP,
        ensures
            r == self.lookup(vpn as nat),
    {
        proof {
            lemma_vpn_parts(vpn as nat);
        }
        let i2 = (vpn / ((PTE_TOP * PTE_TOP) as u64)) as usize;
        let i1 = ((vpn / (PTE_TOP as u64)) % (PTE_TOP as u64)) as usize;
        let i0 = (vpn % (PTE_TOP as u64)) as usize;
        match &self.entries[i2] {
            L2Entry::Invalid => None,
            L2Entry::Table(t1) => match &t1.entries[i1] {
                L1Entry::Invalid => None,
                L1Entry::Table(t0) => match &t0.entries[i0] {
                    L0Entry::Invalid => None,
                    L0Entry::Frame { pa, pte } => Some((*pa, *pte)),
                },
            },
        }
    }

    /// Write the leaf entry for `vpn`, which must have its path present.
    /// Only that one translation changes; the backing pages do not.
    fn set_leaf(&mut self, vpn: u64, pa: u64, pte: u64)
        requires
            old(self).wf(),
            vpn < VPN_TOP,
            old(self).path_present(vpn as nat),
        ensures
            final(self).wf(),
            final(self).base == old(self).base,
            final(self).pages@ == old(self).pages@,
            final(self).lookup(vpn as nat) == Some((pa, pte)),
            forall|v: nat| v < VPN_TOP && v != vpn ==>
                #[trigger] final(self).lookup(v) == old(self).lookup(v),
            forall|v: nat| v < VPN_TOP ==> #[trigger] final(self).path_present(v)
                == old(self).path_present(v),
    {
        proof {
            lemma_vpn_parts(vpn as nat);
        }
        let i2 = (vpn / ((PTE_TOP * PTE_TOP) as u64)) as usize;
        let i1 = ((vpn / (PTE_TOP as u64)) % (PTE_TOP as u64)) as usize;
        let i0 = (vpn % (PTE_TOP as u64)) as usize;
        let t1 = match &mut self.entries[i2] {
            L2Entry::Table(t1) => t1,
            L2Entry::Invalid => unreached(),
        };
        let t0 = match &mut t1.entries[i1] {
            L1Entry::Table(t0) => t0,
            L1Entry::Invalid => unreached(),
        };
        t0.entries.set(i0, L0Entry::Frame { pa, pte });
        proof {
            let s_new = *self;
            let s_old = *old(self);
            assert(s_new.lookup(vpn as nat) == Some((pa, pte)));
            assert forall|v: nat| v < VPN_TOP && v != vpn implies
                #[trigger] s_new.lookup(v) == s_old.lookup(v) by {
                lemma_vpn_parts(v);
                if vpn_i2(v) == i2 && vpn_i1(v) == i1 && vpn_i0(v) == i0 {
                    lemma_vpn_injective(v, vpn as nat);
                }
            }
            assert forall|v: nat| v < VPN_TOP implies #[trigger] s_new.path_present(v)
                == s_old.path_present(v) by {
                lemma_vpn_parts(v);
            }
        }
    }
}


// ---------------------------------------------------------------------
// Growing the tree

/// Pushing onto a sequence adds exactly one member.
pub proof fn lemma_push_contains(s: Seq<u64>, x: u64, a: u64)
    ensures
        s.push(x).contains(a) == (s.contains(a) || a == x),
{
    if s.push(x).contains(a) {
        let i = choose|i: int| 0 <= i < s.push(x).len() && s.push(x)[i] == a;
        if i < s.len() {
            assert(s[i] == a);
        }
    }
    if s.contains(a) {
        let i = choose|i: int| 0 <= i < s.len() && s[i] == a;
        assert(s.push(x)[i] == a);
    }
    if a == x {
        assert(s.push(x)[s.len() as int] == a);
    }
}

/// Composition: two fresh-growth steps make one.
pub proof fn lemma_grown_trans(
    pt0: PageTable, pt1: PageTable, pt2: PageTable,
    p0: PagePool, p1: PagePool, p2: PagePool,
)
    requires
        p0.wf(),
        pt0.owned_by(p0),
        pool_grown(p0, p1, table_fresh(pt0, pt1)),
        pool_grown(p1, p2, table_fresh(pt1, pt2)),
        forall|a: u64| pt0.owns(a) ==> pt1.owns(a),
        forall|a: u64| pt1.owns(a) ==> pt2.owns(a),
    ensures
        pool_grown(p0, p2, table_fresh(pt0, pt2)),
{
    assert forall|j: int| 0 <= j < p2@.len() implies
        p2@[j] == (p0@[j] || table_fresh(pt0, pt2).contains(#[trigger] p2.addr_of(j) as u64)) by {
        let a = p2.addr_of(j) as u64;
        assert(p1@[j] == (p0@[j] || table_fresh(pt0, pt1).contains(p1.addr_of(j) as u64)));
        assert(p2@[j] == (p1@[j] || table_fresh(pt1, pt2).contains(p2.addr_of(j) as u64)));
        assert(p1.addr_of(j) == p2.addr_of(j));
        if p2@[j] {
            // forwards: the page is new in step one or step two, or was there all along
            if !p0@[j] {
                if table_fresh(pt0, pt1).contains(a) {
                    assert(pt2.owns(a) && !pt0.owns(a));
                } else {
                    assert(table_fresh(pt1, pt2).contains(a));
                    assert(pt2.owns(a));
                    if pt0.owns(a) {
                        assert(pt1.owns(a));
                        assert(false);
                    }
                }
                assert(table_fresh(pt0, pt2).contains(a));
            }
        } else {
            // backwards: a page fresh overall would have been allocated
            if table_fresh(pt0, pt2).contains(a) {
                assert(pt2.owns(a) && !pt0.owns(a));
                if pt1.owns(a) {
                    assert(table_fresh(pt0, pt1).contains(a));
                    assert(p1@[j]);
                } else {
                    assert(table_fresh(pt1, pt2).contains(a));
                }
                assert(false);
            }
        }
    }
    assert forall|a: u64| #[trigger] table_fresh(pt0, pt2).contains(a) implies
        p2.in_range(a) && !p0.is_allocated(a) by {
        assert(pt2.owns(a) && !pt0.owns(a));
        if pt1.owns(a) {
            assert(table_fresh(pt0, pt1).contains(a));
        } else {
            assert(table_fresh(pt1, pt2).contains(a));
            assert(p2.in_range(a) && !p1.is_allocated(a));
            if p0.is_allocated(a) {
                p0.lemma_index_addr(a);
                let j = p0.index_of(a);
                assert(p0@[j]);
                assert(p1@[j] == (p0@[j] || table_fresh(pt0, pt1).contains(p1.addr_of(j) as u64)));
                assert(p1@[j]);
                assert(p1.is_allocated(a));
                assert(false);
            }
        }
    }
}

impl PageTable {
    /// Allocate (from the pool) any missing intermediate levels on the walk
    /// to `vpn`. No translation changes; the tree and the pool only grow,
    /// and every newly allocated page becomes part of this table.
    fn ensure_path(&mut self, pool: &mut PagePool, vpn: u64) -> (r: Result<(), VmError>)
        requires
            old(self).wf(),
            old(pool).wf(),
            old(self).owned_by(*old(pool)),
            vpn < VPN_TOP,
        ensures
            final(self).wf(),
            final(pool).wf(),
            final(self).owned_by(*final(pool)),
            final(self).base == old(self).base,
            forall|a: u64| old(self).owns(a) ==> final(self).owns(a),
            pool_grown(*old(pool), *final(pool), table_fresh(*old(self), *final(self))),
            forall|v: nat| v < VPN_TOP ==>
                #[trigger] final(self).lookup(v) == old(self).lookup(v),
            forall|v: nat| v < VPN_TOP && old(self).path_present(v) ==>
                #[trigger] final(self).path_present(v),
            old(self).path_present(vpn as nat) ==> r is Ok,
            crate::palloc::count_free(final(pool)@, final(pool)@.len() as int)
                >= crate::palloc::count_free(old(pool)@, old(pool)@.len() as int) - 2,
            crate::palloc::count_free(old(pool)@, old(pool)@.len() as int) >= 2 ==> r is Ok,
            match r {
                Ok(()) => final(self).path_present(vpn as nat),
                Err(e) => {
                    &&& e == VmError::OutOfPages
                    &&& forall|j: int| 0 <= j < final(pool)@.len() ==> final(pool)@[j]
                },
            },
    {
        proof {
            lemma_vpn_parts(vpn as nat);
        }
        let i2 = (vpn / ((PTE_TOP * PTE_TOP) as u64)) as usize;
        let i1 = ((vpn / (PTE_TOP as u64)) % (PTE_TOP as u64)) as usize;

        // root level: make sure entry i2 points at a middle table
        let present2 = match &self.entries[i2] {
            L2Entry::Table(_) => true,
            L2Entry::Invalid => false,
        };
        if !present2 {
            let pg = match pool.palloc() {
                Ok(pg) => pg,
                Err(_) => {
                    proof {
                        crate::palloc::lemma_count_free_full(pool@, pool@.len() as int);
                        crate::palloc::lemma_count_free_nonneg(old(pool)@,
                            old(pool)@.len() as int);
                    }
                    return Err(VmError::OutOfPages);
                },
            };
            proof {
                assert(!old(self).owns(pg.addr));
                old(pool).lemma_index_addr(pg.addr);
                crate::palloc::lemma_count_free_update(old(pool)@,
                    old(pool).index_of(pg.addr), old(pool)@.len() as int);
            }
            self.pages.push(pg.addr);
            let t1new = new_l1_table();
            self.entries.set(i2, L2Entry::Table(t1new));
            proof {
                let s1 = *self;
                let p1 = *pool;
                assert(s1.pages@ == old(self).pages@.push(pg.addr));
                assert forall|a: u64| #[trigger] s1.owns(a)
                    == (old(self).owns(a) || a == pg.addr) by {
                    lemma_push_contains(old(self).pages@, pg.addr, a);
                }
                assert(s1.wf());
                assert forall|a: u64| #[trigger] s1.owns(a) implies p1.is_allocated(a) by {
                    if a == pg.addr {
                    } else {
                        assert(old(self).owns(a));
                        assert(old(pool).is_allocated(a));
                        old(pool).lemma_index_addr(a);
                    }
                }
                assert forall|v: nat| v < VPN_TOP implies
                    #[trigger] s1.lookup(v) == old(self).lookup(v) by {
                    lemma_vpn_parts(v);
                    if vpn_i2(v) == i2 {
                        assert(s1.entries@[vpn_i2(v)] matches L2Entry::Table(t)
                            && t.entries@[vpn_i1(v)] is Invalid);
                    }
                }
                assert forall|j: int| 0 <= j < p1@.len() implies
                    p1@[j] == (old(pool)@[j]
                        || table_fresh(*old(self), s1).contains(#[trigger] p1.addr_of(j) as u64)) by {
                    let a = p1.addr_of(j) as u64;
                    old(pool).lemma_addr_index(j);
                    if j == old(pool).index_of(pg.addr) {
                        assert(a == pg.addr);
                        assert(s1.owns(pg.addr) && !old(self).owns(pg.addr));
                    } else {
                        assert(a != pg.addr);
                        if table_fresh(*old(self), s1).contains(a) {
                            assert(s1.owns(a) && !old(self).owns(a));
                            assert(a == pg.addr);
                        }
                    }
                }
                assert(pool_grown(*old(pool), p1, table_fresh(*old(self), s1)));
            }
        }
        let ghost s1 = *self;
        let ghost p1 = *pool;
        proof {
            assert(s1.entries@[i2 as int] matches L2Entry::Table(_));
            if !present2 {
            } else {
                assert(table_fresh(*old(self), s1) =~= Set::<u64>::empty());
                assert(pool_grown(*old(pool), p1, table_fresh(*old(self), s1)));
            }
        }

        // middle level: make sure entry i1 of that table points at a bottom table
        let present1 = match &self.entries[i2] {
            L2Entry::Table(t1) => match &t1.entries[i1] {
                L1Entry::Table(_) => true,
                L1Entry::Invalid => false,
            },
            L2Entry::Invalid => unreached(),
        };
        if !present1 {
            let pg = match pool.palloc() {
                Ok(pg) => pg,
                Err(_) => {
                    proof {
                        lemma_grown_trans(*old(self), s1, *self, *old(pool), p1, *pool);
                        crate::palloc::lemma_count_free_full(pool@, pool@.len() as int);
                        crate::palloc::lemma_count_free_nonneg(old(pool)@,
                            old(pool)@.len() as int);
                        if old(pool)@ != p1@ {
                            crate::palloc::lemma_count_free_nonneg(p1@, p1@.len() as int);
                        }
                    }
                    return Err(VmError::OutOfPages);
                },
            };
            proof {
                assert(!s1.owns(pg.addr));
                p1.lemma_index_addr(pg.addr);
                crate::palloc::lemma_count_free_update(p1@,
                    p1.index_of(pg.addr), p1@.len() as int);
            }
            self.pages.push(pg.addr);
            let t0new = new_l0_table();
            let t1 = match &mut self.entries[i2] {
                L2Entry::Table(t1) => t1,
                L2Entry::Invalid => unreached(),
            };
            t1.entries.set(i1, L1Entry::Table(t0new));
            proof {
                let s2 = *self;
                let p2 = *pool;
                assert(s2.pages@ == s1.pages@.push(pg.addr));
                assert forall|a: u64| #[trigger] s2.owns(a)
                    == (s1.owns(a) || a == pg.addr) by {
                    lemma_push_contains(s1.pages@, pg.addr, a);
                }
                let t1_old = s1.entries@[i2 as int]->Table_0;
                let t1_new = s2.entries@[i2 as int]->Table_0;
                assert(t1_new.entries@ == t1_old.entries@.update(i1 as int,
                    L1Entry::Table(t0new)));
                assert(s2.entries@ == s1.entries@.update(i2 as int, L2Entry::Table(t1_new)));
                assert(t1_new.wf());
                assert(s2.wf());
                assert forall|a: u64| #[trigger] s2.owns(a) implies p2.is_allocated(a) by {
                    if a == pg.addr {
                    } else {
                        assert(s1.owns(a));
                        assert(p1.is_allocated(a));
                        p1.lemma_index_addr(a);
                    }
                }
                assert forall|v: nat| v < VPN_TOP implies
                    #[trigger] s2.lookup(v) == s1.lookup(v) by {
                    lemma_vpn_parts(v);
                    if vpn_i2(v) == i2 {
                        if vpn_i1(v) == i1 {
                            assert(t1_old.entries@[vpn_i1(v)] is Invalid);
                            assert(t0new.entries@[vpn_i0(v)] is Invalid);
                        }
                    }
                }
                assert forall|v: nat| v < VPN_TOP && s1.path_present(v) implies
                    #[trigger] s2.path_present(v) by {
                    lemma_vpn_parts(v);
                }
                assert forall|j: int| 0 <= j < p2@.len() implies
                    p2@[j] == (p1@[j]
                        || table_fresh(s1, s2).contains(#[trigger] p2.addr_of(j) as u64)) by {
                    let a = p2.addr_of(j) as u64;
                    p1.lemma_addr_index(j);
                    if j == p1.index_of(pg.addr) {
                        assert(a == pg.addr);
                        assert(s2.owns(pg.addr) && !s1.owns(pg.addr));
                    } else {
                        assert(a != pg.addr);
                        if table_fresh(s1, s2).contains(a) {
                            assert(s2.owns(a) && !s1.owns(a));
                            assert(a == pg.addr);
                        }
                    }
                }
                assert(pool_grown(p1, p2, table_fresh(s1, s2)));
                lemma_grown_trans(*old(self), s1, s2, *old(pool), p1, p2);
            }
        } else {
            proof {
                assert(table_fresh(s1, *self) =~= Set::<u64>::empty());
                lemma_grown_trans(*old(self), s1, *self, *old(pool), p1, *pool);
            }
        }
        proof {
            assert(self.path_present(vpn as nat));
        }
        Ok(())
    }
}


// ---------------------------------------------------------------------
// Range mapping

/// The physical page address `a` belongs to, by aligning down.
pub open spec fn align_down(a: u64) -> int {
    a - (a as int) % (PAGE_SIZE as int)
}

/// The virtual page number of the first page touched by a range at `va`.
pub open spec fn first_vpn(va: u64) -> int {
    va as int / (PAGE_SIZE as int)
}

/// How many pages the byte range `[va, va + size)` touches (for `size >= 1`):
/// the range's last address is aligned down, which captures a final partial page.
pub open spec fn page_count(va: u64, size: u64) -> int {
    (va + size - 1) as int / (PAGE_SIZE as int) - first_vpn(va) + 1
}

/// Both the virtual range and the target physical range fit the translation
/// scheme's 39-bit space.
pub open spec fn map_in_bounds(va: u64, pa: u64, size: u64) -> bool {
    &&& va + size <= VA_TOP
    &&& align_down(pa) + page_count(va, size) * PAGE_SIZE <= VA_TOP
}

/// Entry bits with the validity bit forced on.
pub open spec fn with_valid(pte: u64) -> u64 {
    if pte % 2 == 1 {
        pte
    } else {
        (pte + 1) as u64
    }
}

/// A nonempty range touches at least one page.
pub proof fn lemma_page_count_nonneg(va: u64, size: u64)
    requires
        size >= 1,
    ensures
        page_count(va, size) >= 1,
{
    assert((va + size - 1) as int / (PAGE_SIZE as int) >= va as int / (PAGE_SIZE as int))
        by (nonlinear_arith)
        requires size >= 1,
    {}
}

/// For an in-bounds nonempty range, the touched page numbers are valid.
pub proof fn lemma_range_facts(va: u64, size: u64)
    requires
        size >= 1,
        va + size <= VA_TOP,
    ensures
        0 <= first_vpn(va),
        1 <= page_count(va, size),
        first_vpn(va) + page_count(va, size) <= VPN_TOP,
{
    let first = first_vpn(va);
    let last = (va + size - 1) as int / (PAGE_SIZE as int);
    assert(first <= last) by (nonlinear_arith)
        requires
            first == va as int / (PAGE_SIZE as int),
            last == (va + size - 1) as int / (PAGE_SIZE as int),
            size >= 1,
    {}
    assert(last < VPN_TOP) by (nonlinear_arith)
        requires
            va + size - 1 < VA_TOP,
            VA_TOP == VPN_TOP * PAGE_SIZE,
            last == (va + size - 1) as int / (PAGE_SIZE as int),
    {}
}

impl PageTable {
    /// Write an invalid leaf entry for `vpn`, which must have its path
    /// present. Only that one translation changes.
    fn clear_leaf(&mut self, vpn: u64)
        requires
            old(self).wf(),
            vpn < VPN_TOP,
            old(self).path_present(vpn as nat),
        ensures
            final(self).wf(),
            final(self).base == old(self).base,
            final(self).pages@ == old(self).pages@,
            final(self).lookup(vpn as nat) is None,
            forall|v: nat| v < VPN_TOP && v != vpn ==>
                #[trigger] final(self).lookup(v) == old(self).lookup(v),
            forall|v: nat| v < VPN_TOP ==> #[trigger] final(self).path_present(v)
                == old(self).path_present(v),
    {
        proof {
            lemma_vpn_parts(vpn as nat);
        }
        let i2 = (vpn / ((PTE_TOP * PTE_TOP) as u64)) as usize;
        let i1 = ((vpn / (PTE_TOP as u64)) % (PTE_TOP as u64)) as usize;
        let i0 = (vpn % (PTE_TOP as u64)) as usize;
        let t1 = match &mut self.entries[i2] {
            L2Entry::Table(t1) => t1,
            L2Entry::Invalid => unreached(),
        };
        let t0 = match &mut t1.entries[i1] {
            L1Entry::Table(t0) => t0,
            L1Entry::Invalid => unreached(),
        };
        t0.entries.set(i0, L0Entry::Invalid);
        proof {
            let s_new = *self;
            let s_old = *old(self);
            assert forall|v: nat| v < VPN_TOP && v != vpn implies
                #[trigger] s_new.lookup(v) == s_old.lookup(v) by {
                lemma_vpn_parts(v);
                if vpn_i2(v) == i2 && vpn_i1(v) == i1 && vpn_i0(v) == i0 {
                    lemma_vpn_injective(v, vpn as nat);
                }
            }
            assert forall|v: nat| v < VPN_TOP implies #[trigger] s_new.path_present(v)
                == s_old.path_present(v) by {
                lemma_vpn_parts(v);
            }
        }
    }
}

/// Everything `page_map` promises of its result, by outcome.
pub open spec fn page_map_post(
    pt0: PageTable, pt1: PageTable, p0: PagePool, p1: PagePool,
    va: u64, pa: u64, size: u64, pte: u64, r: Result<(), crate::hal::HALVMError>,
) -> bool {
    let first = first_vpn(va);
    let cnt = page_count(va, size);
    let pa0 = align_down(pa);
    &&& match r {
        Ok(()) => {
            &&& map_in_bounds(va, pa, size)
            &&& forall|k: int| 0 <= k < cnt ==>
                #[trigger] pt1.lookup((first + k) as nat)
                    == Some(((pa0 + k * PAGE_SIZE) as u64, with_valid(pte)))
            &&& forall|v: nat| v < VPN_TOP && !(first <= v < first + cnt) ==>
                #[trigger] pt1.lookup(v) == pt0.lookup(v)
            &&& forall|k: int| 0 <= k < cnt ==> !(#[trigger] pt0.mapped((first + k) as nat))
            &&& forall|k: int| 0 <= k < cnt ==>
                #[trigger] pt1.path_present((first + k) as nat)
        },
        Err(crate::hal::HALVMError::OutOfBounds) => {
            &&& !map_in_bounds(va, pa, size)
            &&& pt1 == pt0
            &&& p1@ == p0@
        },
        Err(crate::hal::HALVMError::AlreadyMapped) => {
            &&& map_in_bounds(va, pa, size)
            &&& exists|k: int| 0 <= k < cnt && #[trigger] pt0.mapped((first + k) as nat)
            &&& pt1 == pt0
            &&& p1@ == p0@
        },
        Err(crate::hal::HALVMError::FailedAllocation) => {
            &&& map_in_bounds(va, pa, size)
            &&& forall|k: int| 0 <= k < cnt ==> !(#[trigger] pt0.mapped((first + k) as nat))
            &&& forall|v: nat| v < VPN_TOP ==> #[trigger] pt1.lookup(v) == pt0.lookup(v)
            &&& forall|j: int| 0 <= j < p1@.len() ==> p1@[j]
        },
        _ => false,
    }
    &&& !map_in_bounds(va, pa, size)
        ==> r == Err::<(), crate::hal::HALVMError>(crate::hal::HALVMError::OutOfBounds)
    &&& (map_in_bounds(va, pa, size)
        && (exists|k: int| 0 <= k < cnt && #[trigger] pt0.mapped((first + k) as nat)))
        ==> r == Err::<(), crate::hal::HALVMError>(crate::hal::HALVMError::AlreadyMapped)
    &&& (map_in_bounds(va, pa, size)
        && (forall|k: int| 0 <= k < cnt ==> !(#[trigger] pt0.mapped((first + k) as nat)))
        && (forall|k: int| 0 <= k < cnt ==>
            #[trigger] pt0.path_present((first + k) as nat)))
        ==> r is Ok
}

/// Map the pages of the byte range `[va, va + size)` to consecutive physical
/// pages starting at `pa`'s page, each leaf carrying `pte` with the validity
/// bit forced. Overlap with an existing mapping is rejected before anything
/// is written; missing intermediate levels are allocated from the pool.
pub fn page_map(
    pt: &mut PageTable, pool: &mut PagePool, va: u64, pa: u64, size: u64, pte: u64,
) -> (r: Result<(), crate::hal::HALVMError>)
    requires
        old(pt).wf(),
        old(pool).wf(),
        old(pt).owned_by(*old(pool)),
        size >= 1,
        pte <= 255,
    ensures
        final(pt).wf(),
        final(pool).wf(),
        final(pt).owned_by(*final(pool)),
        final(pt).base == old(pt).base,
        forall|a: u64| old(pt).owns(a) ==> final(pt).owns(a),
        pool_grown(*old(pool), *final(pool), table_fresh(*old(pt), *final(pt))),
        page_map_post(*old(pt), *final(pt), *old(pool), *final(pool), va, pa, size, pte, r),
        (map_in_bounds(va, pa, size)
            && (forall|k: int| 0 <= k < page_count(va, size)
                ==> !(#[trigger] old(pt).mapped((first_vpn(va) + k) as nat)))
            && crate::palloc::count_free(old(pool)@, old(pool)@.len() as int)
                >= 2 * page_count(va, size))
            ==> r is Ok,
        crate::palloc::count_free(final(pool)@, final(pool)@.len() as int)
            >= crate::palloc::count_free(old(pool)@, old(pool)@.len() as int)
                - 2 * page_count(va, size),
{
    if va >= VA_TOP || size > VA_TOP - va {
        proof {
            lemma_page_count_nonneg(va, size);
        }
        return Err(crate::hal::HALVMError::OutOfBounds);
    }
    proof {
        lemma_range_facts(va, size);
    }
    let pa_al = pa - pa % PAGE_SIZE;
    let first = va / PAGE_SIZE;
    let last = (va + size - 1) / PAGE_SIZE;
    let cnt = last - first + 1;
    if pa_al >= VA_TOP || cnt > (VA_TOP - pa_al) / PAGE_SIZE {
        proof {
            assert(!(align_down(pa) + page_count(va, size) * PAGE_SIZE <= VA_TOP))
                by (nonlinear_arith)
                requires
                    pa_al == align_down(pa),
                    cnt == page_count(va, size),
                    cnt >= 1,
                    page_aligned(pa_al as u64),
                    (pa_al as int) % (PAGE_SIZE as int) == 0,
                    (VA_TOP as int) % (PAGE_SIZE as int) == 0,
                    pa_al < VA_TOP ==> cnt > (VA_TOP - pa_al) / (PAGE_SIZE as int),
                    pa_al >= VA_TOP || cnt > (VA_TOP - pa_al) / (PAGE_SIZE as int),
            {}
        }
        return Err(crate::hal::HALVMError::OutOfBounds);
    }
    proof {
        assert(align_down(pa) + page_count(va, size) * PAGE_SIZE <= VA_TOP)
            by (nonlinear_arith)
            requires
                pa_al == align_down(pa),
                cnt == page_count(va, size),
                cnt >= 1,
                (pa_al as int) % (PAGE_SIZE as int) == 0,
                (VA_TOP as int) % (PAGE_SIZE as int) == 0,
                pa_al < VA_TOP,
                cnt <= (VA_TOP - pa_al) / (PAGE_SIZE as int),
        {}
        assert(map_in_bounds(va, pa, size));
    }

    // first pass: reject if any page of the range is already mapped
    let mut k: u64 = 0;
    while k < cnt
        invariant
            old(pt).wf(),
            old(pool).wf(),
            old(pt).owned_by(*old(pool)),
            *pt == *old(pt),
            *pool == *old(pool),
            first == first_vpn(va),
            cnt == page_count(va, size),
            cnt >= 1,
            first + cnt <= VPN_TOP,
            map_in_bounds(va, pa, size),
            k <= cnt,
            forall|j: int| 0 <= j < k ==> !(#[trigger] old(pt).mapped((first + j) as nat)),
        decreases cnt - k,
    {
        if pt.walk_lookup(first + k).is_some() {
            proof {
                assert(old(pt).mapped((first + k) as nat));
            }
            return Err(crate::hal::HALVMError::AlreadyMapped);
        }
        k = k + 1;
    }

    // second pass: allocate any missing intermediate levels
    let mut k: u64 = 0;
    while k < cnt
        invariant
            old(pt).wf(),
            old(pool).wf(),
            old(pt).owned_by(*old(pool)),
            pt.wf(),
            pool.wf(),
            pt.owned_by(*pool),
            pt.base == old(pt).base,
            first == first_vpn(va),
            cnt == page_count(va, size),
            first + cnt <= VPN_TOP,
            map_in_bounds(va, pa, size),
            size >= 1,
            pte <= 255,
            crate::palloc::count_free(pool@, pool@.len() as int)
                >= crate::palloc::count_free(old(pool)@, old(pool)@.len() as int) - 2 * k,
            k <= cnt,
            forall|a: u64| old(pt).owns(a) ==> pt.owns(a),
            pool_grown(*old(pool), *pool, table_fresh(*old(pt), *pt)),
            forall|v: nat| v < VPN_TOP ==> #[trigger] pt.lookup(v) == old(pt).lookup(v),
            forall|v: nat| v < VPN_TOP && old(pt).path_present(v) ==>
                #[trigger] pt.path_present(v),
            forall|j: int| 0 <= j < k ==> #[trigger] pt.path_present((first + j) as nat),
            forall|j: int| 0 <= j < cnt ==> !(#[trigger] old(pt).mapped((first + j) as nat)),
        decreases cnt - k,
    {
        let ghost pt_pre = *pt;
        let ghost pool_pre = *pool;
        match pt.ensure_path(pool, first + k) {
            Ok(()) => {},
            Err(_) => {
                proof {
                    lemma_grown_trans(*old(pt), pt_pre, *pt, *old(pool), pool_pre, *pool);
                    let firstg = first_vpn(va);
                    let cntg = page_count(va, size);
                    if forall|j: int| 0 <= j < cntg ==>
                        #[trigger] old(pt).path_present((firstg + j) as nat) {
                        assert(old(pt).path_present((firstg + k) as nat));
                        assert(pt_pre.path_present((firstg + k) as nat));
                        assert(false);
                    }
                    if crate::palloc::count_free(old(pool)@, old(pool)@.len() as int)
                        >= 2 * cntg {
                        assert(crate::palloc::count_free(pool_pre@,
                            pool_pre@.len() as int) >= 2);
                        assert(false);
                    }
                }
                return Err(crate::hal::HALVMError::FailedAllocation);
            },
        }
        proof {
            lemma_grown_trans(*old(pt), pt_pre, *pt, *old(pool), pool_pre, *pool);
            assert forall|j: int| 0 <= j < k + 1 implies
                #[trigger] pt.path_present((first + j) as nat) by {
                if j < k {
                    assert(pt_pre.path_present((first + j) as nat));
                }
            }
        }
        k = k + 1;
    }

    // third pass: write the leaf entries
    let ghost pt_mid = *pt;
    let ghost pool_mid = *pool;
    let ptev = if pte % 2 == 1 { pte } else { pte + 1 };
    let mut k: u64 = 0;
    while k < cnt
        invariant
            old(pt).wf(),
            old(pool).wf(),
            pt_mid.wf(),
            pt.wf(),
            pool.wf(),
            *pool == pool_mid,
            pt.base == pt_mid.base,
            pt.pages@ == pt_mid.pages@,
            pt_mid.owned_by(pool_mid),
            first == first_vpn(va),
            cnt == page_count(va, size),
            first + cnt <= VPN_TOP,
            map_in_bounds(va, pa, size),
            pa_al == align_down(pa),
            ptev == with_valid(pte),
            crate::palloc::count_free(pool_mid@, pool_mid@.len() as int)
                >= crate::palloc::count_free(old(pool)@, old(pool)@.len() as int) - 2 * cnt,
            k <= cnt,
            forall|v: nat| v < VPN_TOP ==> #[trigger] pt_mid.lookup(v) == old(pt).lookup(v),
            forall|j: int| 0 <= j < cnt ==> #[trigger] pt_mid.path_present((first + j) as nat),
            forall|j: int| 0 <= j < cnt ==> !(#[trigger] old(pt).mapped((first + j) as nat)),
            forall|j: int| 0 <= j < k ==>
                #[trigger] pt.lookup((first + j) as nat)
                    == Some(((pa_al + j * PAGE_SIZE) as u64, with_valid(pte))),
            forall|v: nat| v < VPN_TOP && !(first <= v < first + k) ==>
                #[trigger] pt.lookup(v) == pt_mid.lookup(v),
            forall|v: nat| v < VPN_TOP ==>
                #[trigger] pt.path_present(v) == pt_mid.path_present(v),
        decreases cnt - k,
    {
        proof {
            assert((k + 1) * PAGE_SIZE <= cnt * PAGE_SIZE) by (nonlinear_arith)
                requires 0 <= k < cnt,
            {}
            assert(k * PAGE_SIZE + PAGE_SIZE == (k + 1) * PAGE_SIZE) by (nonlinear_arith) {}
        }
        let target = pa_al + k * PAGE_SIZE;
        proof {
            assert(pt_mid.path_present((first + k as int) as nat));
            assert(pt.path_present((first + k) as nat));
        }
        pt.set_leaf(first + k, target, ptev);
        proof {
            assert forall|j: int| 0 <= j < k + 1 implies
                #[trigger] pt.lookup((first + j) as nat)
                    == Some(((pa_al + j * PAGE_SIZE) as u64, with_valid(pte))) by {
                if j < k {
                    assert((first + j) as nat != (first + k) as nat);
                }
            }
        }
        k = k + 1;
    }
    proof {
        assert forall|a: u64| old(pt).owns(a) implies pt.owns(a) by {
            assert(pt_mid.owns(a) == pt.owns(a));
        }
        assert(table_fresh(*old(pt), *pt) =~= table_fresh(*old(pt), pt_mid));
        assert forall|a: u64| #[trigger] pt.owns(a) implies pool.is_allocated(a) by {
            assert(pt_mid.owns(a));
        }
    }
    Ok(())
}

/// Everything `page_unmap` promises of its result, by outcome.
pub open spec fn page_unmap_post(
    pt0: PageTable, pt1: PageTable, p0: PagePool, p1: PagePool,
    va: u64, size: u64, r: Result<(), crate::hal::HALVMError>,
) -> bool {
    let first = first_vpn(va);
    let cnt = page_count(va, size);
    &&& match r {
        Ok(()) => {
            &&& va + size <= VA_TOP
            &&& forall|k: int| 0 <= k < cnt ==>
                #[trigger] pt1.lookup((first + k) as nat) is None
            &&& forall|v: nat| v < VPN_TOP && !(first <= v < first + cnt) ==>
                #[trigger] pt1.lookup(v) == pt0.lookup(v)
            &&& forall|k: int| 0 <= k < cnt ==>
                #[trigger] pt1.path_present((first + k) as nat)
        },
        Err(crate::hal::HALVMError::OutOfBounds) => {
            &&& va + size > VA_TOP
            &&& pt1 == pt0
            &&& p1@ == p0@
        },
        Err(crate::hal::HALVMError::FailedAllocation) => {
            &&& va + size <= VA_TOP
            &&& forall|v: nat| v < VPN_TOP ==> #[trigger] pt1.lookup(v) == pt0.lookup(v)
            &&& forall|j: int| 0 <= j < p1@.len() ==> p1@[j]
        },
        _ => false,
    }
    &&& (va + size > VA_TOP)
        ==> r == Err::<(), crate::hal::HALVMError>(crate::hal::HALVMError::OutOfBounds)
    &&& (va + size <= VA_TOP
        && (forall|k: int| 0 <= k < cnt ==>
            #[trigger] pt0.path_present((first + k) as nat)))
        ==> r is Ok
}

/// Invalidate the translation of every page in `[va, va + size)`. A walk
/// into a never-populated subtree allocates the missing levels first, so
/// removing a mapping can itself fail for want of pages; intermediate
/// levels are never pruned here (they return to the pool when the whole
/// table is freed).
pub fn page_unmap(
    pt: &mut PageTable, pool: &mut PagePool, va: u64, size: u64,
) -> (r: Result<(), crate::hal::HALVMError>)
    requires
        old(pt).wf(),
        old(pool).wf(),
        old(pt).owned_by(*old(pool)),
        size >= 1,
    ensures
        final(pt).wf(),
        final(pool).wf(),
        final(pt).owned_by(*final(pool)),
        final(pt).base == old(pt).base,
        forall|a: u64| old(pt).owns(a) ==> final(pt).owns(a),
        pool_grown(*old(pool), *final(pool), table_fresh(*old(pt), *final(pt))),
        page_unmap_post(*old(pt), *final(pt), *old(pool), *final(pool), va, size, r),
        (va + size <= VA_TOP
            && crate::palloc::count_free(old(pool)@, old(pool)@.len() as int)
                >= 2 * page_count(va, size))
            ==> r is Ok,
        crate::palloc::count_free(final(pool)@, final(pool)@.len() as int)
            >= crate::palloc::count_free(old(pool)@, old(pool)@.len() as int)
                - 2 * page_count(va, size),
{
    if va >= VA_TOP || size > VA_TOP - va {
        proof {
            lemma_page_count_nonneg(va, size);
        }
        return Err(crate::hal::HALVMError::OutOfBounds);
    }
    proof {
        lemma_range_facts(va, size);
    }
    let first = va / PAGE_SIZE;
    let last = (va + size - 1) / PAGE_SIZE;
    let cnt = last - first + 1;

    // first pass: allocate any missing intermediate levels
    let mut k: u64 = 0;
    while k < cnt
        invariant
            old(pt).wf(),
            old(pool).wf(),
            old(pt).owned_by(*old(pool)),
            pt.wf(),
            pool.wf(),
            pt.owned_by(*pool),
            pt.base == old(pt).base,
            first == first_vpn(va),
            cnt == page_count(va, size),
            first + cnt <= VPN_TOP,
            va + size <= VA_TOP,
            size >= 1,
            crate::palloc::count_free(pool@, pool@.len() as int)
                >= crate::palloc::count_free(old(pool)@, old(pool)@.len() as int) - 2 * k,
            k <= cnt,
            forall|a: u64| old(pt).owns(a) ==> pt.owns(a),
            pool_grown(*old(pool), *pool, table_fresh(*old(pt), *pt)),
            forall|v: nat| v < VPN_TOP ==> #[trigger] pt.lookup(v) == old(pt).lookup(v),
            forall|v: nat| v < VPN_TOP && old(pt).path_present(v) ==>
                #[trigger] pt.path_present(v),
            forall|j: int| 0 <= j < k ==> #[trigger] pt.path_present((first + j) as nat),
        decreases cnt - k,
    {
        let ghost pt_pre = *pt;
        let ghost pool_pre = *pool;
        match pt.ensure_path(pool, first + k) {
            Ok(()) => {},
            Err(_) => {
                proof {
                    lemma_grown_trans(*old(pt), pt_pre, *pt, *old(pool), pool_pre, *pool);
                    let firstg = first_vpn(va);
                    let cntg = page_count(va, size);
                    if forall|j: int| 0 <= j < cntg ==>
                        #[trigger] old(pt).path_present((firstg + j) as nat) {
                        assert(old(pt).path_present((firstg + k) as nat));
                        assert(pt_pre.path_present((firstg + k) as nat));
                        assert(false);
                    }
                    if crate::palloc::count_free(old(pool)@, old(pool)@.len() as int)
                        >= 2 * cntg {
                        assert(crate::palloc::count_free(pool_pre@,
                            pool_pre@.len() as int) >= 2);
                        assert(false);
                    }
                }
                return Err(crate::hal::HALVMError::FailedAllocation);
            },
        }
        proof {
            lemma_grown_trans(*old(pt), pt_pre, *pt, *old(pool), pool_pre, *pool);
            assert forall|j: int| 0 <= j < k + 1 implies
                #[trigger] pt.path_present((first + j) as nat) by {
                if j < k {
                    assert(pt_pre.path_present((first + j) as nat));
                }
            }
        }
        k = k + 1;
    }

    // second pass: write invalid leaves
    let ghost pt_mid = *pt;
    let ghost pool_mid = *pool;
    let mut k: u64 = 0;
    while k < cnt
        invariant
            old(pt).wf(),
            old(pool).wf(),
            pt_mid.wf(),
            pt.wf(),
            pool.wf(),
            *pool == pool_mid,
            pt.base == pt_mid.base,
            pt.pages@ == pt_mid.pages@,
            pt_mid.owned_by(pool_mid),
            first == first_vpn(va),
            cnt == page_count(va, size),
            first + cnt <= VPN_TOP,
            va + size <= VA_TOP,
            crate::palloc::count_free(pool_mid@, pool_mid@.len() as int)
                >= crate::palloc::count_free(old(pool)@, old(pool)@.len() as int) - 2 * cnt,
            k <= cnt,
            forall|v: nat| v < VPN_TOP ==> #[trigger] pt_mid.lookup(v) == old(pt).lookup(v),
            forall|j: int| 0 <= j < cnt ==> #[trigger] pt_mid.path_present((first + j) as nat),
            forall|j: int| 0 <= j < k ==>
                #[trigger] pt.lookup((first + j) as nat) is None,
            forall|v: nat| v < VPN_TOP && !(first <= v < first + k) ==>
                #[trigger] pt.lookup(v) == pt_mid.lookup(v),
            forall|v: nat| v < VPN_TOP ==>
                #[trigger] pt.path_present(v) == pt_mid.path_present(v),
        decreases cnt - k,
    {
        proof {
            assert(pt_mid.path_present((first + k as int) as nat));
            assert(pt.path_present((first + k) as nat));
        }
        pt.clear_leaf(first + k);
        proof {
            assert forall|j: int| 0 <= j < k + 1 implies
                #[trigger] pt.lookup((first + j) as nat) is None by {
                if j < k {
                    assert((first + j) as nat != (first + k) as nat);
                }
            }
        }
        k = k + 1;
    }
    proof {
        assert forall|a: u64| old(pt).owns(a) implies pt.owns(a) by {
            assert(pt_mid.owns(a) == pt.owns(a));
        }
        assert(table_fresh(*old(pt), *pt) =~= table_fresh(*old(pt), pt_mid));
        assert forall|a: u64| #[trigger] pt.owns(a) implies pool.is_allocated(a) by {
            assert(pt_mid.owns(a));
        }
    }
    Ok(())
}

/// `a` occurs among the first `n` elements of `s`.
pub open spec fn among(s: Seq<u64>, n: int, a: int) -> bool {
    exists|m: int| 0 <= m < n && #[trigger] s[m] == a
}

impl PageTable {
    /// Tear the whole table down, returning every backing page of every
    /// level (the root included) to the pool, each exactly once.
    pub fn free(self, pool: &mut PagePool)
        requires
            self.wf(),
            old(pool).wf(),
            self.owned_by(*old(pool)),
        ensures
            final(pool).wf(),
            final(pool).base_spec() == old(pool).base_spec(),
            final(pool)@.len() == old(pool)@.len(),
            forall|j: int| 0 <= j < final(pool)@.len() ==>
                #[trigger] final(pool)@[j]
                    == (old(pool)@[j] && !self.owns(final(pool).addr_of(j) as u64)),
    {
        let n = self.pages.len();
        proof {
            assert forall|m: int| 0 <= m < n implies
                pool.is_allocated(#[trigger] self.pages@[m]) by {
                assert(self.pages@.contains(self.pages@[m]));
                assert(self.owns(self.pages@[m]));
            }
        }
        let mut k: usize = 0;
        while k < n
            invariant
                self.wf(),
                old(pool).wf(),
                pool.wf(),
                pool.base_spec() == old(pool).base_spec(),
                pool@.len() == old(pool)@.len(),
                self.owned_by(*old(pool)),
                n == self.pages@.len(),
                k <= n,
                forall|j: int| 0 <= j < pool@.len() ==>
                    #[trigger] pool@[j]
                        == (old(pool)@[j] && !among(self.pages@, k as int, pool.addr_of(j))),
                forall|m: int| k <= m < n ==> pool.is_allocated(#[trigger] self.pages@[m]),
            decreases n - k,
        {
            let pg = self.pages[k];
            proof {
                assert(pool.is_allocated(pg));
                pool.lemma_index_addr(pg);
            }
            let ghost pool_pre = *pool;
            let res = pool.pfree(crate::palloc::Page { addr: pg });
            proof {
                assert(res is Ok);
                let idx = pool_pre.index_of(pg);
                assert forall|j: int| 0 <= j < pool@.len() implies
                    #[trigger] pool@[j]
                        == (old(pool)@[j] && !among(self.pages@, k + 1, pool.addr_of(j))) by {
                    pool_pre.lemma_addr_index(j);
                    if j == idx {
                        assert(self.pages@[k as int] == pool.addr_of(j));
                        assert(among(self.pages@, k + 1, pool.addr_of(j)));
                    } else {
                        assert(pool.addr_of(j) != pg);
                        if among(self.pages@, k + 1, pool.addr_of(j)) {
                            let m = choose|m: int| 0 <= m < k + 1
                                && #[trigger] self.pages@[m] == pool.addr_of(j);
                            assert(m < k);
                            assert(among(self.pages@, k as int, pool.addr_of(j)));
                        }
                        if among(self.pages@, k as int, pool.addr_of(j)) {
                            let m = choose|m: int| 0 <= m < k
                                && #[trigger] self.pages@[m] == pool.addr_of(j);
                            assert(among(self.pages@, k + 1, pool.addr_of(j)));
                        }
                    }
                }
                assert forall|m: int| k + 1 <= m < n implies
                    pool.is_allocated(#[trigger] self.pages@[m]) by {
                    assert(self.pages@[m] != pg);
                    pool_pre.lemma_index_addr(self.pages@[m]);
                }
            }
            match res {
                Ok(()) => {},
                Err(_) => {
                    proof {
                        assert(false);
                    }
                },
            }
            k = k + 1;
        }
        proof {
            assert forall|j: int| 0 <= j < pool@.len() implies
                #[trigger] pool@[j]
                    == (old(pool)@[j] && !self.owns(pool.addr_of(j) as u64)) by {
                pool.lemma_addr_index(j);
                let a = pool.addr_of(j);
                if self.owns(a as u64) {
                    let m = choose|m: int| 0 <= m < self.pages@.len()
                        && #[trigger] self.pages@[m] == a as u64;
                    assert(self.pages@[m] == a);
                    assert(among(self.pages@, n as int, a));
                }
                if among(self.pages@, n as int, a) {
                    let m = choose|m: int| 0 <= m < n && #[trigger] self.pages@[m] == a;
                    assert(self.pages@.contains(a as u64));
                }
            }
        }
    }
}


/// All pages backing `pt`.
pub open spec fn owned_set(pt: PageTable) -> Set<u64> {
    Set::new(|a: u64| pt.owns(a))
}

/// Composition when the table's entire backing was freshly drawn from the
/// pool: a further growth step keeps it that way.
pub proof fn lemma_grown_from_scratch(
    pt1: PageTable, pt2: PageTable,
    p0: PagePool, p1: PagePool, p2: PagePool,
)
    requires
        p0.wf(),
        pool_grown(p0, p1, owned_set(pt1)),
        pool_grown(p1, p2, table_fresh(pt1, pt2)),
        forall|a: u64| pt1.owns(a) ==> pt2.owns(a),
    ensures
        pool_grown(p0, p2, owned_set(pt2)),
{
    assert forall|j: int| 0 <= j < p2@.len() implies
        #[trigger] p2@[j] == (p0@[j] || owned_set(pt2).contains(p2.addr_of(j) as u64)) by {
        let a = p2.addr_of(j) as u64;
        assert(p1@[j] == (p0@[j] || owned_set(pt1).contains(p1.addr_of(j) as u64)));
        assert(p2@[j] == (p1@[j] || table_fresh(pt1, pt2).contains(p2.addr_of(j) as u64)));
        assert(p1.addr_of(j) == p2.addr_of(j));
        if p2@[j] {
            if !p0@[j] {
                if owned_set(pt1).contains(a) {
                    assert(pt2.owns(a));
                } else if table_fresh(pt1, pt2).contains(a) {
                    assert(pt2.owns(a));
                }
                assert(owned_set(pt2).contains(a));
            }
        } else {
            if owned_set(pt2).contains(a) {
                assert(pt2.owns(a));
                if pt1.owns(a) {
                    assert(owned_set(pt1).contains(a));
                    assert(p1@[j]);
                    assert(false);
                } else {
                    assert(table_fresh(pt1, pt2).contains(a));
                    assert(p2@[j]);
                    assert(false);
                }
            }
        }
    }
    assert forall|a: u64| #[trigger] owned_set(pt2).contains(a) implies
        p2.in_range(a) && !p0.is_allocated(a) by {
        if pt1.owns(a) {
            assert(owned_set(pt1).contains(a));
        } else {
            assert(table_fresh(pt1, pt2).contains(a));
            if p0.is_allocated(a) {
                p0.lemma_index_addr(a);
                let j = p0.index_of(a);
                assert(p1@[j] == (p0@[j] || owned_set(pt1).contains(p1.addr_of(j) as u64)));
                assert(p1.is_allocated(a));
                assert(false);
            }
        }
    }
}


/// Allocation only grows across a fresh-growth step: an allocated page
/// stays allocated.
pub proof fn lemma_alloc_mono(p0: PagePool, p1: PagePool, fresh: Set<u64>, a: u64)
    requires
        p0.wf(),
        pool_grown(p0, p1, fresh),
        p0.is_allocated(a),
    ensures
        p1.is_allocated(a),
{
    p0.lemma_index_addr(a);
    let j = p0.index_of(a);
    assert(p1@[j] == (p0@[j] || fresh.contains(p1.addr_of(j) as u64)));
}


/// Composition of two fresh-growth steps, for any covering set of the two
/// steps' fresh pages.
pub proof fn lemma_grown_trans_sets(
    p0: PagePool, p1: PagePool, p2: PagePool,
    f01: Set<u64>, f12: Set<u64>, f02: Set<u64>,
)
    requires
        p0.wf(),
        pool_grown(p0, p1, f01),
        pool_grown(p1, p2, f12),
        forall|a: u64| f01.contains(a) ==> f02.contains(a),
        forall|a: u64| f12.contains(a) ==> f02.contains(a),
        forall|a: u64| f02.contains(a) ==> f01.contains(a) || f12.contains(a),
    ensures
        pool_grown(p0, p2, f02),
{
    assert forall|j: int| 0 <= j < p2@.len() implies
        #[trigger] p2@[j] == (p0@[j] || f02.contains(p2.addr_of(j) as u64)) by {
        let a = p2.addr_of(j) as u64;
        assert(p1@[j] == (p0@[j] || f01.contains(p1.addr_of(j) as u64)));
        assert(p2@[j] == (p1@[j] || f12.contains(p2.addr_of(j) as u64)));
        assert(p1.addr_of(j) == p2.addr_of(j));
        if p2@[j] {
            if !p0@[j] {
                assert(f01.contains(a) || f12.contains(a));
                assert(f02.contains(a));
            }
        } else {
            if f02.contains(a) {
                assert(f01.contains(a) || f12.contains(a));
                assert(false);
            }
        }
    }
    assert forall|a: u64| #[trigger] f02.contains(a) implies
        p2.in_range(a) && !p0.is_allocated(a) by {
        if f01.contains(a) {
        } else {
            assert(f12.contains(a));
            assert(p2.in_range(a) && !p1.is_allocated(a));
            if p0.is_allocated(a) {
                p0.lemma_index_addr(a);
                let j = p0.index_of(a);
                assert(p1@[j] == (p0@[j] || f01.contains(p1.addr_of(j) as u64)));
                assert(p1.is_allocated(a));
                assert(false);
            }
        }
    }
}


impl PageTable {
    /// The translation-register value that installs this table: paging mode
    /// in the top bits, the root page's frame number below. The hardware
    /// write must be fenced on both sides.
    pub fn write_satp(&self) -> (r: u64)
        ensures
            r == crate::hal::satp_of(self.base),
    {
        0x8000000000000000u64 + self.base / PAGE_SIZE
    }
}

/// Mapping round trip: a range that was removed can always be inserted
/// again, with the same or different permissions — removal truly
/// invalidates, and leaves the walk's intermediate levels in place.
pub proof fn lemma_map_round_trip(
    pt1: PageTable, pt2: PageTable, pt3: PageTable,
    p1: PagePool, p2: PagePool, p3: PagePool,
    va: u64, size: u64, pa2: u64, pte2: u64, r: Result<(), crate::hal::HALVMError>,
)
    requires
        size >= 1,
        page_unmap_post(pt1, pt2, p1, p2, va, size, Ok(())),
        map_in_bounds(va, pa2, size),
        page_map_post(pt2, pt3, p2, p3, va, pa2, size, pte2, r),
    ensures
        r is Ok,
{
    lemma_range_facts(va, size);
    let first = first_vpn(va);
    let cnt = page_count(va, size);
    assert forall|k: int| 0 <= k < cnt implies !(#[trigger] pt2.mapped((first + k) as nat)) by {
        assert(pt2.lookup((first + k) as nat) is None);
    }
    assert forall|k: int| 0 <= k < cnt implies
        #[trigger] pt2.path_present((first + k) as nat) by {}
}

/// Overlap rejection: inserting a range that intersects a valid mapping
/// fails with the overlap error and changes nothing — neither the table
/// nor the pool.
pub proof fn lemma_overlap_rejected(
    pt0: PageTable, pt1: PageTable, p0: PagePool, p1: PagePool,
    va: u64, pa: u64, size: u64, pte: u64, r: Result<(), crate::hal::HALVMError>,
)
    requires
        size >= 1,
        map_in_bounds(va, pa, size),
        exists|k: int| 0 <= k < page_count(va, size)
            && #[trigger] pt0.mapped((first_vpn(va) + k) as nat),
        page_map_post(pt0, pt1, p0, p1, va, pa, size, pte, r),
    ensures
        r == Err::<(), crate::hal::HALVMError>(crate::hal::HALVMError::AlreadyMapped),
        pt1 == pt0,
        p1@ == p0@,
{
}

} // verus!
