//! A kernel virtual-memory and process-management core, modelled over plain
//! values and verified: a physical page pool, a three-level radix page-table
//! engine, a kernel address-space builder, an ELF-image loader that builds
//! per-process address spaces, and a round-robin scheduler whose context
//! switches are expressed as explicit hand-off commands.

pub mod hal;
pub mod elf;
pub mod id;
pub mod kernel;
pub mod layout;
pub mod hartlocal;
pub mod process;
pub mod sched;
pub mod palloc;
pub mod ptable;
pub mod vm;

use vstd::prelude::*;

verus! {

/// Size of one physical or virtual page, in bytes.
pub const PAGE_SIZE: u64 = 4096;

/// log2 of the page size: the number of offset bits in an address.
pub const PAGE_OFFSET: u64 = 12;

/// A full address is page-aligned when its offset bits are zero.
pub open spec fn page_aligned(a: u64) -> bool {
    a % PAGE_SIZE == 0
}

} // verus!
