//! The machine's memory layout: section boundaries of the kernel image,
//! per-hart stack regions, hart count and DRAM base. On hardware these come
//! from the linker script and platform discovery; here they are explicit
//! data handed to the boot sequence.

use vstd::prelude::*;

use crate::{PAGE_SIZE, page_aligned};
use crate::ptable::VA_TOP;

verus! {

/// Section boundaries and hardware parameters, all page-aligned addresses.
/// Each hart owns `stack_pages` pages of normal-stack region (the first a
/// guard page) and four pages of interrupt-stack region (guards at offsets
/// zero and two).
#[derive(Clone, Copy, Debug, PartialEq, Eq, Structural)]
pub struct MachineLayout {
    pub text_start: u64,
    pub text_end: u64,
    pub rodata_start: u64,
    pub rodata_end: u64,
    pub data_start: u64,
    pub data_end: u64,
    pub stacks_start: u64,
    pub stacks_end: u64,
    pub intstacks_start: u64,
    pub intstacks_end: u64,
    pub bss_start: u64,
    pub bss_end: u64,
    pub memory_start: u64,
    pub memory_end: u64,
    pub nhart: u64,
    pub dram_base: u64,
    pub stack_pages: u64,
}

impl MachineLayout {
    /// The sections are aligned, ordered and nonempty; the stack regions are
    /// sized to the hart count; everything lies below the translation
    /// scheme's ceiling, and there is room for a process stack below the
    /// kernel text.
    pub open spec fn wf(self) -> bool {
        &&& page_aligned(self.text_start)
        &&& page_aligned(self.text_end)
        &&& page_aligned(self.rodata_start)
        &&& page_aligned(self.rodata_end)
        &&& page_aligned(self.data_start)
        &&& page_aligned(self.data_end)
        &&& page_aligned(self.stacks_start)
        &&& page_aligned(self.stacks_end)
        &&& page_aligned(self.intstacks_start)
        &&& page_aligned(self.intstacks_end)
        &&& page_aligned(self.bss_start)
        &&& page_aligned(self.bss_end)
        &&& page_aligned(self.memory_start)
        &&& page_aligned(self.memory_end)
        &&& 3 * PAGE_SIZE <= self.text_start
        &&& self.text_start < self.text_end
        &&& self.text_end <= self.rodata_start
        &&& self.rodata_start < self.rodata_end
        &&& self.rodata_end <= self.data_start
        &&& self.data_start < self.data_end
        &&& self.data_end <= self.stacks_start
        &&& self.stacks_start < self.stacks_end
        &&& self.stacks_end <= self.intstacks_start
        &&& self.intstacks_start < self.intstacks_end
        &&& self.intstacks_end <= self.bss_start
        &&& self.bss_start < self.bss_end
        &&& self.bss_end < self.memory_end
        &&& self.memory_end <= VA_TOP
        &&& self.memory_start <= self.text_start
        &&& 1 <= self.nhart
        &&& 2 <= self.stack_pages
        &&& self.stacks_end - self.stacks_start == self.nhart * self.stack_pages * PAGE_SIZE
        &&& self.intstacks_end - self.intstacks_start == self.nhart * 4 * PAGE_SIZE
    }

    /// Nothing to probe: the layout is explicit data.
    pub fn sections_setup(&self) {
    }

    pub fn text_start(&self) -> (r: u64)
        ensures r == self.text_start,
    {
        self.text_start
    }

    pub fn text_end(&self) -> (r: u64)
        ensures r == self.text_end,
    {
        self.text_end
    }

    pub fn rodata_start(&self) -> (r: u64)
        ensures r == self.rodata_start,
    {
        self.rodata_start
    }

    pub fn rodata_end(&self) -> (r: u64)
        ensures r == self.rodata_end,
    {
        self.rodata_end
    }

    pub fn data_start(&self) -> (r: u64)
        ensures r == self.data_start,
    {
        self.data_start
    }

    pub fn data_end(&self) -> (r: u64)
        ensures r == self.data_end,
    {
        self.data_end
    }

    pub fn stacks_start(&self) -> (r: u64)
        ensures r == self.stacks_start,
    {
        self.stacks_start
    }

    pub fn stacks_end(&self) -> (r: u64)
        ensures r == self.stacks_end,
    {
        self.stacks_end
    }

    pub fn intstacks_start(&self) -> (r: u64)
        ensures r == self.intstacks_start,
    {
        self.intstacks_start
    }

    pub fn intstacks_end(&self) -> (r: u64)
        ensures r == self.intstacks_end,
    {
        self.intstacks_end
    }

    pub fn bss_start(&self) -> (r: u64)
        ensures r == self.bss_start,
    {
        self.bss_start
    }

    pub fn bss_end(&self) -> (r: u64)
        ensures r == self.bss_end,
    {
        self.bss_end
    }

    pub fn memory_start(&self) -> (r: u64)
        ensures r == self.memory_start,
    {
        self.memory_start
    }

    pub fn memory_end(&self) -> (r: u64)
        ensures r == self.memory_end,
    {
        self.memory_end
    }

    /// First mapped address of hart `s`'s normal stack (one guard page below).
    pub open spec fn stack_lo(self, s: int) -> int {
        self.stacks_start + (1 + s * self.stack_pages) * PAGE_SIZE
    }

    /// One past hart `s`'s normal stack.
    pub open spec fn stack_hi(self, s: int) -> int {
        self.stacks_start + (s + 1) * self.stack_pages * PAGE_SIZE
    }

    /// Hart `i`'s machine-mode interrupt stack page (guard below it).
    pub open spec fn m_intstack(self, i: int) -> int {
        self.intstacks_start + (1 + i * 4) * PAGE_SIZE
    }

    /// Hart `i`'s supervisor-mode interrupt stack page (guard below it).
    pub open spec fn s_intstack(self, i: int) -> int {
        self.intstacks_start + (3 + i * 4) * PAGE_SIZE
    }
}

} // verus!
