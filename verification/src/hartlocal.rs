//! Per-hart hand-off storage for the one piece of state that must survive
//! a privilege and address-space switch: ownership of the current process.
//! The slot is written immediately before entering a process and read back
//! immediately on re-entering the kernel; it is never read twice without
//! an intervening write, nor written twice without an intervening read.

use vstd::prelude::*;

use crate::process::Process;

verus! {

/// What is restored to a hart when it comes back from a process.
pub struct GPInfo {
    pub current_process: Process,
}

impl GPInfo {
    pub fn new(current_process: Process) -> (r: Self)
        ensures
            r.current_process == current_process,
    {
        GPInfo { current_process }
    }
}

/// One hart's parking slot: holds at most one in-flight hand-off record.
pub struct HartSlot {
    pub slot: Option<GPInfo>,
}

impl HartSlot {
    /// The slot currently holds a record.
    pub open spec fn occupied(self) -> bool {
        self.slot is Some
    }

    pub fn new() -> (r: Self)
        ensures
            !r.occupied(),
    {
        HartSlot { slot: None }
    }

    /// Park a hand-off record for the next restore. The slot must be free:
    /// overwriting an in-flight record would orphan its process.
    pub fn save_gp_info64(&mut self, gpi: GPInfo)
        requires
            !old(self).occupied(),
        ensures
            final(self).occupied(),
            final(self).slot == Some(gpi),
    {
        self.slot = Some(gpi);
    }

    /// Take the most recently parked record back, emptying the slot:
    /// ownership of the contained process transfers to the caller.
    pub fn restore_gp_info64(&mut self) -> (r: GPInfo)
        requires
            old(self).occupied(),
        ensures
            !final(self).occupied(),
            Some(r) == old(self).slot,
    {
        let mut taken: Option<GPInfo> = None;
        core::mem::swap(&mut self.slot, &mut taken);
        match taken {
            Some(g) => g,
            None => unreached(),
        }
    }
}

} // verus!
