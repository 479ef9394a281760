//! The scheduler's ready pool: a strict round-robin queue of processes.
//! Insertion order defines service order; there is no priority and no
//! aging. A process is in the queue only while no hart is executing it.

use vstd::prelude::*;

use crate::process::Process;

verus! {

/// A first-in, first-out pool of runnable processes.
pub struct ProcessQueue {
    pub procs: Vec<Process>,
}

impl ProcessQueue {
    /// The processes in service order: the front is served next.
    pub open spec fn view(self) -> Seq<Process> {
        self.procs@
    }

    pub fn new() -> (r: Self)
        ensures
            r@ =~= Seq::<Process>::empty(),
    {
        let procs: Vec<Process> = Vec::new();
        proof {
            assert(procs@ =~= Seq::<Process>::empty());
        }
        ProcessQueue { procs }
    }

    /// How many processes are waiting.
    pub fn len(&self) -> (r: usize)
        ensures
            r == self@.len(),
    {
        self.procs.len()
    }

    /// Add a process at the back of the service order.
    pub fn insert(&mut self, p: Process)
        requires
            old(self)@.len() < usize::MAX,
        ensures
            final(self)@ == old(self)@.push(p),
    {
        self.procs.push(p);
    }

    /// Remove and return the next process in round-robin order. The queue
    /// must not be empty: the kernel keeps at least one runnable process.
    pub fn get_ready_process(&mut self) -> (r: Process)
        requires
            old(self)@.len() > 0,
        ensures
            r == old(self)@[0],
            final(self)@ == old(self)@.subrange(1, old(self)@.len() as int),
    {
        let r = self.procs.remove(0);
        proof {
            assert(final(self)@ =~= old(self)@.subrange(1, old(self)@.len() as int));
        }
        r
    }
}


/// Bounded round-robin fairness. Processes inserted in order are first
/// dispatched in that order (`insert` appends, `get_ready_process` takes
/// the front); a process that yields re-enters at the back, so with three
/// processes that each yield once and then exit, the dispatch order is the
/// insertion order twice over, after which the queue is empty. The primed
/// values stand for the processes as re-inserted after their yield.
pub proof fn lemma_round_robin_bounded(
    a: Process, b: Process, c: Process, a1: Process, b1: Process, c1: Process,
)
    ensures
        seq![a, b, c][0] == a,
        seq![a, b, c].subrange(1, 3) =~= seq![b, c],
        seq![b, c].push(a1)[0] == b,
        seq![b, c].push(a1).subrange(1, 3) =~= seq![c, a1],
        seq![c, a1].push(b1)[0] == c,
        seq![c, a1].push(b1).subrange(1, 3) =~= seq![a1, b1],
        seq![a1, b1].push(c1)[0] == a1,
        seq![a1, b1].push(c1).subrange(1, 3) =~= seq![b1, c1],
        seq![b1, c1][0] == b1,
        seq![b1, c1].subrange(1, 2) =~= seq![c1],
        seq![c1][0] == c1,
        seq![c1].subrange(1, 1) =~= Seq::<Process>::empty(),
{
}

} // verus!
