//! Process-id generation: a monotonic counter with a reclaiming free list.
//! An id is unique among concurrently live processes; once freed it is
//! reused (most recently freed first) before the counter grows.

use vstd::prelude::*;

verus! {

/// Generates ids starting at one; zero never names a live process.
pub struct IdGenerator {
    pub next: usize,
    pub freed: Vec<usize>,
}

impl IdGenerator {
    /// Every freed id was once generated, is nonzero, and appears once.
    pub open spec fn wf(self) -> bool {
        &&& self.next >= 1
        &&& forall|k: int| 0 <= k < self.freed@.len() ==>
            1 <= #[trigger] self.freed@[k] < self.next
        &&& self.freed@.no_duplicates()
    }

    /// The ids currently handed out and not yet returned.
    pub open spec fn live(self) -> Set<usize> {
        Set::new(|i: usize| 1 <= i < self.next && !self.freed@.contains(i))
    }

    pub fn new() -> (r: Self)
        ensures
            r.wf(),
            r.next == 1,
            r.freed@.len() == 0,
            r.live() =~= Set::<usize>::empty(),
    {
        let r = IdGenerator { next: 1, freed: Vec::new() };
        proof {
            assert forall|i: usize| !(#[trigger] r.live().contains(i)) by {}
        }
        r
    }

    /// Hand out an id no live process holds: the most recently freed one if
    /// any exists, else the next fresh number.
    pub fn generate(&mut self) -> (r: usize)
        requires
            old(self).wf(),
            old(self).freed@.len() > 0 || old(self).next < usize::MAX,
        ensures
            final(self).wf(),
            r >= 1,
            !old(self).live().contains(r),
            final(self).live() =~= old(self).live().insert(r),
            old(self).freed@.len() > 0 ==> {
                &&& r == old(self).freed@.last()
                &&& final(self).freed@ == old(self).freed@.drop_last()
                &&& final(self).next == old(self).next
            },
            old(self).freed@.len() == 0 ==> {
                &&& r == old(self).next
                &&& final(self).next == old(self).next + 1
                &&& final(self).freed@ == old(self).freed@
            },
    {
        if self.freed.len() > 0 {
            let r = self.freed.pop().unwrap();
            proof {
                let f0 = old(self).freed@;
                assert(f0.drop_last().no_duplicates());
                assert(f0.contains(r)) by {
                    assert(f0[f0.len() - 1] == r);
                }
                assert(!f0.drop_last().contains(r)) by {
                    if f0.drop_last().contains(r) {
                        let k = choose|k: int| 0 <= k < f0.drop_last().len()
                            && f0.drop_last()[k] == r;
                        assert(f0[k] == r);
                        assert(f0[f0.len() - 1] == r);
                        assert(!f0.no_duplicates());
                    }
                }
                assert forall|i: usize| #[trigger] final(self).live().contains(i)
                    == old(self).live().insert(r).contains(i) by {
                    if i == r {
                        assert(final(self).live().contains(i)) by {
                            assert(!final(self).freed@.contains(r));
                        }
                    } else {
                        assert(f0.drop_last().contains(i) == f0.contains(i)) by {
                            if f0.contains(i) {
                                let k = choose|k: int| 0 <= k < f0.len() && f0[k] == i;
                                assert(k < f0.len() - 1);
                                assert(f0.drop_last()[k] == i);
                            }
                            if f0.drop_last().contains(i) {
                                let k = choose|k: int| 0 <= k < f0.drop_last().len()
                                    && f0.drop_last()[k] == i;
                                assert(f0[k] == i);
                            }
                        }
                    }
                }
                assert(final(self).live() =~= old(self).live().insert(r));
            }
            r
        } else {
            let r = self.next;
            self.next = self.next + 1;
            proof {
                assert(!old(self).live().contains(r)) by {
                    assert(!(r < old(self).next));
                }
                assert forall|i: usize| #[trigger] final(self).live().contains(i)
                    == old(self).live().insert(r).contains(i) by {}
                assert(final(self).live() =~= old(self).live().insert(r));
            }
            r
        }
    }

    /// Return a live id for reuse.
    pub fn free(&mut self, id: usize)
        requires
            old(self).wf(),
            old(self).live().contains(id),
        ensures
            final(self).wf(),
            final(self).next == old(self).next,
            final(self).freed@ == old(self).freed@.push(id),
            final(self).live() =~= old(self).live().remove(id),
    {
        proof {
            assert(!old(self).freed@.contains(id));
        }
        self.freed.push(id);
        proof {
            let f1 = final(self).freed@;
            let f0 = old(self).freed@;
            assert forall|i: usize| #[trigger] f1.contains(i) == (f0.contains(i) || i == id) by {
                if f1.contains(i) {
                    let k = choose|k: int| 0 <= k < f1.len() && f1[k] == i;
                    if k < f0.len() {
                        assert(f0[k] == i);
                    }
                }
                if f0.contains(i) {
                    let k = choose|k: int| 0 <= k < f0.len() && f0[k] == i;
                    assert(f1[k] == i);
                }
                if i == id {
                    assert(f1[f1.len() - 1] == id);
                }
            }
            assert(f1.no_duplicates()) by {
                assert forall|k1: int, k2: int| 0 <= k1 < k2 < f1.len() implies
                    f1[k1] != f1[k2] by {
                    if k2 == f1.len() - 1 {
                        if f1[k1] == id {
                            assert(f0[k1] == id);
                            assert(f0.contains(id));
                        }
                    }
                }
            }
            assert(final(self).live() =~= old(self).live().remove(id));
        }
    }
}


/// Id reuse: freeing a live id and then generating hands the same id back,
/// and an id generated while another is live never collides with it.
pub proof fn lemma_id_reuse(g0: IdGenerator, g1: IdGenerator, k: usize, r: usize)
    requires
        g0.wf(),
        g0.live().contains(k),
        // after freeing k
        g1.wf(),
        g1.freed@ == g0.freed@.push(k),
        g1.next == g0.next,
        // what generating from there returned
        g1.freed@.len() > 0 ==> r == g1.freed@.last(),
    ensures
        r == k,
{
    assert(g1.freed@.len() > 0);
    assert(g1.freed@.last() == k);
}

/// Distinctness of live ids: a freshly generated id differs from every id
/// that was live when it was generated.
pub proof fn lemma_live_ids_distinct(g1: IdGenerator, r2: usize, r1: usize)
    requires
        g1.live().contains(r1),
        !g1.live().contains(r2),
    ensures
        r1 != r2,
{
}

} // verus!
