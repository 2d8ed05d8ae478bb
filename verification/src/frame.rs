//! The allocator of physical frames.
//!
//! It manages a run of frames by their page numbers and hands each frame to
//! one owner at a time.

use crate::address::PPN_LIMIT;
use vstd::prelude::*;

verus! {

pub struct FrameAllocator {
    base: u64,
    used: Vec<bool>,
    free: usize,
}

/// The number of entries of `s` that are `false`.
pub open spec fn count_false(s: Seq<bool>) -> nat
    decreases s.len(),
{
    if s.len() == 0 {
        0
    } else {
        count_false(s.drop_last()) + if s.last() {
            0nat
        } else {
            1nat
        }
    }
}

/// Writing one entry changes the number of `false` entries by that entry alone.
pub proof fn lemma_count_false_update(s: Seq<bool>, i: int, b: bool)
    requires
        0 <= i < s.len(),
    ensures
        count_false(s.update(i, b)) + (if s[i] {
            0nat
        } else {
            1nat
        }) == count_false(s) + (if b {
            0nat
        } else {
            1nat
        }),
        count_false(s) <= s.len(),
    decreases s.len(),
{
    lemma_count_false_bound(s);
    if i == s.len() - 1 {
        assert(s.update(i, b).drop_last() =~= s.drop_last());
    } else {
        lemma_count_false_update(s.drop_last(), i, b);
        assert(s.update(i, b).drop_last() =~= s.drop_last().update(i, b));
    }
}

/// No more entries are `false` than there are entries; none is `false`
/// exactly when all are `true`.
pub proof fn lemma_count_false_bound(s: Seq<bool>)
    ensures
        count_false(s) <= s.len(),
        count_false(s) == 0 <==> forall|i: int| 0 <= i < s.len() ==> s[i],
    decreases s.len(),
{
    if s.len() > 0 {
        lemma_count_false_bound(s.drop_last());
        if count_false(s) == 0 {
            assert forall|i: int| 0 <= i < s.len() implies s[i] by {
                if i < s.len() - 1 {
                    assert(s.drop_last()[i]);
                }
            }
        }
        if forall|i: int| 0 <= i < s.len() ==> s[i] {
            assert forall|i: int| 0 <= i < s.drop_last().len() implies s.drop_last()[i] by {
                assert(s[i]);
            }
        }
    }
}

/// A list of only `false` entries has as many `false` entries as it is long.
pub proof fn lemma_count_false_all(s: Seq<bool>)
    requires
        forall|i: int| 0 <= i < s.len() ==> !s[i],
    ensures
        count_false(s) == s.len(),
    decreases s.len(),
{
    if s.len() > 0 {
        assert forall|i: int| 0 <= i < s.drop_last().len() implies !s.drop_last()[i] by {
            assert(!s[i]);
        }
        lemma_count_false_all(s.drop_last());
    }
}

impl FrameAllocator {
    /// The first frame that the allocator manages.
    pub closed spec fn first(&self) -> u64 {
        self.base
    }

    /// The number of frames that the allocator manages.
    pub closed spec fn count(&self) -> nat {
        self.used@.len()
    }

    /// Whether `ppn` is one of the frames that the allocator manages.
    pub open spec fn manages(&self, ppn: u64) -> bool {
        self.first() <= ppn < self.first() + self.count()
    }

    /// Whether the frame `ppn` is handed out.
    pub closed spec fn is_used(&self, ppn: u64) -> bool {
        self.base <= ppn < self.base + self.used@.len() && self.used@[ppn - self.base]
    }

    /// The frames that are handed out.
    pub open spec fn allocated(&self) -> Set<u64> {
        Set::new(|ppn: u64| self.is_used(ppn))
    }

    /// Whether every frame is handed out.
    pub open spec fn exhausted(&self) -> bool {
        forall|p: u64| self.manages(p) ==> #[trigger] self.allocated().contains(p)
    }

    /// The number of frames that are free.
    pub closed spec fn free_frames(&self) -> nat {
        count_false(self.used@)
    }

    pub closed spec fn wf(&self) -> bool {
        &&& self.base + self.used@.len() <= PPN_LIMIT
        &&& self.free == count_false(self.used@)
    }

    /// A frame that is handed out is one that the allocator manages, and its
    /// number is a physical page number.
    pub proof fn lemma_allocated_managed(&self, ppn: u64)
        requires
            self.wf(),
            self.allocated().contains(ppn),
        ensures
            self.manages(ppn),
            ppn < PPN_LIMIT,
    {
    }

    /// An allocator for the `count` frames from `base` on, none handed out.
    /// `None` if they are not all physical page numbers.
    pub fn new(base: u64, count: usize) -> (r: Option<Self>)
        ensures
            r is Some <==> base + count <= PPN_LIMIT,
            r matches Some(a) ==> {
                &&& a.wf()
                &&& a.first() == base
                &&& a.count() == count
                &&& a.free_frames() == count
                &&& a.allocated() == Set::<u64>::empty()
            },
    {
        if base > PPN_LIMIT || count as u64 > PPN_LIMIT - base {
            return None;
        }
        let mut used: Vec<bool> = Vec::new();
        let mut i: usize = 0;
        while i < count
            invariant
                i <= count,
                used@.len() == i,
                forall|k: int| 0 <= k < i ==> !used@[k],
            decreases count - i,
        {
            used.push(false);
            i = i + 1;
        }
        let a = FrameAllocator { base, used, free: count };
        proof {
            lemma_count_false_all(a.used@);
            assert(a.allocated() =~= Set::<u64>::empty());
        }
        Some(a)
    }

    /// The number of frames that are free.
    pub fn available(&self) -> (n: usize)
        requires
            self.wf(),
        ensures
            n == self.free_frames(),
    {
        self.free
    }

    /// Whether the frame `ppn` is handed out.
    pub fn is_allocated(&self, ppn: u64) -> (b: bool)
        requires
            self.wf(),
        ensures
            b == self.allocated().contains(ppn),
    {
        if ppn < self.base {
            return false;
        }
        let i = ppn - self.base;
        if i >= self.used.len() as u64 {
            return false;
        }
        self.used[i as usize]
    }

    /// Hands out the lowest frame that is free.  `None`, with nothing
    /// changed, exactly when every frame is handed out.
    pub fn allocate(&mut self) -> (r: Option<u64>)
        requires
            old(self).wf(),
        ensures
            final(self).wf(),
            final(self).first() == old(self).first(),
            final(self).count() == old(self).count(),
            match r {
                Some(ppn) => {
                    &&& final(self).free_frames() + 1 == old(self).free_frames()
                    &&& !old(self).allocated().contains(ppn)
                    &&& old(self).manages(ppn)
                    &&& ppn < PPN_LIMIT
                    &&& final(self).allocated() == old(self).allocated().insert(ppn)
                    &&& forall|p: u64| old(self).manages(p) && p < ppn
                        ==> old(self).allocated().contains(p)
                },
                None => {
                    &&& *final(self) == *old(self)
                    &&& old(self).exhausted()
                    &&& old(self).free_frames() == 0
                },
            },
    {
        let n = self.used.len();
        let mut i: usize = 0;
        while i < n
            invariant
                i <= n,
                n == self.used@.len(),
                self.wf(),
                *self == *old(self),
                forall|k: int| 0 <= k < i ==> self.used@[k],
            decreases n - i,
        {
            if !self.used[i] {
                proof {
                    lemma_count_false_update(self.used@, i as int, true);
                }
                self.used[i] = true;
                self.free = self.free - 1;
                let ppn = self.base + i as u64;
                proof {
                    assert(self.allocated() =~= old(self).allocated().insert(ppn)) by {
                        assert forall|p: u64|
                            self.allocated().contains(p) == old(self).allocated().insert(
                                ppn,
                            ).contains(p) by {
                            if p != ppn && self.base <= p < self.base + n {
                                assert(self.used@[p - self.base] == old(self).used@[p
                                    - self.base]);
                            }
                        }
                    }
                    assert forall|p: u64| old(self).manages(p) && p < ppn implies old(
                        self,
                    ).allocated().contains(p) by {
                        assert(old(self).used@[p - self.base]);
                    }
                }
                return Some(ppn);
            }
            i = i + 1;
        }
        proof {
            assert forall|p: u64| old(self).manages(p) implies #[trigger] old(
                self,
            ).allocated().contains(p) by {
                assert(old(self).used@[p - self.base]);
            }
            lemma_count_false_bound(self.used@);
        }
        None
    }

    /// Takes the frame `ppn` back.  `false`, with nothing changed, exactly
    /// when it was not handed out.
    pub fn deallocate(&mut self, ppn: u64) -> (freed: bool)
        requires
            old(self).wf(),
        ensures
            final(self).wf(),
            final(self).first() == old(self).first(),
            final(self).count() == old(self).count(),
            freed == old(self).allocated().contains(ppn),
            final(self).allocated() == old(self).allocated().remove(ppn),
            final(self).free_frames() == old(self).free_frames() + if freed {
                1nat
            } else {
                0nat
            },
    {
        if ppn < self.base || ppn - self.base >= self.used.len() as u64 || !self.used[(ppn
            - self.base) as usize] {
            proof {
                assert(old(self).allocated().remove(ppn) =~= old(self).allocated());
            }
            return false;
        }
        let i = (ppn - self.base) as usize;
        proof {
            lemma_count_false_update(self.used@, i as int, false);
            lemma_count_false_bound(self.used@.update(i as int, false));
        }
        self.used[i] = false;
        self.free = self.free + 1;
        proof {
            assert(self.allocated() =~= old(self).allocated().remove(ppn)) by {
                assert forall|p: u64|
                    self.allocated().contains(p) == old(self).allocated().remove(
                        ppn,
                    ).contains(p) by {
                    if p != ppn && self.base <= p < self.base + self.used@.len() {
                        assert(self.used@[p - self.base] == old(self).used@[p - self.base]);
                    }
                }
            }
        }
        true
    }
}

} // verus!
