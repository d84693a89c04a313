use vstd::prelude::*;
use vstd::set_lib::{lemma_len_subset, lemma_int_range, set_int_range};
use crate::config::MEM_PAGES;

verus! {

/// Owner of the pool of physical frames `0 .. MEM_PAGES`: a watermark plus
/// a recycle stack.  Frames `current .. MEM_PAGES` have never been handed
/// out; `recycled` holds frames that came back through [`Self::free`].
pub struct FrameAllocator {
    pub current: usize,
    pub recycled: Vec<usize>,
}

impl FrameAllocator {
    /// Frame `f` is in the hands of some owner: it was handed out and has
    /// not been returned.
    pub open spec fn taken(self, f: int) -> bool {
        0 <= f < self.current && !self.recycled@.contains(f as usize)
    }

    pub open spec fn wf(self) -> bool {
        &&& self.current <= MEM_PAGES
        &&& forall|i: int|
            0 <= i < self.recycled@.len() ==> (#[trigger] self.recycled@[i]) < self.current
        &&& forall|i: int, j: int|
            0 <= i < j < self.recycled@.len() ==> self.recycled@[i] != self.recycled@[j]
    }

    /// How many frames are still free.
    pub open spec fn spec_available(self) -> int {
        self.recycled@.len() + MEM_PAGES - self.current
    }

    /// The recycle stack holds distinct frames below the watermark, so it
    /// cannot be longer than the watermark itself.
    proof fn lemma_recycled_len(self)
        requires
            self.wf(),
        ensures
            self.recycled@.len() <= self.current,
    {
        let s = self.recycled@.map_values(|u: usize| u as int);
        assert forall|i: int, j: int| 0 <= i < j < s.len() implies s[i] != s[j] by {
            assert(self.recycled@[i] != self.recycled@[j]);
        }
        assert(s.no_duplicates());
        s.unique_seq_to_set();
        assert(s.to_set().subset_of(set_int_range(0, self.current as int))) by {
            assert forall|e: int| s.to_set().contains(e) implies set_int_range(
                0,
                self.current as int,
            ).contains(e) by {
                let i = choose|i: int| 0 <= i < s.len() && s[i] == e;
                assert(self.recycled@[i] < self.current);
            }
        }
        lemma_int_range(0, self.current as int);
        lemma_len_subset(s.to_set(), set_int_range(0, self.current as int));
    }

    /// The pool can never owe more frames than it has.
    pub proof fn lemma_available_bound(self)
        requires
            self.wf(),
        ensures
            self.spec_available() <= MEM_PAGES,
    {
        self.lemma_recycled_len();
    }

    pub fn new() -> (r: Self)
        ensures
            r.wf(),
            r.spec_available() == MEM_PAGES,
            forall|f: int| !r.taken(f),
    {
        FrameAllocator { current: 0, recycled: Vec::new() }
    }

    /// How many more allocations are certain to succeed.
    pub fn available(&self) -> (n: usize)
        requires
            self.wf(),
        ensures
            n == self.spec_available(),
    {
        proof {
            self.lemma_recycled_len();
        }
        self.recycled.len() + (MEM_PAGES - self.current)
    }

    /// Removes and returns one free frame; `None` exactly when the pool is
    /// exhausted.  A returned frame was free before the call and is taken
    /// after it; no other frame changes hands.
    pub fn allocate(&mut self) -> (r: Option<usize>)
        requires
            old(self).wf(),
        ensures
            final(self).wf(),
            r is Some <==> old(self).spec_available() > 0,
            r matches Some(f) ==> {
                &&& f < MEM_PAGES
                &&& !old(self).taken(f as int)
                &&& final(self).taken(f as int)
                &&& forall|g: int| g != f ==> final(self).taken(g) == old(self).taken(g)
                &&& final(self).spec_available() == old(self).spec_available() - 1
            },
            r is None ==> final(self).current == old(self).current && final(self).recycled@
                == old(self).recycled@,
    {
        let ghost pre = *self;
        match self.recycled.pop() {
            Some(f) => {
                proof {
                    assert(pre.recycled@.last() == f);
                    assert(pre.recycled@.contains(f)) by {
                        assert(pre.recycled@[pre.recycled@.len() - 1] == f);
                    }
                    assert forall|g: int| g != f implies self.taken(g) == pre.taken(g) by {
                        if pre.recycled@.contains(g as usize) {
                            let i = choose|i: int|
                                0 <= i < pre.recycled@.len() && pre.recycled@[i] == g as usize;
                            if i < pre.recycled@.len() - 1 {
                                assert(self.recycled@[i] == g as usize);
                            }
                        }
                        if self.recycled@.contains(g as usize) {
                            let i = choose|i: int|
                                0 <= i < self.recycled@.len() && self.recycled@[i] == g as usize;
                            assert(pre.recycled@[i] == g as usize);
                        }
                    }
                    assert(!self.recycled@.contains(f)) by {
                        if self.recycled@.contains(f) {
                            let i = choose|i: int|
                                0 <= i < self.recycled@.len() && self.recycled@[i] == f;
                            assert(pre.recycled@[i] == f);
                            assert(pre.recycled@[pre.recycled@.len() - 1] == f);
                        }
                    }
                }
                Some(f)
            },
            None => {
                if self.current < MEM_PAGES {
                    let f = self.current;
                    self.current = self.current + 1;
                    proof {
                        assert(pre.recycled@.len() == 0);
                        assert(!pre.recycled@.contains(f));
                    }
                    Some(f)
                } else {
                    None
                }
            },
        }
    }

    /// Returns frame `f` to the pool.  Returning a frame that is not taken
    /// would be a double free, a kernel bug; the precondition rules it out.
    pub fn free(&mut self, f: usize)
        requires
            old(self).wf(),
            old(self).taken(f as int),
        ensures
            final(self).wf(),
            !final(self).taken(f as int),
            forall|g: int| g != f ==> final(self).taken(g) == old(self).taken(g),
            final(self).spec_available() == old(self).spec_available() + 1,
    {
        let ghost pre = *self;
        self.recycled.push(f);
        proof {
            assert(self.recycled@ == pre.recycled@.push(f));
            assert(self.recycled@[self.recycled@.len() - 1] == f);
            assert(self.recycled@.contains(f));
            assert forall|g: int| g != f implies self.taken(g) == pre.taken(g) by {
                if 0 <= g < self.current {
                    assert(g as usize != f);
                    if pre.recycled@.contains(g as usize) {
                        let i = choose|i: int|
                            0 <= i < pre.recycled@.len() && pre.recycled@[i] == g as usize;
                        assert(self.recycled@[i] == g as usize);
                    }
                    if self.recycled@.contains(g as usize) {
                        let i = choose|i: int|
                            0 <= i < self.recycled@.len() && self.recycled@[i] == g as usize;
                        assert(i < pre.recycled@.len()) by {
                            assert(self.recycled@[self.recycled@.len() - 1] == f);
                        }
                        assert(pre.recycled@[i] == g as usize);
                    }
                }
            }
        }
    }
}

} // verus!
