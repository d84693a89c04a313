use vstd::prelude::*;
use crate::config::{MEM_PAGES, PAGE_SIZE};

verus! {

/// Every byte of frame `p` translates back to page number `p`.
pub proof fn lemma_page_of_byte(p: int, off: int)
    requires
        0 <= p,
        0 <= off < PAGE_SIZE,
    ensures
        (p * PAGE_SIZE + off) / PAGE_SIZE as int == p,
{
    vstd::arithmetic::div_mod::lemma_div_multiples_vanish_fancy(p, off, PAGE_SIZE as int);
}

/// The machine's physical memory, one byte per address in
/// `0 .. MEM_PAGES * PAGE_SIZE`.  The kernel and every user address space
/// share a direct-mapped view of it, so a translated physical address can
/// be dereferenced here directly.
pub struct PhysMem {
    pub bytes: Vec<u8>,
}

impl PhysMem {
    pub open spec fn wf(self) -> bool {
        self.bytes@.len() == MEM_PAGES * PAGE_SIZE
    }

    /// Fresh zero-filled memory.
    pub fn new() -> (r: Self)
        ensures
            r.wf(),
            forall|pa: int| 0 <= pa < MEM_PAGES * PAGE_SIZE ==> r.bytes@[pa] == 0u8,
    {
        let bytes: Vec<u8> = vec![0u8; MEM_PAGES * PAGE_SIZE];
        PhysMem { bytes }
    }

    /// Reads the byte at physical address `pa`.
    pub fn read(&self, pa: usize) -> (b: u8)
        requires
            self.wf(),
            pa < MEM_PAGES * PAGE_SIZE,
        ensures
            b == self.bytes@[pa as int],
    {
        self.bytes[pa]
    }

    /// Copies one whole frame: afterwards frame `dst` holds exactly what
    /// frame `src` held, and no byte outside frame `dst` changes.
    pub fn copy_frame(&mut self, src: usize, dst: usize)
        requires
            old(self).wf(),
            src < MEM_PAGES,
            dst < MEM_PAGES,
            src != dst,
        ensures
            final(self).wf(),
            forall|off: int|
                0 <= off < PAGE_SIZE ==> (#[trigger] final(self).bytes@[dst * PAGE_SIZE + off]) == old(self).bytes@[src * PAGE_SIZE + off],
            forall|pa: int|
                0 <= pa < final(self).bytes@.len() && pa / PAGE_SIZE as int != dst ==> final(self).bytes@[pa] == old(self).bytes@[pa],
    {
        let mut off: usize = 0;
        while off < PAGE_SIZE
            invariant
                off <= PAGE_SIZE,
                src < MEM_PAGES,
                dst < MEM_PAGES,
                src != dst,
                self.wf(),
                forall|o: int|
                    0 <= o < off ==> (#[trigger] self.bytes@[dst * PAGE_SIZE + o]) == old(self).bytes@[src * PAGE_SIZE + o],
                forall|pa: int|
                    0 <= pa < self.bytes@.len() && pa / PAGE_SIZE as int != dst ==> self.bytes@[pa]
                        == old(self).bytes@[pa],
            decreases PAGE_SIZE - off,
        {
            proof {
                lemma_page_of_byte(src as int, off as int);
                lemma_page_of_byte(dst as int, off as int);
            }
            let b = self.read(src * PAGE_SIZE + off);
            let ghost pre = *self;
            self.write(dst * PAGE_SIZE + off, b);
            off = off + 1;
            proof {
                assert forall|pa: int|
                    0 <= pa < self.bytes@.len() && pa / PAGE_SIZE as int != dst
                    implies self.bytes@[pa] == old(self).bytes@[pa] by {
                    assert(pa != dst * PAGE_SIZE + (off - 1));
                    assert(pre.bytes@[pa] == old(self).bytes@[pa]);
                }
            }
        }
    }

    /// Writes one byte at physical address `pa`; no other byte changes.
    pub fn write(&mut self, pa: usize, b: u8)
        requires
            old(self).wf(),
            pa < MEM_PAGES * PAGE_SIZE,
        ensures
            final(self).wf(),
            final(self).bytes@ == old(self).bytes@.update(pa as int, b),
    {
        self.bytes[pa] = b;
    }
}

} // verus!
