use vstd::prelude::*;
use crate::config::USER_PAGES;
use crate::perm::MapPermission;

verus! {

/// One virtual-to-physical translation: the backing frame plus its access
/// flags.  A slot holding `None` is an invalid entry and carries no frame.
#[derive(Clone, Copy, PartialEq, Eq, Structural, Debug)]
pub struct PageTableEntry {
    pub ppn: usize,
    pub perm: MapPermission,
}

/// A per-address-space page table over the bounded user range
/// `0 .. USER_PAGES`, one slot per virtual page number.  Only valid slots
/// (`Some`) may be dereferenced; [`Self::translate`] returns `None` for
/// every other page.
pub struct PageTable {
    pub slots: Vec<Option<PageTableEntry>>,
}

impl PageTable {
    pub open spec fn wf(self) -> bool {
        self.slots@.len() == USER_PAGES
    }

    /// The entry installed for `vpn`, `None` when the page is unmapped or
    /// outside the user range.
    pub open spec fn entry(self, vpn: int) -> Option<PageTableEntry> {
        if 0 <= vpn < self.slots@.len() {
            self.slots@[vpn]
        } else {
            None
        }
    }

    /// A fresh table with every translation invalid.
    pub fn new() -> (r: Self)
        ensures
            r.wf(),
            forall|vpn: int| r.entry(vpn) is None,
    {
        let slots: Vec<Option<PageTableEntry>> = vec![None; USER_PAGES];
        PageTable { slots }
    }

    /// Installs or replaces the translation of `vpn`.
    pub fn map(&mut self, vpn: usize, ppn: usize, perm: MapPermission)
        requires
            old(self).wf(),
            vpn < USER_PAGES,
        ensures
            final(self).wf(),
            final(self).entry(vpn as int) == Some(PageTableEntry { ppn, perm }),
            forall|v: int| v != vpn ==> final(self).entry(v) == old(self).entry(v),
    {
        self.slots[vpn] = Some(PageTableEntry { ppn, perm });
    }

    /// Clears the translation of `vpn`.  Unmapping a page with no valid
    /// mapping would be a kernel bug; the precondition rules it out.
    pub fn unmap(&mut self, vpn: usize)
        requires
            old(self).wf(),
            vpn < USER_PAGES,
            old(self).entry(vpn as int) is Some,
        ensures
            final(self).wf(),
            final(self).entry(vpn as int) is None,
            forall|v: int| v != vpn ==> final(self).entry(v) == old(self).entry(v),
    {
        self.slots[vpn] = None;
    }

    /// Returns the entry of `vpn` if it is valid.
    pub fn translate(&self, vpn: usize) -> (r: Option<PageTableEntry>)
        requires
            self.wf(),
        ensures
            r == self.entry(vpn as int),
    {
        if vpn < USER_PAGES {
            self.slots[vpn]
        } else {
            None
        }
    }
}

} // verus!
