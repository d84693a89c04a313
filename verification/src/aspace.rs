use vstd::prelude::*;
use crate::config::{MEM_PAGES, PAGE_SIZE, USER_PAGES, USER_TOP};
use crate::frames::FrameAllocator;
use crate::page_table::{PageTable, PageTableEntry};
use crate::perm::MapPermission;
use crate::phys_mem::{lemma_page_of_byte, PhysMem};

verus! {

/// One virtual memory area: a half-open range of virtual pages, a uniform
/// permission set, and the physical frames backing the range, one frame
/// per page (`frames[i]` backs page `start_vpn + i`).
pub struct MapArea {
    pub start_vpn: usize,
    pub end_vpn: usize,
    pub perm: MapPermission,
    pub frames: Vec<usize>,
}

impl MapArea {
    pub open spec fn wf(self) -> bool {
        &&& self.start_vpn <= self.end_vpn
        &&& self.end_vpn <= USER_PAGES
        &&& self.frames@.len() == self.end_vpn - self.start_vpn
        &&& forall|i: int|
            0 <= i < self.frames@.len() ==> (#[trigger] self.frames@[i]) < MEM_PAGES
    }

    pub open spec fn contains(self, vpn: int) -> bool {
        self.start_vpn <= vpn < self.end_vpn
    }

    /// The two ranges share no page.  An empty area overlaps nothing.
    pub open spec fn disjoint(self, other: MapArea) -> bool {
        ||| self.start_vpn == self.end_vpn
        ||| other.start_vpn == other.end_vpn
        ||| self.end_vpn <= other.start_vpn
        ||| other.end_vpn <= self.start_vpn
    }
}

/// A task's complete virtual memory view: one page table plus the set of
/// memory areas whose declared ranges never overlap and together cover
/// exactly the valid page-table entries.
pub struct AddressSpace {
    pub page_table: PageTable,
    pub areas: Vec<MapArea>,
}

impl AddressSpace {
    /// Page `vpn` has a valid translation.
    pub open spec fn mapped(self, vpn: int) -> bool {
        self.page_table.entry(vpn) is Some
    }

    /// Frame `f` backs some page of this address space.
    pub open spec fn uses(self, f: int) -> bool {
        exists|a: int, i: int|
            0 <= a < self.areas@.len() && 0 <= i < self.areas@[a].frames@.len()
                && (#[trigger] self.areas@[a].frames@[i]) == f
    }

    /// Every frame this address space uses is accounted for as taken by
    /// the allocator; the kernel maintains this for every task.
    pub open spec fn frames_owned(self, fa: FrameAllocator) -> bool {
        forall|f: int| #[trigger] self.uses(f) ==> fa.taken(f)
    }

    pub open spec fn wf(self) -> bool {
        &&& self.page_table.wf()
        &&& forall|a: int| 0 <= a < self.areas@.len() ==> (#[trigger] self.areas@[a]).wf()
        &&& forall|a: int, b: int|
            0 <= a < b < self.areas@.len() ==> self.areas@[a].disjoint(self.areas@[b])
        &&& forall|a: int, vpn: int|
            0 <= a < self.areas@.len() && #[trigger] self.areas@[a].contains(vpn)
                ==> self.page_table.entry(vpn) == Some(
                PageTableEntry {
                    ppn: self.areas@[a].frames@[vpn - self.areas@[a].start_vpn],
                    perm: self.areas@[a].perm,
                },
            )
        &&& forall|vpn: int|
            #[trigger] self.mapped(vpn) ==> exists|a: int|
                0 <= a < self.areas@.len() && #[trigger] self.areas@[a].contains(vpn)
        &&& forall|a: int, i: int, b: int, j: int|
            0 <= a < self.areas@.len() && 0 <= i < self.areas@[a].frames@.len() && 0 <= b
                < self.areas@.len() && 0 <= j < self.areas@[b].frames@.len() && (a != b || i != j)
                ==> (#[trigger] self.areas@[a].frames@[i]) != (#[trigger] self.areas@[b].frames@[j])
    }

    /// A fresh, empty address space.
    pub fn new() -> (r: Self)
        ensures
            r.wf(),
            r.areas@.len() == 0,
            forall|vpn: int| !r.mapped(vpn),
            forall|f: int| !r.uses(f),
    {
        AddressSpace { page_table: PageTable::new(), areas: Vec::new() }
    }

    /// The valid entry of page `vpn`, if any.
    pub fn translate(&self, vpn: usize) -> (r: Option<PageTableEntry>)
        requires
            self.wf(),
        ensures
            r == self.page_table.entry(vpn as int),
    {
        self.page_table.translate(vpn)
    }

    /// The physical address `va` translates to, when page `va / PAGE_SIZE`
    /// has a valid mapping: the entry's frame recombined with the in-page
    /// offset.
    pub open spec fn spec_pa(self, va: int) -> int {
        self.page_table.entry(va / PAGE_SIZE as int)->Some_0.ppn * PAGE_SIZE + va % (
        PAGE_SIZE as int)
    }

    /// Splits `va` into page number and offset, translates the page, and
    /// recombines; `None` exactly when `va` is outside the user range or
    /// its page has no valid mapping.
    pub fn translate_va(&self, va: usize) -> (r: Option<usize>)
        requires
            self.wf(),
        ensures
            r is Some <==> (va < USER_TOP && self.mapped(va as int / PAGE_SIZE as int)),
            r matches Some(pa) ==> pa == self.spec_pa(va as int) && pa < MEM_PAGES * PAGE_SIZE,
    {
        if va >= USER_TOP {
            return None;
        }
        let vpn = va / PAGE_SIZE;
        let off = va % PAGE_SIZE;
        match self.page_table.translate(vpn) {
            Some(e) => {
                proof {
                    assert(self.mapped(vpn as int));
                    let a = choose|a: int|
                        0 <= a < self.areas@.len() && #[trigger] self.areas@[a].contains(
                            vpn as int,
                        );
                    assert(self.areas@[a].wf());
                    assert(e.ppn == self.areas@[a].frames@[vpn - self.areas@[a].start_vpn]);
                    assert(e.ppn < MEM_PAGES);
                }
                Some(e.ppn * PAGE_SIZE + off)
            },
            None => None,
        }
    }

    /// True when no page in `[start, end)` has a valid mapping.
    pub fn range_free(&self, start: usize, end: usize) -> (r: bool)
        requires
            self.wf(),
            start <= end <= USER_PAGES,
        ensures
            r == forall|v: int| start <= v < end ==> !(#[trigger] self.mapped(v)),
    {
        let mut v = start;
        while v < end
            invariant
                self.wf(),
                start <= v <= end <= USER_PAGES,
                forall|u: int| start <= u < v ==> !(#[trigger] self.mapped(u)),
            decreases end - v,
        {
            if self.page_table.translate(v).is_some() {
                proof {
                    assert(self.mapped(v as int));
                }
                return false;
            }
            v = v + 1;
        }
        true
    }

    /// Allocates one fresh frame per page of `[start, end)`, maps each
    /// with `perm`, and records the new area.  Fails, changing nothing,
    /// exactly when the frame pool cannot supply `end - start` frames; the
    /// caller has already checked that the range is free.
    pub fn insert_framed_area(
        &mut self,
        start: usize,
        end: usize,
        perm: MapPermission,
        fa: &mut FrameAllocator,
    ) -> (ok: bool)
        requires
            old(self).wf(),
            old(fa).wf(),
            old(self).frames_owned(*old(fa)),
            start <= end <= USER_PAGES,
            forall|v: int| start <= v < end ==> !(#[trigger] old(self).mapped(v)),
        ensures
            final(self).wf(),
            final(fa).wf(),
            final(self).frames_owned(*final(fa)),
            ok <==> old(fa).spec_available() >= end - start,
            !ok ==> *final(self) == *old(self) && *final(fa) == *old(fa),
            ok ==> {
                &&& final(self).areas@.len() == old(self).areas@.len() + 1
                &&& forall|a: int|
                    0 <= a < old(self).areas@.len() ==> final(self).areas@[a]
                        == old(self).areas@[a]
                &&& final(self).areas@.last().start_vpn == start
                &&& final(self).areas@.last().end_vpn == end
                &&& final(self).areas@.last().perm == perm
                &&& forall|i: int|
                    0 <= i < final(self).areas@.last().frames@.len() ==> !old(fa).taken(
                        #[trigger] final(self).areas@.last().frames@[i] as int,
                    )
                &&& forall|g: int|
                    final(fa).taken(g) <==> old(fa).taken(g) || exists|i: int|
                        0 <= i < final(self).areas@.last().frames@.len()
                            && (#[trigger] final(self).areas@.last().frames@[i]) == g
                &&& forall|v: int|
                    start <= v < end ==> final(self).page_table.entry(v) == Some(
                        PageTableEntry {
                            ppn: final(self).areas@.last().frames@[v - start],
                            perm,
                        },
                    )
                &&& forall|v: int|
                    !(start <= v < end) ==> final(self).page_table.entry(v)
                        == old(self).page_table.entry(v)
                &&& final(fa).spec_available() == old(fa).spec_available() - (end - start)
                &&& forall|f: int|
                    #[trigger] final(self).uses(f) <==> old(self).uses(f) || exists|i: int|
                        0 <= i < final(self).areas@.last().frames@.len()
                            && (#[trigger] final(self).areas@.last().frames@[i]) == f
            },
    {
        let count = end - start;
        if fa.available() < count {
            return false;
        }
        let ghost fa0 = *fa;
        let ghost pt0 = self.page_table;
        let mut frames: Vec<usize> = Vec::new();
        let mut i: usize = 0;
        while i < count
            invariant
                i <= count,
                count == end - start,
                start <= end <= USER_PAGES,
                frames@.len() == i,
                fa.wf(),
                self.page_table.wf(),
                self.areas == old(self).areas,
                fa.spec_available() == fa0.spec_available() - i,
                fa0.spec_available() >= count,
                forall|k: int|
                    0 <= k < i ==> (#[trigger] frames@[k]) < MEM_PAGES && !fa0.taken(
                        frames@[k] as int,
                    ),
                forall|g: int|
                    fa.taken(g) <==> fa0.taken(g) || exists|k: int|
                        0 <= k < i && (#[trigger] frames@[k]) == g,
                forall|k: int, l: int| 0 <= k < l < i ==> frames@[k] != frames@[l],
                forall|v: int|
                    start <= v < start + i ==> self.page_table.entry(v) == Some(
                        PageTableEntry { ppn: frames@[v - start], perm },
                    ),
                forall|v: int|
                    !(start <= v < start + i) ==> self.page_table.entry(v) == pt0.entry(v),
            decreases count - i,
        {
            let ghost fa_pre = *fa;
            let f = match fa.allocate() {
                Some(f) => f,
                None => {
                    proof {
                        assert(false);
                    }
                    0
                },
            };
            self.page_table.map(start + i, f, perm);
            let ghost fprev = frames@;
            frames.push(f);
            i = i + 1;
            proof {
                assert(frames@ == fprev.push(f));
                assert(frames@[i - 1] == f);
                assert forall|k: int, l: int| 0 <= k < l < i implies frames@[k] != frames@[l] by {
                    if l == i - 1 {
                        assert(fprev[k] == frames@[k]);
                        assert(fa_pre.taken(fprev[k] as int));
                        assert(!fa_pre.taken(f as int));
                    } else {
                        assert(fprev[k] == frames@[k] && fprev[l] == frames@[l]);
                    }
                }
                assert forall|g: int|
                    fa.taken(g) <==> fa0.taken(g) || exists|k: int|
                        0 <= k < i && (#[trigger] frames@[k]) == g by {
                    if fa.taken(g) {
                        if g == f {
                            assert(frames@[i - 1] == g);
                        } else {
                            assert(fa_pre.taken(g));
                            if !fa0.taken(g) {
                                let k = choose|k: int|
                                    0 <= k < i - 1 && (#[trigger] fprev[k]) == g;
                                assert(frames@[k] == g);
                            }
                        }
                    }
                    if fa0.taken(g) {
                        if g == f {
                            assert(fa.taken(g));
                        } else {
                            assert(fa_pre.taken(g));
                            assert(fa.taken(g));
                        }
                    }
                    if exists|k: int| 0 <= k < i && (#[trigger] frames@[k]) == g {
                        let k = choose|k: int| 0 <= k < i && (#[trigger] frames@[k]) == g;
                        if k < i - 1 {
                            assert(fprev[k] == g);
                            assert(fa_pre.taken(g));
                            assert(g == f || fa.taken(g));
                            assert(g != f);
                        } else {
                            assert(g == f);
                        }
                        assert(fa.taken(g));
                    }
                }
            }
        }
        let ghost pre = *self;
        let area = MapArea { start_vpn: start, end_vpn: end, perm, frames };
        self.areas.push(area);
        proof {
            let n = old(self).areas@.len() as int;
            let newa = self.areas@[n];
            assert(self.areas@.last() == newa);
            assert(newa.wf());
            // the fresh range was unmapped before, so the new area cannot
            // overlap any older one
            assert forall|a: int| 0 <= a < n implies self.areas@[a].disjoint(newa) by {
                if !self.areas@[a].disjoint(newa) {
                    let v = if self.areas@[a].start_vpn >= start {
                        self.areas@[a].start_vpn as int
                    } else {
                        start as int
                    };
                    assert(self.areas@[a].contains(v));
                    assert(old(self).areas@[a].contains(v));
                    assert(pt0.entry(v) is Some);
                    assert(!old(self).mapped(v));
                }
            }
            // correspondence for old areas: their pages lie outside [start, end)
            assert forall|a: int, vpn: int|
                0 <= a < self.areas@.len() && #[trigger] self.areas@[a].contains(vpn)
                implies self.page_table.entry(vpn) == Some(
                PageTableEntry {
                    ppn: self.areas@[a].frames@[vpn - self.areas@[a].start_vpn],
                    perm: self.areas@[a].perm,
                },
            ) by {
                if a < n {
                    assert(self.areas@[a].disjoint(newa));
                    assert(!(start <= vpn < end));
                    assert(old(self).areas@[a].contains(vpn));
                }
            }
            // every valid entry is covered by some area
            assert forall|vpn: int| #[trigger] self.mapped(vpn) implies exists|a: int|
                0 <= a < self.areas@.len() && #[trigger] self.areas@[a].contains(vpn) by {
                if start <= vpn < end {
                    assert(self.areas@[n].contains(vpn));
                } else {
                    assert(old(self).mapped(vpn));
                    let a = choose|a: int|
                        0 <= a < old(self).areas@.len() && #[trigger] old(self).areas@[a].contains(
                            vpn,
                        );
                    assert(self.areas@[a].contains(vpn));
                }
            }
            // frames stay pairwise distinct: fresh ones were free, old ones taken
            assert forall|a: int, i2: int, b: int, j: int|
                0 <= a < self.areas@.len() && 0 <= i2 < self.areas@[a].frames@.len() && 0 <= b
                    < self.areas@.len() && 0 <= j < self.areas@[b].frames@.len() && (a != b || i2
                    != j) implies (#[trigger] self.areas@[a].frames@[i2])
                != (#[trigger] self.areas@[b].frames@[j]) by {
                if a < n && b < n {
                    assert(old(self).areas@[a].frames@[i2] != old(self).areas@[b].frames@[j]);
                } else if a == n && b == n {
                    let fi = newa.frames@[i2];
                    let fj = newa.frames@[j];
                    if i2 < j {
                        assert(fa.taken(fi as int) || true);
                    }
                } else if a == n {
                    assert(old(self).uses(self.areas@[b].frames@[j] as int)) by {
                        assert(old(self).areas@[b].frames@[j] == self.areas@[b].frames@[j]);
                    }
                    assert(fa0.taken(self.areas@[b].frames@[j] as int));
                    assert(!fa0.taken(newa.frames@[i2] as int));
                } else {
                    assert(old(self).uses(self.areas@[a].frames@[i2] as int));
                    assert(fa0.taken(self.areas@[a].frames@[i2] as int));
                    assert(!fa0.taken(newa.frames@[j] as int));
                }
            }
            // uses(f) evolves by exactly the new frames
            assert forall|f: int| #[trigger] self.uses(f) implies old(self).uses(f) || exists|
                i3: int,
            |
                0 <= i3 < newa.frames@.len() && (#[trigger] newa.frames@[i3]) == f by {
                let (a, k) = choose|a: int, k: int|
                    0 <= a < self.areas@.len() && 0 <= k < self.areas@[a].frames@.len()
                        && (#[trigger] self.areas@[a].frames@[k]) == f;
                if a < n {
                    assert(old(self).areas@[a].frames@[k] == f);
                    assert(old(self).uses(f));
                }
            }
            assert forall|f: int| old(self).uses(f) implies self.uses(f) by {
                let (a, k) = choose|a: int, k: int|
                    0 <= a < old(self).areas@.len() && 0 <= k < old(self).areas@[a].frames@.len()
                        && (#[trigger] old(self).areas@[a].frames@[k]) == f;
                assert(self.areas@[a].frames@[k] == f);
            }
            assert forall|i3: int| 0 <= i3 < newa.frames@.len() implies self.uses(
                #[trigger] newa.frames@[i3] as int,
            ) by {
                assert(self.areas@[n].frames@[i3] == newa.frames@[i3]);
            }
            // ownership against the final allocator state
            assert forall|f: int| #[trigger] self.uses(f) implies fa.taken(f) by {
                if old(self).uses(f) {
                    assert(fa0.taken(f));
                }
            }
        }
        true
    }

    /// Area `a` exists and its declared range is exactly `[start, end)`.
    pub open spec fn is_exact(self, a: int, start: int, end: int) -> bool {
        0 <= a < self.areas@.len() && self.areas@[a].start_vpn == start && self.areas@[a].end_vpn
            == end
    }

    /// Some area other than the protected one matches `[start, end)`
    /// exactly.
    pub open spec fn has_removable(self, start: int, end: int, protected: int) -> bool {
        exists|a: int| a != protected && #[trigger] self.is_exact(a, start, end)
    }

    /// Finds the first area other than `protected` whose range is exactly
    /// `[start, end)`.
    fn find_exact(&self, start: usize, end: usize, protected: usize) -> (r: Option<usize>)
        requires
            self.wf(),
        ensures
            r is Some <==> self.has_removable(start as int, end as int, protected as int),
            r matches Some(j) ==> {
                &&& j != protected
                &&& self.is_exact(j as int, start as int, end as int)
                &&& forall|b: int|
                    0 <= b < j ==> !(b != protected && self.is_exact(b, start as int, end as int))
            },
    {
        let n = self.areas.len();
        let mut j: usize = 0;
        while j < n
            invariant
                n == self.areas@.len(),
                j <= n,
                self.wf(),
                forall|b: int|
                    0 <= b < j ==> !(b != protected && self.is_exact(b, start as int, end as int)),
            decreases n - j,
        {
            if j != protected && self.areas[j].start_vpn == start && self.areas[j].end_vpn == end {
                proof {
                    assert(self.is_exact(j as int, start as int, end as int));
                }
                return Some(j);
            }
            j = j + 1;
        }
        proof {
            assert(!self.has_removable(start as int, end as int, protected as int)) by {
                if self.has_removable(start as int, end as int, protected as int) {
                    let a = choose|a: int|
                        a != protected && #[trigger] self.is_exact(a, start as int, end as int);
                }
            }
        }
        None
    }

    /// Unmaps every page of the first area whose range is exactly
    /// `[start, end)`, releases its frames, and drops the area record.
    /// Fails, changing nothing, when no tracked area other than
    /// `protected` (the caller's heap area, or the length of `areas` for
    /// "none") matches the range exactly: a sub-range of an area is never
    /// split off.
    #[verifier::rlimit(100)]
    pub fn remove_area_exact(
        &mut self,
        start: usize,
        end: usize,
        protected: usize,
        fa: &mut FrameAllocator,
    ) -> (r: Option<usize>)
        requires
            old(self).wf(),
            old(fa).wf(),
            old(self).frames_owned(*old(fa)),
        ensures
            final(self).wf(),
            final(fa).wf(),
            final(self).frames_owned(*final(fa)),
            r is Some <==> old(self).has_removable(start as int, end as int, protected as int),
            r is None ==> *final(self) == *old(self) && *final(fa) == *old(fa),
            r is Some ==> r->0 != protected && old(self).is_exact(
                r->0 as int,
                start as int,
                end as int,
            ),
            r is Some ==> forall|b: int|
                0 <= b < r->0 ==> !(b != protected && old(self).is_exact(
                    b,
                    start as int,
                    end as int,
                )),
            r is Some ==> final(self).areas@ == old(self).areas@.remove(r->0 as int),
            r is Some ==> forall|g: int|
                final(fa).taken(g) <==> old(fa).taken(g) && !(exists|i: int|
                    0 <= i < old(self).areas@[r->0 as int].frames@.len() && (#[trigger] old(self).areas@[r->0 as int].frames@[i]) == g),
            r is Some ==> forall|f: int|
                #[trigger] final(self).uses(f) <==> old(self).uses(f) && !(exists|i: int|
                    0 <= i < old(self).areas@[r->0 as int].frames@.len() && (#[trigger] old(self).areas@[r->0 as int].frames@[i]) == f),
            r is Some ==> final(fa).spec_available() == old(fa).spec_available() + (end - start),
            r is Some ==> forall|v: int|
                start <= v < end ==> !(#[trigger] final(self).mapped(v)),
            r is Some ==> forall|v: int|
                !(start <= v < end) ==> final(self).page_table.entry(v) == old(self).page_table.entry(v),
    {
        let j = match self.find_exact(start, end, protected) {
            Some(j) => j,
            None => {
                return None;
            },
        };
        let ghost self0 = *self;
        let ghost fa0 = *fa;
        let ghost va = self0.areas@[j as int];
        let count = end - start;
        let mut i: usize = 0;
        while i < count
            invariant
                count == end - start,
                i <= count,
                j < self.areas@.len(),
                self.areas == self0.areas,
                self0.wf(),
                self.page_table.wf(),
                fa.wf(),
                va == self0.areas@[j as int],
                va.wf(),
                va.start_vpn == start && va.end_vpn == end,
                self0.frames_owned(fa0),
                forall|g: int|
                    fa.taken(g) <==> fa0.taken(g) && !(exists|k: int|
                        0 <= k < i && (#[trigger] va.frames@[k]) == g),
                fa.spec_available() == fa0.spec_available() + i,
                forall|v: int|
                    start <= v < start + i ==> self.page_table.entry(v) is None,
                forall|v: int|
                    !(start <= v < start + i) ==> self.page_table.entry(v)
                        == self0.page_table.entry(v),
            decreases count - i,
        {
            let f = self.areas[j].frames[i];
            proof {
                assert(va.contains(start + i));
                assert(self0.page_table.entry(start + i) == Some(
                    PageTableEntry { ppn: va.frames@[i as int], perm: va.perm },
                ));
                assert(self0.uses(f as int));
                assert(fa0.taken(f as int));
                assert(fa.taken(f as int)) by {
                    if exists|k: int| 0 <= k < i && (#[trigger] va.frames@[k]) == f as int {
                        let k = choose|k: int|
                            0 <= k < i && (#[trigger] va.frames@[k]) == f as int;
                        assert(va.frames@[k] != va.frames@[i as int]);
                    }
                }
            }
            let ghost fa_pre = *fa;
            self.page_table.unmap(start + i);
            fa.free(f);
            i = i + 1;
            proof {
                assert(va.frames@[i - 1] == f);
                assert forall|g: int|
                    fa.taken(g) implies fa0.taken(g) && !(exists|k: int|
                        0 <= k < i && (#[trigger] va.frames@[k]) == g) by {
                    assert(g != f);
                    assert(fa_pre.taken(g));
                    assert(fa0.taken(g));
                    if exists|k: int| 0 <= k < i && (#[trigger] va.frames@[k]) == g {
                        let k = choose|k: int| 0 <= k < i && (#[trigger] va.frames@[k]) == g;
                        assert(k != i - 1);
                        assert(0 <= k < i - 1 && va.frames@[k] == g);
                        assert(exists|k2: int| 0 <= k2 < i - 1 && (#[trigger] va.frames@[k2]) == g);
                        assert(!fa_pre.taken(g));
                    }
                }
                assert forall|g: int|
                    fa0.taken(g) && !(exists|k: int| 0 <= k < i && (#[trigger] va.frames@[k]) == g)
                    implies fa.taken(g) by {
                    assert(g != f) by {
                        if g == f {
                            assert(0 <= i - 1 < i && va.frames@[i - 1] == g);
                        }
                    }
                    assert(!(exists|k2: int| 0 <= k2 < i - 1 && (#[trigger] va.frames@[k2]) == g))
                        by {
                        if exists|k2: int| 0 <= k2 < i - 1 && (#[trigger] va.frames@[k2]) == g {
                            let k2 = choose|k2: int|
                                0 <= k2 < i - 1 && (#[trigger] va.frames@[k2]) == g;
                            assert(0 <= k2 < i && va.frames@[k2] == g);
                        }
                    }
                    assert(fa_pre.taken(g));
                    assert(fa.taken(g));
                }
            }
        }
        let removed = self.areas.remove(j);
        proof {
            let ghost jj = j as int;
            assert(self.areas@ == self0.areas@.remove(jj));
            assert forall|b: int| 0 <= b < self.areas@.len() implies self.areas@[b]
                == if b < jj {
                self0.areas@[b]
            } else {
                self0.areas@[b + 1]
            } by {}
            // well-formedness of the result
            assert forall|a: int, vpn: int|
                0 <= a < self.areas@.len() && #[trigger] self.areas@[a].contains(vpn)
                implies self.page_table.entry(vpn) == Some(
                PageTableEntry {
                    ppn: self.areas@[a].frames@[vpn - self.areas@[a].start_vpn],
                    perm: self.areas@[a].perm,
                },
            ) by {
                let a0 = if a < jj {
                    a
                } else {
                    a + 1
                };
                assert(self0.areas@[a0].contains(vpn));
                assert(self0.page_table.entry(vpn) == Some(
                    PageTableEntry {
                        ppn: self0.areas@[a0].frames@[vpn - self0.areas@[a0].start_vpn],
                        perm: self0.areas@[a0].perm,
                    },
                ));
                // the surviving area is disjoint from the removed range
                if start <= vpn < end {
                    if a0 < jj {
                        assert(self0.areas@[a0].disjoint(self0.areas@[jj]));
                    } else {
                        assert(self0.areas@[jj].disjoint(self0.areas@[a0]));
                    }
                    assert(va.contains(vpn));
                    assert(false);
                }
            }
            assert forall|vpn: int| #[trigger] self.mapped(vpn) implies exists|a: int|
                0 <= a < self.areas@.len() && #[trigger] self.areas@[a].contains(vpn) by {
                assert(self0.mapped(vpn));
                let a0 = choose|a: int|
                    0 <= a < self0.areas@.len() && #[trigger] self0.areas@[a].contains(vpn);
                if a0 == jj {
                    assert(start <= vpn < end);
                    assert(!self.mapped(vpn));
                } else {
                    let a = if a0 < jj {
                        a0
                    } else {
                        a0 - 1
                    };
                    assert(self.areas@[a].contains(vpn));
                }
            }
            assert forall|a: int, i2: int, b: int, k: int|
                0 <= a < self.areas@.len() && 0 <= i2 < self.areas@[a].frames@.len() && 0 <= b
                    < self.areas@.len() && 0 <= k < self.areas@[b].frames@.len() && (a != b || i2
                    != k) implies (#[trigger] self.areas@[a].frames@[i2])
                != (#[trigger] self.areas@[b].frames@[k]) by {
                let a0 = if a < jj {
                    a
                } else {
                    a + 1
                };
                let b0 = if b < jj {
                    b
                } else {
                    b + 1
                };
                assert(self0.areas@[a0].frames@[i2] != self0.areas@[b0].frames@[k]);
            }
            // frames of survivors are distinct from the freed ones, so they
            // stay taken
            assert forall|f: int| #[trigger] self.uses(f) implies self0.uses(f) && !(exists|
                i2: int,
            |
                0 <= i2 < va.frames@.len() && (#[trigger] va.frames@[i2]) == f) by {
                let (a, k) = choose|a: int, k: int|
                    0 <= a < self.areas@.len() && 0 <= k < self.areas@[a].frames@.len()
                        && (#[trigger] self.areas@[a].frames@[k]) == f;
                let a0 = if a < jj {
                    a
                } else {
                    a + 1
                };
                assert(self0.areas@[a0].frames@[k] == f);
                assert(self0.uses(f));
                if exists|i2: int| 0 <= i2 < va.frames@.len() && (#[trigger] va.frames@[i2]) == f {
                    let i2 = choose|i2: int|
                        0 <= i2 < va.frames@.len() && (#[trigger] va.frames@[i2]) == f;
                    assert(self0.areas@[jj].frames@[i2] == f);
                    assert(a0 != jj);
                }
            }
            assert forall|f: int|
                self0.uses(f) && !(exists|i2: int|
                    0 <= i2 < va.frames@.len() && (#[trigger] va.frames@[i2]) == f)
                implies self.uses(f) by {
                let (a0, k) = choose|a0: int, k: int|
                    0 <= a0 < self0.areas@.len() && 0 <= k < self0.areas@[a0].frames@.len()
                        && (#[trigger] self0.areas@[a0].frames@[k]) == f;
                if a0 == jj {
                    assert(va.frames@[k] == f);
                } else {
                    let a = if a0 < jj {
                        a0
                    } else {
                        a0 - 1
                    };
                    assert(self.areas@[a].frames@[k] == f);
                }
            }
            assert forall|f: int| #[trigger] self.uses(f) implies fa.taken(f) by {
                assert(fa0.taken(f));
            }
            assert(old(self).is_exact(jj, start as int, end as int));
            assert(old(self).areas@[jj] == va);
            assert forall|g: int|
                fa.taken(g) <==> old(fa).taken(g) && !(exists|i2: int|
                    0 <= i2 < old(self).areas@[jj].frames@.len() && (#[trigger] old(self).areas@[jj].frames@[i2]) == g) by {
                assert(fa.taken(g) == (fa0.taken(g) && !(exists|k: int|
                    0 <= k < i && (#[trigger] va.frames@[k]) == g)));
                if exists|i2: int|
                    0 <= i2 < old(self).areas@[jj].frames@.len() && (#[trigger] old(self).areas@[jj].frames@[i2]) == g {
                    let i2 = choose|i2: int|
                        0 <= i2 < old(self).areas@[jj].frames@.len() && (#[trigger] old(self).areas@[jj].frames@[i2]) == g;
                    assert(0 <= i2 < i && va.frames@[i2] == g);
                }
                if exists|k: int| 0 <= k < i && (#[trigger] va.frames@[k]) == g {
                    let k = choose|k: int| 0 <= k < i && (#[trigger] va.frames@[k]) == g;
                    assert(old(self).areas@[jj].frames@[k] == g);
                }
            }
            assert forall|f: int|
                #[trigger] self.uses(f) <==> old(self).uses(f) && !(exists|i2: int|
                    0 <= i2 < old(self).areas@[jj].frames@.len() && (#[trigger] old(self).areas@[jj].frames@[i2]) == f) by {
                if exists|i2: int|
                    0 <= i2 < old(self).areas@[jj].frames@.len() && (#[trigger] old(self).areas@[jj].frames@[i2]) == f {
                    let i2 = choose|i2: int|
                        0 <= i2 < old(self).areas@[jj].frames@.len() && (#[trigger] old(self).areas@[jj].frames@[i2]) == f;
                    assert(0 <= i2 < va.frames@.len() && va.frames@[i2] == f);
                }
                if exists|i2: int|
                    0 <= i2 < va.frames@.len() && (#[trigger] va.frames@[i2]) == f {
                    let i2 = choose|i2: int|
                        0 <= i2 < va.frames@.len() && (#[trigger] va.frames@[i2]) == f;
                    assert(old(self).areas@[jj].frames@[i2] == f);
                }
            }
        }
        Some(j)
    }

    /// Extends area `idx` to end at `new_end`, allocating and mapping one
    /// fresh frame per added page.  Fails, changing nothing, exactly when
    /// the pool cannot supply the frames; the caller has already checked
    /// that the added range is free.
    pub fn append_frames_to(&mut self, idx: usize, new_end: usize, fa: &mut FrameAllocator) -> (ok:
        bool)
        requires
            old(self).wf(),
            old(fa).wf(),
            old(self).frames_owned(*old(fa)),
            idx < old(self).areas@.len(),
            old(self).areas@[idx as int].end_vpn <= new_end <= USER_PAGES,
            forall|v: int|
                old(self).areas@[idx as int].end_vpn <= v < new_end ==> !(#[trigger] old(self).mapped(v)),
        ensures
            final(self).wf(),
            final(fa).wf(),
            final(self).frames_owned(*final(fa)),
            ok <==> old(fa).spec_available() >= new_end - old(self).areas@[idx as int].end_vpn,
            !ok ==> *final(self) == *old(self) && *final(fa) == *old(fa),
            ok ==> {
                &&& final(self).areas@.len() == old(self).areas@.len()
                &&& forall|b: int|
                    0 <= b < final(self).areas@.len() && b != idx ==> final(self).areas@[b] == old(self).areas@[b]
                &&& final(self).areas@[idx as int].start_vpn == old(self).areas@[idx as int].start_vpn
                &&& final(self).areas@[idx as int].end_vpn == new_end
                &&& final(self).areas@[idx as int].perm == old(self).areas@[idx as int].perm
                &&& forall|k: int|
                    0 <= k < old(self).areas@[idx as int].frames@.len() ==> final(self).areas@[idx as int].frames@[k] == old(self).areas@[idx as int].frames@[k]
                &&& forall|q: int|
                    old(self).areas@[idx as int].frames@.len() <= q < final(self).areas@[idx as int].frames@.len() ==> !old(fa).taken(
                        #[trigger] final(self).areas@[idx as int].frames@[q] as int,
                    )
                &&& forall|v: int|
                    old(self).areas@[idx as int].end_vpn <= v < new_end ==> final(self).page_table.entry(v) == Some(
                        PageTableEntry {
                            ppn: final(self).areas@[idx as int].frames@[v - final(self).areas@[idx as int].start_vpn],
                            perm: old(self).areas@[idx as int].perm,
                        },
                    )
                &&& forall|v: int|
                    !(old(self).areas@[idx as int].end_vpn <= v < new_end) ==> final(self).page_table.entry(v) == old(self).page_table.entry(v)
                &&& forall|g: int|
                    final(fa).taken(g) <==> old(fa).taken(g) || exists|k: int|
                        old(self).areas@[idx as int].frames@.len() <= k < final(self).areas@[idx as int].frames@.len() && (#[trigger] final(self).areas@[idx as int].frames@[k]) == g
                &&& final(fa).spec_available() == old(fa).spec_available() - (new_end - old(self).areas@[idx as int].end_vpn)
            },
    {
        let ghost self0 = *self;
        let ghost fa0 = *fa;
        let old_end = self.areas[idx].end_vpn;
        let start = self.areas[idx].start_vpn;
        let perm = self.areas[idx].perm;
        let count = new_end - old_end;
        if fa.available() < count {
            return false;
        }
        let ghost a0 = self0.areas@[idx as int];
        let mut area = self.areas.remove(idx);
        let mut i: usize = 0;
        while i < count
            invariant
                count == new_end - old_end,
                i <= count,
                a0 == self0.areas@[idx as int],
                a0.wf(),
                idx < self0.areas@.len(),
                self0.wf(),
                self0.frames_owned(fa0),
                start == a0.start_vpn && old_end == a0.end_vpn && perm == a0.perm,
                new_end <= USER_PAGES,
                forall|v: int| old_end <= v < new_end ==> !(#[trigger] self0.mapped(v)),
                area.start_vpn == start && area.end_vpn == old_end && area.perm == perm,
                area.frames@.len() == a0.frames@.len() + i,
                forall|k: int| 0 <= k < a0.frames@.len() ==> area.frames@[k] == a0.frames@[k],
                forall|k: int|
                    a0.frames@.len() <= k < area.frames@.len() ==> (#[trigger] area.frames@[k])
                        < MEM_PAGES && !fa0.taken(area.frames@[k] as int),
                forall|k: int, l: int|
                    a0.frames@.len() <= k < l < area.frames@.len() ==> area.frames@[k]
                        != area.frames@[l],
                self.areas@ == self0.areas@.remove(idx as int),
                self.page_table.wf(),
                fa.wf(),
                fa.spec_available() == fa0.spec_available() - i,
                fa0.spec_available() >= count,
                forall|g: int|
                    fa.taken(g) <==> fa0.taken(g) || exists|k: int|
                        a0.frames@.len() <= k < area.frames@.len() && (#[trigger] area.frames@[k])
                            == g,
                forall|v: int|
                    old_end <= v < old_end + i ==> self.page_table.entry(v) == Some(
                        PageTableEntry { ppn: area.frames@[v - start], perm },
                    ),
                forall|v: int|
                    !(old_end <= v < old_end + i) ==> self.page_table.entry(v)
                        == self0.page_table.entry(v),
            decreases count - i,
        {
            let ghost fa_pre = *fa;
            let f = match fa.allocate() {
                Some(f) => f,
                None => {
                    proof {
                        assert(false);
                    }
                    0
                },
            };
            self.page_table.map(old_end + i, f, perm);
            let ghost aprev = area.frames@;
            area.frames.push(f);
            i = i + 1;
            proof {
                assert(area.frames@ == aprev.push(f));
                assert(area.frames@[area.frames@.len() - 1] == f);
                let base = a0.frames@.len() as int;
                assert forall|k: int, l: int|
                    base <= k < l < area.frames@.len() implies area.frames@[k]
                    != area.frames@[l] by {
                    if l == area.frames@.len() - 1 {
                        assert(aprev[k] == area.frames@[k]);
                        assert(fa_pre.taken(aprev[k] as int));
                        assert(!fa_pre.taken(f as int));
                    } else {
                        assert(aprev[k] == area.frames@[k] && aprev[l] == area.frames@[l]);
                    }
                }
                assert forall|g: int|
                    fa.taken(g) implies fa0.taken(g) || exists|k: int|
                        base <= k < area.frames@.len() && (#[trigger] area.frames@[k]) == g by {
                    if g != f {
                        assert(fa_pre.taken(g));
                        if !fa0.taken(g) {
                            let k = choose|k: int|
                                base <= k < aprev.len() && (#[trigger] aprev[k]) == g;
                            assert(area.frames@[k] == g);
                        }
                    } else {
                        assert(area.frames@[area.frames@.len() - 1] == g);
                    }
                }
                assert forall|g: int|
                    (fa0.taken(g) || exists|k: int|
                        base <= k < area.frames@.len() && (#[trigger] area.frames@[k]) == g)
                    implies fa.taken(g) by {
                    if fa0.taken(g) {
                        assert(fa_pre.taken(g));
                        assert(fa.taken(g));
                    } else {
                        let k = choose|k: int|
                            base <= k < area.frames@.len() && (#[trigger] area.frames@[k]) == g;
                        if k < area.frames@.len() - 1 {
                            assert(aprev[k] == g);
                            assert(fa_pre.taken(g));
                            assert(g != f);
                            assert(fa.taken(g));
                        } else {
                            assert(g == f);
                            assert(fa.taken(g));
                        }
                    }
                }
            }
        }
        area.end_vpn = new_end;
        let ghost grown = area;
        self.areas.insert(idx, area);
        proof {
            let jj = idx as int;
            assert(self.areas@ == self0.areas@.remove(jj).insert(jj, grown));
            assert forall|b: int| 0 <= b < self.areas@.len() implies self.areas@[b]
                == if b == jj {
                grown
            } else {
                self0.areas@[b]
            } by {}
            assert(grown.wf());
            // the grown area stays disjoint from every other: its new pages
            // were unmapped before the call
            assert forall|a: int, b: int| 0 <= a < b < self.areas@.len() implies self.areas@[
                a
            ].disjoint(self.areas@[b]) by {
                if a != jj && b != jj {
                    assert(self0.areas@[a].disjoint(self0.areas@[b]));
                } else {
                    let o = if a == jj {
                        b
                    } else {
                        a
                    };
                    let oa = self0.areas@[o];
                    if !(oa.start_vpn == oa.end_vpn || grown.start_vpn == grown.end_vpn) {
                        if !(oa.end_vpn <= grown.start_vpn || grown.end_vpn <= oa.start_vpn) {
                            let v = if oa.start_vpn >= grown.start_vpn {
                                oa.start_vpn as int
                            } else {
                                grown.start_vpn as int
                            };
                            assert(oa.contains(v));
                            assert(self0.mapped(v));
                            if v < old_end {
                                assert(a0.contains(v));
                                if o < jj {
                                    assert(self0.areas@[o].disjoint(self0.areas@[jj]));
                                } else {
                                    assert(self0.areas@[jj].disjoint(self0.areas@[o]));
                                }
                                assert(false);
                            } else {
                                assert(old_end <= v < new_end);
                                assert(false);
                            }
                        }
                    }
                }
            }
            assert forall|a: int, vpn: int|
                0 <= a < self.areas@.len() && #[trigger] self.areas@[a].contains(vpn)
                implies self.page_table.entry(vpn) == Some(
                PageTableEntry {
                    ppn: self.areas@[a].frames@[vpn - self.areas@[a].start_vpn],
                    perm: self.areas@[a].perm,
                },
            ) by {
                if a == jj {
                    if vpn < old_end {
                        assert(a0.contains(vpn));
                        assert(self0.page_table.entry(vpn) == Some(
                            PageTableEntry {
                                ppn: a0.frames@[vpn - a0.start_vpn],
                                perm: a0.perm,
                            },
                        ));
                    } else {
                        assert(old_end <= vpn < new_end);
                    }
                } else {
                    assert(self0.areas@[a].contains(vpn));
                    if old_end <= vpn < new_end {
                        assert(self0.mapped(vpn));
                        assert(false);
                    }
                }
            }
            assert forall|vpn: int| #[trigger] self.mapped(vpn) implies exists|a: int|
                0 <= a < self.areas@.len() && #[trigger] self.areas@[a].contains(vpn) by {
                if old_end <= vpn < new_end {
                    assert(self.areas@[jj].contains(vpn));
                } else {
                    assert(self0.mapped(vpn));
                    let a = choose|a: int|
                        0 <= a < self0.areas@.len() && #[trigger] self0.areas@[a].contains(vpn);
                    if a == jj {
                        assert(self.areas@[jj].contains(vpn));
                    } else {
                        assert(self.areas@[a].contains(vpn));
                    }
                }
            }
            let base = a0.frames@.len() as int;
            assert forall|a: int, i2: int, b: int, k: int|
                0 <= a < self.areas@.len() && 0 <= i2 < self.areas@[a].frames@.len() && 0 <= b
                    < self.areas@.len() && 0 <= k < self.areas@[b].frames@.len() && (a != b || i2
                    != k) implies (#[trigger] self.areas@[a].frames@[i2])
                != (#[trigger] self.areas@[b].frames@[k]) by {
                let fa1 = if a == jj && i2 >= base {
                    2int
                } else {
                    1int
                };
                let fb1 = if b == jj && k >= base {
                    2int
                } else {
                    1int
                };
                if fa1 == 1 && fb1 == 1 {
                    assert(self0.areas@[a].frames@[i2] != self0.areas@[b].frames@[k]);
                } else if fa1 == 2 && fb1 == 2 {
                    assert(grown.frames@[i2] != grown.frames@[k]);
                } else if fa1 == 2 {
                    assert(self0.areas@[b].frames@[k] == self.areas@[b].frames@[k]);
                    assert(self0.uses(self.areas@[b].frames@[k] as int));
                    assert(fa0.taken(self.areas@[b].frames@[k] as int));
                    assert(!fa0.taken(grown.frames@[i2] as int));
                } else {
                    assert(self0.areas@[a].frames@[i2] == self.areas@[a].frames@[i2]);
                    assert(self0.uses(self.areas@[a].frames@[i2] as int));
                    assert(fa0.taken(self.areas@[a].frames@[i2] as int));
                    assert(!fa0.taken(grown.frames@[k] as int));
                }
            }
            assert forall|f: int| #[trigger] self.uses(f) implies fa.taken(f) by {
                let (a, k) = choose|a: int, k: int|
                    0 <= a < self.areas@.len() && 0 <= k < self.areas@[a].frames@.len()
                        && (#[trigger] self.areas@[a].frames@[k]) == f;
                if a == jj && k >= base {
                    assert(area.frames@[k] == f);
                } else {
                    assert(self0.areas@[a].frames@[k] == f);
                    assert(self0.uses(f));
                    assert(fa0.taken(f));
                }
            }
        }
        true
    }

    /// Shrinks area `idx` so that it ends at `new_end`, unmapping the
    /// dropped pages and releasing their frames.
    pub fn shrink_frames_to(&mut self, idx: usize, new_end: usize, fa: &mut FrameAllocator)
        requires
            old(self).wf(),
            old(fa).wf(),
            old(self).frames_owned(*old(fa)),
            idx < old(self).areas@.len(),
            old(self).areas@[idx as int].start_vpn <= new_end <= old(self).areas@[idx as int].end_vpn,
        ensures
            final(self).wf(),
            final(fa).wf(),
            final(self).frames_owned(*final(fa)),
            final(self).areas@.len() == old(self).areas@.len(),
            forall|b: int|
                0 <= b < final(self).areas@.len() && b != idx ==> final(self).areas@[b] == old(self).areas@[b],
            final(self).areas@[idx as int].start_vpn == old(self).areas@[idx as int].start_vpn,
            final(self).areas@[idx as int].end_vpn == new_end,
            final(self).areas@[idx as int].perm == old(self).areas@[idx as int].perm,
            forall|k: int|
                0 <= k < final(self).areas@[idx as int].frames@.len() ==> final(self).areas@[idx as int].frames@[k] == old(self).areas@[idx as int].frames@[k],
            forall|v: int|
                new_end <= v < old(self).areas@[idx as int].end_vpn ==> !(#[trigger] final(self).mapped(v)),
            forall|v: int|
                !(new_end <= v < old(self).areas@[idx as int].end_vpn) ==> final(self).page_table.entry(v) == old(self).page_table.entry(v),
            forall|g: int|
                final(fa).taken(g) <==> old(fa).taken(g) && !(exists|k: int|
                    new_end - old(self).areas@[idx as int].start_vpn <= k < old(self).areas@[idx as int].frames@.len() && (#[trigger] old(self).areas@[idx as int].frames@[k]) == g),
            final(fa).spec_available() == old(fa).spec_available() + (old(self).areas@[idx as int].end_vpn - new_end),
    {
        let ghost self0 = *self;
        let ghost fa0 = *fa;
        let start = self.areas[idx].start_vpn;
        let old_end = self.areas[idx].end_vpn;
        let ghost a0 = self0.areas@[idx as int];
        let mut area = self.areas.remove(idx);
        let mut e = old_end;
        while e > new_end
            invariant
                new_end <= e <= old_end,
                a0 == self0.areas@[idx as int],
                a0.wf(),
                idx < self0.areas@.len(),
                self0.wf(),
                self0.frames_owned(fa0),
                start == a0.start_vpn && old_end == a0.end_vpn,
                start <= new_end,
                area.start_vpn == start && area.end_vpn == old_end && area.perm == a0.perm,
                area.frames@.len() == e - start,
                forall|k: int| 0 <= k < e - start ==> area.frames@[k] == a0.frames@[k],
                self.areas@ == self0.areas@.remove(idx as int),
                self.page_table.wf(),
                fa.wf(),
                fa.spec_available() == fa0.spec_available() + (old_end - e),
                forall|g: int|
                    fa.taken(g) <==> fa0.taken(g) && !(exists|k: int|
                        e - start <= k < a0.frames@.len() && (#[trigger] a0.frames@[k]) == g),
                forall|v: int| e <= v < old_end ==> self.page_table.entry(v) is None,
                forall|v: int|
                    !(e <= v < old_end) ==> self.page_table.entry(v) == self0.page_table.entry(v),
            decreases e,
        {
            e = e - 1;
            proof {
                assert(a0.contains(e as int));
                assert(self0.page_table.entry(e as int) == Some(
                    PageTableEntry { ppn: a0.frames@[e - start], perm: a0.perm },
                ));
            }
            self.page_table.unmap(e);
            let f = match area.frames.pop() {
                Some(f) => f,
                None => {
                    proof {
                        assert(false);
                    }
                    0
                },
            };
            proof {
                assert(f == a0.frames@[e - start]);
                assert(self0.uses(f as int));
                assert(fa0.taken(f as int));
                assert(fa.taken(f as int)) by {
                    if exists|k: int|
                        e + 1 - start <= k < a0.frames@.len() && (#[trigger] a0.frames@[k])
                            == f as int {
                        let k = choose|k: int|
                            e + 1 - start <= k < a0.frames@.len() && (#[trigger] a0.frames@[k])
                                == f as int;
                        assert(a0.frames@[k] != a0.frames@[e - start]);
                    }
                }
            }
            let ghost fa_pre = *fa;
            fa.free(f);
            proof {
                assert forall|g: int|
                    fa.taken(g) implies fa0.taken(g) && !(exists|k: int|
                        e - start <= k < a0.frames@.len() && (#[trigger] a0.frames@[k]) == g) by {
                    assert(g != f);
                    assert(fa_pre.taken(g));
                    assert(fa0.taken(g));
                    if exists|k: int|
                        e - start <= k < a0.frames@.len() && (#[trigger] a0.frames@[k]) == g {
                        let k = choose|k: int|
                            e - start <= k < a0.frames@.len() && (#[trigger] a0.frames@[k]) == g;
                        assert(k != e - start);
                        assert(e + 1 - start <= k < a0.frames@.len() && a0.frames@[k] == g);
                        assert(!fa_pre.taken(g));
                    }
                }
                assert forall|g: int|
                    fa0.taken(g) && !(exists|k: int|
                        e - start <= k < a0.frames@.len() && (#[trigger] a0.frames@[k]) == g)
                    implies fa.taken(g) by {
                    assert(g != f) by {
                        if g == f {
                            assert(e - start <= e - start < a0.frames@.len() && a0.frames@[e
                                - start] == g);
                        }
                    }
                    assert(!(exists|k: int|
                        e + 1 - start <= k < a0.frames@.len() && (#[trigger] a0.frames@[k]) == g))
                        by {
                        if exists|k: int|
                            e + 1 - start <= k < a0.frames@.len() && (#[trigger] a0.frames@[k])
                                == g {
                            let k = choose|k: int|
                                e + 1 - start <= k < a0.frames@.len() && (#[trigger] a0.frames@[k])
                                    == g;
                            assert(e - start <= k < a0.frames@.len() && a0.frames@[k] == g);
                        }
                    }
                    assert(fa_pre.taken(g));
                    assert(fa.taken(g));
                }
            }
        }
        area.end_vpn = new_end;
        let ghost shrunk = area;
        self.areas.insert(idx, area);
        proof {
            let jj = idx as int;
            assert(self.areas@ == self0.areas@.remove(jj).insert(jj, shrunk));
            assert forall|b: int| 0 <= b < self.areas@.len() implies self.areas@[b]
                == if b == jj {
                shrunk
            } else {
                self0.areas@[b]
            } by {}
            assert(shrunk.wf());
            assert forall|a: int, b: int| 0 <= a < b < self.areas@.len() implies self.areas@[
                a
            ].disjoint(self.areas@[b]) by {
                if a != jj && b != jj {
                    assert(self0.areas@[a].disjoint(self0.areas@[b]));
                } else {
                    let o = if a == jj {
                        b
                    } else {
                        a
                    };
                    if o < jj {
                        assert(self0.areas@[o].disjoint(self0.areas@[jj]));
                    } else {
                        assert(self0.areas@[jj].disjoint(self0.areas@[o]));
                    }
                }
            }
            assert forall|a: int, vpn: int|
                0 <= a < self.areas@.len() && #[trigger] self.areas@[a].contains(vpn)
                implies self.page_table.entry(vpn) == Some(
                PageTableEntry {
                    ppn: self.areas@[a].frames@[vpn - self.areas@[a].start_vpn],
                    perm: self.areas@[a].perm,
                },
            ) by {
                if a == jj {
                    assert(a0.contains(vpn));
                    assert(self0.page_table.entry(vpn) == Some(
                        PageTableEntry { ppn: a0.frames@[vpn - a0.start_vpn], perm: a0.perm },
                    ));
                    assert(!(new_end <= vpn < old_end));
                } else {
                    assert(self0.areas@[a].contains(vpn));
                    if new_end <= vpn < old_end {
                        assert(a0.contains(vpn));
                        if a < jj {
                            assert(self0.areas@[a].disjoint(self0.areas@[jj]));
                        } else {
                            assert(self0.areas@[jj].disjoint(self0.areas@[a]));
                        }
                        assert(false);
                    }
                }
            }
            assert forall|vpn: int| #[trigger] self.mapped(vpn) implies exists|a: int|
                0 <= a < self.areas@.len() && #[trigger] self.areas@[a].contains(vpn) by {
                assert(self0.mapped(vpn));
                let a = choose|a: int|
                    0 <= a < self0.areas@.len() && #[trigger] self0.areas@[a].contains(vpn);
                if a == jj {
                    assert(!(new_end <= vpn < old_end));
                    assert(self.areas@[jj].contains(vpn));
                } else {
                    assert(self.areas@[a].contains(vpn));
                }
            }
            assert forall|a: int, i2: int, b: int, k: int|
                0 <= a < self.areas@.len() && 0 <= i2 < self.areas@[a].frames@.len() && 0 <= b
                    < self.areas@.len() && 0 <= k < self.areas@[b].frames@.len() && (a != b || i2
                    != k) implies (#[trigger] self.areas@[a].frames@[i2])
                != (#[trigger] self.areas@[b].frames@[k]) by {
                assert(self.areas@[a].frames@[i2] == self0.areas@[a].frames@[i2]);
                assert(self.areas@[b].frames@[k] == self0.areas@[b].frames@[k]);
            }
            assert forall|f: int| #[trigger] self.uses(f) implies fa.taken(f) by {
                let (a, k) = choose|a: int, k: int|
                    0 <= a < self.areas@.len() && 0 <= k < self.areas@[a].frames@.len()
                        && (#[trigger] self.areas@[a].frames@[k]) == f;
                assert(self0.areas@[a].frames@[k] == f);
                assert(self0.uses(f));
                assert(fa0.taken(f));
                if exists|k2: int|
                    new_end - start <= k2 < a0.frames@.len() && (#[trigger] a0.frames@[k2]) == f {
                    let k2 = choose|k2: int|
                        new_end - start <= k2 < a0.frames@.len() && (#[trigger] a0.frames@[k2])
                            == f;
                    assert(self0.areas@[jj].frames@[k2] == f);
                    assert(a == jj ==> k < new_end - start);
                    assert(false);
                }
            }
        }
    }

    /// Releases every area and every frame; afterwards nothing is mapped.
    /// Used when a task exits or replaces its image.
    pub fn recycle(&mut self, fa: &mut FrameAllocator)
        requires
            old(self).wf(),
            old(fa).wf(),
            old(self).frames_owned(*old(fa)),
        ensures
            final(self).wf(),
            final(fa).wf(),
            final(self).areas@.len() == 0,
            forall|vpn: int| !(#[trigger] final(self).mapped(vpn)),
            forall|g: int| final(fa).taken(g) <==> old(fa).taken(g) && !old(self).uses(g),
    {
        let ghost self0 = *self;
        let ghost fa0 = *fa;
        while self.areas.len() > 0
            invariant
                self.wf(),
                fa.wf(),
                self.frames_owned(*fa),
                forall|f: int| #[trigger] self.uses(f) ==> self0.uses(f),
                forall|g: int|
                    fa.taken(g) <==> fa0.taken(g) && (self.uses(g) || !self0.uses(g)),
            decreases self.areas@.len(),
        {
            let s = self.areas[0].start_vpn;
            let e = self.areas[0].end_vpn;
            let protected = self.areas.len();
            let ghost pre = *self;
            let ghost fa_pre = *fa;
            proof {
                assert(pre.is_exact(0, s as int, e as int));
            }
            let removed = self.remove_area_exact(s, e, protected, fa);
            proof {
                assert(removed is Some);
                let a = removed->0 as int;
                assert(a == 0) by {
                    if a > 0 {
                        assert(!(0 != protected && pre.is_exact(0, s as int, e as int)));
                    }
                }
                assert forall|g: int|
                    fa.taken(g) <==> fa0.taken(g) && (self.uses(g) || !self0.uses(g)) by {
                    let in_removed = exists|i: int|
                        0 <= i < pre.areas@[0].frames@.len()
                            && (#[trigger] pre.areas@[0].frames@[i]) == g;
                    if in_removed {
                        let i = choose|i: int|
                            0 <= i < pre.areas@[0].frames@.len()
                                && (#[trigger] pre.areas@[0].frames@[i]) == g;
                        assert(pre.uses(g));
                        assert(self0.uses(g));
                        assert(!fa.taken(g));
                        assert(!self.uses(g));
                    } else {
                        assert(fa.taken(g) == fa_pre.taken(g));
                        assert(self.uses(g) == pre.uses(g));
                    }
                }
            }
        }
    }

    /// Pages of the first `k` areas together.
    pub open spec fn area_pages_prefix(areas: Seq<MapArea>, k: int) -> int
        decreases k,
    {
        if k <= 0 {
            0
        } else {
            Self::area_pages_prefix(areas, k - 1) + (areas[k - 1].end_vpn - areas[k
                - 1].start_vpn)
        }
    }

    /// How many frames this address space holds: one per mapped page.
    pub open spec fn total_area_pages(self) -> int {
        Self::area_pages_prefix(self.areas@, self.areas@.len() as int)
    }

    pub proof fn lemma_area_pages_mono(areas: Seq<MapArea>, i: int, j: int)
        requires
            0 <= i <= j,
            forall|k: int| 0 <= k < j ==> (#[trigger] areas[k]).start_vpn <= areas[k].end_vpn,
        ensures
            Self::area_pages_prefix(areas, i) <= Self::area_pages_prefix(areas, j),
        decreases j - i,
    {
        if i < j {
            Self::lemma_area_pages_mono(areas, i, j - 1);
            assert(areas[j - 1].start_vpn <= areas[j - 1].end_vpn);
        }
    }

    /// Builds an independent full copy of this address space: the same
    /// ranges with the same permissions, each page backed by a freshly
    /// allocated frame (no sharing).  `None`, with every allocation rolled
    /// back, when the pool cannot supply enough frames.
    pub fn clone_with_frames(&self, fa: &mut FrameAllocator, mem: &mut PhysMem) -> (r: Option<
        AddressSpace,
    >)
        requires
            self.wf(),
            old(fa).wf(),
            old(mem).wf(),
            self.frames_owned(*old(fa)),
        ensures
            final(fa).wf(),
            final(mem).wf(),
            r is Some <==> self.total_area_pages() <= old(fa).spec_available(),
            r is None ==> forall|g: int| final(fa).taken(g) == old(fa).taken(g),
            r is None ==> final(mem).bytes@ == old(mem).bytes@,
            r matches Some(c) ==> {
                &&& c.wf()
                &&& c.frames_owned(*final(fa))
                &&& c.areas@.len() == self.areas@.len()
                &&& forall|a: int|
                    0 <= a < c.areas@.len() ==> (#[trigger] c.areas@[a]).start_vpn
                        == self.areas@[a].start_vpn && c.areas@[a].end_vpn
                        == self.areas@[a].end_vpn && c.areas@[a].perm == self.areas@[a].perm
                &&& forall|v: int| c.mapped(v) == self.mapped(v)
                &&& forall|v: int|
                    #[trigger] c.mapped(v) ==> c.page_table.entry(v)->Some_0.perm
                        == self.page_table.entry(v)->Some_0.perm
                &&& forall|f: int| #[trigger] c.uses(f) ==> !old(fa).taken(f)
                &&& forall|g: int| #[trigger] final(fa).taken(g) <==> old(fa).taken(g) || c.uses(g)
                // the deep copy: through the copy's translations every
                // mapped byte reads as the original did through the
                // source's, and no byte outside the copy's fresh frames
                // changes
                &&& forall|va: int|
                    0 <= va < USER_TOP && self.mapped(va / PAGE_SIZE as int) ==> final(mem).bytes@[#[trigger] c.spec_pa(va)] == old(mem).bytes@[self.spec_pa(va)]
                &&& forall|pa: int|
                    0 <= pa < final(mem).bytes@.len() && !c.uses(pa / PAGE_SIZE as int) ==> final(mem).bytes@[pa] == old(mem).bytes@[pa]
            },
    {
        let ghost fa0 = *fa;
        let mut c = AddressSpace::new();
        let n = self.areas.len();
        let mut i: usize = 0;
        while i < n
            invariant
                i <= n,
                n == self.areas@.len(),
                fa0 == *old(fa),
                *mem == *old(mem),
                old(mem).wf(),
                self.wf(),
                fa.wf(),
                self.frames_owned(fa0),
                c.wf(),
                c.frames_owned(*fa),
                c.areas@.len() == i,
                forall|a: int|
                    0 <= a < i ==> (#[trigger] c.areas@[a]).start_vpn == self.areas@[a].start_vpn
                        && c.areas@[a].end_vpn == self.areas@[a].end_vpn && c.areas@[a].perm
                        == self.areas@[a].perm,
                forall|v: int|
                    #[trigger] c.mapped(v) <==> exists|a: int|
                        0 <= a < i && #[trigger] self.areas@[a].contains(v),
                forall|v: int|
                    #[trigger] c.mapped(v) ==> c.page_table.entry(v)->Some_0.perm
                        == self.page_table.entry(v)->Some_0.perm,
                forall|f: int| #[trigger] c.uses(f) ==> !fa0.taken(f),
                forall|g: int| fa.taken(g) <==> fa0.taken(g) || c.uses(g),
                fa.spec_available() == fa0.spec_available() - Self::area_pages_prefix(
                    self.areas@,
                    i as int,
                ),
                Self::area_pages_prefix(self.areas@, i as int) <= fa0.spec_available(),
            decreases n - i,
        {
            let start = self.areas[i].start_vpn;
            let end = self.areas[i].end_vpn;
            let perm = self.areas[i].perm;
            proof {
                assert(self.areas@[i as int].wf());
                assert forall|v: int| start <= v < end implies !(#[trigger] c.mapped(v)) by {
                    if c.mapped(v) {
                        let a = choose|a: int|
                            0 <= a < i && #[trigger] self.areas@[a].contains(v);
                        assert(self.areas@[a].disjoint(self.areas@[i as int]));
                        assert(self.areas@[i as int].contains(v));
                    }
                }
            }
            let ghost c_pre = c;
            let ghost fa_pre = *fa;
            let ok = c.insert_framed_area(start, end, perm, fa);
            if !ok {
                let ghost fa_mid = *fa;
                let ghost c_mid = c;
                c.recycle(fa);
                proof {
                    assert(c_mid.areas@ == c_pre.areas@);
                    assert forall|g: int| fa.taken(g) == fa0.taken(g) by {
                        assert(fa_mid.taken(g) == fa_pre.taken(g));
                        assert(c_mid.uses(g) == c_pre.uses(g)) by {
                            if c_mid.uses(g) {
                                let (a, k) = choose|a: int, k: int|
                                    0 <= a < c_mid.areas@.len() && 0 <= k < c_mid.areas@[
                                        a
                                    ].frames@.len() && (#[trigger] c_mid.areas@[a].frames@[k])
                                        == g;
                                assert(c_pre.areas@[a].frames@[k] == g);
                            }
                            if c_pre.uses(g) {
                                let (a, k) = choose|a: int, k: int|
                                    0 <= a < c_pre.areas@.len() && 0 <= k < c_pre.areas@[
                                        a
                                    ].frames@.len() && (#[trigger] c_pre.areas@[a].frames@[k])
                                        == g;
                                assert(c_mid.areas@[a].frames@[k] == g);
                            }
                        }
                        assert(fa.taken(g) == (fa_mid.taken(g) && !c_mid.uses(g)));
                        if c_pre.uses(g) {
                            assert(!fa0.taken(g));
                            assert(!fa.taken(g));
                        }
                    }
                    // the pool fell short: the whole copy does not fit
                    assert(Self::area_pages_prefix(self.areas@, i + 1)
                        == Self::area_pages_prefix(self.areas@, i as int) + (end - start));
                    assert forall|k2: int|
                        0 <= k2 < n implies (#[trigger] self.areas@[k2]).start_vpn
                        <= self.areas@[k2].end_vpn by {
                        assert(self.areas@[k2].wf());
                    }
                    Self::lemma_area_pages_mono(self.areas@, i + 1, n as int);
                    assert(self.total_area_pages() > fa0.spec_available());
                }
                return None;
            }
            i = i + 1;
            proof {
                let na = c.areas@.len() - 1;
                assert(c.areas@[na] == c.areas@.last());
                assert(Self::area_pages_prefix(self.areas@, i as int) == Self::area_pages_prefix(
                    self.areas@,
                    i - 1,
                ) + (end - start));
                // the pages and frames added in this step
                assert forall|v: int| #[trigger] c.mapped(v) implies exists|a: int|
                    0 <= a < i && #[trigger] self.areas@[a].contains(v) by {
                    if start <= v < end {
                        assert(self.areas@[i - 1].contains(v));
                    } else {
                        assert(c_pre.mapped(v));
                        let a = choose|a: int|
                            0 <= a < i - 1 && #[trigger] self.areas@[a].contains(v);
                        assert(0 <= a < i && self.areas@[a].contains(v));
                    }
                }
                assert forall|v: int|
                    (exists|a: int| 0 <= a < i && #[trigger] self.areas@[a].contains(v))
                    implies #[trigger] c.mapped(v) by {
                    let a = choose|a: int| 0 <= a < i && #[trigger] self.areas@[a].contains(v);
                    if a < i - 1 {
                        assert(c_pre.mapped(v));
                        assert(!(start <= v < end));
                        assert(c.page_table.entry(v) == c_pre.page_table.entry(v));
                    } else {
                        assert(start <= v < end);
                    }
                }
                assert forall|v: int|
                    #[trigger] c.mapped(v) implies c.page_table.entry(v)->Some_0.perm
                    == self.page_table.entry(v)->Some_0.perm by {
                    if start <= v < end {
                        assert(self.areas@[i - 1].contains(v));
                        assert(self.page_table.entry(v) == Some(
                            PageTableEntry {
                                ppn: self.areas@[i - 1].frames@[v - start],
                                perm,
                            },
                        ));
                    } else {
                        assert(c.page_table.entry(v) == c_pre.page_table.entry(v));
                        assert(c_pre.mapped(v));
                    }
                }
                assert forall|f: int| #[trigger] c.uses(f) implies !fa0.taken(f) by {
                    if !c_pre.uses(f) {
                        let k = choose|k: int|
                            0 <= k < c.areas@[na].frames@.len() && (#[trigger] c.areas@[
                                na
                            ].frames@[k]) == f;
                        assert(!fa_pre.taken(f));
                        assert(!fa0.taken(f)) by {
                            if fa0.taken(f) {
                                assert(fa_pre.taken(f));
                            }
                        }
                    }
                }
            }
        }
        // second phase: duplicate the page contents, frame by frame;
        // nothing before this point touched memory, so a failure above
        // left it untouched
        let ghost mem0 = *mem;
        let mut a: usize = 0;
        while a < n
            invariant
                a <= n,
                n == self.areas@.len(),
                mem0 == *old(mem),
                self.wf(),
                c.wf(),
                self.frames_owned(fa0),
                forall|f: int| #[trigger] c.uses(f) ==> !fa0.taken(f),
                c.areas@.len() == n,
                forall|a2: int|
                    0 <= a2 < n ==> (#[trigger] c.areas@[a2]).start_vpn == self.areas@[
                        a2
                    ].start_vpn && c.areas@[a2].end_vpn == self.areas@[a2].end_vpn,
                mem.wf(),
                mem.bytes@.len() == mem0.bytes@.len(),
                forall|pa: int|
                    0 <= pa < mem.bytes@.len() && !c.uses(pa / PAGE_SIZE as int) ==> mem.bytes@[pa]
                        == mem0.bytes@[pa],
                forall|a2: int, k2: int, off: int|
                    0 <= a2 < a && 0 <= k2 < c.areas@[a2].frames@.len() && 0 <= off < PAGE_SIZE
                        ==> (#[trigger] mem.bytes@[c.areas@[a2].frames@[k2] * PAGE_SIZE + off])
                        == mem0.bytes@[self.areas@[a2].frames@[k2] * PAGE_SIZE + off],
            decreases n - a,
        {
            let count = c.areas[a].frames.len();
            proof {
                assert(self.areas@[a as int].wf());
                assert(c.areas@[a as int].wf());
            }
            let mut p: usize = 0;
            while p < count
                invariant
                    p <= count,
                    a < n,
                    n == self.areas@.len(),
                    mem0 == *old(mem),
                    self.wf(),
                    c.wf(),
                    self.frames_owned(fa0),
                    forall|f: int| #[trigger] c.uses(f) ==> !fa0.taken(f),
                    c.areas@.len() == n,
                    forall|a2: int|
                        0 <= a2 < n ==> (#[trigger] c.areas@[a2]).start_vpn == self.areas@[
                            a2
                        ].start_vpn && c.areas@[a2].end_vpn == self.areas@[a2].end_vpn,
                    count == c.areas@[a as int].frames@.len(),
                    count == self.areas@[a as int].frames@.len(),
                    mem.wf(),
                    mem.bytes@.len() == mem0.bytes@.len(),
                    forall|pa: int|
                        0 <= pa < mem.bytes@.len() && !c.uses(pa / PAGE_SIZE as int)
                            ==> mem.bytes@[pa] == mem0.bytes@[pa],
                    forall|a2: int, k2: int, off: int|
                        0 <= a2 < n && 0 <= k2 < c.areas@[a2].frames@.len() && 0 <= off < PAGE_SIZE
                            && (a2 < a || (a2 == a && k2 < p)) ==> (#[trigger] mem.bytes@[
                            c.areas@[a2].frames@[k2] * PAGE_SIZE + off
                        ]) == mem0.bytes@[self.areas@[a2].frames@[k2] * PAGE_SIZE + off],
                decreases count - p,
            {
                let src = self.areas[a].frames[p];
                let dst = c.areas[a].frames[p];
                proof {
                    assert(self.areas@[a as int].wf());
                    assert(c.areas@[a as int].wf());
                    assert(self.uses(src as int));
                    assert(c.uses(dst as int));
                    assert(fa0.taken(src as int));
                    assert(!fa0.taken(dst as int));
                }
                let ghost mem_pre = *mem;
                mem.copy_frame(src, dst);
                p = p + 1;
                proof {
                    assert forall|pa: int|
                        0 <= pa < mem.bytes@.len() && !c.uses(pa / PAGE_SIZE as int)
                        implies mem.bytes@[pa] == mem0.bytes@[pa] by {
                        assert(pa / PAGE_SIZE as int != dst);
                        assert(mem_pre.bytes@[pa] == mem0.bytes@[pa]);
                    }
                    assert forall|a2: int, k2: int, off: int|
                        0 <= a2 < n && 0 <= k2 < c.areas@[a2].frames@.len() && 0 <= off < PAGE_SIZE
                            && (a2 < a || (a2 == a && k2 < p)) implies (#[trigger] mem.bytes@[
                        c.areas@[a2].frames@[k2] * PAGE_SIZE + off
                    ]) == mem0.bytes@[self.areas@[a2].frames@[k2] * PAGE_SIZE + off] by {
                        let cf = c.areas@[a2].frames@[k2] as int;
                        lemma_page_of_byte(cf, off);
                        if a2 == a as int && k2 == p - 1 {
                            // the page just copied: its bytes now read as
                            // the source frame did before any copying
                            assert(mem.bytes@[dst * PAGE_SIZE + off] == mem_pre.bytes@[src
                                * PAGE_SIZE + off]);
                            lemma_page_of_byte(src as int, off);
                            assert(!c.uses(src as int));
                            assert(mem_pre.bytes@[src * PAGE_SIZE + off] == mem0.bytes@[src
                                * PAGE_SIZE + off]);
                        } else {
                            // an earlier page sits in a different frame
                            assert(c.areas@[a2].frames@[k2] != dst);
                            assert(mem.bytes@[cf * PAGE_SIZE + off] == mem_pre.bytes@[cf
                                * PAGE_SIZE + off]);
                        }
                    }
                }
            }
            a = a + 1;
        }
        proof {
            // lift the per-frame copy to per-byte translation equality
            assert forall|va: int|
                0 <= va < USER_TOP && self.mapped(va / PAGE_SIZE as int) implies mem.bytes@[
                #[trigger] c.spec_pa(va)
            ] == mem0.bytes@[self.spec_pa(va)] by {
                let pg = va / PAGE_SIZE as int;
                vstd::arithmetic::div_mod::lemma_mod_bound(va, PAGE_SIZE as int);
                let off = va % (PAGE_SIZE as int);
                let a2 = choose|a2: int|
                    0 <= a2 < self.areas@.len() && #[trigger] self.areas@[a2].contains(pg);
                assert(c.areas@[a2].contains(pg));
                assert(self.page_table.entry(pg) == Some(
                    PageTableEntry {
                        ppn: self.areas@[a2].frames@[pg - self.areas@[a2].start_vpn],
                        perm: self.areas@[a2].perm,
                    },
                ));
                assert(c.page_table.entry(pg) == Some(
                    PageTableEntry {
                        ppn: c.areas@[a2].frames@[pg - c.areas@[a2].start_vpn],
                        perm: c.areas@[a2].perm,
                    },
                ));
                assert(mem.bytes@[c.areas@[a2].frames@[pg - c.areas@[a2].start_vpn] * PAGE_SIZE
                    + off] == mem0.bytes@[self.areas@[a2].frames@[pg - self.areas@[a2].start_vpn]
                    * PAGE_SIZE + off]);
            }
        }
        Some(c)
    }

    /// A translated physical address lies inside physical memory.
    pub proof fn lemma_pa_bound(self, va: int)
        requires
            self.wf(),
            0 <= va < USER_TOP,
            self.mapped(va / PAGE_SIZE as int),
        ensures
            0 <= self.spec_pa(va) < MEM_PAGES * PAGE_SIZE,
    {
        let p = va / PAGE_SIZE as int;
        let a = choose|a: int| 0 <= a < self.areas@.len() && #[trigger] self.areas@[a].contains(p);
        assert(self.areas@[a].wf());
        assert(self.page_table.entry(p)->Some_0.ppn == self.areas@[a].frames@[p - self.areas@[
            a
        ].start_vpn]);
        vstd::arithmetic::div_mod::lemma_mod_bound(va, PAGE_SIZE as int);
    }

    /// Frame distinctness makes translation injective: two different
    /// mapped virtual addresses never share a physical address.
    pub proof fn lemma_pa_injective(self, va1: int, va2: int)
        requires
            self.wf(),
            0 <= va1 < USER_TOP,
            0 <= va2 < USER_TOP,
            self.mapped(va1 / PAGE_SIZE as int),
            self.mapped(va2 / PAGE_SIZE as int),
            va1 != va2,
        ensures
            self.spec_pa(va1) != self.spec_pa(va2),
    {
        let p1 = va1 / PAGE_SIZE as int;
        let p2 = va2 / PAGE_SIZE as int;
        let e1 = self.page_table.entry(p1)->Some_0;
        let e2 = self.page_table.entry(p2)->Some_0;
        if p1 == p2 {
            assert(va1 % PAGE_SIZE as int != va2 % PAGE_SIZE as int) by {
                vstd::arithmetic::div_mod::lemma_fundamental_div_mod(va1, PAGE_SIZE as int);
                vstd::arithmetic::div_mod::lemma_fundamental_div_mod(va2, PAGE_SIZE as int);
            }
            assert(self.spec_pa(va1) != self.spec_pa(va2)) by {
                vstd::arithmetic::div_mod::lemma_mod_bound(va1, PAGE_SIZE as int);
                vstd::arithmetic::div_mod::lemma_mod_bound(va2, PAGE_SIZE as int);
            }
        } else {
            let a1 = choose|a: int|
                0 <= a < self.areas@.len() && #[trigger] self.areas@[a].contains(p1);
            let a2 = choose|a: int|
                0 <= a < self.areas@.len() && #[trigger] self.areas@[a].contains(p2);
            assert(e1.ppn == self.areas@[a1].frames@[p1 - self.areas@[a1].start_vpn]);
            assert(e2.ppn == self.areas@[a2].frames@[p2 - self.areas@[a2].start_vpn]);
            assert(e1.ppn != e2.ppn) by {
                if a1 == a2 {
                    assert(p1 - self.areas@[a1].start_vpn != p2 - self.areas@[a2].start_vpn);
                }
            }
            assert(self.spec_pa(va1) / PAGE_SIZE as int == e1.ppn) by {
                vstd::arithmetic::div_mod::lemma_mod_bound(va1, PAGE_SIZE as int);
                vstd::arithmetic::div_mod::lemma_div_multiples_vanish_fancy(
                    e1.ppn as int,
                    va1 % PAGE_SIZE as int,
                    PAGE_SIZE as int,
                );
            }
            assert(self.spec_pa(va2) / PAGE_SIZE as int == e2.ppn) by {
                vstd::arithmetic::div_mod::lemma_mod_bound(va2, PAGE_SIZE as int);
                vstd::arithmetic::div_mod::lemma_div_multiples_vanish_fancy(
                    e2.ppn as int,
                    va2 % PAGE_SIZE as int,
                    PAGE_SIZE as int,
                );
            }
        }
    }
}

} // verus!
