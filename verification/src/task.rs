use vstd::prelude::*;
use vstd::arithmetic::div_mod::lemma_div_is_ordered;
use crate::aspace::AddressSpace;
use crate::config::{MAX_SYSCALL_NUM, PAGE_SIZE, USER_PAGES, USER_TOP};
use crate::frames::FrameAllocator;
use crate::perm::MapPermission;

verus! {

/// Life-cycle state of a task; the uninitialized pre-state of a control
/// block exists only while one is being constructed, so it needs no
/// variant.
#[derive(Clone, Copy, PartialEq, Eq, Structural, Debug)]
pub enum TaskStatus {
    Ready,
    Running,
    Zombie,
}

/// One loadable segment of an application image, already parsed: a
/// virtual byte range and the permissions its pages get.
#[derive(Clone, Copy, PartialEq, Eq, Structural, Debug)]
pub struct Segment {
    pub start_va: usize,
    pub len: usize,
    pub perm: MapPermission,
}

/// A named application image as the loader hands it over: the parsed
/// loadable segments and the program's entry point.
pub struct AppImage {
    pub name: Vec<u8>,
    pub segments: Vec<Segment>,
    pub entry: usize,
}

/// First page of a segment.
pub open spec fn seg_svpn(s: Segment) -> int {
    s.start_va as int / PAGE_SIZE as int
}

/// One past the last page of a segment.
pub open spec fn seg_evpn(s: Segment) -> int {
    (s.start_va + s.len + PAGE_SIZE - 1) / PAGE_SIZE as int
}

pub open spec fn seg_pages(s: Segment) -> int {
    seg_evpn(s) - seg_svpn(s)
}

/// Page `v` lies in some segment's page-rounded range.
pub open spec fn segs_cover(segs: Seq<Segment>, v: int) -> bool {
    exists|k: int| 0 <= k < segs.len() && seg_svpn(#[trigger] segs[k]) <= v < seg_evpn(segs[k])
}

/// The segment byte range lies inside the user address range.
pub open spec fn seg_fits(s: Segment) -> bool {
    s.start_va + s.len <= USER_TOP
}

/// The page-rounded ranges of the two segments share a page.
pub open spec fn segs_page_overlap(s1: Segment, s2: Segment) -> bool {
    &&& seg_svpn(s1) < seg_evpn(s1)
    &&& seg_svpn(s2) < seg_evpn(s2)
    &&& seg_svpn(s1) < seg_evpn(s2)
    &&& seg_svpn(s2) < seg_evpn(s1)
}

pub open spec fn segs_disjoint(segs: Seq<Segment>) -> bool {
    forall|k: int, l: int|
        0 <= k < l < segs.len() ==> !segs_page_overlap(#[trigger] segs[k], #[trigger] segs[l])
}

/// Pages of the first `k` segments together.
pub open spec fn total_pages_prefix(segs: Seq<Segment>, k: int) -> int
    decreases k,
{
    if k <= 0 {
        0
    } else {
        total_pages_prefix(segs, k - 1) + seg_pages(segs[k - 1])
    }
}

pub open spec fn total_pages(segs: Seq<Segment>) -> int {
    total_pages_prefix(segs, segs.len() as int)
}

pub proof fn lemma_seg_pages_nonneg(s: Segment)
    ensures
        seg_pages(s) >= 0,
{
    lemma_div_is_ordered(s.start_va as int, s.start_va + s.len + PAGE_SIZE - 1, PAGE_SIZE as int);
}

pub proof fn lemma_total_pages_mono(segs: Seq<Segment>, i: int, j: int)
    requires
        0 <= i <= j,
    ensures
        total_pages_prefix(segs, i) <= total_pages_prefix(segs, j),
    decreases j - i,
{
    if i < j {
        lemma_total_pages_mono(segs, i, j - 1);
        lemma_seg_pages_nonneg(segs[j - 1]);
    }
}

/// The kernel's per-process record: identity, life-cycle status, the
/// owned address space, stride-scheduling weight, exit code, children
/// (indices into the kernel's task table), per-syscall counters, time
/// accounting, the heap bounds driven by `sbrk`, and the saved trap
/// context: the general registers (`trap_regs`) and the program counter
/// (`sepc`) the task resumes from.
pub struct Task {
    pub pid: usize,
    pub status: TaskStatus,
    pub aspace: AddressSpace,
    pub stride: usize,
    pub pass: usize,
    pub exit_code: i32,
    pub children: Vec<usize>,
    pub syscall_times: Vec<u32>,
    pub first_time_ms: usize,
    pub time_ms: usize,
    pub heap_bottom: usize,
    pub brk: usize,
    pub heap_idx: usize,
    pub trap_regs: Vec<usize>,
    pub sepc: usize,
}

/// One past the last page the heap occupies when the break is `brk`.
pub open spec fn heap_end_vpn(brk: int) -> int {
    (brk + PAGE_SIZE - 1) / PAGE_SIZE as int
}

impl Task {
    pub open spec fn wf(self) -> bool {
        &&& self.aspace.wf()
        &&& self.syscall_times@.len() == MAX_SYSCALL_NUM
        &&& self.trap_regs@.len() == crate::config::TRAP_REG_COUNT
        &&& self.status is Zombie ==> self.aspace.areas@.len() == 0
        &&& !(self.status is Zombie) ==> {
            &&& self.heap_bottom % PAGE_SIZE == 0
            &&& self.heap_bottom <= self.brk <= USER_TOP
            &&& self.heap_idx < self.aspace.areas@.len()
            &&& self.aspace.areas@[self.heap_idx as int].start_vpn == self.heap_bottom as int
                / PAGE_SIZE as int
            &&& self.aspace.areas@[self.heap_idx as int].end_vpn == heap_end_vpn(self.brk as int)
        }
    }
}

/// Builds a fresh address space from an image's parsed segments: one
/// framed area per segment plus an initially empty heap area above them
/// all.  Returns the address space and the heap bottom (a byte address),
/// or `None`, with every allocation rolled back, exactly when a segment
/// reaches outside the user range, two segments share a page, or the
/// frame pool cannot back every page.
pub fn build_user_aspace(segments: &Vec<Segment>, fa: &mut FrameAllocator) -> (r: Option<
    (AddressSpace, usize),
>)
    requires
        old(fa).wf(),
    ensures
        final(fa).wf(),
        r is Some <==> (forall|k: int|
            0 <= k < segments@.len() ==> seg_fits(#[trigger] segments@[k])) && segs_disjoint(
            segments@,
        ) && total_pages(segments@) <= old(fa).spec_available(),
        r is None ==> forall|g: int| final(fa).taken(g) == old(fa).taken(g),
        r matches Some((a, hb)) ==> {
            &&& a.wf()
            &&& a.frames_owned(*final(fa))
            &&& forall|f: int| #[trigger] a.uses(f) ==> !old(fa).taken(f)
            &&& forall|g: int| #[trigger] final(fa).taken(g) <==> old(fa).taken(g) || a.uses(g)
            &&& forall|v: int| #[trigger] a.mapped(v) <==> segs_cover(segments@, v)
            &&& a.areas@.len() == segments@.len() + 1
            &&& forall|k: int|
                0 <= k < segments@.len() ==> (#[trigger] a.areas@[k]).start_vpn == seg_svpn(
                    segments@[k],
                ) && a.areas@[k].end_vpn == seg_evpn(segments@[k]) && a.areas@[k].perm
                    == segments@[k].perm
            &&& hb % PAGE_SIZE == 0
            &&& hb <= USER_TOP
            &&& a.areas@.last().start_vpn == hb as int / PAGE_SIZE as int
            &&& a.areas@.last().end_vpn == hb as int / PAGE_SIZE as int
            &&& forall|v: int| segs_cover(segments@, v) ==> v < hb as int / PAGE_SIZE as int
        },
{
    let ghost fa0 = *fa;
    let n = segments.len();
    // every segment must lie inside the user range; find the heap bottom
    // one page above everything the image maps
    let mut max_evpn: usize = 0;
    let mut i: usize = 0;
    while i < n
        invariant
            i <= n,
            n == segments@.len(),
            fa0 == *old(fa),
            *fa == fa0,
            fa.wf(),
            max_evpn <= USER_PAGES,
            forall|k: int| 0 <= k < i ==> seg_fits(#[trigger] segments@[k]),
            forall|k: int| 0 <= k < i ==> seg_evpn(segments@[k]) <= max_evpn,
        decreases n - i,
    {
        let s = segments[i];
        if s.start_va > USER_TOP || s.len > USER_TOP - s.start_va {
            proof {
                assert(!seg_fits(segments@[i as int]));
            }
            return None;
        }
        let evpn = (s.start_va + s.len + PAGE_SIZE - 1) / PAGE_SIZE;
        proof {
            lemma_div_is_ordered(
                s.start_va + s.len + PAGE_SIZE - 1,
                USER_TOP + PAGE_SIZE - 1,
                PAGE_SIZE as int,
            );
            assert((USER_TOP + PAGE_SIZE - 1) as int / PAGE_SIZE as int == USER_PAGES);
        }
        if evpn > max_evpn {
            max_evpn = evpn;
        }
        i = i + 1;
    }
    // no two segments may share a page
    let mut k: usize = 0;
    while k < n
        invariant
            k <= n,
            n == segments@.len(),
            fa0 == *old(fa),
            *fa == fa0,
            fa.wf(),
            forall|k2: int| 0 <= k2 < n ==> seg_fits(#[trigger] segments@[k2]),
            forall|a: int, b: int|
                0 <= a < b < n && a < k ==> !segs_page_overlap(
                    #[trigger] segments@[a],
                    #[trigger] segments@[b],
                ),
        decreases n - k,
    {
        let sk = segments[k];
        let sk_s = sk.start_va / PAGE_SIZE;
        let sk_e = (sk.start_va + sk.len + PAGE_SIZE - 1) / PAGE_SIZE;
        let mut l: usize = k + 1;
        while l < n
            invariant
                k < l <= n || (k >= n && l == k + 1),
                k < n,
                n == segments@.len(),
                *fa == fa0,
                fa0 == *old(fa),
                fa.wf(),
                forall|k2: int| 0 <= k2 < n ==> seg_fits(#[trigger] segments@[k2]),
                sk == segments@[k as int],
                sk_s == seg_svpn(segments@[k as int]),
                sk_e == seg_evpn(segments@[k as int]),
                forall|b: int|
                    k < b < l ==> !segs_page_overlap(
                        segments@[k as int],
                        #[trigger] segments@[b],
                    ),
            decreases n - l,
        {
            let sl = segments[l];
            let sl_s = sl.start_va / PAGE_SIZE;
            let sl_e = (sl.start_va + sl.len + PAGE_SIZE - 1) / PAGE_SIZE;
            if sk_s < sk_e && sl_s < sl_e && sk_s < sl_e && sl_s < sk_e {
                proof {
                    assert(segs_page_overlap(segments@[k as int], segments@[l as int]));
                }
                return None;
            }
            l = l + 1;
        }
        k = k + 1;
    }
    // the whole image must fit the frame pool
    proof {
        fa.lemma_available_bound();
    }
    let avail = fa.available();
    let mut tot: usize = 0;
    let mut i: usize = 0;
    while i < n
        invariant
            i <= n,
            n == segments@.len(),
            fa0 == *old(fa),
            *fa == fa0,
            avail == fa0.spec_available(),
            avail <= crate::config::MEM_PAGES,
            fa.wf(),
            tot == total_pages_prefix(segments@, i as int),
            tot <= avail,
            forall|k2: int| 0 <= k2 < n ==> seg_fits(#[trigger] segments@[k2]),
        decreases n - i,
    {
        let s = segments[i];
        let pages = (s.start_va + s.len + PAGE_SIZE - 1) / PAGE_SIZE - s.start_va / PAGE_SIZE;
        proof {
            lemma_seg_pages_nonneg(segments@[i as int]);
            lemma_div_is_ordered(
                s.start_va + s.len + PAGE_SIZE - 1,
                USER_TOP + PAGE_SIZE - 1,
                PAGE_SIZE as int,
            );
            assert(pages == seg_pages(segments@[i as int]));
        }
        if pages > avail - tot {
            proof {
                lemma_total_pages_mono(segments@, i + 1, n as int);
                assert(total_pages_prefix(segments@, i + 1) > avail);
            }
            return None;
        }
        tot = tot + pages;
        i = i + 1;
    }
    // build: one framed area per segment, in order
    let mut a = AddressSpace::new();
    let mut i: usize = 0;
    while i < n
        invariant
            i <= n,
            n == segments@.len(),
            fa0 == *old(fa),
            fa.wf(),
            a.wf(),
            a.frames_owned(*fa),
            max_evpn <= USER_PAGES,
            forall|k2: int| 0 <= k2 < n ==> seg_fits(#[trigger] segments@[k2]),
            forall|k2: int| 0 <= k2 < n ==> seg_evpn(segments@[k2]) <= max_evpn,
            segs_disjoint(segments@),
            total_pages(segments@) <= fa0.spec_available(),
            fa.spec_available() == fa0.spec_available() - total_pages_prefix(segments@, i as int),
            a.areas@.len() == i,
            forall|k2: int|
                0 <= k2 < i ==> (#[trigger] a.areas@[k2]).start_vpn == seg_svpn(segments@[k2])
                    && a.areas@[k2].end_vpn == seg_evpn(segments@[k2]) && a.areas@[k2].perm
                    == segments@[k2].perm,
            forall|v: int| #[trigger] a.mapped(v) <==> segs_cover(segments@.subrange(0, i as int), v),
            forall|f: int| #[trigger] a.uses(f) ==> !fa0.taken(f),
            forall|g: int| fa.taken(g) <==> fa0.taken(g) || a.uses(g),
        decreases n - i,
    {
        let s = segments[i];
        let svpn = s.start_va / PAGE_SIZE;
        let evpn = (s.start_va + s.len + PAGE_SIZE - 1) / PAGE_SIZE;
        proof {
            lemma_seg_pages_nonneg(segments@[i as int]);
            lemma_div_is_ordered(s.start_va as int, s.start_va + s.len, PAGE_SIZE as int);
            lemma_div_is_ordered(
                s.start_va + s.len + PAGE_SIZE - 1,
                USER_TOP + PAGE_SIZE - 1,
                PAGE_SIZE as int,
            );
            assert(evpn <= USER_PAGES);
            assert forall|v: int| svpn <= v < evpn implies !(#[trigger] a.mapped(v)) by {
                if a.mapped(v) {
                    let k2 = choose|k2: int|
                        0 <= k2 < i && seg_svpn(
                            #[trigger] segments@.subrange(0, i as int)[k2],
                        ) <= v < seg_evpn(segments@.subrange(0, i as int)[k2]);
                    assert(segments@.subrange(0, i as int)[k2] == segments@[k2]);
                    assert(!segs_page_overlap(segments@[k2], segments@[i as int]));
                }
            }
            lemma_total_pages_mono(segments@, i + 1, n as int);
        }
        let ghost a_pre = a;
        let ok = a.insert_framed_area(svpn, evpn, s.perm, fa);
        proof {
            assert(ok);
        }
        i = i + 1;
        proof {
            assert forall|v: int|
                #[trigger] a.mapped(v) <==> segs_cover(segments@.subrange(0, i as int), v) by {
                if a.mapped(v) {
                    if svpn <= v < evpn {
                        assert(segments@.subrange(0, i as int)[i - 1] == segments@[i - 1]);
                        assert(seg_svpn(segments@.subrange(0, i as int)[i - 1]) <= v < seg_evpn(
                            segments@.subrange(0, i as int)[i - 1],
                        ));
                    } else {
                        assert(a_pre.mapped(v));
                        let k2 = choose|k2: int|
                            0 <= k2 < i - 1 && seg_svpn(
                                #[trigger] segments@.subrange(0, i - 1)[k2],
                            ) <= v < seg_evpn(segments@.subrange(0, i - 1)[k2]);
                        assert(segments@.subrange(0, i as int)[k2] == segments@[k2]);
                        assert(seg_svpn(segments@.subrange(0, i as int)[k2]) <= v < seg_evpn(
                            segments@.subrange(0, i as int)[k2],
                        ));
                    }
                }
                if segs_cover(segments@.subrange(0, i as int), v) {
                    let k2 = choose|k2: int|
                        0 <= k2 < i && seg_svpn(
                            #[trigger] segments@.subrange(0, i as int)[k2],
                        ) <= v < seg_evpn(segments@.subrange(0, i as int)[k2]);
                    assert(segments@.subrange(0, i as int)[k2] == segments@[k2]);
                    if k2 < i - 1 {
                        assert(segments@.subrange(0, i - 1)[k2] == segments@[k2]);
                        assert(seg_svpn(segments@.subrange(0, i - 1)[k2]) <= v < seg_evpn(
                            segments@.subrange(0, i - 1)[k2],
                        ));
                        assert(a_pre.mapped(v));
                        assert(!(svpn <= v < evpn));
                        assert(a.page_table.entry(v) == a_pre.page_table.entry(v));
                    } else {
                        assert(svpn <= v < evpn);
                    }
                }
            }
            assert forall|f: int| #[trigger] a.uses(f) implies !fa0.taken(f) by {
                if !a_pre.uses(f) {
                    let k2 = choose|k2: int|
                        0 <= k2 < a.areas@.last().frames@.len() && (#[trigger] a.areas@.last(
                        ).frames@[k2]) == f;
                }
            }
        }
    }
    // the empty heap area sits one page above everything the image maps
    let hb_vpn = max_evpn;
    let ghost a_pre = a;
    proof {
        assert forall|v: int| hb_vpn <= v < hb_vpn implies !(#[trigger] a.mapped(v)) by {}
        assert(segments@.subrange(0, n as int) == segments@);
    }
    let ok = a.insert_framed_area(
        hb_vpn,
        hb_vpn,
        MapPermission { r: true, w: true, x: false, u: true },
        fa,
    );
    proof {
        assert(ok);
    }
    let hb = hb_vpn * PAGE_SIZE;
    proof {
        assert forall|v: int| #[trigger] a.mapped(v) <==> segs_cover(segments@, v) by {
            if a.mapped(v) {
                assert(a_pre.mapped(v));
            }
            if segs_cover(segments@, v) {
                assert(a_pre.mapped(v));
                assert(a.page_table.entry(v) == a_pre.page_table.entry(v));
            }
        }
        assert forall|f: int| #[trigger] a.uses(f) implies !fa0.taken(f) by {
            if !a_pre.uses(f) {
                let k2 = choose|k2: int|
                    0 <= k2 < a.areas@.last().frames@.len() && (#[trigger] a.areas@.last(
                    ).frames@[k2]) == f;
                assert(a.areas@.last().frames@.len() == 0);
            }
        }
        assert forall|v: int| segs_cover(segments@, v) implies v < hb_vpn as int by {
            let k2 = choose|k2: int|
                0 <= k2 < segments@.len() && seg_svpn(#[trigger] segments@[k2]) <= v < seg_evpn(
                    segments@[k2],
                );
        }
    }
    Some((a, hb))
}

} // verus!
