use vstd::prelude::*;
use vstd::arithmetic::div_mod::{lemma_div_is_ordered, lemma_fundamental_div_mod};
use crate::aspace::AddressSpace;
use crate::config::{PAGE_SIZE, USER_TOP};
use crate::syscall::spec_time_val;
use crate::user_mem::{can_read, can_write};

verus! {

/// Two consecutive readings of the monotonic clock split into
/// non-decreasing time values: the seconds never go backwards, and
/// within one second neither do the microseconds.  (The timer
/// collaborator guarantees `us1 <= us2` for consecutive readings; this
/// law carries that guarantee through the split `get_time` performs.)
pub proof fn lemma_time_val_monotonic(us1: int, us2: int)
    requires
        0 <= us1 <= us2 <= usize::MAX,
    ensures
        spec_time_val(us1).sec < spec_time_val(us2).sec || (spec_time_val(us1).sec
            == spec_time_val(us2).sec && spec_time_val(us1).usec <= spec_time_val(us2).usec),
{
    lemma_div_is_ordered(us1, us2, 1000000);
    if us1 / 1000000 == us2 / 1000000 {
        lemma_fundamental_div_mod(us1, 1000000);
        lemma_fundamental_div_mod(us2, 1000000);
    }
}

/// A mapped user page gates each kind of access by exactly its
/// permission bit: reading succeeds if and only if the R bit was set,
/// writing if and only if the W bit was set.  Together with `mmap`'s
/// postcondition — every page of a fresh mapping carries exactly the
/// permissions the `port` word encodes plus the user bit — this says a
/// mapping created with `port` is readable and writable exactly as
/// `port` asked.
pub proof fn lemma_perm_gates_access(aspace: AddressSpace, va: int)
    requires
        0 <= va < USER_TOP,
        aspace.page_table.entry(va / PAGE_SIZE as int) is Some,
        aspace.page_table.entry(va / PAGE_SIZE as int)->Some_0.perm.u,
    ensures
        can_read(aspace, va) <==> aspace.page_table.entry(va / PAGE_SIZE as int)->Some_0.perm.r,
        can_write(aspace, va) <==> aspace.page_table.entry(va / PAGE_SIZE as int)->Some_0.perm.w,
{
}

/// An unmapped user address admits neither reads nor writes, whatever
/// the rest of the address space looks like.
pub proof fn lemma_unmapped_no_access(aspace: AddressSpace, va: int)
    requires
        aspace.page_table.entry(va / PAGE_SIZE as int) is None,
    ensures
        !can_read(aspace, va),
        !can_write(aspace, va),
{
}

/// Unmapping exactly reverses a prior mapping.  `a0` is any well-formed
/// address space in which `[start, end)` (a non-empty page range) is
/// free; `a1` is what `insert_framed_area` made of it, described by that
/// function's postcondition; `a2` is what `remove_area_exact` on the
/// identical range then made of `a1`, described by its postcondition,
/// with the removed index `ri`.  Then `a2` carries exactly `a0`'s
/// translations and area list, and the frame pool is back to exactly
/// `a0`'s taken set: a later identical `mmap` finds the range free
/// again.
pub proof fn lemma_map_unmap_roundtrip(
    a0: AddressSpace,
    a1: AddressSpace,
    a2: AddressSpace,
    fa0: crate::frames::FrameAllocator,
    fa1: crate::frames::FrameAllocator,
    fa2: crate::frames::FrameAllocator,
    start: int,
    end: int,
    protected: int,
    ri: int,
)
    requires
        a0.wf(),
        0 <= start < end,
        forall|v: int| start <= v < end ==> !(#[trigger] a0.mapped(v)),
        0 <= protected < a0.areas@.len(),
        // what insert_framed_area guarantees
        a1.wf(),
        a1.areas@.len() == a0.areas@.len() + 1,
        forall|a: int| 0 <= a < a0.areas@.len() ==> a1.areas@[a] == a0.areas@[a],
        a1.areas@.last().start_vpn == start,
        a1.areas@.last().end_vpn == end,
        forall|i: int|
            0 <= i < a1.areas@.last().frames@.len() ==> !fa0.taken(
                #[trigger] a1.areas@.last().frames@[i] as int,
            ),
        forall|g: int|
            fa1.taken(g) <==> fa0.taken(g) || exists|i: int|
                0 <= i < a1.areas@.last().frames@.len() && (#[trigger] a1.areas@.last().frames@[i])
                    == g,
        forall|v: int| !(start <= v < end) ==> a1.page_table.entry(v) == a0.page_table.entry(v),
        // what remove_area_exact guarantees for removed index ri
        ri != protected,
        a1.is_exact(ri, start, end),
        forall|b: int| 0 <= b < ri ==> !(b != protected && a1.is_exact(b, start, end)),
        a2.areas@ == a1.areas@.remove(ri),
        forall|g: int|
            fa2.taken(g) <==> fa1.taken(g) && !(exists|i: int|
                0 <= i < a1.areas@[ri].frames@.len() && (#[trigger] a1.areas@[ri].frames@[i]) == g),
        forall|v: int| start <= v < end ==> !(#[trigger] a2.mapped(v)),
        forall|v: int| !(start <= v < end) ==> a2.page_table.entry(v) == a1.page_table.entry(v),
    ensures
        ri == a0.areas@.len(),
        a2.areas@ == a0.areas@,
        forall|v: int| a2.page_table.entry(v) == a0.page_table.entry(v),
        forall|g: int| fa2.taken(g) == fa0.taken(g),
        forall|v: int| start <= v < end ==> !(#[trigger] a2.mapped(v)),
{
    let n = a0.areas@.len() as int;
    // only the freshly pushed area matches the range exactly: an older
    // one would have had its pages mapped already
    assert(ri == n) by {
        if ri < n {
            assert(a1.areas@[ri] == a0.areas@[ri]);
            assert(a0.areas@[ri].contains(start));
            assert(a0.mapped(start));
        }
    }
    assert(a2.areas@ =~= a0.areas@);
    assert forall|v: int| a2.page_table.entry(v) == a0.page_table.entry(v) by {
        if start <= v < end {
            assert(!a2.mapped(v));
            assert(!a0.mapped(v));
        }
    }
    assert forall|g: int| fa2.taken(g) == fa0.taken(g) by {
        if exists|i: int|
            0 <= i < a1.areas@[n].frames@.len() && (#[trigger] a1.areas@[n].frames@[i]) == g {
            let i = choose|i: int|
                0 <= i < a1.areas@[n].frames@.len() && (#[trigger] a1.areas@[n].frames@[i]) == g;
            assert(a1.areas@.last().frames@[i] == g);
            assert(!fa0.taken(g));
            assert(!fa2.taken(g));
        } else {
            assert(fa2.taken(g) == fa1.taken(g)) by {
                if exists|i: int|
                    0 <= i < a1.areas@.last().frames@.len() && (#[trigger] a1.areas@.last(
                    ).frames@[i]) == g {
                    let i = choose|i: int|
                        0 <= i < a1.areas@.last().frames@.len() && (#[trigger] a1.areas@.last(
                        ).frames@[i]) == g;
                    assert(a1.areas@[n].frames@[i] == g);
                }
            }
            assert(fa1.taken(g) == fa0.taken(g)) by {
                if exists|i: int|
                    0 <= i < a1.areas@.last().frames@.len() && (#[trigger] a1.areas@.last(
                    ).frames@[i]) == g {
                    let i = choose|i: int|
                        0 <= i < a1.areas@.last().frames@.len() && (#[trigger] a1.areas@.last(
                        ).frames@[i]) == g;
                    assert(a1.areas@[n].frames@[i] == g);
                }
            }
        }
    }
}

/// After a fork, no mutation through one side ever reaches the other:
/// the two spaces share no frame, so any memory change confined to one
/// side's frames (which is what every verified mutator guarantees)
/// leaves every byte the other side can read untouched.  `m1` is memory
/// before the mutation, `m2` after it.
pub proof fn lemma_fork_isolation(
    mine: AddressSpace,
    sibling: AddressSpace,
    m1: crate::phys_mem::PhysMem,
    m2: crate::phys_mem::PhysMem,
    va: int,
)
    requires
        sibling.wf(),
        forall|f: int| #[trigger] sibling.uses(f) ==> !mine.uses(f),
        m1.bytes@.len() == m2.bytes@.len(),
        forall|pa: int|
            0 <= pa < m2.bytes@.len() && !mine.uses(pa / PAGE_SIZE as int) ==> m2.bytes@[pa]
                == m1.bytes@[pa],
        0 <= va < USER_TOP,
        sibling.mapped(va / PAGE_SIZE as int),
        0 <= sibling.spec_pa(va) < m2.bytes@.len(),
    ensures
        m2.bytes@[sibling.spec_pa(va)] == m1.bytes@[sibling.spec_pa(va)],
{
    let p = va / PAGE_SIZE as int;
    let a = choose|a: int|
        0 <= a < sibling.areas@.len() && #[trigger] sibling.areas@[a].contains(p);
    let ppn = sibling.areas@[a].frames@[p - sibling.areas@[a].start_vpn];
    assert(sibling.page_table.entry(p)->Some_0.ppn == ppn);
    assert(sibling.uses(ppn as int));
    vstd::arithmetic::div_mod::lemma_mod_bound(va, PAGE_SIZE as int);
    crate::phys_mem::lemma_page_of_byte(ppn as int, va % (PAGE_SIZE as int));
    assert(sibling.spec_pa(va) / PAGE_SIZE as int == ppn);
}

} // verus!
