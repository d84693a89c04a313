use vstd::prelude::*;
use crate::aspace::AddressSpace;
use crate::config::{MEM_PAGES, PAGE_SIZE, USER_TOP};
use crate::phys_mem::PhysMem;

verus! {

/// The current task may read the byte at virtual address `va`: the page
/// is mapped, user-accessible and readable.
pub open spec fn can_read(aspace: AddressSpace, va: int) -> bool {
    &&& 0 <= va < USER_TOP
    &&& aspace.page_table.entry(va / PAGE_SIZE as int) matches Some(e) && e.perm.r && e.perm.u
}

/// The current task may write the byte at virtual address `va`.
pub open spec fn can_write(aspace: AddressSpace, va: int) -> bool {
    &&& 0 <= va < USER_TOP
    &&& aspace.page_table.entry(va / PAGE_SIZE as int) matches Some(e) && e.perm.w && e.perm.u
}

/// The byte a read of `va` yields, when `va` is mapped.
pub open spec fn user_byte(aspace: AddressSpace, mem: PhysMem, va: int) -> u8 {
    mem.bytes@[aspace.spec_pa(va)]
}

/// Reads `len` bytes of user memory starting at `va`, translating every
/// byte's page separately, so a range crossing a page boundary is handled
/// even though the backing frames need not be contiguous.  `None` exactly
/// when some byte of the range is not readable by user code.
pub fn read_user_bytes(aspace: &AddressSpace, mem: &PhysMem, va: usize, len: usize) -> (r: Option<
    Vec<u8>,
>)
    requires
        aspace.wf(),
        mem.wf(),
    ensures
        r is Some <==> forall|i: int| 0 <= i < len ==> #[trigger] can_read(*aspace, va + i),
        r matches Some(s) ==> s@.len() == len && forall|i: int|
            0 <= i < len ==> s@[i] == user_byte(*aspace, *mem, va + i),
{
    let mut out: Vec<u8> = Vec::new();
    let mut i: usize = 0;
    while i < len
        invariant
            i <= len,
            aspace.wf(),
            mem.wf(),
            out@.len() == i,
            forall|k: int| 0 <= k < i ==> #[trigger] can_read(*aspace, va + k),
            forall|k: int| 0 <= k < i ==> out@[k] == user_byte(*aspace, *mem, va + k),
        decreases len - i,
    {
        if va > USER_TOP - 1 || i > USER_TOP - 1 - va {
            proof {
                assert(!can_read(*aspace, va + i));
            }
            return None;
        }
        let a = va + i;
        match aspace.translate(a / PAGE_SIZE) {
            Some(e) => {
                if !(e.perm.r && e.perm.u) {
                    proof {
                        assert(!can_read(*aspace, va + i));
                    }
                    return None;
                }
                proof {
                    assert(can_read(*aspace, va + i));
                    assert(aspace.mapped(a as int / PAGE_SIZE as int));
                    let b = choose|b: int|
                        0 <= b < aspace.areas@.len() && #[trigger] aspace.areas@[b].contains(
                            a as int / PAGE_SIZE as int,
                        );
                    assert(aspace.areas@[b].wf());
                    assert(e.ppn == aspace.areas@[b].frames@[a as int / PAGE_SIZE as int
                        - aspace.areas@[b].start_vpn]);
                    assert(e.ppn < MEM_PAGES);
                }
                let pa = e.ppn * PAGE_SIZE + a % PAGE_SIZE;
                proof {
                    assert(pa == aspace.spec_pa(a as int));
                }
                let byte = mem.read(pa);
                out.push(byte);
            },
            None => {
                proof {
                    assert(!can_read(*aspace, va + i));
                }
                return None;
            },
        }
        i = i + 1;
    }
    Some(out)
}

/// Writes `data` into user memory starting at `va`, translating every
/// byte's page separately.  Nothing at all is written unless every byte
/// of the range is writable by user code; on success exactly the
/// translated physical bytes change.
pub fn write_user_bytes(aspace: &AddressSpace, mem: &mut PhysMem, va: usize, data: &Vec<u8>) -> (ok:
    bool)
    requires
        aspace.wf(),
        old(mem).wf(),
    ensures
        final(mem).wf(),
        ok <==> forall|i: int| 0 <= i < data@.len() ==> #[trigger] can_write(*aspace, va + i),
        !ok ==> final(mem).bytes@ == old(mem).bytes@,
        ok ==> forall|i: int|
            0 <= i < data@.len() ==> user_byte(*aspace, *final(mem), va + i) == data@[i],
        ok ==> forall|pa: int|
            0 <= pa < final(mem).bytes@.len() && !(exists|i: int|
                0 <= i < data@.len() && pa == #[trigger] aspace.spec_pa(va + i)) ==> final(mem).bytes@[pa]
                == old(mem).bytes@[pa],
    {
    let len = data.len();
    // first pass: nothing is written unless the whole range is writable
    let mut i: usize = 0;
    while i < len
        invariant
            i <= len,
            len == data@.len(),
            aspace.wf(),
            mem.wf(),
            mem == old(mem),
            forall|k: int| 0 <= k < i ==> #[trigger] can_write(*aspace, va + k),
        decreases len - i,
    {
        if va > USER_TOP - 1 || i > USER_TOP - 1 - va {
            proof {
                assert(!can_write(*aspace, va + i));
            }
            return false;
        }
        let a = va + i;
        match aspace.translate(a / PAGE_SIZE) {
            Some(e) => {
                if !(e.perm.w && e.perm.u) {
                    proof {
                        assert(!can_write(*aspace, va + i));
                    }
                    return false;
                }
                proof {
                    assert(can_write(*aspace, va + i));
                }
            },
            None => {
                proof {
                    assert(!can_write(*aspace, va + i));
                }
                return false;
            },
        }
        i = i + 1;
    }
    // second pass: perform the writes; frame distinctness keeps earlier
    // bytes intact and everything outside the range untouched
    let mut i: usize = 0;
    while i < len
        invariant
            i <= len,
            len == data@.len(),
            aspace.wf(),
            mem.wf(),
            mem.bytes@.len() == old(mem).bytes@.len(),
            forall|k: int| 0 <= k < len ==> #[trigger] can_write(*aspace, va + k),
            forall|k: int| 0 <= k < i ==> user_byte(*aspace, *mem, va + k) == data@[k],
            forall|pa: int|
                0 <= pa < mem.bytes@.len() && !(exists|k: int|
                    0 <= k < i && pa == #[trigger] aspace.spec_pa(va + k)) ==> mem.bytes@[pa] == old(
                    mem,
                ).bytes@[pa],
        decreases len - i,
    {
        proof {
            assert(can_write(*aspace, va + i));
        }
        let a = va + i;
        let e = match aspace.translate(a / PAGE_SIZE) {
            Some(e) => e,
            None => {
                proof {
                    assert(false);
                }
                return false;
            },
        };
        proof {
            assert(aspace.mapped(a as int / PAGE_SIZE as int));
            let b = choose|b: int|
                0 <= b < aspace.areas@.len() && #[trigger] aspace.areas@[b].contains(
                    a as int / PAGE_SIZE as int,
                );
            assert(aspace.areas@[b].wf());
            assert(e.ppn == aspace.areas@[b].frames@[a as int / PAGE_SIZE as int
                - aspace.areas@[b].start_vpn]);
            assert(e.ppn < MEM_PAGES);
        }
        let pa = e.ppn * PAGE_SIZE + a % PAGE_SIZE;
        proof {
            assert(pa == aspace.spec_pa(a as int));
        }
        let ghost mem_pre = *mem;
        mem.write(pa, data[i]);
        i = i + 1;
        proof {
            assert forall|k: int| 0 <= k < i implies user_byte(*aspace, *mem, va + k) == data@[
                k
            ] by {
                if k < i - 1 {
                    assert(can_write(*aspace, va + k));
                    assert(can_write(*aspace, va + i - 1));
                    aspace.lemma_pa_injective(va + k, va + i - 1);
                    aspace.lemma_pa_bound(va + k);
                    assert(mem.bytes@[aspace.spec_pa(va + k)] == mem_pre.bytes@[aspace.spec_pa(
                        va + k,
                    )]);
                }
            }
            assert forall|pa2: int|
                0 <= pa2 < mem.bytes@.len() && !(exists|k: int|
                    0 <= k < i && pa2 == #[trigger] aspace.spec_pa(va + k)) implies mem.bytes@[pa2] == old(
                mem,
            ).bytes@[pa2] by {
                assert(pa2 != aspace.spec_pa(va + i - 1));
                if !(exists|k: int| 0 <= k < i - 1 && pa2 == #[trigger] aspace.spec_pa(va + k)) {
                    assert(mem_pre.bytes@[pa2] == old(mem).bytes@[pa2]);
                }
            }
        }
    }
    true
}

/// The NUL-terminated string `name` sits in user memory at `va`: every
/// content byte is readable and not zero, and a readable zero byte
/// terminates it.
pub open spec fn cstr_at(aspace: AddressSpace, mem: PhysMem, va: int, name: Seq<u8>) -> bool {
    &&& forall|i: int|
        0 <= i < name.len() ==> #[trigger] can_read(aspace, va + i) && user_byte(aspace, mem, va + i)
            == name[i] && name[i] != 0
    &&& can_read(aspace, va + name.len() as int)
    &&& user_byte(aspace, mem, va + name.len() as int) == 0
}

/// Two strings at the same address are the same string: the shorter
/// one's terminator would have to be a non-zero byte of the longer.
pub proof fn lemma_cstr_unique(aspace: AddressSpace, mem: PhysMem, va: int, n1: Seq<u8>, n2: Seq<u8>)
    requires
        cstr_at(aspace, mem, va, n1),
        cstr_at(aspace, mem, va, n2),
    ensures
        n1 == n2,
{
    if n1.len() < n2.len() {
        assert(user_byte(aspace, mem, va + n1.len() as int) == 0);
        assert(n2[n1.len() as int] != 0);
        assert(user_byte(aspace, mem, va + n1.len() as int) == n2[n1.len() as int]);
    } else if n2.len() < n1.len() {
        assert(user_byte(aspace, mem, va + n2.len() as int) == 0);
        assert(n1[n2.len() as int] != 0);
        assert(user_byte(aspace, mem, va + n2.len() as int) == n1[n2.len() as int]);
    } else {
        assert forall|i: int| 0 <= i < n1.len() implies n1[i] == n2[i] by {
            assert(can_read(aspace, va + i));
            assert(user_byte(aspace, mem, va + i) == n1[i]);
            assert(user_byte(aspace, mem, va + i) == n2[i]);
        }
        assert(n1 =~= n2);
    }
}

/// Reads the NUL-terminated string starting at `va`, at most
/// `max` bytes of content.  `None` exactly when no such string of at
/// most `max` content bytes sits there: a byte is unreadable before a
/// terminator is found, or no terminator occurs within the bound.
#[verifier::rlimit(100)]
pub fn read_user_cstr(aspace: &AddressSpace, mem: &PhysMem, va: usize, max: usize) -> (r: Option<
    Vec<u8>,
>)
    requires
        aspace.wf(),
        mem.wf(),
    ensures
        r matches Some(s) ==> s@.len() <= max && cstr_at(*aspace, *mem, va as int, s@),
        r is None ==> forall|name: Seq<u8>|
            name.len() <= max ==> !cstr_at(*aspace, *mem, va as int, name),
{
    let mut out: Vec<u8> = Vec::new();
    let mut i: usize = 0;
    while i <= max
        invariant
            i <= max + 1,
            aspace.wf(),
            mem.wf(),
            out@.len() == i,
            forall|k: int|
                0 <= k < i ==> #[trigger] can_read(*aspace, va + k) && out@[k] == user_byte(
                    *aspace,
                    *mem,
                    va + k,
                ) && out@[k] != 0,
        decreases max + 1 - i,
    {
        if va > USER_TOP - 1 || i > USER_TOP - 1 - va {
            proof {
                assert(!can_read(*aspace, va + i));
                lemma_cstr_none(*aspace, *mem, va as int, i as int, out@);
            }
            return None;
        }
        let a = va + i;
        let mut unreadable: bool = false;
        match aspace.translate(a / PAGE_SIZE) {
            Some(e) => {
                if !(e.perm.r && e.perm.u) {
                    unreadable = true;
                }
            },
            None => {
                unreadable = true;
            },
        }
        if unreadable {
            proof {
                assert(!can_read(*aspace, va + i));
                lemma_cstr_none(*aspace, *mem, va as int, i as int, out@);
            }
            return None;
        }
        let e = match aspace.translate(a / PAGE_SIZE) {
            Some(e) => e,
            None => {
                proof {
                    assert(false);
                }
                return None;
            },
        };
        proof {
            assert(can_read(*aspace, va + i));
            assert(aspace.mapped(a as int / PAGE_SIZE as int));
            let b = choose|b: int|
                0 <= b < aspace.areas@.len() && #[trigger] aspace.areas@[b].contains(
                    a as int / PAGE_SIZE as int,
                );
            assert(aspace.areas@[b].wf());
            assert(e.ppn == aspace.areas@[b].frames@[a as int / PAGE_SIZE as int
                - aspace.areas@[b].start_vpn]);
            assert(e.ppn < MEM_PAGES);
        }
        let pa = e.ppn * PAGE_SIZE + a % PAGE_SIZE;
        proof {
            assert(pa == aspace.spec_pa(a as int));
        }
        let byte = mem.read(pa);
        if byte == 0 {
            proof {
                assert(user_byte(*aspace, *mem, va + i) == 0);
                lemma_cstr_some(*aspace, *mem, va as int, i as int, out@);
            }
            return Some(out);
        }
        let ghost out_prev = out@;
        proof {
            assert(user_byte(*aspace, *mem, va + i) == byte);
        }
        out.push(byte);
        i = i + 1;
        proof {
            assert(out@ == out_prev.push(byte));
            assert(out@[i - 1] == byte);
            assert(user_byte(*aspace, *mem, va + i - 1) == byte);
            assert forall|k: int|
                0 <= k < i implies #[trigger] can_read(*aspace, va + k) && out@[k] == user_byte(
                *aspace,
                *mem,
                va + k,
            ) && out@[k] != 0 by {
                if k < i - 1 {
                    assert(can_read(*aspace, va + k));
                    assert(out@[k] == out_prev[k]);
                } else {
                    assert(can_read(*aspace, va + i - 1));
                }
            }
        }
    }
    proof {
        assert forall|name: Seq<u8>| name.len() <= max implies !cstr_at(
            *aspace,
            *mem,
            va as int,
            name,
        ) by {
            if cstr_at(*aspace, *mem, va as int, name) {
                let l = name.len() as int;
                assert(0 <= l <= max);
                assert(out@[l] != 0);
                assert(user_byte(*aspace, *mem, va + l) == out@[l]);
                assert(user_byte(*aspace, *mem, va + l) == 0);
            }
        }
    }
    None
}

/// When byte `i` of the scan is unreadable and every earlier byte is a
/// readable non-zero byte, no terminated string can sit at `va`.
proof fn lemma_cstr_none(aspace: AddressSpace, mem: PhysMem, va: int, i: int, out: Seq<u8>)
    requires
        0 <= i,
        out.len() == i,
        !can_read(aspace, va + i),
        forall|k: int|
            0 <= k < i ==> #[trigger] can_read(aspace, va + k) && out[k] == user_byte(
                aspace,
                mem,
                va + k,
            ) && out[k] != 0,
    ensures
        forall|name: Seq<u8>| !cstr_at(aspace, mem, va, name),
{
    assert forall|name: Seq<u8>| !cstr_at(aspace, mem, va, name) by {
        if cstr_at(aspace, mem, va, name) {
            let l = name.len() as int;
            if l < i {
                assert(can_read(aspace, va + l));
                assert(out[l] != 0);
                assert(out[l] == user_byte(aspace, mem, va + l));
                assert(user_byte(aspace, mem, va + l) == 0);
            } else if l == i {
                assert(can_read(aspace, va + l));
                assert(!can_read(aspace, va + i));
            } else {
                assert(can_read(aspace, va + i));
            }
        }
    }
}

/// The scanned prefix plus a readable zero terminator is a terminated
/// string.
proof fn lemma_cstr_some(aspace: AddressSpace, mem: PhysMem, va: int, i: int, out: Seq<u8>)
    requires
        out.len() == i,
        forall|k: int|
            0 <= k < i ==> #[trigger] can_read(aspace, va + k) && out[k] == user_byte(
                aspace,
                mem,
                va + k,
            ) && out[k] != 0,
        can_read(aspace, va + i),
        user_byte(aspace, mem, va + i) == 0,
    ensures
        cstr_at(aspace, mem, va, out),
{
    assert forall|k: int|
        0 <= k < out.len() implies #[trigger] can_read(aspace, va + k) && user_byte(
        aspace,
        mem,
        va + k,
    ) == out[k] && out[k] != 0 by {
        assert(can_read(aspace, va + k));
    }
    assert(can_read(aspace, va + out.len() as int));
}

} // verus!
