use vstd::prelude::*;
use vstd::arithmetic::div_mod::lemma_div_is_ordered;
use crate::config::{BIG_STRIDE, PAGE_SIZE, USER_PAGES, USER_TOP};
use crate::kernel::Kernel;
use crate::perm::{perm_from_port, port_valid, spec_perm_of_port};
use crate::task::{heap_end_vpn, Task, TaskStatus};

verus! {

/// The split monotonic reading `get_time` writes into user memory.
#[derive(Clone, Copy, PartialEq, Eq, Structural, Debug)]
pub struct TimeVal {
    pub sec: usize,
    pub usec: usize,
}

/// The record `task_info` writes into user memory: the task's status,
/// its whole syscall counter table, and its elapsed milliseconds.
pub struct TaskInfo {
    pub status: TaskStatus,
    pub syscall_times: Vec<u32>,
    pub time: usize,
}

/// The time value a microsecond reading splits into.
pub open spec fn spec_time_val(us: int) -> TimeVal {
    TimeVal { sec: (us / 1000000) as usize, usec: (us % 1000000) as usize }
}

/// The divisor that brings little-endian byte `j` of a word into the
/// low position.
pub open spec fn le_shift(j: int) -> int {
    if j == 0 {
        1
    } else if j == 1 {
        256
    } else if j == 2 {
        65536
    } else if j == 3 {
        16777216
    } else if j == 4 {
        4294967296
    } else if j == 5 {
        1099511627776
    } else if j == 6 {
        281474976710656
    } else {
        72057594037927936
    }
}

/// Byte `j` of the 8-byte little-endian form of `v`.
pub open spec fn le8_byte(v: u64, j: int) -> u8 {
    ((v as int / le_shift(j)) % 256) as u8
}

/// Byte `j` of the 4-byte little-endian form of `v`.
pub open spec fn le4_byte(v: u32, j: int) -> u8 {
    ((v as int / le_shift(j)) % 256) as u8
}

/// The 8-byte little-endian encoding of a machine word.
pub fn u64_le_bytes(v: u64) -> (r: Vec<u8>)
    ensures
        r@.len() == 8,
        forall|j: int| 0 <= j < 8 ==> r@[j] == le8_byte(v, j),
{
    let mut r: Vec<u8> = Vec::new();
    r.push((v % 256) as u8);
    r.push((v / 256 % 256) as u8);
    r.push((v / 65536 % 256) as u8);
    r.push((v / 16777216 % 256) as u8);
    r.push((v / 4294967296 % 256) as u8);
    r.push((v / 1099511627776 % 256) as u8);
    r.push((v / 281474976710656 % 256) as u8);
    r.push((v / 72057594037927936 % 256) as u8);
    r
}

/// The 4-byte little-endian encoding of a counter.
pub fn u32_le_bytes(v: u32) -> (r: Vec<u8>)
    ensures
        r@.len() == 4,
        forall|j: int| 0 <= j < 4 ==> r@[j] == le4_byte(v, j),
{
    let mut r: Vec<u8> = Vec::new();
    r.push((v % 256) as u8);
    r.push((v / 256 % 256) as u8);
    r.push((v / 65536 % 256) as u8);
    r.push((v / 16777216 % 256) as u8);
    r
}

/// Terminates the running task: records `exit_code`, frees its address
/// space, re-parents its children to the root task, and schedules the
/// next ready task.  In a real trap path control never returns to the
/// exited task; here the state transition is the whole effect.
pub fn sys_exit(k: &mut Kernel, exit_code: i32)
    requires
        old(k).wf(),
        old(k).has_current(),
    ensures
        final(k).wf(),
        final(k).tasks@[old(k).cur()].status is Zombie,
        final(k).tasks@[old(k).cur()].exit_code == exit_code,
        final(k).tasks@[old(k).cur()].aspace.areas@.len() == 0,
        forall|g: int|
            final(k).fa.taken(g) <==> old(k).fa.taken(g) && !old(k).tasks@[old(k).cur()].aspace.uses(g),
        old(k).cur() != 0 ==> final(k).tasks@[0].children@ == old(k).tasks@[0].children@ + old(k).tasks@[old(k).cur()].children@,
        final(k).tasks@[old(k).cur()] == (Task {
            status: TaskStatus::Zombie,
            exit_code: exit_code,
            aspace: final(k).tasks@[old(k).cur()].aspace,
            children: final(k).tasks@[old(k).cur()].children,
            ..old(k).tasks@[old(k).cur()]
        }),
{
    k.exit_current_and_run_next(exit_code);
}

/// The running task gives the core up voluntarily; it is charged one
/// stride, parked Ready, and the smallest-pass ready task (possibly the
/// same one) runs next.  Returns 0 to the resumed task.
pub fn sys_yield(k: &mut Kernel) -> (r: isize)
    requires
        old(k).wf(),
        old(k).has_current(),
    ensures
        final(k).wf(),
        final(k).has_current(),
        r == 0,
        final(k).tasks@[old(k).cur()].pass == if old(k).tasks@[old(k).cur()].pass + old(k).tasks@[old(k).cur()].stride <= usize::MAX {
            (old(k).tasks@[old(k).cur()].pass + old(k).tasks@[old(k).cur()].stride) as usize
        } else {
            usize::MAX
        },
        forall|t: int|
            0 <= t < old(k).tasks@.len() && (old(k).tasks@[t].status is Ready || t == old(k).cur()) ==> final(k).tasks@[final(k).cur()].pass <= (#[trigger] final(k).tasks@[t]).pass,
        final(k).tasks@[old(k).cur()] == (Task {
            pass: final(k).tasks@[old(k).cur()].pass,
            status: final(k).tasks@[old(k).cur()].status,
            ..old(k).tasks@[old(k).cur()]
        }),
{
    k.suspend_current_and_run_next();
    0
}

/// The running task's process id.
pub fn sys_getpid(k: &Kernel) -> (r: isize)
    requires
        k.wf(),
        k.has_current(),
    ensures
        r == k.cur(),
{
    let c = match k.current {
        Some(c) => c,
        None => {
            proof {
                assert(false);
            }
            0
        },
    };
    k.tasks[c].pid as isize
}

/// Sets the running task's stride-scheduling weight.  A priority below 2
/// is rejected with -1 and nothing changes; otherwise the task's stride
/// becomes `BIG_STRIDE / prio` and the priority itself is echoed back.
pub fn sys_set_priority(k: &mut Kernel, prio: isize) -> (r: isize)
    requires
        old(k).wf(),
        old(k).has_current(),
    ensures
        final(k).wf(),
        final(k).has_current(),
        final(k).cur() == old(k).cur(),
        prio <= 1 ==> r == -1,
        prio >= 2 ==> r == prio,
        prio <= 1 ==> *final(k) == *old(k),
        prio >= 2 ==> final(k).tasks@[old(k).cur()].stride == BIG_STRIDE as int / (prio as int),
        prio >= 2 ==> final(k).tasks@[old(k).cur()] == (Task {
            stride: final(k).tasks@[old(k).cur()].stride,
            ..old(k).tasks@[old(k).cur()]
        }),
        forall|t: int|
            0 <= t < old(k).tasks@.len() && t != old(k).cur() ==> final(k).tasks@[t] == old(k).tasks@[t],
{
    if prio <= 1 {
        return -1;
    }
    let c = match k.current {
        Some(c) => c,
        None => {
            proof {
                assert(false);
            }
            0
        },
    };
    let ghost pre = *k;
    k.tasks[c].stride = BIG_STRIDE / (prio as usize);
    proof {
        let cc = c as int;
        assert(k.tasks@ == pre.tasks@.update(cc, k.tasks@[cc]));
        assert(k.tasks@[cc] == Task { stride: (BIG_STRIDE / (prio as usize)), ..pre.tasks@[cc] });
        Kernel::lemma_wf_after_aspace_update(pre, *k, cc);
    }
    prio
}

/// Reads the monotonic microsecond counter (`now_us`, supplied by the
/// timer collaborator) and writes the split `TimeVal` into the user
/// buffer at `ts_va` through address translation: seconds as eight
/// little-endian bytes, then microseconds.  Returns 0, or -1 with
/// nothing written when any byte of the buffer is not writable — the
/// two halves may sit on different pages, each is translated on its
/// own.  The second argument of the ABI (a time zone) is ignored.
pub fn sys_get_time(k: &mut Kernel, ts_va: usize, _tz: usize, now_us: usize) -> (r: isize)
    requires
        old(k).wf(),
        old(k).has_current(),
    ensures
        final(k).wf(),
        final(k).has_current(),
        final(k).cur() == old(k).cur(),
        final(k).tasks == old(k).tasks,
        final(k).fa == old(k).fa,
        r == 0 || r == -1,
        r == 0 <==> forall|i: int|
            0 <= i < 16 ==> #[trigger] crate::user_mem::can_write(
                old(k).tasks@[old(k).cur()].aspace,
                ts_va + i,
            ),
        r == -1 ==> final(k).mem.bytes@ == old(k).mem.bytes@,
        r == 0 ==> forall|j: int|
            0 <= j < 8 ==> #[trigger] crate::user_mem::user_byte(
                old(k).tasks@[old(k).cur()].aspace,
                final(k).mem,
                ts_va + j,
            ) == le8_byte(spec_time_val(now_us as int).sec as u64, j),
        r == 0 ==> forall|j: int|
            0 <= j < 8 ==> #[trigger] crate::user_mem::user_byte(
                old(k).tasks@[old(k).cur()].aspace,
                final(k).mem,
                ts_va + 8 + j,
            ) == le8_byte(spec_time_val(now_us as int).usec as u64, j),
        r == 0 ==> forall|pa: int|
            0 <= pa < final(k).mem.bytes@.len() && !(exists|i: int|
                0 <= i < 16 && pa == #[trigger] old(k).tasks@[old(k).cur()].aspace.spec_pa(
                    ts_va + i,
                )) ==> final(k).mem.bytes@[pa] == old(k).mem.bytes@[pa],
{
    let sec = now_us / 1000000;
    let usec = now_us % 1000000;
    let mut bytes = u64_le_bytes(sec as u64);
    let mut rest = u64_le_bytes(usec as u64);
    let ghost head = bytes@;
    let ghost tail = rest@;
    bytes.append(&mut rest);
    proof {
        assert(bytes@ == head + tail);
        assert(sec == spec_time_val(now_us as int).sec);
        assert(usec == spec_time_val(now_us as int).usec);
        assert forall|j: int| 0 <= j < 8 implies bytes@[j] == le8_byte(sec as u64, j) by {
            assert(bytes@[j] == head[j]);
        }
        assert forall|j: int| 0 <= j < 8 implies (#[trigger] bytes@[8 + j]) == le8_byte(usec as u64, j) by {
            assert(bytes@[8 + j] == tail[j]);
        }
    }
    let ok = k.poke_user(ts_va, &bytes);
    if ok {
        proof {
            let asp = old(k).tasks@[old(k).cur()].aspace;
            assert forall|j: int|
                0 <= j < 8 implies #[trigger] crate::user_mem::user_byte(asp, k.mem, ts_va + j)
                == le8_byte(spec_time_val(now_us as int).sec as u64, j) by {
                assert(crate::user_mem::user_byte(asp, k.mem, ts_va + j) == bytes@[j]);
            }
            assert forall|j: int|
                0 <= j < 8 implies #[trigger] crate::user_mem::user_byte(asp, k.mem, ts_va + 8 + j)
                == le8_byte(spec_time_val(now_us as int).usec as u64, j) by {
                assert(crate::user_mem::user_byte(asp, k.mem, ts_va + (8 + j)) == bytes@[8 + j]);
            }
        }
        0
    } else {
        -1
    }
}

/// The byte that encodes a task status in the `task_info` record.
pub open spec fn status_code(s: TaskStatus) -> u8 {
    match s {
        TaskStatus::Ready => 1,
        TaskStatus::Running => 2,
        TaskStatus::Zombie => 3,
    }
}

/// A copy of the running task's accounting record.
pub fn current_task_info(k: &Kernel) -> (r: TaskInfo)
    requires
        k.wf(),
        k.has_current(),
    ensures
        r.status == k.tasks@[k.cur()].status,
        r.syscall_times@ == k.tasks@[k.cur()].syscall_times@,
        r.time == k.tasks@[k.cur()].time_ms,
{
    let c = match k.current {
        Some(c) => c,
        None => {
            proof {
                assert(false);
            }
            0
        },
    };
    let mut times: Vec<u32> = Vec::new();
    let n = k.tasks[c].syscall_times.len();
    let mut i: usize = 0;
    while i < n
        invariant
            i <= n,
            c as int == k.cur(),
            c < k.tasks@.len(),
            n == k.tasks@[c as int].syscall_times@.len(),
            times@.len() == i,
            forall|j: int| 0 <= j < i ==> times@[j] == k.tasks@[c as int].syscall_times@[j],
        decreases n - i,
    {
        times.push(k.tasks[c].syscall_times[i]);
        i = i + 1;
    }
    proof {
        assert(times@ =~= k.tasks@[c as int].syscall_times@);
    }
    TaskInfo { status: k.tasks[c].status, syscall_times: times, time: k.tasks[c].time_ms }
}

/// The byte layout of a `task_info` record as written to user memory:
/// one status byte, the counter table as 4-byte little-endian words,
/// then the elapsed milliseconds as an 8-byte word.
pub fn task_info_bytes(info: &TaskInfo) -> (r: Vec<u8>)
    requires
        info.syscall_times@.len() == crate::config::MAX_SYSCALL_NUM,
    ensures
        r@.len() == 1 + 4 * info.syscall_times@.len() + 8,
        r@[0] == status_code(info.status),
        forall|i: int, j: int|
            0 <= i < info.syscall_times@.len() && 0 <= j < 4 ==> (#[trigger] r@[1 + 4 * i + j])
                == le4_byte(info.syscall_times@[i], j),
        forall|j: int|
            0 <= j < 8 ==> (#[trigger] r@[1 + 4 * info.syscall_times@.len() + j]) == le8_byte(
                info.time as u64,
                j,
            ),
{
    let mut r: Vec<u8> = Vec::new();
    let code: u8 = match info.status {
        TaskStatus::Ready => 1,
        TaskStatus::Running => 2,
        TaskStatus::Zombie => 3,
    };
    r.push(code);
    let n = info.syscall_times.len();
    let mut i: usize = 0;
    while i < n
        invariant
            i <= n,
            n == info.syscall_times@.len(),
            n == crate::config::MAX_SYSCALL_NUM,
            r@.len() == 1 + 4 * i,
            r@[0] == status_code(info.status),
            forall|i2: int, j: int|
                0 <= i2 < i && 0 <= j < 4 ==> (#[trigger] r@[1 + 4 * i2 + j]) == le4_byte(
                    info.syscall_times@[i2],
                    j,
                ),
        decreases n - i,
    {
        let mut w = u32_le_bytes(info.syscall_times[i]);
        let ghost rpre = r@;
        r.append(&mut w);
        i = i + 1;
        proof {
            assert forall|i2: int, j: int|
                0 <= i2 < i && 0 <= j < 4 implies (#[trigger] r@[1 + 4 * i2 + j]) == le4_byte(
                info.syscall_times@[i2],
                j,
            ) by {
                if i2 < i - 1 {
                    assert(r@[1 + 4 * i2 + j] == rpre[1 + 4 * i2 + j]);
                }
            }
        }
    }
    let mut tail = u64_le_bytes(info.time as u64);
    let ghost rpre = r@;
    r.append(&mut tail);
    proof {
        assert forall|i2: int, j: int|
            0 <= i2 < n && 0 <= j < 4 implies (#[trigger] r@[1 + 4 * i2 + j]) == le4_byte(
            info.syscall_times@[i2],
            j,
        ) by {
            assert(r@[1 + 4 * i2 + j] == rpre[1 + 4 * i2 + j]);
        }
    }
    r
}

/// Writes the running task's status, full syscall counter table, and
/// elapsed time into the user buffer at `ti_va` through address
/// translation, in the layout of [`task_info_bytes`].  Returns 0, or -1
/// with nothing written when the buffer is not fully writable.
pub fn sys_task_info(k: &mut Kernel, ti_va: usize) -> (r: isize)
    requires
        old(k).wf(),
        old(k).has_current(),
    ensures
        final(k).wf(),
        final(k).has_current(),
        final(k).cur() == old(k).cur(),
        final(k).tasks == old(k).tasks,
        final(k).fa == old(k).fa,
        r == 0 || r == -1,
        r == 0 <==> forall|i: int|
            0 <= i < 1 + 4 * old(k).tasks@[old(k).cur()].syscall_times@.len() + 8
                ==> #[trigger] crate::user_mem::can_write(
                old(k).tasks@[old(k).cur()].aspace,
                ti_va + i,
            ),
        r == -1 ==> final(k).mem.bytes@ == old(k).mem.bytes@,
        r == 0 ==> crate::user_mem::user_byte(
            old(k).tasks@[old(k).cur()].aspace,
            final(k).mem,
            ti_va as int,
        ) == status_code(old(k).tasks@[old(k).cur()].status),
        r == 0 ==> forall|i: int, j: int|
            0 <= i < old(k).tasks@[old(k).cur()].syscall_times@.len() && 0 <= j < 4
                ==> #[trigger] crate::user_mem::user_byte(
                old(k).tasks@[old(k).cur()].aspace,
                final(k).mem,
                ti_va + 1 + 4 * i + j,
            ) == le4_byte(old(k).tasks@[old(k).cur()].syscall_times@[i], j),
        r == 0 ==> forall|j: int|
            0 <= j < 8 ==> #[trigger] crate::user_mem::user_byte(
                old(k).tasks@[old(k).cur()].aspace,
                final(k).mem,
                ti_va + 1 + 4 * old(k).tasks@[old(k).cur()].syscall_times@.len() + j,
            ) == le8_byte(old(k).tasks@[old(k).cur()].time_ms as u64, j),
        r == 0 ==> forall|pa: int|
            0 <= pa < final(k).mem.bytes@.len() && !(exists|i: int|
                0 <= i < 1 + 4 * old(k).tasks@[old(k).cur()].syscall_times@.len() + 8 && pa
                    == #[trigger] old(k).tasks@[old(k).cur()].aspace.spec_pa(ti_va + i)) ==> final(k).mem.bytes@[pa] == old(k).mem.bytes@[pa],
{
    let info = current_task_info(k);
    let bytes = task_info_bytes(&info);
    let ok = k.poke_user(ti_va, &bytes);
    if ok {
        proof {
            let asp = old(k).tasks@[old(k).cur()].aspace;
            let nc = old(k).tasks@[old(k).cur()].syscall_times@.len() as int;
            assert(crate::user_mem::user_byte(asp, k.mem, ti_va + 0) == bytes@[0]);
            assert(ti_va as int == ti_va + 0);
            assert forall|i: int, j: int|
                0 <= i < nc && 0 <= j < 4 implies #[trigger] crate::user_mem::user_byte(
                asp,
                k.mem,
                ti_va + 1 + 4 * i + j,
            ) == le4_byte(old(k).tasks@[old(k).cur()].syscall_times@[i], j) by {
                assert(crate::user_mem::user_byte(asp, k.mem, ti_va + (1 + 4 * i + j)) == bytes@[1
                    + 4 * i + j]);
            }
            assert forall|j: int|
                0 <= j < 8 implies #[trigger] crate::user_mem::user_byte(
                asp,
                k.mem,
                ti_va + 1 + 4 * nc + j,
            ) == le8_byte(old(k).tasks@[old(k).cur()].time_ms as u64, j) by {
                assert(crate::user_mem::user_byte(asp, k.mem, ti_va + (1 + 4 * nc + j)) == bytes@[
                    1 + 4 * nc + j]);
            }
        }
        0
    } else {
        -1
    }
}

/// Creates a fresh user mapping: page-rounds `[start, start + len)`,
/// backs every page with a fresh zeroless frame, and installs the
/// permissions `port` encodes plus the user bit.  Returns 0 on success
/// and -1, with the address space unmodified, when `start` is unaligned,
/// `port` is invalid, the range leaves the user address range, any page
/// in it is already mapped, or the frame pool is too small.
pub fn sys_mmap(k: &mut Kernel, start: usize, len: usize, port: usize) -> (r: isize)
    requires
        old(k).wf(),
        old(k).has_current(),
    ensures
        final(k).wf(),
        final(k).has_current(),
        final(k).cur() == old(k).cur(),
        final(k).mem == old(k).mem,
        final(k).tasks@.len() == old(k).tasks@.len(),
        r == 0 || r == -1,
        r == 0 <==> mmap_accepts(*old(k), start as int, len as int, port),
        r == -1 ==> final(k).tasks@ == old(k).tasks@ && final(k).fa.current == old(k).fa.current
            && final(k).fa.recycled@ == old(k).fa.recycled@,
        r == 0 ==> {
            &&& forall|t: int|
                0 <= t < old(k).tasks@.len() && t != old(k).cur() ==> final(k).tasks@[t] == old(k).tasks@[t]
            &&& forall|v: int|
                start as int / PAGE_SIZE as int <= v < page_ceil(start + len)
                    ==> ((#[trigger] final(k).tasks@[old(k).cur()].aspace.page_table.entry(
                    v,
                )) matches Some(e) && e.perm == spec_perm_of_port(port))
            &&& forall|v: int|
                !(start as int / PAGE_SIZE as int <= v < page_ceil(start + len)) ==> final(k).tasks@[old(k).cur()].aspace.page_table.entry(v) == old(k).tasks@[old(k).cur()].aspace.page_table.entry(v)
            &&& forall|g: int|
                final(k).fa.taken(g) <==> old(k).fa.taken(g) || final(k).tasks@[old(k).cur()].aspace.uses(g)
            &&& final(k).tasks@[old(k).cur()] == (Task {
                aspace: final(k).tasks@[old(k).cur()].aspace,
                ..old(k).tasks@[old(k).cur()]
            })
            // exactly one new area records the mapping, spanning exactly
            // the rounded range; the old area list is untouched
            &&& final(k).tasks@[old(k).cur()].aspace.areas@.len() == old(k).tasks@[old(k).cur()].aspace.areas@.len() + 1
            &&& forall|a: int|
                0 <= a < old(k).tasks@[old(k).cur()].aspace.areas@.len() ==> final(k).tasks@[old(k).cur()].aspace.areas@[a] == old(k).tasks@[old(k).cur()].aspace.areas@[a]
            &&& final(k).tasks@[old(k).cur()].aspace.areas@.last().start_vpn == start as int
                / PAGE_SIZE as int
            &&& final(k).tasks@[old(k).cur()].aspace.areas@.last().end_vpn == page_ceil(
                start + len,
            )
        },
{
    let c = match k.current {
        Some(c) => c,
        None => {
            proof {
                assert(false);
            }
            0
        },
    };
    if start % PAGE_SIZE != 0 {
        return -1;
    }
    if perm_from_port(port).is_none() {
        return -1;
    }
    let perm = match perm_from_port(port) {
        Some(p) => p,
        None => {
            proof {
                assert(false);
            }
            crate::perm::MapPermission { r: false, w: false, x: false, u: false }
        },
    };
    if start > USER_TOP || len > USER_TOP - start {
        return -1;
    }
    let svpn = start / PAGE_SIZE;
    let evpn = (start + len + PAGE_SIZE - 1) / PAGE_SIZE;
    proof {
        lemma_div_is_ordered(start + len + PAGE_SIZE - 1, USER_TOP + PAGE_SIZE - 1, PAGE_SIZE as int);
        assert((USER_TOP + PAGE_SIZE - 1) as int / PAGE_SIZE as int == USER_PAGES);
    }
    let ghost pre = *k;
    let mut t = k.tasks.remove(c);
    if !t.aspace.range_free(svpn, evpn) {
        k.tasks.insert(c, t);
        proof {
            assert(k.tasks@ =~= pre.tasks@);
        }
        return -1;
    }
    let enough = {
        let avail = k.fa.available();
        evpn - svpn <= avail
    };
    if !enough {
        k.tasks.insert(c, t);
        proof {
            assert(k.tasks@ =~= pre.tasks@);
        }
        return -1;
    }
    let ok = t.aspace.insert_framed_area(svpn, evpn, perm, &mut k.fa);
    proof {
        assert(ok);
    }
    k.tasks.insert(c, t);
    proof {
        let cc = c as int;
        assert(k.tasks@ =~= pre.tasks@.update(cc, k.tasks@[cc]));
        assert(k.tasks@[cc].wf()) by {
            assert(!(pre.tasks@[cc].status is Zombie));
            assert(k.tasks@[cc].aspace.areas@[k.tasks@[cc].heap_idx as int] == pre.tasks@[
                cc
            ].aspace.areas@[pre.tasks@[cc].heap_idx as int]);
        }
        Kernel::lemma_wf_after_aspace_update(pre, *k, cc);
    }
    0
}

/// `sys_mmap` succeeds exactly on these inputs: aligned start, a valid
/// permission word, a range inside the user address range with no page
/// already mapped, and enough free frames to back it.
pub open spec fn mmap_accepts(k: Kernel, start: int, len: int, port: usize) -> bool {
    &&& start % (PAGE_SIZE as int) == 0
    &&& port_valid(port)
    &&& start + len <= USER_TOP
    &&& forall|v: int|
        start / PAGE_SIZE as int <= v < page_ceil(start + len) ==> !(#[trigger] k.tasks@[
            k.cur()
        ].aspace.mapped(v))
    &&& page_ceil(start + len) - start / PAGE_SIZE as int <= k.fa.spec_available()
}

/// The page one past the last page a byte range touches.
pub open spec fn page_ceil(addr: int) -> int {
    (addr + PAGE_SIZE - 1) / PAGE_SIZE as int
}

/// Removes the mapping `[start, start + len)` exactly: the page-rounded
/// range must coincide with one tracked area, whose pages are unmapped
/// and frames freed, and the record dropped.  Returns 0 on success and
/// -1, changing nothing, when `start` is unaligned or no such area
/// exists: a sub-range of an area is never split off.  One deliberate
/// simplification beyond that: the heap area is off limits here even on
/// an exact match, because its bounds are bookkeeping that only `sbrk`
/// moves; unmapping heap pages goes through a shrinking `sbrk`.
pub fn sys_munmap(k: &mut Kernel, start: usize, len: usize) -> (r: isize)
    requires
        old(k).wf(),
        old(k).has_current(),
    ensures
        final(k).wf(),
        final(k).has_current(),
        final(k).cur() == old(k).cur(),
        final(k).mem == old(k).mem,
        final(k).tasks@.len() == old(k).tasks@.len(),
        r == 0 || r == -1,
        r == 0 <==> munmap_accepts(*old(k), start as int, len as int),
        r == -1 ==> final(k).tasks@ == old(k).tasks@ && final(k).fa.current == old(k).fa.current
            && final(k).fa.recycled@ == old(k).fa.recycled@,
        r == 0 ==> {
            &&& forall|t: int|
                0 <= t < old(k).tasks@.len() && t != old(k).cur() ==> final(k).tasks@[t] == old(k).tasks@[t]
            &&& forall|v: int|
                start as int / PAGE_SIZE as int <= v < page_ceil(start + len) ==> !(
                #[trigger] final(k).tasks@[old(k).cur()].aspace.mapped(v))
            &&& forall|v: int|
                !(start as int / PAGE_SIZE as int <= v < page_ceil(start + len)) ==> final(k).tasks@[old(k).cur()].aspace.page_table.entry(v) == old(k).tasks@[old(k).cur()].aspace.page_table.entry(v)
            &&& forall|g: int|
                final(k).fa.taken(g) <==> old(k).fa.taken(g) && (final(k).tasks@[old(k).cur()].aspace.uses(g) || !old(k).tasks@[old(k).cur()].aspace.uses(g))
            &&& final(k).tasks@[old(k).cur()] == (Task {
                aspace: final(k).tasks@[old(k).cur()].aspace,
                heap_idx: final(k).tasks@[old(k).cur()].heap_idx,
                ..old(k).tasks@[old(k).cur()]
            })
        },
{
    let c = match k.current {
        Some(c) => c,
        None => {
            proof {
                assert(false);
            }
            0
        },
    };
    if start % PAGE_SIZE != 0 {
        return -1;
    }
    if start > USER_TOP || len > USER_TOP - start {
        proof {
            lemma_no_exact_match_out_of_range(*old(k), start as int, len as int);
        }
        return -1;
    }
    let svpn = start / PAGE_SIZE;
    let evpn = (start + len + PAGE_SIZE - 1) / PAGE_SIZE;
    let ghost pre = *k;
    let mut t = k.tasks.remove(c);
    let heap_idx = t.heap_idx;
    let removed = t.aspace.remove_area_exact(svpn, evpn, heap_idx, &mut k.fa);
    match removed {
        None => {
            k.tasks.insert(c, t);
            proof {
                assert(k.tasks@ =~= pre.tasks@);
            }
            -1
        },
        Some(idx) => {
            if idx < t.heap_idx {
                t.heap_idx = t.heap_idx - 1;
            }
            k.tasks.insert(c, t);
            proof {
                let cc = c as int;
                assert(k.tasks@ =~= pre.tasks@.update(cc, k.tasks@[cc]));
                assert(k.tasks@[cc].wf()) by {
                    assert(!(pre.tasks@[cc].status is Zombie));
                    let hi = pre.tasks@[cc].heap_idx as int;
                    if idx < hi {
                        assert(k.tasks@[cc].aspace.areas@[hi - 1] == pre.tasks@[
                            cc
                        ].aspace.areas@[hi]);
                    } else {
                        assert(k.tasks@[cc].aspace.areas@[hi] == pre.tasks@[cc].aspace.areas@[hi]);
                    }
                }
                Kernel::lemma_wf_after_aspace_update(pre, *k, cc);
            }
            0
        },
    }
}

/// `sys_munmap` succeeds exactly on these inputs: aligned start, a range
/// inside the user address range, and a tracked non-heap area whose span
/// is exactly the page-rounded range.
pub open spec fn munmap_accepts(k: Kernel, start: int, len: int) -> bool {
    &&& start % (PAGE_SIZE as int) == 0
    &&& start + len <= USER_TOP
    &&& k.tasks@[k.cur()].aspace.has_removable(
        start / PAGE_SIZE as int,
        page_ceil(start + len),
        k.tasks@[k.cur()].heap_idx as int,
    )
}

/// A range reaching outside the user address range can never match a
/// tracked area exactly: every area ends at or below `USER_PAGES`.
proof fn lemma_no_exact_match_out_of_range(k: Kernel, start: int, len: int)
    requires
        k.wf(),
        k.has_current(),
        start + len > USER_TOP,
        start >= 0,
        len >= 0,
    ensures
        !k.tasks@[k.cur()].aspace.has_removable(
            start / PAGE_SIZE as int,
            page_ceil(start + len),
            k.tasks@[k.cur()].heap_idx as int,
        ),
{
    let a = k.tasks@[k.cur()].aspace;
    if a.has_removable(
        start / PAGE_SIZE as int,
        page_ceil(start + len),
        k.tasks@[k.cur()].heap_idx as int,
    ) {
        let i = choose|i: int|
            i != k.tasks@[k.cur()].heap_idx as int && #[trigger] a.is_exact(
                i,
                start / PAGE_SIZE as int,
                page_ceil(start + len),
            );
        assert(a.areas@[i].wf());
        assert(a.areas@[i].end_vpn <= USER_PAGES);
        lemma_div_is_ordered(USER_TOP + PAGE_SIZE as int, start + len + PAGE_SIZE - 1, PAGE_SIZE as int);
        assert((USER_TOP + PAGE_SIZE) as int / PAGE_SIZE as int == USER_PAGES + 1);
    }
}

/// Whether the two byte strings are equal.
fn bytes_eq(a: &Vec<u8>, b: &Vec<u8>) -> (r: bool)
    ensures
        r == (a@ == b@),
{
    if a.len() != b.len() {
        return false;
    }
    let n = a.len();
    let mut i: usize = 0;
    while i < n
        invariant
            i <= n,
            n == a@.len() && n == b@.len(),
            forall|j: int| 0 <= j < i ==> a@[j] == b@[j],
        decreases n - i,
    {
        if a[i] != b[i] {
            return false;
        }
        i = i + 1;
    }
    proof {
        assert(a@ =~= b@);
    }
    true
}

/// Image `i` carries exactly this name.
pub open spec fn app_named(k: Kernel, name: Seq<u8>, i: int) -> bool {
    0 <= i < k.apps@.len() && k.apps@[i].name@ == name
}

/// The first image with the given name, as the loader's lookup returns
/// it.
fn find_app(k: &Kernel, name: &Vec<u8>) -> (r: Option<usize>)
    ensures
        r is Some <==> exists|i: int| app_named(*k, name@, i),
        r matches Some(i) ==> app_named(*k, name@, i as int) && forall|j: int|
            0 <= j < i ==> !app_named(*k, name@, j),
{
    let n = k.apps.len();
    let mut i: usize = 0;
    while i < n
        invariant
            i <= n,
            n == k.apps@.len(),
            forall|j: int| 0 <= j < i ==> !app_named(*k, name@, j),
        decreases n - i,
    {
        if bytes_eq(&k.apps[i].name, name) {
            proof {
                assert(app_named(*k, name@, i as int));
            }
            return Some(i);
        }
        proof {
            assert(!app_named(*k, name@, i as int));
        }
        i = i + 1;
    }
    proof {
        assert(!(exists|j: int| app_named(*k, name@, j))) by {
            if exists|j: int| app_named(*k, name@, j) {
                let j = choose|j: int| app_named(*k, name@, j);
            }
        }
    }
    None
}

/// Grows or shrinks the running task's heap by `size` bytes: maps fresh
/// frames over the added page range, or unmaps and frees the dropped
/// one, and moves the program break.  Returns the previous break, or -1
/// when the new break would sink below the heap floor or leave the user
/// range, when growth would run into an existing mapping, or when the
/// frame pool is too small.
/// `sys_sbrk` succeeds exactly on these inputs: the new break stays
/// between the heap floor and the top of the user range, and — when the
/// heap gains pages — the added page range is free and the pool can
/// back it.
pub open spec fn sbrk_accepts(k: Kernel, size: int) -> bool {
    &&& k.tasks@[k.cur()].heap_bottom <= k.tasks@[k.cur()].brk + size <= USER_TOP
    &&& heap_end_vpn(k.tasks@[k.cur()].brk + size) > heap_end_vpn(k.tasks@[k.cur()].brk as int)
        ==> (forall|v: int|
        heap_end_vpn(k.tasks@[k.cur()].brk as int) <= v < heap_end_vpn(
            k.tasks@[k.cur()].brk + size,
        ) ==> !(#[trigger] k.tasks@[k.cur()].aspace.mapped(v))) && heap_end_vpn(
        k.tasks@[k.cur()].brk + size,
    ) - heap_end_vpn(k.tasks@[k.cur()].brk as int) <= k.fa.spec_available()
}

pub fn sys_sbrk(k: &mut Kernel, size: i32) -> (r: isize)
    requires
        old(k).wf(),
        old(k).has_current(),
    ensures
        final(k).wf(),
        final(k).has_current(),
        final(k).cur() == old(k).cur(),
        final(k).mem == old(k).mem,
        final(k).tasks@.len() == old(k).tasks@.len(),
        r == -1 || r == old(k).tasks@[old(k).cur()].brk,
        r == -1 <==> !sbrk_accepts(*old(k), size as int),
        r == -1 ==> final(k).tasks@ == old(k).tasks@ && forall|g: int|
            final(k).fa.taken(g) == old(k).fa.taken(g),
        r != -1 ==> {
            &&& final(k).tasks@[old(k).cur()].brk == old(k).tasks@[old(k).cur()].brk + size
            &&& final(k).tasks@[old(k).cur()].heap_bottom == old(k).tasks@[old(k).cur()].heap_bottom
            &&& old(k).tasks@[old(k).cur()].heap_bottom <= old(k).tasks@[old(k).cur()].brk + size
                <= USER_TOP
            &&& forall|t: int|
                0 <= t < old(k).tasks@.len() && t != old(k).cur() ==> final(k).tasks@[t] == old(k).tasks@[t]
            &&& final(k).tasks@[old(k).cur()] == (Task {
                aspace: final(k).tasks@[old(k).cur()].aspace,
                brk: final(k).tasks@[old(k).cur()].brk,
                ..old(k).tasks@[old(k).cur()]
            })
        },
        r != -1 ==> forall|v: int|
            heap_end_vpn(old(k).tasks@[old(k).cur()].brk as int) <= v < heap_end_vpn(
                old(k).tasks@[old(k).cur()].brk + size,
            ) ==> #[trigger] final(k).tasks@[old(k).cur()].aspace.mapped(v),
        r != -1 ==> forall|v: int|
            heap_end_vpn(old(k).tasks@[old(k).cur()].brk + size) <= v < heap_end_vpn(
                old(k).tasks@[old(k).cur()].brk as int,
            ) ==> !(#[trigger] final(k).tasks@[old(k).cur()].aspace.mapped(v)),
        // the frame pool moves with the heap: grown pages take fresh
        // frames, dropped pages return theirs, and nothing else changes
        r != -1 && heap_end_vpn(old(k).tasks@[old(k).cur()].brk + size) >= heap_end_vpn(
            old(k).tasks@[old(k).cur()].brk as int,
        ) ==> forall|g: int|
            final(k).fa.taken(g) <==> old(k).fa.taken(g) || final(k).tasks@[old(k).cur()].aspace.uses(g),
        r != -1 && heap_end_vpn(old(k).tasks@[old(k).cur()].brk + size) < heap_end_vpn(
            old(k).tasks@[old(k).cur()].brk as int,
        ) ==> forall|g: int|
            final(k).fa.taken(g) <==> old(k).fa.taken(g) && (final(k).tasks@[old(k).cur()].aspace.uses(g) || !old(k).tasks@[old(k).cur()].aspace.uses(g)),
{
    let c = match k.current {
        Some(c) => c,
        None => {
            proof {
                assert(false);
            }
            0
        },
    };
    let brk = k.tasks[c].brk;
    let hb = k.tasks[c].heap_bottom;
    let heap_idx = k.tasks[c].heap_idx;
    let new_brk_w: i64 = brk as i64 + size as i64;
    if new_brk_w < hb as i64 || new_brk_w > USER_TOP as i64 {
        proof {
            assert(!sbrk_accepts(*old(k), size as int));
        }
        return -1;
    }
    let new_brk: usize = new_brk_w as usize;
    let old_e = (brk + PAGE_SIZE - 1) / PAGE_SIZE;
    let new_e = (new_brk + PAGE_SIZE - 1) / PAGE_SIZE;
    proof {
        lemma_div_is_ordered(new_brk + PAGE_SIZE - 1, USER_TOP + PAGE_SIZE - 1, PAGE_SIZE as int);
        assert((USER_TOP + PAGE_SIZE - 1) as int / PAGE_SIZE as int == USER_PAGES);
        assert(old(k).tasks@[c as int].aspace.areas@[heap_idx as int].end_vpn == old_e);
        vstd::arithmetic::div_mod::lemma_div_multiples_vanish_fancy(
            hb as int / PAGE_SIZE as int,
            PAGE_SIZE - 1,
            PAGE_SIZE as int,
        );
        lemma_div_is_ordered(hb + PAGE_SIZE - 1, new_brk + PAGE_SIZE - 1, PAGE_SIZE as int);
        assert(new_e >= hb as int / PAGE_SIZE as int);
    }
    let ghost pre = *k;
    let mut t = k.tasks.remove(c);
    if new_e > old_e {
        if !t.aspace.range_free(old_e, new_e) {
            k.tasks.insert(c, t);
            proof {
                assert(k.tasks@ =~= pre.tasks@);
                assert(!sbrk_accepts(*old(k), size as int));
            }
            return -1;
        }
        let avail = k.fa.available();
        let ok = t.aspace.append_frames_to(heap_idx, new_e, &mut k.fa);
        if !ok {
            k.tasks.insert(c, t);
            proof {
                assert(k.tasks@ =~= pre.tasks@);
                assert(!sbrk_accepts(*old(k), size as int));
            }
            return -1;
        }
        proof {
            assert(sbrk_accepts(*old(k), size as int));
        }
    } else if new_e < old_e {
        proof {
            assert(t.aspace.areas@[heap_idx as int].start_vpn <= new_e);
            assert(sbrk_accepts(*old(k), size as int));
        }
        t.aspace.shrink_frames_to(heap_idx, new_e, &mut k.fa);
    } else {
        proof {
            assert(sbrk_accepts(*old(k), size as int));
        }
    }
    t.brk = new_brk;
    k.tasks.insert(c, t);
    proof {
        let cc = c as int;
        assert(k.tasks@ =~= pre.tasks@.update(cc, k.tasks@[cc]));
        let base = pre.tasks@[cc].aspace.areas@[heap_idx as int].frames@.len() as int;
        assert forall|f: int| #[trigger] k.tasks@[cc].aspace.uses(f) implies pre.tasks@[
            cc
        ].aspace.uses(f) || !pre.fa.taken(f) by {
            let (a, q) = choose|a: int, q: int|
                0 <= a < k.tasks@[cc].aspace.areas@.len() && 0 <= q < k.tasks@[
                    cc
                ].aspace.areas@[a].frames@.len() && (#[trigger] k.tasks@[
                    cc
                ].aspace.areas@[a].frames@[q]) == f;
            if a == heap_idx as int && q >= base {
            } else {
                assert(pre.tasks@[cc].aspace.areas@[a].frames@[q] == f);
                assert(pre.tasks@[cc].aspace.uses(f));
            }
        }
        assert forall|f: int|
            pre.fa.taken(f) && !pre.tasks@[cc].aspace.uses(f) implies k.fa.taken(f) by {
            if new_e < old_e {
                if exists|q: int|
                    new_e - pre.tasks@[cc].aspace.areas@[heap_idx as int].start_vpn <= q < base
                        && (#[trigger] pre.tasks@[cc].aspace.areas@[heap_idx as int].frames@[q])
                        == f {
                    let q = choose|q: int|
                        new_e - pre.tasks@[cc].aspace.areas@[heap_idx as int].start_vpn <= q < base
                            && (#[trigger] pre.tasks@[cc].aspace.areas@[heap_idx
                            as int].frames@[q]) == f;
                    assert(pre.tasks@[cc].aspace.uses(f));
                }
            }
        }
        assert(k.tasks@[cc].wf()) by {
            assert(!(pre.tasks@[cc].status is Zombie));
            assert(k.tasks@[cc].aspace.areas@[heap_idx as int].end_vpn == new_e);
            assert(k.tasks@[cc].aspace.areas@[heap_idx as int].start_vpn == pre.tasks@[
                cc
            ].aspace.areas@[heap_idx as int].start_vpn);
        }
        Kernel::lemma_wf_after_aspace_update(pre, *k, cc);
    }
    brk as isize
}

/// Creates a child of the running task: an independent full deep copy
/// of the parent's address space — every mapped page gets its own fresh
/// frame, its bytes copied from the parent's, no sharing, no copy on
/// write — zeroed accounting, inherited stride, and registration as
/// Ready and as the parent's child.  Returns the child's pid; -1 exactly
/// when the task table is full or the frame pool cannot duplicate every
/// page, and then nothing observable changed.
pub fn sys_fork(k: &mut Kernel, now_ms: usize) -> (r: isize)
    requires
        old(k).wf(),
        old(k).has_current(),
    ensures
        final(k).wf(),
        final(k).has_current(),
        final(k).cur() == old(k).cur(),
        r == -1 || r == old(k).tasks@.len(),
        r == -1 <==> old(k).tasks@.len() >= crate::config::PID_LIMIT || old(k).tasks@[old(k).cur()].aspace.total_area_pages() > old(k).fa.spec_available(),
        r == -1 ==> final(k).tasks@ == old(k).tasks@ && final(k).mem.bytes@ == old(k).mem.bytes@
            && forall|g: int| final(k).fa.taken(g) == old(k).fa.taken(g),
        r != -1 ==> {
            &&& final(k).tasks@.len() == old(k).tasks@.len() + 1
            &&& forall|t: int|
                0 <= t < old(k).tasks@.len() && t != old(k).cur() ==> final(k).tasks@[t] == old(k).tasks@[t]
            &&& final(k).tasks@[old(k).cur()] == (Task {
                children: final(k).tasks@[old(k).cur()].children,
                ..old(k).tasks@[old(k).cur()]
            })
            &&& final(k).tasks@[old(k).cur()].children@ == old(k).tasks@[old(k).cur()].children@.push((old(k).tasks@.len() as usize))
            &&& final(k).tasks@.last().status is Ready
            &&& final(k).tasks@.last().pass == 0
            &&& final(k).tasks@.last().stride == old(k).tasks@[old(k).cur()].stride
            &&& final(k).tasks@.last().children@.len() == 0
            &&& final(k).tasks@.last().first_time_ms == now_ms
            &&& forall|i: int|
                0 <= i < crate::config::MAX_SYSCALL_NUM ==> (#[trigger] final(k).tasks@.last().syscall_times@[i]) == 0
            // the saved context is the parent's, except the syscall
            // return slot, which the child reads as 0
            &&& final(k).tasks@.last().trap_regs@[crate::config::TRAP_REG_RET as int] == 0
            &&& forall|i: int|
                0 <= i < crate::config::TRAP_REG_COUNT && i != crate::config::TRAP_REG_RET
                    ==> (#[trigger] final(k).tasks@.last().trap_regs@[i]) == old(k).tasks@[old(k).cur()].trap_regs@[i]
            &&& final(k).tasks@.last().sepc == old(k).tasks@[old(k).cur()].sepc
            &&& forall|v: int|
                #[trigger] final(k).tasks@.last().aspace.mapped(v) <==> old(k).tasks@[old(k).cur()].aspace.mapped(v)
            &&& forall|v: int|
                #[trigger] final(k).tasks@.last().aspace.mapped(v) ==> final(k).tasks@.last().aspace.page_table.entry(v)->Some_0.perm == old(k).tasks@[old(k).cur()].aspace.page_table.entry(v)->Some_0.perm
            &&& forall|f: int|
                #[trigger] final(k).tasks@.last().aspace.uses(f) ==> !old(k).tasks@[old(k).cur()].aspace.uses(f)
            // the copy is content-equal: through the child's page table
            // every mapped byte reads as the parent's did, and no byte
            // outside the child's fresh frames changed
            &&& forall|va: int|
                0 <= va < USER_TOP && old(k).tasks@[old(k).cur()].aspace.mapped(
                    va / PAGE_SIZE as int,
                ) ==> final(k).mem.bytes@[#[trigger] final(k).tasks@.last().aspace.spec_pa(va)]
                    == old(k).mem.bytes@[old(k).tasks@[old(k).cur()].aspace.spec_pa(va)]
            &&& forall|pa: int|
                0 <= pa < final(k).mem.bytes@.len() && !final(k).tasks@.last().aspace.uses(
                    pa / PAGE_SIZE as int,
                ) ==> final(k).mem.bytes@[pa] == old(k).mem.bytes@[pa]
        },
{
    let c = match k.current {
        Some(c) => c,
        None => {
            proof {
                assert(false);
            }
            0
        },
    };
    if k.tasks.len() >= crate::config::PID_LIMIT {
        return -1;
    }
    let new_pid = k.tasks.len();
    let cloned = k.tasks[c].aspace.clone_with_frames(&mut k.fa, &mut k.mem);
    let child_aspace = match cloned {
        Some(a) => a,
        None => {
            return -1;
        },
    };
    let ghost casp = child_aspace;
    // the child's saved context is the parent's, except that the
    // syscall-return slot reads 0: the child observes fork() == 0
    let mut child_regs: Vec<usize> = Vec::new();
    let mut ri: usize = 0;
    while ri < crate::config::TRAP_REG_COUNT
        invariant
            ri <= crate::config::TRAP_REG_COUNT,
            c as int == old(k).cur(),
            c < k.tasks@.len(),
            k.tasks@[c as int] == old(k).tasks@[old(k).cur()],
            k.tasks@[c as int].trap_regs@.len() == crate::config::TRAP_REG_COUNT,
            old(k).wf(),
            child_regs@.len() == ri,
            forall|i: int|
                0 <= i < ri && i != crate::config::TRAP_REG_RET ==> child_regs@[i] == old(k).tasks@[old(k).cur()].trap_regs@[i],
            forall|i: int|
                0 <= i < ri && i == crate::config::TRAP_REG_RET ==> child_regs@[i] == 0,
        decreases crate::config::TRAP_REG_COUNT - ri,
    {
        if ri == crate::config::TRAP_REG_RET {
            child_regs.push(0);
        } else {
            child_regs.push(k.tasks[c].trap_regs[ri]);
        }
        ri = ri + 1;
    }
    let child = Task {
        pid: new_pid,
        status: TaskStatus::Ready,
        aspace: child_aspace,
        stride: k.tasks[c].stride,
        pass: 0,
        exit_code: 0,
        children: Vec::new(),
        syscall_times: vec![0u32; crate::config::MAX_SYSCALL_NUM],
        first_time_ms: now_ms,
        time_ms: 0,
        heap_bottom: k.tasks[c].heap_bottom,
        brk: k.tasks[c].brk,
        heap_idx: k.tasks[c].heap_idx,
        trap_regs: child_regs,
        sepc: k.tasks[c].sepc,
    };
    let ghost pre = *k;
    k.tasks.push(child);
    k.tasks[c].children.push(new_pid);
    k.ready.push(new_pid);
    proof {
        let cc = c as int;
        let nn = new_pid as int;
        assert(k.tasks@.len() == pre.tasks@.len() + 1);
        assert forall|t: int| 0 <= t < pre.tasks@.len() && t != cc implies k.tasks@[t]
            == pre.tasks@[t] by {}
        assert(k.tasks@[nn].wf()) by {
            assert(!(pre.tasks@[cc].status is Zombie));
            assert(pre.tasks@[cc].wf());
            assert(k.tasks@[nn].aspace.areas@[k.tasks@[nn].heap_idx as int].start_vpn
                == pre.tasks@[cc].aspace.areas@[pre.tasks@[cc].heap_idx as int].start_vpn);
            assert(k.tasks@[nn].aspace.areas@[k.tasks@[nn].heap_idx as int].end_vpn == pre.tasks@[
                cc
            ].aspace.areas@[pre.tasks@[cc].heap_idx as int].end_vpn);
        }
        assert(k.tasks@[cc].wf()) by {
            assert(k.tasks@[cc] == Task { children: k.tasks@[cc].children, ..pre.tasks@[cc] });
        }
        assert forall|t: int| 0 <= t < k.tasks@.len() implies (#[trigger] k.tasks@[t]).wf()
            && k.tasks@[t].pid == t by {
            if t != cc && t != nn {
                assert(k.tasks@[t] == pre.tasks@[t]);
            }
        }
        // frames: the child's are fresh, everyone else's are untouched
        assert forall|t: int| 0 <= t < k.tasks@.len() implies (#[trigger] k.tasks@[
            t
        ]).aspace.frames_owned(k.fa) by {
            if t != nn {
                assert(k.tasks@[t].aspace == pre.tasks@[t].aspace);
                assert forall|f: int| #[trigger] k.tasks@[t].aspace.uses(f) implies k.fa.taken(
                    f,
                ) by {
                    assert(pre.tasks@[t].aspace.uses(f));
                    assert(old(k).tasks@[t].aspace.uses(f));
                    assert(old(k).fa.taken(f));
                    assert(pre.fa.taken(f) == (old(k).fa.taken(f) || casp.uses(f)));
                    assert(k.fa == pre.fa);
                }
            }
        }
        assert forall|t1: int, t2: int, f: int|
            0 <= t1 < k.tasks@.len() && 0 <= t2 < k.tasks@.len() && t1 != t2 implies !(
        (#[trigger] k.tasks@[t1].aspace.uses(f)) && (#[trigger] k.tasks@[t2].aspace.uses(f))) by {
            if t1 != nn && t2 != nn {
                assert(k.tasks@[t1].aspace == pre.tasks@[t1].aspace);
                assert(k.tasks@[t2].aspace == pre.tasks@[t2].aspace);
            } else {
                let o = if t1 == nn {
                    t2
                } else {
                    t1
                };
                assert(k.tasks@[o].aspace == pre.tasks@[o].aspace);
                if k.tasks@[nn].aspace.uses(f) && pre.tasks@[o].aspace.uses(f) {
                    assert(casp.uses(f));
                    assert(old(k).tasks@[o].aspace.uses(f));
                    assert(old(k).fa.taken(f));
                    assert(!old(k).fa.taken(f));
                }
            }
        }
        // child links: the one new entry is the fresh index
        assert forall|t1: int, k1: int|
            0 <= t1 < k.tasks@.len() && 0 <= k1 < k.tasks@[t1].children@.len()
            implies (#[trigger] k.tasks@[t1].children@[k1]) < k.tasks@.len() by {
            if t1 == cc && k1 == k.tasks@[cc].children@.len() - 1 {
            } else if t1 != nn {
                let t0 = if t1 == cc {
                    cc
                } else {
                    t1
                };
                assert(k.tasks@[t1].children@[k1] == pre.tasks@[t0].children@[k1]);
            }
        }
        assert forall|t1: int, k1: int, t2: int, k2: int|
            0 <= t1 < k.tasks@.len() && 0 <= k1 < k.tasks@[t1].children@.len() && 0 <= t2
                < k.tasks@.len() && 0 <= k2 < k.tasks@[t2].children@.len() && (t1 != t2 || k1 != k2)
            implies (#[trigger] k.tasks@[t1].children@[k1]) != (#[trigger] k.tasks@[
            t2
        ].children@[k2]) by {
            let new1 = t1 == cc && k1 == k.tasks@[cc].children@.len() - 1;
            let new2 = t2 == cc && k2 == k.tasks@[cc].children@.len() - 1;
            if new1 && !new2 {
                assert(k.tasks@[t2].children@[k2] == pre.tasks@[t2].children@[k2]);
                assert(pre.tasks@[t2].children@[k2] < pre.tasks@.len());
            } else if !new1 && new2 {
                assert(k.tasks@[t1].children@[k1] == pre.tasks@[t1].children@[k1]);
                assert(pre.tasks@[t1].children@[k1] < pre.tasks@.len());
            } else if !new1 && !new2 {
                assert(k.tasks@[t1].children@[k1] == pre.tasks@[t1].children@[k1]);
                assert(k.tasks@[t2].children@[k2] == pre.tasks@[t2].children@[k2]);
            }
        }
        // scheduling: the child joins the ready set once
        assert forall|q: int| 0 <= q < k.ready@.len() implies (#[trigger] k.ready@[q])
            < k.tasks@.len() && k.tasks@[k.ready@[q] as int].status is Ready by {
            if q < k.ready@.len() - 1 {
                assert(k.ready@[q] == pre.ready@[q]);
                assert(pre.tasks@[pre.ready@[q] as int].status is Ready);
                assert(k.tasks@[k.ready@[q] as int].status == pre.tasks@[pre.ready@[
                    q
                ] as int].status);
            } else {
                assert(k.ready@[q] == new_pid);
            }
        }
        assert forall|q: int, l: int| 0 <= q < l < k.ready@.len() implies k.ready@[q] != k.ready@[
            l
        ] by {
            if l < k.ready@.len() - 1 {
                assert(k.ready@[q] == pre.ready@[q] && k.ready@[l] == pre.ready@[l]);
            } else {
                assert(k.ready@[q] == pre.ready@[q]);
                assert(pre.ready@[q] < pre.tasks@.len());
            }
        }
        assert forall|t: int|
            0 <= t < k.tasks@.len() && (#[trigger] k.tasks@[t].status) is Ready
            implies k.ready@.contains(t as usize) by {
            if t == nn {
                assert(k.ready@[k.ready@.len() - 1] == new_pid);
            } else {
                assert(k.tasks@[t].status == pre.tasks@[t].status);
                assert(pre.ready@.contains(t as usize));
                let q = choose|q: int| 0 <= q < pre.ready@.len() && pre.ready@[q] == t as usize;
                assert(k.ready@[q] == t as usize);
            }
        }
        assert forall|t: int|
            0 <= t < k.tasks@.len() && (#[trigger] k.tasks@[t].status) is Running
            implies k.current == Some(t as usize) by {
            if t != nn {
                assert(k.tasks@[t].status == pre.tasks@[t].status);
            }
        }
        assert(k.tasks@[cc].status == pre.tasks@[cc].status);
    }
    new_pid as isize
}

/// Whether child slot `j` of task `c` passes the `waitpid` filter.
pub open spec fn child_matches(k: Kernel, c: int, pid: int, j: int) -> bool {
    0 <= j < k.tasks@[c].children@.len() && (pid == -1 || k.tasks@[c].children@[j] == pid)
}

/// Whether child slot `j` of task `c` passes the filter and has exited.
pub open spec fn zombie_child(k: Kernel, c: int, pid: int, j: int) -> bool {
    child_matches(k, c, pid, j) && k.tasks@[k.tasks@[c].children@[j] as int].status is Zombie
}

/// Reaps an exited child: -1 when no child passes the filter (`pid` of
/// -1 means any child) or the exit-code buffer is not writable, -2 when
/// matching children exist but none has exited, and otherwise the first
/// matching Zombie child's pid, after writing its exit code into the
/// user buffer as four little-endian bytes and removing it from the
/// children list, so it can never be reaped twice.
pub fn sys_waitpid(k: &mut Kernel, pid: isize, exit_code_va: usize) -> (r: isize)
    requires
        old(k).wf(),
        old(k).has_current(),
    ensures
        final(k).wf(),
        final(k).has_current(),
        final(k).cur() == old(k).cur(),
        final(k).tasks@.len() == old(k).tasks@.len(),
        final(k).fa == old(k).fa,
        r == -1 ==> final(k).tasks@ == old(k).tasks@ && final(k).mem.bytes@ == old(k).mem.bytes@,
        r == -2 ==> final(k).tasks@ == old(k).tasks@ && final(k).mem.bytes@ == old(k).mem.bytes@,
        (!exists|j: int| child_matches(*old(k), old(k).cur(), pid as int, j)) ==> r == -1,
        ((exists|j: int| child_matches(*old(k), old(k).cur(), pid as int, j)) && !(exists|j: int|
            zombie_child(*old(k), old(k).cur(), pid as int, j))) ==> r == -2,
        // success is owed: a matching zombie child plus a writable
        // exit-code buffer is always reaped
        ((exists|j: int| zombie_child(*old(k), old(k).cur(), pid as int, j)) && (forall|i: int|
            0 <= i < 4 ==> #[trigger] crate::user_mem::can_write(
                old(k).tasks@[old(k).cur()].aspace,
                exit_code_va + i,
            ))) ==> r != -1 && r != -2,
        r != -1 && r != -2 ==> exists|j: int|
            {
                &&& #[trigger] zombie_child(*old(k), old(k).cur(), pid as int, j)
                &&& forall|j2: int| 0 <= j2 < j ==> !zombie_child(*old(k), old(k).cur(), pid as int, j2)
                &&& r == old(k).tasks@[old(k).cur()].children@[j]
                &&& final(k).tasks@[old(k).cur()].children@ == old(k).tasks@[old(k).cur()].children@.remove(j)
                &&& forall|i: int|
                    0 <= i < 4 ==> #[trigger] crate::user_mem::user_byte(
                        old(k).tasks@[old(k).cur()].aspace,
                        final(k).mem,
                        exit_code_va + i,
                    ) == le4_byte(
                        old(k).tasks@[old(k).tasks@[old(k).cur()].children@[j] as int].exit_code
                            as u32,
                        i,
                    )
            },
        r != -1 && r != -2 ==> forall|t: int|
            0 <= t < old(k).tasks@.len() && t != old(k).cur() ==> final(k).tasks@[t] == old(k).tasks@[t],
        r != -1 && r != -2 ==> final(k).tasks@[old(k).cur()] == (Task {
            children: final(k).tasks@[old(k).cur()].children,
            ..old(k).tasks@[old(k).cur()]
        }),
        r != -1 && r != -2 ==> forall|pa: int|
            0 <= pa < final(k).mem.bytes@.len() && !(exists|i: int|
                0 <= i < 4 && pa == #[trigger] old(k).tasks@[old(k).cur()].aspace.spec_pa(
                    exit_code_va + i,
                )) ==> final(k).mem.bytes@[pa] == old(k).mem.bytes@[pa],
{
    let c = match k.current {
        Some(c) => c,
        None => {
            proof {
                assert(false);
            }
            0
        },
    };
    let n = k.tasks[c].children.len();
    let mut any_match: bool = false;
    let mut zombie_at: Option<usize> = None;
    let mut j: usize = 0;
    while j < n
        invariant
            j <= n,
            k.wf(),
            k.has_current(),
            c as int == k.cur(),
            c < k.tasks@.len(),
            n == k.tasks@[c as int].children@.len(),
            any_match == exists|j2: int| 0 <= j2 < j && #[trigger] child_matches(*k, c as int, pid as int, j2),
            zombie_at is Some ==> {
                &&& zombie_child(*k, c as int, pid as int, zombie_at->0 as int)
                &&& zombie_at->0 < j
                &&& forall|j2: int|
                    0 <= j2 < zombie_at->0 ==> !zombie_child(*k, c as int, pid as int, j2)
            },
            zombie_at is None ==> forall|j2: int|
                0 <= j2 < j ==> !zombie_child(*k, c as int, pid as int, j2),
        decreases n - j,
    {
        let ch = k.tasks[c].children[j];
        let matches_filter = pid == -1 || (pid >= 0 && ch == pid as usize);
        proof {
            if pid >= 0 {
                assert((ch == pid as usize) == (ch as int == pid as int));
            }
            assert(matches_filter == child_matches(*k, c as int, pid as int, j as int));
        }
        if matches_filter {
            any_match = true;
            if zombie_at.is_none() {
                let chs = k.tasks[ch].status;
                if chs == TaskStatus::Zombie {
                    zombie_at = Some(j);
                }
            }
        }
        j = j + 1;
        proof {
            assert(any_match == exists|j2: int|
                0 <= j2 < j && #[trigger] child_matches(*k, c as int, pid as int, j2)) by {
                if any_match {
                } else {
                    if exists|j2: int|
                        0 <= j2 < j && #[trigger] child_matches(*k, c as int, pid as int, j2) {
                        let j2 = choose|j2: int|
                            0 <= j2 < j && #[trigger] child_matches(*k, c as int, pid as int, j2);
                        assert(j2 == j - 1);
                    }
                }
            }
        }
    }
    if !any_match {
        proof {
            assert forall|j2: int|
                !(#[trigger] child_matches(*k, c as int, pid as int, j2)) by {
                if child_matches(*k, c as int, pid as int, j2) {
                    assert(0 <= j2 < n);
                }
            }
        }
        return -1;
    }
    let jz = match zombie_at {
        Some(jz) => jz,
        None => {
            proof {
                assert forall|j2: int|
                    !(#[trigger] zombie_child(*k, c as int, pid as int, j2)) by {
                    if zombie_child(*k, c as int, pid as int, j2) {
                        assert(0 <= j2 < n);
                    }
                }
            }
            return -2;
        },
    };
    let child = k.tasks[c].children[jz];
    let code = k.tasks[child].exit_code;
    let bytes = u32_le_bytes(code as u32);
    let ghost pre = *k;
    let ok = k.poke_user(exit_code_va, &bytes);
    if !ok {
        return -1;
    }
    let ghost mid = *k;
    let mut t = k.tasks.remove(c);
    let removed_child = t.children.remove(jz);
    k.tasks.insert(c, t);
    proof {
        let cc = c as int;
        assert(k.tasks@ =~= mid.tasks@.update(cc, k.tasks@[cc]));
        assert(k.tasks@[cc].children@ == pre.tasks@[cc].children@.remove(jz as int));
        assert(k.tasks@[cc] == (Task { children: k.tasks@[cc].children, ..pre.tasks@[cc] }));
        assert(k.tasks@[cc].wf()) by {
            assert(k.tasks@[cc].aspace == pre.tasks@[cc].aspace);
        }
        assert forall|t1: int, k1: int|
            0 <= t1 < k.tasks@.len() && 0 <= k1 < k.tasks@[t1].children@.len()
            implies (#[trigger] k.tasks@[t1].children@[k1]) < k.tasks@.len() by {
            if t1 == cc {
                let k0 = if k1 < jz {
                    k1
                } else {
                    k1 + 1
                };
                assert(k.tasks@[cc].children@[k1] == pre.tasks@[cc].children@[k0]);
            } else {
                assert(k.tasks@[t1] == pre.tasks@[t1]);
            }
        }
        assert forall|t1: int, k1: int, t2: int, k2: int|
            0 <= t1 < k.tasks@.len() && 0 <= k1 < k.tasks@[t1].children@.len() && 0 <= t2
                < k.tasks@.len() && 0 <= k2 < k.tasks@[t2].children@.len() && (t1 != t2 || k1 != k2)
            implies (#[trigger] k.tasks@[t1].children@[k1]) != (#[trigger] k.tasks@[
            t2
        ].children@[k2]) by {
            let j1 = if t1 == cc && k1 >= jz {
                k1 + 1
            } else {
                k1
            };
            let j2 = if t2 == cc && k2 >= jz {
                k2 + 1
            } else {
                k2
            };
            assert(k.tasks@[t1].children@[k1] == pre.tasks@[t1].children@[j1]);
            assert(k.tasks@[t2].children@[k2] == pre.tasks@[t2].children@[j2]);
        }
        assert forall|u: int| 0 <= u < k.tasks@.len() implies (#[trigger] k.tasks@[u]).wf()
            && k.tasks@[u].pid == u by {
            if u != cc {
                assert(k.tasks@[u] == pre.tasks@[u]);
            }
        }
        assert forall|u: int| 0 <= u < k.tasks@.len() implies (#[trigger] k.tasks@[
            u
        ]).aspace.frames_owned(k.fa) by {
            assert(k.tasks@[u].aspace == pre.tasks@[u].aspace);
        }
        assert forall|t1: int, t2: int, f: int|
            0 <= t1 < k.tasks@.len() && 0 <= t2 < k.tasks@.len() && t1 != t2 implies !(
        (#[trigger] k.tasks@[t1].aspace.uses(f)) && (#[trigger] k.tasks@[t2].aspace.uses(f))) by {
            assert(k.tasks@[t1].aspace == pre.tasks@[t1].aspace);
            assert(k.tasks@[t2].aspace == pre.tasks@[t2].aspace);
        }
        assert forall|q: int| 0 <= q < k.ready@.len() implies (#[trigger] k.ready@[q])
            < k.tasks@.len() && k.tasks@[k.ready@[q] as int].status is Ready by {
            assert(k.tasks@[k.ready@[q] as int].status == pre.tasks@[k.ready@[q] as int].status);
        }
        assert forall|u: int|
            0 <= u < k.tasks@.len() && (#[trigger] k.tasks@[u].status) is Ready
            implies k.ready@.contains(u as usize) by {
            assert(k.tasks@[u].status == pre.tasks@[u].status);
        }
        assert forall|u: int|
            0 <= u < k.tasks@.len() && (#[trigger] k.tasks@[u].status) is Running
            implies k.current == Some(u as usize) by {
            assert(k.tasks@[u].status == pre.tasks@[u].status);
        }
        assert(k.tasks@[k.cur()].status == pre.tasks@[k.cur()].status);
        assert(zombie_child(pre, cc, pid as int, jz as int));
        assert(pre.tasks@[cc].children@[jz as int] == child);
    }
    child as isize
}

/// Image `i` can be built with the current frame pool: its segments fit
/// the user range, are pairwise page-disjoint, and need no more frames
/// than are free.
pub open spec fn image_buildable(k: Kernel, i: int) -> bool {
    &&& forall|j: int|
        0 <= j < k.apps@[i].segments@.len() ==> crate::task::seg_fits(
            #[trigger] k.apps@[i].segments@[j],
        )
    &&& crate::task::segs_disjoint(k.apps@[i].segments@)
    &&& crate::task::total_pages(k.apps@[i].segments@) <= k.fa.spec_available()
}

/// Replaces the running task's address space with one freshly built
/// from the named image: the path is read out of the task's own memory,
/// resolved against the loader's image table, the old space's frames are
/// all released, and the heap starts empty again.  Pid, children and
/// status survive; a real trap path would also reset the register
/// context to the new entry point, which is outside this model.
/// Returns 0, or -1 with the address space kept, when the path is not a
/// readable NUL-terminated string, names no image, or the image cannot
/// be built.
pub fn sys_exec(k: &mut Kernel, path_va: usize) -> (r: isize)
    requires
        old(k).wf(),
        old(k).has_current(),
    ensures
        final(k).wf(),
        final(k).has_current(),
        final(k).cur() == old(k).cur(),
        final(k).mem == old(k).mem,
        final(k).tasks@.len() == old(k).tasks@.len(),
        r == 0 || r == -1,
        r == -1 ==> final(k).tasks@ == old(k).tasks@ && forall|g: int|
            final(k).fa.taken(g) == old(k).fa.taken(g),
        forall|name: Seq<u8>, i: int|
            name.len() <= crate::config::MAX_PATH_LEN && #[trigger] crate::user_mem::cstr_at(
                old(k).tasks@[old(k).cur()].aspace,
                old(k).mem,
                path_va as int,
                name,
            ) && #[trigger] app_named(*old(k), name, i) && (forall|j: int|
                0 <= j < i ==> !app_named(*old(k), name, j)) && image_buildable(*old(k), i) ==> r
                == 0,
        r == 0 ==> exists|name: Seq<u8>, i: int|
            {
                &&& #[trigger] crate::user_mem::cstr_at(
                    old(k).tasks@[old(k).cur()].aspace,
                    old(k).mem,
                    path_va as int,
                    name,
                )
                &&& #[trigger] app_named(*old(k), name, i)
                &&& forall|j: int| 0 <= j < i ==> !app_named(*old(k), name, j)
                &&& forall|v: int|
                    final(k).tasks@[old(k).cur()].aspace.mapped(v) <==> crate::task::segs_cover(
                        old(k).apps@[i].segments@,
                        v,
                    )
                &&& final(k).tasks@[old(k).cur()].sepc == old(k).apps@[i].entry
            },
        r == 0 ==> forall|t: int|
            0 <= t < old(k).tasks@.len() && t != old(k).cur() ==> final(k).tasks@[t] == old(k).tasks@[t],
        r == 0 ==> final(k).tasks@[old(k).cur()] == (Task {
            aspace: final(k).tasks@[old(k).cur()].aspace,
            heap_bottom: final(k).tasks@[old(k).cur()].heap_bottom,
            brk: final(k).tasks@[old(k).cur()].brk,
            heap_idx: final(k).tasks@[old(k).cur()].heap_idx,
            trap_regs: final(k).tasks@[old(k).cur()].trap_regs,
            sepc: final(k).tasks@[old(k).cur()].sepc,
            ..old(k).tasks@[old(k).cur()]
        }),
        // the register context restarts at the new program's entry
        r == 0 ==> forall|i: int|
            0 <= i < crate::config::TRAP_REG_COUNT ==> (#[trigger] final(k).tasks@[old(
                k,
            ).cur()].trap_regs@[i]) == 0,
        r == 0 ==> final(k).tasks@[old(k).cur()].brk == final(k).tasks@[old(k).cur()].heap_bottom,
{
    let c = match k.current {
        Some(c) => c,
        None => {
            proof {
                assert(false);
            }
            0
        },
    };
    let name = match crate::user_mem::read_user_cstr(
        &k.tasks[c].aspace,
        &k.mem,
        path_va,
        crate::config::MAX_PATH_LEN,
    ) {
        Some(n) => n,
        None => {
            return -1;
        },
    };
    let ai = match find_app(k, &name) {
        Some(ai) => ai,
        None => {
            proof {
                assert forall|name2: Seq<u8>, i: int|
                    name2.len() <= crate::config::MAX_PATH_LEN
                        && #[trigger] crate::user_mem::cstr_at(
                        old(k).tasks@[old(k).cur()].aspace,
                        old(k).mem,
                        path_va as int,
                        name2,
                    ) && #[trigger] app_named(*old(k), name2, i) implies false by {
                    crate::user_mem::lemma_cstr_unique(
                        old(k).tasks@[old(k).cur()].aspace,
                        old(k).mem,
                        path_va as int,
                        name2,
                        name@,
                    );
                    assert(app_named(*k, name@, i));
                }
            }
            return -1;
        },
    };
    let ghost pre = *k;
    let built = build_aspace_of(k, ai);
    let (new_aspace, hb) = match built {
        Some(pair) => pair,
        None => {
            proof {
                assert forall|name2: Seq<u8>, i: int|
                    name2.len() <= crate::config::MAX_PATH_LEN
                        && #[trigger] crate::user_mem::cstr_at(
                        old(k).tasks@[old(k).cur()].aspace,
                        old(k).mem,
                        path_va as int,
                        name2,
                    ) && #[trigger] app_named(*old(k), name2, i) && (forall|j: int|
                        0 <= j < i ==> !app_named(*old(k), name2, j)) && image_buildable(
                        *old(k),
                        i,
                    ) implies false by {
                    crate::user_mem::lemma_cstr_unique(
                        old(k).tasks@[old(k).cur()].aspace,
                        old(k).mem,
                        path_va as int,
                        name2,
                        name@,
                    );
                    assert(app_named(*k, name@, i));
                    assert(i == ai as int) by {
                        if i < ai as int {
                            assert(!app_named(*k, name@, i));
                        } else if i > ai as int {
                            assert(!app_named(*old(k), name2, ai as int));
                            assert(app_named(*k, name@, ai as int));
                        }
                    }
                }
            }
            return -1;
        },
    };
    let segs_len = k.apps[ai].segments.len();
    let entry = k.apps[ai].entry;
    let ghost mid = *k;
    let mut t = k.tasks.remove(c);
    let ghost old_aspace = t.aspace;
    t.aspace.recycle(&mut k.fa);
    t.aspace = new_aspace;
    t.heap_bottom = hb;
    t.brk = hb;
    t.heap_idx = segs_len;
    t.trap_regs = vec![0usize; crate::config::TRAP_REG_COUNT];
    t.sepc = entry;
    k.tasks.insert(c, t);
    proof {
        let cc = c as int;
        assert(k.tasks@ =~= pre.tasks@.update(cc, k.tasks@[cc]));
        vstd::arithmetic::div_mod::lemma_div_multiples_vanish_fancy(
            hb as int / PAGE_SIZE as int,
            PAGE_SIZE - 1,
            PAGE_SIZE as int,
        );
        assert(k.tasks@[cc].wf()) by {
            assert(!(pre.tasks@[cc].status is Zombie));
            assert(k.tasks@[cc].aspace.areas@[segs_len as int] == k.tasks@[
                cc
            ].aspace.areas@.last());
            assert(heap_end_vpn(hb as int) == hb as int / PAGE_SIZE as int);
        }
        assert forall|f: int| #[trigger] k.tasks@[cc].aspace.uses(f) implies pre.tasks@[
            cc
        ].aspace.uses(f) || !pre.fa.taken(f) by {}
        assert forall|f: int|
            pre.fa.taken(f) && !pre.tasks@[cc].aspace.uses(f) implies k.fa.taken(f) by {}
        Kernel::lemma_wf_after_aspace_update(pre, *k, cc);
        assert(crate::user_mem::cstr_at(
            old(k).tasks@[old(k).cur()].aspace,
            old(k).mem,
            path_va as int,
            name@,
        ) && app_named(*old(k), name@, ai as int));
    }
    0
}

/// Builds a fresh address space from image `i`'s segments; succeeds
/// exactly when the image is buildable with the current pool.
fn build_aspace_of(k: &mut Kernel, ai: usize) -> (r: Option<(crate::aspace::AddressSpace, usize)>)
    requires
        old(k).wf(),
        ai < old(k).apps@.len(),
    ensures
        final(k).fa.wf(),
        final(k).tasks == old(k).tasks,
        final(k).mem == old(k).mem,
        final(k).apps == old(k).apps,
        final(k).current == old(k).current,
        final(k).ready == old(k).ready,
        r is Some <==> image_buildable(*old(k), ai as int),
        r is None ==> forall|g: int| final(k).fa.taken(g) == old(k).fa.taken(g),
        r matches Some((a, hb)) ==> {
            &&& a.wf()
            &&& a.frames_owned(final(k).fa)
            &&& forall|f: int| #[trigger] a.uses(f) ==> !old(k).fa.taken(f)
            &&& forall|g: int| #[trigger] final(k).fa.taken(g) <==> old(k).fa.taken(g) || a.uses(g)
            &&& forall|v: int|
                #[trigger] a.mapped(v) <==> crate::task::segs_cover(
                    old(k).apps@[ai as int].segments@,
                    v,
                )
            &&& a.areas@.len() == old(k).apps@[ai as int].segments@.len() + 1
            &&& hb % PAGE_SIZE == 0
            &&& hb <= USER_TOP
            &&& a.areas@.last().start_vpn == hb as int / PAGE_SIZE as int
            &&& a.areas@.last().end_vpn == hb as int / PAGE_SIZE as int
        },
{
    crate::task::build_user_aspace(&k.apps[ai].segments, &mut k.fa)
}

/// Creates a brand-new task directly from the named image — unlike
/// fork + exec, nothing of the caller's address space is inherited —
/// registers it as a child of the caller and as Ready, and returns its
/// pid.  Returns -1 when the path is not a readable NUL-terminated
/// string, names no image, the image cannot be built, or the task table
/// is full.
pub fn sys_spawn(k: &mut Kernel, path_va: usize, now_ms: usize) -> (r: isize)
    requires
        old(k).wf(),
        old(k).has_current(),
    ensures
        final(k).wf(),
        final(k).has_current(),
        final(k).cur() == old(k).cur(),
        final(k).mem == old(k).mem,
        r == -1 || r == old(k).tasks@.len(),
        r == -1 ==> final(k).tasks@ == old(k).tasks@ && forall|g: int|
            final(k).fa.taken(g) == old(k).fa.taken(g),
        forall|name: Seq<u8>, i: int|
            name.len() <= crate::config::MAX_PATH_LEN && #[trigger] crate::user_mem::cstr_at(
                old(k).tasks@[old(k).cur()].aspace,
                old(k).mem,
                path_va as int,
                name,
            ) && #[trigger] app_named(*old(k), name, i) && (forall|j: int|
                0 <= j < i ==> !app_named(*old(k), name, j)) && image_buildable(*old(k), i) && old(k).tasks@.len() < crate::config::PID_LIMIT ==> r == old(k).tasks@.len(),
        r != -1 ==> {
            &&& final(k).tasks@.len() == old(k).tasks@.len() + 1
            &&& forall|t: int|
                0 <= t < old(k).tasks@.len() && t != old(k).cur() ==> final(k).tasks@[t] == old(k).tasks@[t]
            &&& final(k).tasks@[old(k).cur()] == (Task {
                children: final(k).tasks@[old(k).cur()].children,
                ..old(k).tasks@[old(k).cur()]
            })
            &&& final(k).tasks@[old(k).cur()].children@ == old(k).tasks@[old(k).cur()].children@.push((old(k).tasks@.len() as usize))
            &&& final(k).tasks@.last().status is Ready
            &&& final(k).tasks@.last().pass == 0
            &&& final(k).tasks@.last().first_time_ms == now_ms
            &&& final(k).tasks@.last().children@.len() == 0
            &&& exists|name: Seq<u8>, i: int|
                {
                    &&& #[trigger] crate::user_mem::cstr_at(
                        old(k).tasks@[old(k).cur()].aspace,
                        old(k).mem,
                        path_va as int,
                        name,
                    )
                    &&& #[trigger] app_named(*old(k), name, i)
                    &&& forall|j: int| 0 <= j < i ==> !app_named(*old(k), name, j)
                    &&& forall|v: int|
                        final(k).tasks@.last().aspace.mapped(v) <==> crate::task::segs_cover(
                            old(k).apps@[i].segments@,
                            v,
                        )
                    &&& final(k).tasks@.last().sepc == old(k).apps@[i].entry
                }
        },
{
    let c = match k.current {
        Some(c) => c,
        None => {
            proof {
                assert(false);
            }
            0
        },
    };
    let name = match crate::user_mem::read_user_cstr(
        &k.tasks[c].aspace,
        &k.mem,
        path_va,
        crate::config::MAX_PATH_LEN,
    ) {
        Some(n) => n,
        None => {
            return -1;
        },
    };
    let ai = match find_app(k, &name) {
        Some(ai) => ai,
        None => {
            proof {
                assert forall|name2: Seq<u8>, i: int|
                    name2.len() <= crate::config::MAX_PATH_LEN
                        && #[trigger] crate::user_mem::cstr_at(
                        old(k).tasks@[old(k).cur()].aspace,
                        old(k).mem,
                        path_va as int,
                        name2,
                    ) && #[trigger] app_named(*old(k), name2, i) implies false by {
                    crate::user_mem::lemma_cstr_unique(
                        old(k).tasks@[old(k).cur()].aspace,
                        old(k).mem,
                        path_va as int,
                        name2,
                        name@,
                    );
                    assert(app_named(*k, name@, i));
                }
            }
            return -1;
        },
    };
    if k.tasks.len() >= crate::config::PID_LIMIT {
        return -1;
    }
    let new_pid = k.tasks.len();
    let ghost pre0 = *k;
    let built = build_aspace_of(k, ai);
    let (new_aspace, hb) = match built {
        Some(pair) => pair,
        None => {
            proof {
                assert forall|name2: Seq<u8>, i: int|
                    name2.len() <= crate::config::MAX_PATH_LEN
                        && #[trigger] crate::user_mem::cstr_at(
                        old(k).tasks@[old(k).cur()].aspace,
                        old(k).mem,
                        path_va as int,
                        name2,
                    ) && #[trigger] app_named(*old(k), name2, i) && (forall|j: int|
                        0 <= j < i ==> !app_named(*old(k), name2, j)) && image_buildable(
                        *old(k),
                        i,
                    ) implies false by {
                    crate::user_mem::lemma_cstr_unique(
                        old(k).tasks@[old(k).cur()].aspace,
                        old(k).mem,
                        path_va as int,
                        name2,
                        name@,
                    );
                    assert(app_named(*k, name@, i));
                    assert(i == ai as int) by {
                        if i < ai as int {
                            assert(!app_named(*k, name@, i));
                        } else if i > ai as int {
                            assert(!app_named(*old(k), name2, ai as int));
                            assert(app_named(*k, name@, ai as int));
                        }
                    }
                }
            }
            return -1;
        },
    };
    let segs_len = k.apps[ai].segments.len();
    let entry = k.apps[ai].entry;
    let ghost casp = new_aspace;
    let child = Task {
        pid: new_pid,
        status: TaskStatus::Ready,
        aspace: new_aspace,
        stride: crate::config::BIG_STRIDE / crate::config::DEFAULT_PRIORITY,
        pass: 0,
        exit_code: 0,
        children: Vec::new(),
        syscall_times: vec![0u32; crate::config::MAX_SYSCALL_NUM],
        first_time_ms: now_ms,
        time_ms: 0,
        heap_bottom: hb,
        brk: hb,
        heap_idx: segs_len,
        trap_regs: vec![0usize; crate::config::TRAP_REG_COUNT],
        sepc: entry,
    };
    let ghost pre = *k;
    k.tasks.push(child);
    k.tasks[c].children.push(new_pid);
    k.ready.push(new_pid);
    proof {
        let cc = c as int;
        let nn = new_pid as int;
        assert(k.tasks@.len() == pre.tasks@.len() + 1);
        assert forall|t: int| 0 <= t < pre.tasks@.len() && t != cc implies k.tasks@[t]
            == pre.tasks@[t] by {}
        vstd::arithmetic::div_mod::lemma_div_multiples_vanish_fancy(
            hb as int / PAGE_SIZE as int,
            PAGE_SIZE - 1,
            PAGE_SIZE as int,
        );
        assert(k.tasks@[nn].wf()) by {
            assert(k.tasks@[nn].aspace.areas@[segs_len as int] == k.tasks@[
                nn
            ].aspace.areas@.last());
            assert(heap_end_vpn(hb as int) == hb as int / PAGE_SIZE as int);
        }
        assert(k.tasks@[cc].wf()) by {
            assert(k.tasks@[cc] == Task { children: k.tasks@[cc].children, ..pre.tasks@[cc] });
        }
        assert forall|t: int| 0 <= t < k.tasks@.len() implies (#[trigger] k.tasks@[t]).wf()
            && k.tasks@[t].pid == t by {
            if t != cc && t != nn {
                assert(k.tasks@[t] == pre.tasks@[t]);
            }
        }
        assert forall|t: int| 0 <= t < k.tasks@.len() implies (#[trigger] k.tasks@[
            t
        ]).aspace.frames_owned(k.fa) by {
            if t != nn {
                assert(k.tasks@[t].aspace == pre.tasks@[t].aspace);
                assert forall|f: int| #[trigger] k.tasks@[t].aspace.uses(f) implies k.fa.taken(
                    f,
                ) by {
                    assert(pre.tasks@[t].aspace.uses(f));
                    assert(pre0.tasks@[t].aspace.uses(f));
                    assert(pre0.fa.taken(f));
                    assert(pre.fa.taken(f) == (pre0.fa.taken(f) || casp.uses(f)));
                    assert(k.fa == pre.fa);
                }
            }
        }
        assert forall|t1: int, t2: int, f: int|
            0 <= t1 < k.tasks@.len() && 0 <= t2 < k.tasks@.len() && t1 != t2 implies !(
        (#[trigger] k.tasks@[t1].aspace.uses(f)) && (#[trigger] k.tasks@[t2].aspace.uses(f))) by {
            if t1 != nn && t2 != nn {
                assert(k.tasks@[t1].aspace == pre.tasks@[t1].aspace);
                assert(k.tasks@[t2].aspace == pre.tasks@[t2].aspace);
            } else {
                let o = if t1 == nn {
                    t2
                } else {
                    t1
                };
                assert(k.tasks@[o].aspace == pre.tasks@[o].aspace);
                if k.tasks@[nn].aspace.uses(f) && pre.tasks@[o].aspace.uses(f) {
                    assert(casp.uses(f));
                    assert(pre0.tasks@[o].aspace.uses(f));
                    assert(pre0.fa.taken(f));
                    assert(!pre0.fa.taken(f));
                }
            }
        }
        assert forall|t1: int, k1: int|
            0 <= t1 < k.tasks@.len() && 0 <= k1 < k.tasks@[t1].children@.len()
            implies (#[trigger] k.tasks@[t1].children@[k1]) < k.tasks@.len() by {
            if t1 == cc && k1 == k.tasks@[cc].children@.len() - 1 {
            } else if t1 != nn {
                assert(k.tasks@[t1].children@[k1] == pre.tasks@[t1].children@[k1]);
            }
        }
        assert forall|t1: int, k1: int, t2: int, k2: int|
            0 <= t1 < k.tasks@.len() && 0 <= k1 < k.tasks@[t1].children@.len() && 0 <= t2
                < k.tasks@.len() && 0 <= k2 < k.tasks@[t2].children@.len() && (t1 != t2 || k1 != k2)
            implies (#[trigger] k.tasks@[t1].children@[k1]) != (#[trigger] k.tasks@[
            t2
        ].children@[k2]) by {
            let new1 = t1 == cc && k1 == k.tasks@[cc].children@.len() - 1;
            let new2 = t2 == cc && k2 == k.tasks@[cc].children@.len() - 1;
            if new1 && !new2 {
                assert(k.tasks@[t2].children@[k2] == pre.tasks@[t2].children@[k2]);
                assert(pre.tasks@[t2].children@[k2] < pre.tasks@.len());
            } else if !new1 && new2 {
                assert(k.tasks@[t1].children@[k1] == pre.tasks@[t1].children@[k1]);
                assert(pre.tasks@[t1].children@[k1] < pre.tasks@.len());
            } else if !new1 && !new2 {
                assert(k.tasks@[t1].children@[k1] == pre.tasks@[t1].children@[k1]);
                assert(k.tasks@[t2].children@[k2] == pre.tasks@[t2].children@[k2]);
            }
        }
        assert forall|q: int| 0 <= q < k.ready@.len() implies (#[trigger] k.ready@[q])
            < k.tasks@.len() && k.tasks@[k.ready@[q] as int].status is Ready by {
            if q < k.ready@.len() - 1 {
                assert(k.ready@[q] == pre.ready@[q]);
                assert(pre.tasks@[pre.ready@[q] as int].status is Ready);
                assert(k.tasks@[k.ready@[q] as int].status == pre.tasks@[pre.ready@[
                    q
                ] as int].status);
            } else {
                assert(k.ready@[q] == new_pid);
            }
        }
        assert forall|q: int, l: int| 0 <= q < l < k.ready@.len() implies k.ready@[q] != k.ready@[
            l
        ] by {
            if l < k.ready@.len() - 1 {
                assert(k.ready@[q] == pre.ready@[q] && k.ready@[l] == pre.ready@[l]);
            } else {
                assert(k.ready@[q] == pre.ready@[q]);
                assert(pre.ready@[q] < pre.tasks@.len());
            }
        }
        assert forall|t: int|
            0 <= t < k.tasks@.len() && (#[trigger] k.tasks@[t].status) is Ready
            implies k.ready@.contains(t as usize) by {
            if t == nn {
                assert(k.ready@[k.ready@.len() - 1] == new_pid);
            } else {
                assert(k.tasks@[t].status == pre.tasks@[t].status);
                assert(pre.ready@.contains(t as usize));
                let q = choose|q: int| 0 <= q < pre.ready@.len() && pre.ready@[q] == t as usize;
                assert(k.ready@[q] == t as usize);
            }
        }
        assert forall|t: int|
            0 <= t < k.tasks@.len() && (#[trigger] k.tasks@[t].status) is Running
            implies k.current == Some(t as usize) by {
            if t != nn {
                assert(k.tasks@[t].status == pre.tasks@[t].status);
            }
        }
        assert(k.tasks@[cc].status == pre.tasks@[cc].status);
        assert(crate::user_mem::cstr_at(
            old(k).tasks@[old(k).cur()].aspace,
            old(k).mem,
            path_va as int,
            name@,
        ) && app_named(*old(k), name@, ai as int));
    }
    new_pid as isize
}

/// The syscall numbers this kernel serves.
pub open spec fn known_syscall(id: usize) -> bool {
    ||| id == crate::config::SYSCALL_WRITE
    ||| id == crate::config::SYSCALL_EXIT
    ||| id == crate::config::SYSCALL_YIELD
    ||| id == crate::config::SYSCALL_SET_PRIORITY
    ||| id == crate::config::SYSCALL_GET_TIME
    ||| id == crate::config::SYSCALL_GETPID
    ||| id == crate::config::SYSCALL_SBRK
    ||| id == crate::config::SYSCALL_MUNMAP
    ||| id == crate::config::SYSCALL_FORK
    ||| id == crate::config::SYSCALL_EXEC
    ||| id == crate::config::SYSCALL_MMAP
    ||| id == crate::config::SYSCALL_WAITPID
    ||| id == crate::config::SYSCALL_SPAWN
    ||| id == crate::config::SYSCALL_TASK_INFO
}

/// A counter never wraps: one short of saturation it stays put.
pub open spec fn bumped(c: u32) -> u32 {
    if c < 0xffff_ffffu32 {
        (c + 1) as u32
    } else {
        c
    }
}

/// The single syscall entry point, called by the trap handler with the
/// syscall number, the three raw argument words, and the monotonic
/// microsecond reading taken at the trap.  It first accounts the call
/// on the running task — one more tick in the counter for this number,
/// elapsed time refreshed — and then delegates to the handler, which
/// owns all argument validation.  An unknown number fails the calling
/// process with -1 and no other effect (the reference machine would
/// halt instead; failing the caller keeps the kernel alive).
pub fn syscall(k: &mut Kernel, syscall_id: usize, args: [usize; 3], now_us: usize) -> (r: isize)
    requires
        old(k).wf(),
        old(k).has_current(),
        // the timer is monotonic: no reading precedes the task's first
        now_us / 1000 >= old(k).tasks@[old(k).cur()].first_time_ms,
    ensures
        final(k).wf(),
        !known_syscall(syscall_id) ==> r == -1 && *final(k) == *old(k),
        known_syscall(syscall_id) && syscall_id != crate::config::SYSCALL_EXIT ==> final(k).has_current(),
        known_syscall(syscall_id) ==> final(k).tasks@[old(k).cur()].syscall_times@ == old(k).tasks@[old(k).cur()].syscall_times@.update(
            syscall_id as int,
            bumped(old(k).tasks@[old(k).cur()].syscall_times@[syscall_id as int]),
        ),
        known_syscall(syscall_id) ==> final(k).tasks@[old(k).cur()].time_ms == now_us / 1000 - old(k).tasks@[old(k).cur()].first_time_ms,
        syscall_id == crate::config::SYSCALL_GETPID ==> r == old(k).cur(),
        syscall_id == crate::config::SYSCALL_YIELD ==> r == 0 && final(k).tasks@[old(k).cur()].pass == if old(k).tasks@[old(k).cur()].pass + old(k).tasks@[old(k).cur()].stride <= usize::MAX {
            (old(k).tasks@[old(k).cur()].pass + old(k).tasks@[old(k).cur()].stride) as usize
        } else {
            usize::MAX
        },
        syscall_id == crate::config::SYSCALL_EXIT ==> final(k).tasks@[old(k).cur()].status
            is Zombie && final(k).tasks@[old(k).cur()].exit_code == args[0] as i32 && forall|g: int|
            final(k).fa.taken(g) <==> old(k).fa.taken(g) && !old(k).tasks@[old(k).cur()].aspace.uses(g),
        syscall_id == crate::config::SYSCALL_SET_PRIORITY && args[0] as isize <= 1 ==> r == -1,
        syscall_id == crate::config::SYSCALL_SET_PRIORITY && args[0] as isize >= 2 ==> r == args[
            0
        ] as isize && final(k).tasks@[old(k).cur()].stride == BIG_STRIDE as int / (args[
            0
        ] as isize as int),
        // each remaining handler's result is pinned by its own
        // acceptance condition, evaluated on the pre-call state
        syscall_id == crate::config::SYSCALL_MMAP ==> (r == 0 || r == -1) && (r == 0
            <==> mmap_accepts(*old(k), args[0] as int, args[1] as int, args[2])),
        syscall_id == crate::config::SYSCALL_MMAP && r == 0 ==> forall|v: int|
            args[0] as int / PAGE_SIZE as int <= v < page_ceil(args[0] + args[1])
                ==> #[trigger] final(k).tasks@[old(k).cur()].aspace.mapped(v),
        syscall_id == crate::config::SYSCALL_MUNMAP ==> (r == 0 || r == -1) && (r == 0
            <==> munmap_accepts(*old(k), args[0] as int, args[1] as int)),
        syscall_id == crate::config::SYSCALL_MUNMAP && r == 0 ==> forall|v: int|
            args[0] as int / PAGE_SIZE as int <= v < page_ceil(args[0] + args[1]) ==> !(
            #[trigger] final(k).tasks@[old(k).cur()].aspace.mapped(v)),
        syscall_id == crate::config::SYSCALL_SBRK ==> (r == -1 <==> !sbrk_accepts(
            *old(k),
            args[0] as i32 as int,
        )) && (r != -1 ==> r == old(k).tasks@[old(k).cur()].brk),
        syscall_id == crate::config::SYSCALL_FORK ==> (r == -1 <==> old(k).tasks@.len()
            >= crate::config::PID_LIMIT || old(k).tasks@[old(k).cur()].aspace.total_area_pages()
            > old(k).fa.spec_available()) && (r != -1 ==> r == old(k).tasks@.len() && final(k).tasks@.len() == old(k).tasks@.len() + 1 && final(k).tasks@.last().status is Ready),
        syscall_id == crate::config::SYSCALL_WRITE ==> if args[0] == 1 && (forall|i: int|
            0 <= i < args[2] ==> #[trigger] crate::user_mem::can_read(
                old(k).tasks@[old(k).cur()].aspace,
                args[1] + i,
            )) {
            r == args[2]
        } else {
            r == -1
        },
        syscall_id == crate::config::SYSCALL_GET_TIME ==> (r == 0 || r == -1) && (r == 0
            <==> forall|i: int|
            0 <= i < 16 ==> #[trigger] crate::user_mem::can_write(
                old(k).tasks@[old(k).cur()].aspace,
                args[0] + i,
            )),
        syscall_id == crate::config::SYSCALL_GET_TIME && r == 0 ==> forall|j: int|
            0 <= j < 8 ==> #[trigger] crate::user_mem::user_byte(
                old(k).tasks@[old(k).cur()].aspace,
                final(k).mem,
                args[0] + j,
            ) == le8_byte(spec_time_val(now_us as int).sec as u64, j),
        syscall_id == crate::config::SYSCALL_TASK_INFO ==> (r == 0 || r == -1) && (r == 0
            <==> forall|i: int|
            0 <= i < 1 + 4 * crate::config::MAX_SYSCALL_NUM + 8
                ==> #[trigger] crate::user_mem::can_write(
                old(k).tasks@[old(k).cur()].aspace,
                args[0] + i,
            )),
        syscall_id == crate::config::SYSCALL_WAITPID ==> {
            &&& (!exists|j: int|
                #[trigger] child_matches(*old(k), old(k).cur(), args[0] as isize as int, j)) ==> r
                == -1
            &&& ((exists|j: int|
                #[trigger] child_matches(*old(k), old(k).cur(), args[0] as isize as int, j)) && !(
            exists|j: int|
                #[trigger] zombie_child(*old(k), old(k).cur(), args[0] as isize as int, j))) ==> r
                == -2
            &&& ((exists|j: int|
                #[trigger] zombie_child(*old(k), old(k).cur(), args[0] as isize as int, j)) && (
            forall|i: int|
                0 <= i < 4 ==> #[trigger] crate::user_mem::can_write(
                    old(k).tasks@[old(k).cur()].aspace,
                    args[1] + i,
                ))) ==> r != -1 && r != -2
        },
        syscall_id == crate::config::SYSCALL_EXEC ==> (r == 0 || r == -1) && (forall|
            name: Seq<u8>,
            i: int,
        |
            name.len() <= crate::config::MAX_PATH_LEN && #[trigger] crate::user_mem::cstr_at(
                old(k).tasks@[old(k).cur()].aspace,
                old(k).mem,
                args[0] as int,
                name,
            ) && #[trigger] app_named(*old(k), name, i) && (forall|j: int|
                0 <= j < i ==> !app_named(*old(k), name, j)) && image_buildable(*old(k), i) ==> r
                == 0),
        syscall_id == crate::config::SYSCALL_SPAWN ==> (r == -1 || r == old(k).tasks@.len())
            && (forall|name: Seq<u8>, i: int|
            name.len() <= crate::config::MAX_PATH_LEN && #[trigger] crate::user_mem::cstr_at(
                old(k).tasks@[old(k).cur()].aspace,
                old(k).mem,
                args[0] as int,
                name,
            ) && #[trigger] app_named(*old(k), name, i) && (forall|j: int|
                0 <= j < i ==> !app_named(*old(k), name, j)) && image_buildable(*old(k), i) && old(k).tasks@.len() < crate::config::PID_LIMIT ==> r == old(k).tasks@.len()),
{
    let c = match k.current {
        Some(c) => c,
        None => {
            proof {
                assert(false);
            }
            0
        },
    };
    if !(syscall_id == crate::config::SYSCALL_WRITE || syscall_id == crate::config::SYSCALL_EXIT
        || syscall_id == crate::config::SYSCALL_YIELD || syscall_id
        == crate::config::SYSCALL_SET_PRIORITY || syscall_id == crate::config::SYSCALL_GET_TIME
        || syscall_id == crate::config::SYSCALL_GETPID || syscall_id == crate::config::SYSCALL_SBRK
        || syscall_id == crate::config::SYSCALL_MUNMAP || syscall_id == crate::config::SYSCALL_FORK
        || syscall_id == crate::config::SYSCALL_EXEC || syscall_id == crate::config::SYSCALL_MMAP
        || syscall_id == crate::config::SYSCALL_WAITPID || syscall_id
        == crate::config::SYSCALL_SPAWN || syscall_id == crate::config::SYSCALL_TASK_INFO) {
        return -1;
    }
    let now_ms = now_us / 1000;
    let ghost pre = *k;
    let cnt = k.tasks[c].syscall_times[syscall_id];
    let newcnt: u32 = if cnt < 0xffff_ffffu32 {
        cnt + 1
    } else {
        cnt
    };
    k.tasks[c].syscall_times[syscall_id] = newcnt;
    k.tasks[c].time_ms = now_ms - k.tasks[c].first_time_ms;
    proof {
        let cc = c as int;
        assert(k.tasks@ == pre.tasks@.update(cc, k.tasks@[cc]));
        assert(k.tasks@[cc] == (Task {
            syscall_times: k.tasks@[cc].syscall_times,
            time_ms: k.tasks@[cc].time_ms,
            ..pre.tasks@[cc]
        }));
        assert(k.tasks@[cc].syscall_times@ == pre.tasks@[cc].syscall_times@.update(
            syscall_id as int,
            bumped(pre.tasks@[cc].syscall_times@[syscall_id as int]),
        ));
        assert(k.tasks@[cc].wf()) by {
            assert(k.tasks@[cc].aspace == pre.tasks@[cc].aspace);
        }
        Kernel::lemma_wf_after_aspace_update(pre, *k, cc);
    }
    let ghost mid = *k;
    let r: isize;
    if syscall_id == crate::config::SYSCALL_WRITE {
        // the byte sink itself lives outside this subsystem; the kernel's
        // part is validating the descriptor and translating the buffer
        if args[0] != 1 {
            r = -1;
        } else {
            match k.peek_user(args[1], args[2]) {
                Some(_) => {
                    proof {
                        if args[2] > 0 {
                            assert(crate::user_mem::can_read(
                                k.tasks@[c as int].aspace,
                                args[1] + (args[2] - 1),
                            ));
                        }
                    }
                    r = args[2] as isize;
                },
                None => {
                    r = -1;
                },
            }
        }
    } else if syscall_id == crate::config::SYSCALL_EXIT {
        sys_exit(k, #[verifier::truncate] (args[0] as i32));
        r = 0;
    } else if syscall_id == crate::config::SYSCALL_YIELD {
        r = sys_yield(k);
    } else if syscall_id == crate::config::SYSCALL_SET_PRIORITY {
        r = sys_set_priority(k, #[verifier::truncate] (args[0] as isize));
    } else if syscall_id == crate::config::SYSCALL_GET_TIME {
        r = sys_get_time(k, args[0], args[1], now_us);
    } else if syscall_id == crate::config::SYSCALL_GETPID {
        r = sys_getpid(k);
    } else if syscall_id == crate::config::SYSCALL_SBRK {
        r = sys_sbrk(k, #[verifier::truncate] (args[0] as i32));
    } else if syscall_id == crate::config::SYSCALL_MUNMAP {
        r = sys_munmap(k, args[0], args[1]);
    } else if syscall_id == crate::config::SYSCALL_FORK {
        r = sys_fork(k, now_ms);
    } else if syscall_id == crate::config::SYSCALL_EXEC {
        r = sys_exec(k, args[0]);
    } else if syscall_id == crate::config::SYSCALL_MMAP {
        r = sys_mmap(k, args[0], args[1], args[2]);
    } else if syscall_id == crate::config::SYSCALL_WAITPID {
        r = sys_waitpid(k, #[verifier::truncate] (args[0] as isize), args[1]);
    } else if syscall_id == crate::config::SYSCALL_SPAWN {
        r = sys_spawn(k, args[0], now_ms);
    } else {
        r = sys_task_info(k, args[0]);
    }
    proof {
        let cc = c as int;
        assert(k.tasks@[cc].syscall_times@ == mid.tasks@[cc].syscall_times@);
        assert(k.tasks@[cc].time_ms == mid.tasks@[cc].time_ms);
        // the accounting touched nothing a handler's acceptance
        // condition reads
        assert(mid.tasks@[cc].aspace == old(k).tasks@[cc].aspace);
        assert(mid.mem == old(k).mem);
        assert(mid.fa == old(k).fa);
        assert(mid.apps == old(k).apps);
        let pid_w = args[0] as isize as int;
        assert forall|j: int|
            #![trigger child_matches(*old(k), old(k).cur(), pid_w, j)]
            #![trigger child_matches(mid, mid.cur(), pid_w, j)]
            child_matches(*old(k), old(k).cur(), pid_w, j) == child_matches(
            mid,
            mid.cur(),
            pid_w,
            j,
        ) by {
            assert(mid.tasks@[cc].children == old(k).tasks@[cc].children);
        }
        assert forall|j: int|
            #![trigger zombie_child(*old(k), old(k).cur(), pid_w, j)]
            #![trigger zombie_child(mid, mid.cur(), pid_w, j)]
            zombie_child(*old(k), old(k).cur(), pid_w, j) == zombie_child(
            mid,
            mid.cur(),
            pid_w,
            j,
        ) by {
            assert(mid.tasks@[cc].children == old(k).tasks@[cc].children);
            if 0 <= j < mid.tasks@[cc].children@.len() {
                let ch = mid.tasks@[cc].children@[j] as int;
                assert(0 <= ch < mid.tasks@.len());
                assert(mid.tasks@[ch].status == old(k).tasks@[ch].status) by {
                    if ch != cc {
                        assert(mid.tasks@[ch] == old(k).tasks@[ch]);
                    }
                }
            }
        }
        assert forall|name: Seq<u8>, i: int|
            #![trigger app_named(*old(k), name, i)]
            #![trigger app_named(mid, name, i)]
            app_named(*old(k), name, i) == app_named(mid, name, i) by {}
        assert forall|i: int|
            #![trigger image_buildable(*old(k), i)]
            #![trigger image_buildable(mid, i)]
            image_buildable(*old(k), i) == image_buildable(mid, i) by {
            if image_buildable(*old(k), i) {
                assert(image_buildable(mid, i)) by {
                    assert forall|j: int|
                        0 <= j < mid.apps@[i].segments@.len() implies crate::task::seg_fits(
                        #[trigger] mid.apps@[i].segments@[j],
                    ) by {
                        assert(crate::task::seg_fits(old(k).apps@[i].segments@[j]));
                    }
                }
            }
            if image_buildable(mid, i) {
                assert(image_buildable(*old(k), i)) by {
                    assert forall|j: int|
                        0 <= j < old(k).apps@[i].segments@.len() implies crate::task::seg_fits(
                        #[trigger] old(k).apps@[i].segments@[j],
                    ) by {
                        assert(crate::task::seg_fits(mid.apps@[i].segments@[j]));
                    }
                }
            }
        }
    }
    r
}

} // verus!
