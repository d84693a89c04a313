use os_core::config::{
    BIG_STRIDE, MAX_SYSCALL_NUM, PAGE_SIZE, SYSCALL_GETPID, SYSCALL_TASK_INFO, SYSCALL_YIELD,
    USER_TOP,
};
use os_core::kernel::Kernel;
use os_core::perm::MapPermission;
use os_core::syscall::{
    sys_exec, sys_exit, sys_fork, sys_get_time, sys_getpid, sys_mmap, sys_munmap, sys_sbrk,
    sys_set_priority, sys_spawn, sys_task_info, sys_waitpid, sys_yield, syscall,
};
use os_core::task::{AppImage, Segment};

fn rwx() -> MapPermission {
    MapPermission { r: true, w: true, x: true, u: true }
}

fn apps() -> Vec<AppImage> {
    let init = AppImage {
        name: b"init".to_vec(),
        segments: vec![Segment { start_va: 0x1000, len: PAGE_SIZE, perm: rwx() }],
        entry: 0x1000,
    };
    let other = AppImage {
        name: b"other".to_vec(),
        segments: vec![Segment { start_va: 0x2000, len: 2 * PAGE_SIZE, perm: rwx() }],
        entry: 0x2000,
    };
    vec![init, other]
}

fn boot() -> Kernel {
    Kernel::boot(apps(), 0).expect("boot")
}

#[test]
fn boot_and_getpid() {
    let k = boot();
    assert_eq!(sys_getpid(&k), 0);
    assert_eq!(k.tasks.len(), 1);
}

#[test]
fn mmap_munmap_roundtrip() {
    let mut k = boot();
    let s = 0x8000;
    assert_eq!(sys_mmap(&mut k, s, 2 * PAGE_SIZE, 3), 0);
    assert_eq!(sys_munmap(&mut k, s, 2 * PAGE_SIZE), 0);
    // the identical mapping succeeds again: the unmap reversed it fully
    assert_eq!(sys_mmap(&mut k, s, 2 * PAGE_SIZE, 3), 0);
}

#[test]
fn mmap_overlap_rejected() {
    let mut k = boot();
    let s = 0x8000;
    assert_eq!(sys_mmap(&mut k, s, PAGE_SIZE, 3), 0);
    assert!(k.poke_user(s, &vec![7u8; 8]));
    assert_eq!(sys_mmap(&mut k, s, PAGE_SIZE, 3), -1);
    // the original mapping is intact, contents included
    assert_eq!(k.peek_user(s, 8).unwrap(), vec![7u8; 8]);
}

#[test]
fn mmap_invalid_args() {
    let mut k = boot();
    assert_eq!(sys_mmap(&mut k, 0x8001, PAGE_SIZE, 3), -1);
    assert_eq!(sys_mmap(&mut k, 0x8000, PAGE_SIZE, 0), -1);
    assert_eq!(sys_mmap(&mut k, 0x8000, PAGE_SIZE, 8), -1);
    assert_eq!(sys_mmap(&mut k, USER_TOP, PAGE_SIZE, 3), -1);
    // none of those rejected calls left anything mapped
    assert_eq!(sys_mmap(&mut k, 0x8000, PAGE_SIZE, 3), 0);
}

#[test]
fn mmap_permission_bits_gate_access() {
    let mut k = boot();
    let ro = 0x8000;
    let wo = 0x9000;
    assert_eq!(sys_mmap(&mut k, ro, PAGE_SIZE, 1), 0);
    assert_eq!(sys_mmap(&mut k, wo, PAGE_SIZE, 2), 0);
    assert!(k.peek_user(ro, 4).is_some());
    assert!(!k.poke_user(ro, &vec![1u8]));
    assert!(k.peek_user(wo, 4).is_none());
    assert!(k.poke_user(wo, &vec![1u8]));
}

#[test]
fn munmap_partial_rejected() {
    let mut k = boot();
    let s = 0x8000;
    assert_eq!(sys_mmap(&mut k, s, 2 * PAGE_SIZE, 3), 0);
    assert_eq!(sys_munmap(&mut k, s, PAGE_SIZE), -1);
    assert_eq!(sys_munmap(&mut k, s + PAGE_SIZE, PAGE_SIZE), -1);
    assert_eq!(sys_munmap(&mut k, 0x20000, PAGE_SIZE), -1);
    assert_eq!(sys_munmap(&mut k, s, 2 * PAGE_SIZE), 0);
}

#[test]
fn write_straddles_page_boundary() {
    let mut k = boot();
    let s = 0x8000;
    assert_eq!(sys_mmap(&mut k, s, 2 * PAGE_SIZE, 3), 0);
    let data: Vec<u8> = (0u8..16).collect();
    let at = s + PAGE_SIZE - 8;
    assert!(k.poke_user(at, &data));
    assert_eq!(k.peek_user(at, 16).unwrap(), data);
}

#[test]
fn fork_copies_and_then_diverges() {
    let mut k = boot();
    // give the parent's page recognizable contents before the fork
    assert!(k.poke_user(0x1100, &b"deep copy".to_vec()));
    let child = sys_fork(&mut k, 5);
    assert_eq!(child, 1);
    // the child sees the same pages mapped as the parent at the instant
    // of the fork
    let vpn = 0x1000 / PAGE_SIZE;
    let pe = k.tasks[0].aspace.translate(vpn).expect("parent page");
    let ce = k.tasks[1].aspace.translate(vpn).expect("child page");
    assert_eq!(pe.perm, ce.perm);
    // but with its own frame: no sharing
    assert_ne!(pe.ppn, ce.ppn);
    // and the frame's bytes were copied: the child reads the parent's
    // data through its own translation
    for (i, b) in b"deep copy".iter().enumerate() {
        assert_eq!(k.mem.read(ce.ppn * PAGE_SIZE + 0x100 + i), *b);
    }
    // writing in the parent after the fork leaves the child's copy alone
    assert!(k.poke_user(0x1100, &b"XXXXXXXXX".to_vec()));
    for (i, b) in b"deep copy".iter().enumerate() {
        assert_eq!(k.mem.read(ce.ppn * PAGE_SIZE + 0x100 + i), *b);
    }
    // the child's saved context matches the parent's, except that its
    // syscall-return register reads 0
    assert_eq!(k.tasks[1].trap_regs[10], 0);
    assert_eq!(k.tasks[1].sepc, k.tasks[0].sepc);
    // a later mmap in the parent never appears in the child
    assert_eq!(sys_mmap(&mut k, 0x8000, PAGE_SIZE, 3), 0);
    assert!(k.tasks[0].aspace.translate(0x8000 / PAGE_SIZE).is_some());
    assert!(k.tasks[1].aspace.translate(0x8000 / PAGE_SIZE).is_none());
    assert_eq!(k.tasks[0].children, vec![1]);
}

#[test]
fn waitpid_three_answers() {
    let mut k = boot();
    // no children at all: -1
    assert_eq!(sys_waitpid(&mut k, -1, 0x1000), -1);
    let child = sys_fork(&mut k, 0);
    assert_eq!(child, 1);
    // a child exists but has not exited: -2
    assert_eq!(sys_waitpid(&mut k, -1, 0x1000), -2);
    assert_eq!(sys_waitpid(&mut k, 1, 0x1000), -2);
    // no child has pid 7: -1
    assert_eq!(sys_waitpid(&mut k, 7, 0x1000), -1);
    // run the child (pass 0 beats the parent's charged pass) and exit it
    assert_eq!(sys_yield(&mut k), 0);
    assert_eq!(sys_getpid(&k), 1);
    sys_exit(&mut k, 42);
    assert_eq!(sys_getpid(&k), 0);
    // reap it exactly once; its exit code lands in the buffer
    assert_eq!(sys_waitpid(&mut k, -1, 0x1000), 1);
    assert_eq!(k.peek_user(0x1000, 4).unwrap(), vec![42, 0, 0, 0]);
    assert_eq!(sys_waitpid(&mut k, -1, 0x1000), -1);
}

#[test]
fn set_priority_rules() {
    let mut k = boot();
    let stride_before = k.tasks[0].stride;
    assert_eq!(sys_set_priority(&mut k, 1), -1);
    assert_eq!(sys_set_priority(&mut k, 0), -1);
    assert_eq!(sys_set_priority(&mut k, -3), -1);
    assert_eq!(k.tasks[0].stride, stride_before);
    assert_eq!(sys_set_priority(&mut k, 4), 4);
    assert_eq!(k.tasks[0].stride, BIG_STRIDE / 4);
}

#[test]
fn stride_scheduling_shares_by_priority() {
    let mut k = boot();
    assert_eq!(sys_fork(&mut k, 0), 1);
    // the parent runs at priority 4, the child at 16: the child should
    // be selected roughly four times as often
    assert_eq!(sys_set_priority(&mut k, 4), 4);
    let mut runs = [0usize; 2];
    for _ in 0..200 {
        let pid = sys_getpid(&k) as usize;
        runs[pid] += 1;
        assert_eq!(sys_yield(&mut k), 0);
    }
    assert!(runs[1] > 3 * runs[0], "child {} parent {}", runs[1], runs[0]);
    assert!(runs[0] > 0);
}

#[test]
fn task_info_counts_syscalls() {
    let mut k = boot();
    assert_eq!(sys_mmap(&mut k, 0x8000, PAGE_SIZE, 3), 0);
    for i in 0..3 {
        assert_eq!(syscall(&mut k, SYSCALL_YIELD, [0, 0, 0], 1000 * (i + 1)), 0);
    }
    assert_eq!(syscall(&mut k, SYSCALL_GETPID, [0, 0, 0], 5000), 0);
    assert_eq!(syscall(&mut k, SYSCALL_TASK_INFO, [0x8000, 0, 0], 9000), 0);
    let bytes = k.peek_user(0x8000, 1 + 4 * MAX_SYSCALL_NUM + 8).unwrap();
    // status byte: Running
    assert_eq!(bytes[0], 2);
    let cnt = |id: usize| {
        u32::from_le_bytes([
            bytes[1 + 4 * id],
            bytes[1 + 4 * id + 1],
            bytes[1 + 4 * id + 2],
            bytes[1 + 4 * id + 3],
        ])
    };
    assert_eq!(cnt(SYSCALL_YIELD), 3);
    assert_eq!(cnt(SYSCALL_GETPID), 1);
    assert_eq!(cnt(SYSCALL_TASK_INFO), 1);
    // elapsed milliseconds were recorded at the task_info call
    let time = u64::from_le_bytes(
        bytes[1 + 4 * MAX_SYSCALL_NUM..1 + 4 * MAX_SYSCALL_NUM + 8].try_into().unwrap(),
    );
    assert_eq!(time, 9);
}

#[test]
fn get_time_splits_and_is_monotonic() {
    let mut k = boot();
    assert_eq!(sys_mmap(&mut k, 0x8000, PAGE_SIZE, 3), 0);
    assert_eq!(sys_get_time(&mut k, 0x8000, 0, 1_500_000), 0);
    let b = k.peek_user(0x8000, 16).unwrap();
    let sec = u64::from_le_bytes(b[0..8].try_into().unwrap());
    let usec = u64::from_le_bytes(b[8..16].try_into().unwrap());
    assert_eq!(sec, 1);
    assert_eq!(usec, 500_000);
    assert_eq!(sys_get_time(&mut k, 0x8000, 0, 1_500_001), 0);
    let b2 = k.peek_user(0x8000, 16).unwrap();
    let sec2 = u64::from_le_bytes(b2[0..8].try_into().unwrap());
    let usec2 = u64::from_le_bytes(b2[8..16].try_into().unwrap());
    assert!(sec2 > sec || (sec2 == sec && usec2 >= usec));
    // an unmapped buffer is refused
    assert_eq!(sys_get_time(&mut k, 0x40000, 0, 7), -1);
    // a task_info buffer that is not fully writable is refused too
    assert_eq!(sys_task_info(&mut k, 0x40000), -1);
}

#[test]
fn sbrk_moves_the_break() {
    let mut k = boot();
    let hb = k.tasks[0].heap_bottom;
    assert_eq!(sys_sbrk(&mut k, 2 * PAGE_SIZE as i32), hb as isize);
    assert_eq!(sys_sbrk(&mut k, 0), (hb + 2 * PAGE_SIZE) as isize);
    // the grown heap is real memory
    assert!(k.poke_user(hb, &vec![9u8; 16]));
    assert_eq!(sys_sbrk(&mut k, -(PAGE_SIZE as i32)), (hb + 2 * PAGE_SIZE) as isize);
    assert_eq!(sys_sbrk(&mut k, 0), (hb + PAGE_SIZE) as isize);
    // shrinking below the floor fails and moves nothing
    assert_eq!(sys_sbrk(&mut k, -(10 * PAGE_SIZE as i32)), -1);
    assert_eq!(sys_sbrk(&mut k, 0), (hb + PAGE_SIZE) as isize);
}

#[test]
fn spawn_and_exec_resolve_names() {
    let mut k = boot();
    // write the path strings into the init task's own page
    assert!(k.poke_user(0x1000, &b"other\0".to_vec()));
    assert!(k.poke_user(0x1010, &b"nosuch\0".to_vec()));
    assert_eq!(sys_spawn(&mut k, 0x1010, 3), -1);
    let pid = sys_spawn(&mut k, 0x1000, 3);
    assert_eq!(pid, 1);
    assert_eq!(k.tasks[0].children, vec![1]);
    // the spawned task got the image's mapping, not the caller's
    assert!(k.tasks[1].aspace.translate(0x2000 / PAGE_SIZE).is_some());
    assert!(k.tasks[1].aspace.translate(0x1000 / PAGE_SIZE).is_none());
    // the spawned task starts at its image's entry point
    assert_eq!(k.tasks[1].sepc, 0x2000);
    // exec replaces the caller's space in place and resets its context
    assert_eq!(sys_exec(&mut k, 0x1000), 0);
    assert!(k.tasks[0].aspace.translate(0x2000 / PAGE_SIZE).is_some());
    assert!(k.tasks[0].aspace.translate(0x1000 / PAGE_SIZE).is_none());
    assert_eq!(k.tasks[0].sepc, 0x2000);
    assert_eq!(k.tasks[0].trap_regs, vec![0usize; 32]);
    assert_eq!(sys_getpid(&k), 0);
}

#[test]
fn exec_keeps_state_on_failure() {
    let mut k = boot();
    assert!(k.poke_user(0x1000, &b"nosuch\0".to_vec()));
    assert_eq!(sys_exec(&mut k, 0x1000), -1);
    // the old space survives, contents included
    assert_eq!(k.peek_user(0x1000, 6).unwrap(), b"nosuch".to_vec());
    // an unreadable path pointer also fails cleanly
    assert_eq!(sys_exec(&mut k, 0x40000), -1);
}

#[test]
fn unknown_syscall_fails_the_caller() {
    let mut k = boot();
    assert_eq!(syscall(&mut k, 999, [1, 2, 3], 1000), -1);
    assert_eq!(sys_getpid(&k), 0);
}

#[test]
fn write_syscall_checks_descriptor_and_buffer() {
    let mut k = boot();
    assert!(k.poke_user(0x1000, &b"hi".to_vec()));
    assert_eq!(syscall(&mut k, 64, [1, 0x1000, 2], 1000), 2);
    assert_eq!(syscall(&mut k, 64, [2, 0x1000, 2], 2000), -1);
    assert_eq!(syscall(&mut k, 64, [1, 0x40000, 2], 3000), -1);
}

#[test]
fn frame_pool_exhaustion_fails_mmap() {
    let mut k = boot();
    assert_eq!(sys_fork(&mut k, 0), 1);
    // the parent grabs almost the whole pool
    assert_eq!(sys_mmap(&mut k, 0x2000, 250 * PAGE_SIZE, 3), 0);
    assert_eq!(k.fa.available(), 4);
    assert_eq!(sys_yield(&mut k), 0);
    assert_eq!(sys_getpid(&k), 1);
    // the child's request for five frames cannot be met and changes
    // nothing; a smaller one still succeeds
    let before = k.fa.available();
    assert_eq!(sys_mmap(&mut k, 0x8000, 5 * PAGE_SIZE, 3), -1);
    assert_eq!(k.fa.available(), before);
    assert_eq!(sys_mmap(&mut k, 0x8000, 4 * PAGE_SIZE, 3), 0);
    assert_eq!(k.fa.available(), 0);
}
