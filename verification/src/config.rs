use vstd::prelude::*;

verus! {

/// Bytes in one page; one physical frame backs exactly one page.
pub const PAGE_SIZE: usize = 4096;

/// Number of physical frames the machine model offers.
pub const MEM_PAGES: usize = 256;

/// Number of virtual pages a user address space may use.
pub const USER_PAGES: usize = 256;

/// Highest user virtual address (exclusive).
pub const USER_TOP: usize = USER_PAGES * PAGE_SIZE;

/// Size of the per-task syscall counter table: one counter per syscall id.
pub const MAX_SYSCALL_NUM: usize = 500;

/// Numerator of the stride formula: a task's stride is
/// `BIG_STRIDE / priority`.
pub const BIG_STRIDE: usize = 65536;

/// Priority every fresh task starts with.
pub const DEFAULT_PRIORITY: usize = 16;

/// Longest path name `exec` and `spawn` read out of user memory.
pub const MAX_PATH_LEN: usize = 256;

/// Hard cap on the number of task slots, so a pid always fits the
/// signed word a syscall returns.
pub const PID_LIMIT: usize = 1000000;

/// General registers saved in a task's trap context; index 10 (a0 in
/// the platform convention) carries the syscall return value.
pub const TRAP_REG_COUNT: usize = 32;

/// The register slot where a syscall's result lands.
pub const TRAP_REG_RET: usize = 10;

pub const SYSCALL_WRITE: usize = 64;

pub const SYSCALL_EXIT: usize = 93;

pub const SYSCALL_YIELD: usize = 124;

pub const SYSCALL_SET_PRIORITY: usize = 140;

pub const SYSCALL_GET_TIME: usize = 169;

pub const SYSCALL_GETPID: usize = 172;

pub const SYSCALL_SBRK: usize = 214;

pub const SYSCALL_MUNMAP: usize = 215;

pub const SYSCALL_FORK: usize = 220;

pub const SYSCALL_EXEC: usize = 221;

pub const SYSCALL_MMAP: usize = 222;

pub const SYSCALL_WAITPID: usize = 260;

pub const SYSCALL_SPAWN: usize = 400;

pub const SYSCALL_TASK_INFO: usize = 410;

} // verus!
