//! A verified model of the task and address-space core of a small
//! single-core teaching kernel: a physical frame allocator, per-task page
//! tables and memory areas, task control blocks, a stride scheduler, and
//! the process-management system calls built on top of them.

pub mod config;
pub mod perm;
pub mod frames;
pub mod page_table;
pub mod phys_mem;
pub mod aspace;
pub mod user_mem;
pub mod task;
pub mod kernel;
pub mod syscall;
pub mod laws;
