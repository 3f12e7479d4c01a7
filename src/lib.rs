//! The scheduling and address-space core of a small single-core kernel.
//!
//! - `frame_allocator`: physical frames (a cursor plus a recycle list) and
//!   their bytes; every frame handed out is cleaned first.
//! - `memory_set`: address spaces made of framed regions, built from an ELF
//!   image (`from_elf`) or copied from another space (`from_existed_user`).
//! - `elf`: what the loader reads of an ELF64 image, through `xmas_elf`.
//! - `manager`, `processor`, `task`, `kernel`: the FIFO ready queue, the
//!   current-task slot and the process table, with spawn, yield, block,
//!   exit, fork, exec and wait.
//! - `trap`: what the kernel does when the current task traps.
//! - `laws`: properties that relate several operations.
pub mod config;
pub mod elf;
pub mod frame_allocator;
pub mod kernel;
pub mod laws;
pub mod manager;
pub mod memory_set;
pub mod processor;
pub mod task;
pub mod trap;
pub mod vpn_range;
