use crate::memory_set::MemorySet;
use vstd::prelude::*;

verus! {

/// Where a task stands in its life.
#[derive(Clone, Copy, Debug, PartialEq, Eq, Structural)]
pub enum TaskStatus {
    UnInit,
    Ready,
    Running,
    Blocked,
    Exited,
}

/// The kernel-mode registers saved across a switch: where to resume, the
/// kernel stack pointer and the thread pointer.
#[derive(Clone, Copy, Debug, PartialEq, Eq, Structural)]
pub struct KContext {
    pub pc: usize,
    pub sp: usize,
    pub tp: usize,
}

impl KContext {
    pub fn blank() -> (r: Self)
        ensures
            r == (KContext { pc: 0, sp: 0, tp: 0 }),
    {
        KContext { pc: 0, sp: 0, tp: 0 }
    }
}

/// The user-mode registers saved at a trap: user program counter, user stack
/// pointer, the first three argument registers (the first also carries a
/// system call's result) and the system-call number register.
#[derive(Clone, Copy, Debug, PartialEq, Eq, Structural)]
pub struct TrapFrame {
    pub sepc: usize,
    pub sp: usize,
    pub a0: usize,
    pub a1: usize,
    pub a2: usize,
    pub a7: usize,
}

impl TrapFrame {
    /// The registers of a program that starts at `entry` with stack `sp`.
    pub fn app_init_context(entry: usize, sp: usize) -> (r: Self)
        ensures
            r == (TrapFrame { sepc: entry, sp, a0: 0, a1: 0, a2: 0, a7: 0 }),
    {
        TrapFrame { sepc: entry, sp, a0: 0, a1: 0, a2: 0, a7: 0 }
    }
}

/// An open file of a process: the console's input or its output.
#[derive(Clone, Copy, Debug, PartialEq, Eq, Structural)]
pub enum OpenFile {
    Stdin,
    Stdout,
}

impl OpenFile {
    pub fn readable(&self) -> (r: bool)
        ensures
            r == (*self == OpenFile::Stdin),
    {
        match self {
            OpenFile::Stdin => true,
            OpenFile::Stdout => false,
        }
    }

    pub fn writable(&self) -> (r: bool)
        ensures
            r == (*self == OpenFile::Stdout),
    {
        match self {
            OpenFile::Stdin => false,
            OpenFile::Stdout => true,
        }
    }
}

/// The descriptor table of a new process: standard input, output and error.
pub open spec fn default_fd_table() -> Seq<Option<OpenFile>> {
    seq![Some(OpenFile::Stdin), Some(OpenFile::Stdout), Some(OpenFile::Stdout)]
}

pub fn new_fd_table() -> (r: Vec<Option<OpenFile>>)
    ensures
        r@ == default_fd_table(),
{
    let mut v: Vec<Option<OpenFile>> = Vec::new();
    v.push(Some(OpenFile::Stdin));
    v.push(Some(OpenFile::Stdout));
    v.push(Some(OpenFile::Stdout));
    proof {
        assert(v@ =~= default_fd_table());
    }
    v
}

/// A copy of a descriptor table: the same files in the same slots.
pub fn copy_fd_table(t: &Vec<Option<OpenFile>>) -> (r: Vec<Option<OpenFile>>)
    ensures
        r@ == t@,
{
    let mut v: Vec<Option<OpenFile>> = Vec::new();
    let mut i: usize = 0;
    while i < t.len()
        invariant
            i <= t@.len(),
            v@ == t@.take(i as int),
        decreases t@.len() - i,
    {
        v.push(t[i]);
        i = i + 1;
        proof {
            assert(v@ =~= t@.take(i as int));
        }
    }
    proof {
        assert(t@.take(t@.len() as int) =~= t@);
    }
    v
}

/// One process and its single task: saved contexts, status, address space,
/// open files, parent, and exit code once it has exited.
pub struct TaskControlBlock {
    pub pid: usize,
    pub task_status: TaskStatus,
    pub task_cx: KContext,
    pub trap_cx: TrapFrame,
    pub memory_set: MemorySet,
    pub fd_table: Vec<Option<OpenFile>>,
    pub parent: Option<usize>,
    pub exit_code: i32,
}

} // verus!
