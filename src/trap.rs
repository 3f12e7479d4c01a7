//! What the kernel does when the current task traps.
use crate::kernel::{orphaned, sys_get_time, with_status, Kernel};
use crate::task::{OpenFile, TaskControlBlock, TaskStatus, TrapFrame};
use vstd::prelude::*;

verus! {

pub const SYSCALL_WRITE: usize = 64;

pub const SYSCALL_EXIT: usize = 93;

pub const SYSCALL_YIELD: usize = 124;

pub const SYSCALL_GET_TIME: usize = 169;

/// Exit code of a task killed by a memory fault (SIGSEGV).
pub const EXIT_SEGV: i32 = -11;

/// Exit code of a task killed by an illegal instruction (SIGILL).
pub const EXIT_ILL: i32 = -4;

/// The cause of a trap from user mode.
#[derive(Clone, Copy, Debug, PartialEq, Eq, Structural)]
pub enum TrapKind {
    Breakpoint,
    SysCall,
    StorePageFault,
    LoadPageFault,
    InstructionPageFault,
    IllegalInstruction,
    Timer,
    Other,
}

/// A memory fault.
pub open spec fn is_fault(kind: TrapKind) -> bool {
    kind == TrapKind::StorePageFault || kind == TrapKind::LoadPageFault || kind == TrapKind::InstructionPageFault
}

/// The registers after a system call has been taken: past the call instruction.
pub open spec fn after_call(tf: TrapFrame) -> TrapFrame {
    TrapFrame { sepc: next_pc(tf.sepc), ..tf }
}

/// The address four bytes on, wrapping around the top of the address space.
pub open spec fn next_pc(pc: usize) -> usize {
    if pc <= usize::MAX - 4 {
        (pc + 4) as usize
    } else {
        (pc + 4 - usize::MAX - 1) as usize
    }
}

fn next_pc_exec(pc: usize) -> (r: usize)
    ensures
        r == next_pc(pc),
{
    if pc <= usize::MAX - 4 {
        pc + 4
    } else {
        3 - (usize::MAX - pc)
    }
}

/// What `write` returns for the registers `tf`: see `Kernel::sys_write`;
/// a length that does not fit gives -1.
pub open spec fn write_result(k: Kernel, tf: TrapFrame) -> isize {
    let c = k.current()->Some_0 as int;
    let ms = k.task(c).memory_set;
    let mem = k.frames().mem();
    let files = k.task(c).fd_table@;
    if tf.a0 < files.len() && files[tf.a0 as int] == Some(OpenFile::Stdout) && tf.a2 <= isize::MAX && tf.a1 + tf.a2 <= usize::MAX && forall|j: int|
        0 <= j < tf.a2 ==> (#[trigger] ms.byte_at(mem, tf.a1 + j)) is Some {
        tf.a2 as isize
    } else {
        -1isize
    }
}

impl Kernel {
    /// Handles a trap of the current task. A system call is taken past its
    /// instruction and dispatched on `a7` (`write`, `exit`, `yield`,
    /// `get_time` with the clock's reading `now_ms`; any other number returns
    /// -1), its result going to `a0`. A memory fault ends the task with
    /// `EXIT_SEGV`, an illegal instruction with `EXIT_ILL`; a timer interrupt
    /// makes it yield; anything else changes nothing. Returns the task that
    /// runs afterwards, if any.
    pub fn handle_trap(&mut self, kind: TrapKind, now_ms: usize) -> (r: Option<usize>)
        requires
            old(self).wf(),
            old(self).current() is Some,
        ensures
            final(self).wf(),
            r == final(self).current(),
            ({
                let c = old(self).current()->Some_0;
                let tf = old(self).task(c as int).trap_cx;
                let q = old(self).queue();
                let id = tf.a7;
                let yields = kind == TrapKind::Timer || (kind == TrapKind::SysCall && id == SYSCALL_YIELD);
                let ends = is_fault(kind) || kind == TrapKind::IllegalInstruction || (kind == TrapKind::SysCall && id
                    == SYSCALL_EXIT);
                let code: i32 = if is_fault(kind) {
                    EXIT_SEGV
                } else if kind == TrapKind::IllegalInstruction {
                    EXIT_ILL
                } else {
                    tf.a0 as i32
                };
                &&& yields ==> r == Some(q.push(c)[0]) && final(self).queue() == q.push(c).drop_first()
                    && final(self).status(c as int) == (if q.len() == 0 {
                    TaskStatus::Running
                } else {
                    TaskStatus::Ready
                })
                &&& ends ==> final(self).live(c as int) && final(self).status(c as int) == TaskStatus::Exited
                    && final(self).task(c as int).exit_code == code && (q.len() == 0 ==> r is None) && (q.len() > 0
                    ==> r == Some(q[0]) && final(self).queue() == q.drop_first())
                &&& !yields && !ends ==> r == Some(c) && final(self).queue() == q && final(self).frames()
                    == old(self).frames()
                &&& final(self).tasks().len() == old(self).tasks().len()
                &&& yields ==> forall|p: int|
                    0 <= p < old(self).tasks().len() && p != c && Some(p as usize) != r ==> #[trigger] final(self).tasks()[p]
                        == old(self).tasks()[p]
                &&& ends ==> forall|p: int|
                    #![trigger final(self).tasks()[p]]
                    0 <= p < old(self).tasks().len() ==> (final(self).tasks()[p] is Some) == (old(self).tasks()[p] is Some)
                &&& ends ==> forall|p: int|
                    #![trigger final(self).task(p)]
                    old(self).live(p) && p != c ==> final(self).task(p) == if r == Some(p as usize) {
                        with_status(orphaned(old(self).task(p), c), TaskStatus::Running)
                    } else {
                        orphaned(old(self).task(p), c)
                    }
                &&& (kind == TrapKind::Breakpoint || kind == TrapKind::Other) ==> final(self).tasks() == old(self).tasks()
                    && final(self).console() == old(self).console()
                &&& kind == TrapKind::SysCall && id != SYSCALL_EXIT && id != SYSCALL_YIELD ==> {
                    let res: isize = if id == SYSCALL_WRITE {
                        write_result(*old(self), tf)
                    } else if id == SYSCALL_GET_TIME {
                        sys_get_time_spec(now_ms)
                    } else {
                        -1isize
                    };
                    &&& final(self).tasks() == old(self).tasks().update(
                        c as int,
                        Some(TaskControlBlock { trap_cx: TrapFrame { a0: res as usize, ..after_call(tf) }, ..old(self).task(c as int) }),
                    )
                    &&& id == SYSCALL_WRITE && res >= 0 ==> final(self).console() == old(self).console() + Seq::new(
                        tf.a2 as nat,
                        |j: int|
                            old(self).task(c as int).memory_set.byte_at(old(self).frames().mem(), tf.a1 + j)->Some_0,
                    )
                    &&& !(id == SYSCALL_WRITE && res >= 0) ==> final(self).console() == old(self).console()
                }
            }),
    {
        let c = self.current_task().unwrap();
        let tf = self.trap_cx_of(c);
        match kind {
            TrapKind::SysCall => {
                let tf = TrapFrame { sepc: next_pc_exec(tf.sepc), ..tf };
                if tf.a7 == SYSCALL_EXIT {
                    self.set_trap_cx(c, tf);
                    self.exit_current_and_run_next(tf.a0 as i32)
                } else if tf.a7 == SYSCALL_YIELD {
                    self.set_trap_cx(c, TrapFrame { a0: 0, ..tf });
                    let ghost q = self.queue();
                    let next = self.suspend_current_and_run_next();
                    proof {
                        lemma_yielded_status(self, c, q);
                    }
                    Some(next)
                } else {
                    let res: isize = if tf.a7 == SYSCALL_WRITE {
                        if tf.a2 <= isize::MAX as usize && tf.a1 <= usize::MAX - tf.a2 {
                            self.sys_write(tf.a0, tf.a1, tf.a2)
                        } else {
                            -1
                        }
                    } else if tf.a7 == SYSCALL_GET_TIME {
                        sys_get_time(now_ms)
                    } else {
                        -1
                    };
                    proof {
                        assert(self.live(c as int));
                    }
                    self.set_trap_cx(c, TrapFrame { a0: res as usize, ..tf });
                    Some(c)
                }
            },
            TrapKind::StorePageFault | TrapKind::LoadPageFault | TrapKind::InstructionPageFault => {
                self.exit_current_and_run_next(EXIT_SEGV)
            },
            TrapKind::IllegalInstruction => self.exit_current_and_run_next(EXIT_ILL),
            TrapKind::Timer => {
                let ghost q = self.queue();
                let next = self.suspend_current_and_run_next();
                proof {
                    lemma_yielded_status(self, c, q);
                }
                Some(next)
            },
            TrapKind::Breakpoint | TrapKind::Other => Some(c),
        }
    }
}

/// After task `c` yielded with `q` queued, it runs again if `q` was empty and
/// waits in the queue otherwise.
proof fn lemma_yielded_status(k: &Kernel, c: usize, q: Seq<usize>)
    requires
        k.wf(),
        k.current() == Some(q.push(c)[0]),
        k.queue() == q.push(c).drop_first(),
    ensures
        k.live(c as int),
        k.status(c as int) == (if q.len() == 0 {
            TaskStatus::Running
        } else {
            TaskStatus::Ready
        }),
{
    if q.len() == 0 {
        assert(q.push(c)[0] == c);
    } else {
        let n = k.queue().len() - 1;
        assert(k.queue()[n] == c);
    }
}

/// What `sys_get_time` returns.
pub open spec fn sys_get_time_spec(now_ms: usize) -> isize {
    if now_ms <= isize::MAX {
        now_ms as isize
    } else {
        isize::MAX
    }
}

} // verus!
