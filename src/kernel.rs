//! Processes, the ready queue and the processor, over one frame allocator.
use crate::config::{KERNEL_STACK_SIZE, PAGE_SIZE};
use crate::elf::{elf_entry, ph_count};
use crate::frame_allocator::{add_frames_range, agree_on, in_frame, FrameAllocator};
use crate::manager::TaskManager;
use crate::config::{USER_SPACE_END, USER_STACK_SIZE};
use crate::memory_set::{
    elf_loadable, le_bytes, load_pages, seg_byte, seg_end, seg_perm, seg_start, stack_bottom, stack_pages, stack_top,
    word_byte, area_index, le_value, lemma_pow256_8, MemorySet,
};
use crate::elf::seg_is_load;
use crate::processor::Processor;
use crate::task::{
    copy_fd_table, default_fd_table, new_fd_table, KContext, OpenFile, TaskControlBlock, TaskStatus, TrapFrame,
};
use vstd::prelude::*;

verus! {

/// Process identifiers stay below this bound, so at most this many processes
/// exist at once, each with a kernel stack of its own; the slot of a reaped
/// process is given to the next new one.
pub const MAX_PID: usize = 1024;

/// Lowest address of the kernel stacks.
pub const KERNEL_STACK_BASE: usize = 0x9000_0000;

/// Top of the kernel stack of task `pid`; a guard page lies below each stack.
pub open spec fn kernel_stack_top(pid: int) -> int {
    KERNEL_STACK_BASE + (pid + 1) * (KERNEL_STACK_SIZE + PAGE_SIZE)
}

pub fn kernel_stack_position(pid: usize) -> (r: usize)
    requires
        pid < MAX_PID,
    ensures
        r == kernel_stack_top(pid as int),
{
    proof {
        assert((pid + 1) * 0x6000int <= 1024 * 0x6000int) by (nonlinear_arith)
            requires
                pid < 1024,
        ;
    }
    KERNEL_STACK_BASE + (pid + 1) * (KERNEL_STACK_SIZE + PAGE_SIZE)
}

/// The task of slot `p` is consistent with its place and with the allocator.
pub open spec fn task_ok(t: TaskControlBlock, p: int, fa: FrameAllocator) -> bool {
    &&& t.pid == p
    &&& t.memory_set.wf()
    &&& t.memory_set.frame_set().subset_of(fa.allocated())
}

pub struct Kernel {
    frames: FrameAllocator,
    tasks: Vec<Option<TaskControlBlock>>,
    manager: TaskManager,
    processor: Processor,
    task_entry: usize,
    tp: usize,
    boot_root: usize,
    console: Vec<u8>,
}

impl Kernel {
    pub closed spec fn frames(&self) -> FrameAllocator {
        self.frames
    }

    pub closed spec fn tasks(&self) -> Seq<Option<TaskControlBlock>> {
        self.tasks@
    }

    /// The ready queue, head first.
    pub closed spec fn queue(&self) -> Seq<usize> {
        self.manager@
    }

    pub closed spec fn current(&self) -> Option<usize> {
        self.processor.current_spec()
    }

    /// Everything written to the console so far.
    pub closed spec fn console(&self) -> Seq<u8> {
        self.console@
    }

    /// The page-table root that address translation uses now.
    pub closed spec fn active_root(&self) -> usize {
        self.processor.root_spec()
    }

    /// The kernel's own page-table root, used while no task runs.
    pub closed spec fn boot_root(&self) -> usize {
        self.boot_root
    }

    pub closed spec fn entry_pc(&self) -> usize {
        self.task_entry
    }

    pub closed spec fn thread_pointer(&self) -> usize {
        self.tp
    }

    pub open spec fn live(&self, p: int) -> bool {
        0 <= p < self.tasks().len() && self.tasks()[p] is Some
    }

    pub open spec fn task(&self, p: int) -> TaskControlBlock {
        self.tasks()[p]->Some_0
    }

    pub open spec fn status(&self, p: int) -> TaskStatus {
        self.task(p).task_status
    }

    /// Every frame held by a live process is allocated, no frame is held by two
    /// processes, the ready queue holds each ready task exactly once and nothing
    /// else, and the one running task, if any, is the current one.
    pub open spec fn wf(&self) -> bool {
        &&& self.frames().wf()
        &&& self.tasks().len() <= MAX_PID
        &&& forall|p: int| #[trigger] self.live(p) ==> task_ok(self.task(p), p, self.frames())
        &&& forall|p: int, q: int|
            #![trigger self.live(p), self.live(q)]
            self.live(p) && self.live(q) && p != q ==> self.task(p).memory_set.frame_set().disjoint(
                self.task(q).memory_set.frame_set(),
            )
        &&& forall|i: int|
            0 <= i < self.queue().len() ==> self.live(#[trigger] self.queue()[i] as int) && self.status(
                self.queue()[i] as int,
            ) == TaskStatus::Ready
        &&& forall|i: int, j: int|
            0 <= i < j < self.queue().len() ==> #[trigger] self.queue()[i] != #[trigger] self.queue()[j]
        &&& forall|p: int| #[trigger] self.live(p) && self.status(p) == TaskStatus::Ready ==> self.queue().contains(p as usize)
        &&& self.current() is Some ==> self.live(self.current()->Some_0 as int) && self.status(
            self.current()->Some_0 as int,
        ) == TaskStatus::Running
        &&& forall|p: int| #[trigger] self.live(p) && self.status(p) == TaskStatus::Running ==> self.current() == Some(p as usize)
        &&& self.current() is None ==> self.active_root() == self.boot_root()
        &&& self.current() is Some ==> self.active_root() == self.task(self.current()->Some_0 as int).memory_set.root()
    }

    /// Frames that can still be handed out.
    pub open spec fn free_frames(&self) -> nat {
        self.frames().free_count()
    }

    /// A kernel over the memory `[mm_start, mm_end)`, with no process yet.
    /// `task_entry` is where every task starts in kernel mode, `tp` the
    /// thread pointer it runs with, and `boot_root` the kernel's own page-table
    /// root, active while no task runs.
    pub fn new(mm_start: usize, mm_end: usize, task_entry: usize, tp: usize, boot_root: usize) -> (r: Self)
        requires
            mm_start <= mm_end,
            mm_start <= usize::MAX - PAGE_SIZE,
        ensures
            r.wf(),
            r.tasks().len() == 0,
            r.queue().len() == 0,
            r.current() is None,
            r.console().len() == 0,
            r.frames().allocated().is_empty(),
            r.free_frames() == r.frames().run_capacity(),
            r.boot_root() == boot_root,
            r.active_root() == boot_root,
    {
        let frames = add_frames_range(mm_start, mm_end);
        let k = Kernel {
            frames,
            tasks: Vec::new(),
            manager: TaskManager::new(),
            processor: Processor::new(boot_root),
            task_entry,
            tp,
            boot_root,
            console: Vec::new(),
        };
        proof {
            assert(k.frames().allocated() =~= Set::<usize>::empty());
        }
        k
    }

    /// Number of process slots used so far; the next process gets this id.
    pub fn task_count(&self) -> (r: usize)
        ensures
            r == self.tasks().len(),
    {
        self.tasks.len()
    }

    /// The id the next process gets: the first empty slot, else a new one.
    pub open spec fn next_pid(&self) -> int {
        first_free(self.tasks(), 0)
    }

    pub fn free_slot(&self) -> (r: usize)
        ensures
            r == self.next_pid(),
    {
        let mut i: usize = 0;
        while i < self.tasks.len()
            invariant
                i <= self.tasks@.len(),
                first_free(self.tasks@, 0) == first_free(self.tasks@, i as int),
            decreases self.tasks@.len() - i,
        {
            if self.tasks[i].is_none() {
                return i;
            }
            i = i + 1;
        }
        i
    }

    pub fn free_frame_count(&self) -> (r: usize)
        requires
            self.wf(),
        ensures
            r == self.free_frames(),
    {
        self.frames.free_frames_exec()
    }
}


/// The first empty slot at or after `i`, or the end of the table.
pub open spec fn first_free(tasks: Seq<Option<TaskControlBlock>>, i: int) -> int
    decreases tasks.len() - i,
{
    if i >= tasks.len() || i < 0 {
        tasks.len() as int
    } else if tasks[i] is None {
        i
    } else {
        first_free(tasks, i + 1)
    }
}

proof fn lemma_first_free(tasks: Seq<Option<TaskControlBlock>>, i: int)
    requires
        0 <= i <= tasks.len(),
    ensures
        i <= first_free(tasks, i) <= tasks.len(),
        first_free(tasks, i) < tasks.len() ==> tasks[first_free(tasks, i)] is None,
        forall|p: int| i <= p < first_free(tasks, i) ==> tasks[p] is Some,
    decreases tasks.len() - i,
{
    if i < tasks.len() && tasks[i] is Some {
        lemma_first_free(tasks, i + 1);
    }
}

/// `tasks` with `v` in slot `p`, which is either a slot of it or the next one.
pub open spec fn put_slot(tasks: Seq<Option<TaskControlBlock>>, p: int, v: Option<TaskControlBlock>) -> Seq<Option<TaskControlBlock>> {
    if p == tasks.len() {
        tasks.push(v)
    } else {
        tasks.update(p, v)
    }
}

/// `t` after process `c` has ended: a child of `c` loses its parent.
pub open spec fn orphaned(t: TaskControlBlock, c: usize) -> TaskControlBlock {
    TaskControlBlock { parent: if t.parent == Some(c) { None } else { t.parent }, ..t }
}

/// `t` with status `st`.
pub open spec fn with_status(t: TaskControlBlock, st: TaskStatus) -> TaskControlBlock {
    TaskControlBlock { task_status: st, ..t }
}

impl Kernel {
    fn take_slot(&mut self, pid: usize) -> (r: TaskControlBlock)
        requires
            pid < old(self).tasks@.len(),
            old(self).tasks@[pid as int] is Some,
        ensures
            r == old(self).tasks@[pid as int]->Some_0,
            final(self).tasks@ == old(self).tasks@.update(pid as int, None),
            final(self).frames == old(self).frames,
            final(self).manager == old(self).manager,
            final(self).processor == old(self).processor,
            final(self).console == old(self).console,
            final(self).task_entry == old(self).task_entry,
            final(self).tp == old(self).tp,
            final(self).boot_root == old(self).boot_root,
    {
        let mut slot: Option<TaskControlBlock> = None;
        std::mem::swap(&mut slot, &mut self.tasks[pid]);
        slot.unwrap()
    }

    fn set_status(&mut self, pid: usize, st: TaskStatus)
        requires
            pid < old(self).tasks@.len(),
            old(self).tasks@[pid as int] is Some,
        ensures
            final(self).tasks@ == old(self).tasks@.update(pid as int, Some(with_status(old(self).tasks@[pid as int]->Some_0, st))),
            final(self).frames == old(self).frames,
            final(self).manager == old(self).manager,
            final(self).processor == old(self).processor,
            final(self).console == old(self).console,
            final(self).task_entry == old(self).task_entry,
            final(self).tp == old(self).tp,
            final(self).boot_root == old(self).boot_root,
    {
        let mut t = self.take_slot(pid);
        t.task_status = st;
        self.tasks[pid] = Some(t);
        proof {
            assert(self.tasks@ =~= old(self).tasks@.update(pid as int, Some(with_status(old(self).tasks@[pid as int]->Some_0, st))));
        }
    }

    /// Creates a process from an ELF image and queues it: a fresh address
    /// space, a kernel context that starts at the task entry on the process's
    /// own kernel stack, and user registers set to the image's entry and the
    /// top of its stack. Returns the new process id.
    pub fn spawn(&mut self, elf_data: &Vec<u8>) -> (r: usize)
        requires
            old(self).wf(),
            elf_loadable(elf_data@),
            old(self).free_frames() >= load_pages(elf_data@, ph_count(elf_data@)) + stack_pages() + 1,
            old(self).next_pid() < MAX_PID,
        ensures
            final(self).wf(),
            r == old(self).next_pid(),
            final(self).tasks() == put_slot(old(self).tasks(), r as int, final(self).tasks()[r as int]),
            final(self).live(r as int),
            final(self).status(r as int) == TaskStatus::Ready,
            final(self).task(r as int).parent is None,
            final(self).task(r as int).fd_table@ == default_fd_table(),
            final(self).task(r as int).trap_cx == (TrapFrame {
                sepc: elf_entry(elf_data@) as usize,
                sp: stack_top(elf_data@) as usize,
                a0: 0,
                a1: 0,
                a2: 0,
                a7: 0,
            }),
            final(self).task(r as int).task_cx == (KContext {
                pc: old(self).entry_pc(),
                sp: kernel_stack_top(r as int) as usize,
                tp: old(self).thread_pointer(),
            }),
            final(self).queue() == old(self).queue().push(r),
            final(self).current() == old(self).current(),
            final(self).console() == old(self).console(),
            final(self).frames().allocated() == old(self).frames().allocated().union(
                final(self).task(r as int).memory_set.frame_set(),
            ),
            final(self).task(r as int).memory_set.frame_set().disjoint(old(self).frames().allocated()),
            ({
                let s = elf_data@;
                let ms = final(self).task(r as int).memory_set;
                let mem = final(self).frames().mem();
                &&& forall|i: int, va: int|
                    #![trigger seg_is_load(s, i), ms.translate_spec(va)]
                    0 <= i < ph_count(s) && seg_is_load(s, i) && seg_start(s, i) <= va < seg_end(s, i)
                        ==> ms.translate_spec(va) is Some && ms.translate_spec(va)->Some_0.1 == seg_perm(s, i)
                        && ms.byte_at(mem, va) == Some(seg_byte(s, i, va))
                &&& forall|va: int|
                    #![trigger ms.translate_spec(va)]
                    stack_bottom(s) <= va < stack_top(s) ==> ms.translate_spec(va) is Some && ms.byte_at(mem, va) == Some(0u8)
                &&& forall|va: int|
                    #![trigger ms.translate_spec(va)]
                    ms.translate_spec(va) is Some ==> (stack_bottom(s) <= va < stack_top(s)) || exists|i: int|
                        0 <= i < ph_count(s) && #[trigger] seg_is_load(s, i) && seg_start(s, i) <= va < seg_end(s, i)
            }),
    {
        let ghost o = *self;
        let (memory_set, user_sp, entry) = MemorySet::from_elf(&mut self.frames, elf_data);
        let pid = self.free_slot();
        proof {
            lemma_first_free(self.tasks(), 0);
        }
        let kstack = kernel_stack_position(pid);
        let tcb = TaskControlBlock {
            pid,
            task_status: TaskStatus::Ready,
            task_cx: KContext { pc: self.task_entry, sp: kstack, tp: self.tp },
            trap_cx: TrapFrame::app_init_context(entry, user_sp),
            memory_set,
            fd_table: new_fd_table(),
            parent: None,
            exit_code: 0,
        };
        proof {
            let mid = *self;
            assert(mid.tasks() == o.tasks());
            assert forall|p: int| #[trigger] mid.live(p) implies task_ok(mid.task(p), p, mid.frames()) by {
                assert(o.live(p));
            }
            assert forall|p: int, q: int|
                #![trigger mid.live(p), mid.live(q)]
                mid.live(p) && mid.live(q) && p != q implies mid.task(p).memory_set.frame_set().disjoint(
                    mid.task(q).memory_set.frame_set()) by {
                assert(o.live(p) && o.live(q));
            }
            assert forall|p: int| #[trigger] mid.live(p) && mid.status(p) == TaskStatus::Ready implies mid.queue().contains(p as usize) by {
                assert(o.live(p));
            }
            assert forall|p: int| #[trigger] mid.live(p) && mid.status(p) == TaskStatus::Running implies mid.current() == Some(p as usize) by {
                assert(o.live(p));
            }
            assert(mid.wf());
            assert forall|p: int| #[trigger] mid.live(p) implies mid.task(p).memory_set.frame_set().disjoint(tcb.memory_set.frame_set()) by {
                assert(o.live(p));
                assert(task_ok(o.task(p), p, o.frames()));
            }
        }
        self.add_ready_task(tcb);
        proof {
            assert(self.tasks()[pid as int] == Some(tcb));
        }
        pid
    }

    /// The processor's step: with no current task, takes the head of the ready
    /// queue, marks it running and makes it current. Returns it, or `None` when
    /// the queue is empty.
    pub fn run_next(&mut self) -> (r: Option<usize>)
        requires
            old(self).wf(),
            old(self).current() is None,
        ensures
            final(self).wf(),
            final(self).frames() == old(self).frames(),
            final(self).console() == old(self).console(),
            old(self).queue().len() == 0 ==> r is None && final(self).tasks() == old(self).tasks()
                && final(self).queue() == old(self).queue() && final(self).current() is None,
            old(self).queue().len() == 0 ==> final(self).active_root() == old(self).active_root(),
            old(self).queue().len() > 0 ==> {
                let p = old(self).queue()[0];
                &&& r == Some(p)
                &&& final(self).active_root() == old(self).task(p as int).memory_set.root()
                &&& final(self).queue() == old(self).queue().drop_first()
                &&& final(self).current() == Some(p)
                &&& final(self).tasks() == old(self).tasks().update(
                    p as int,
                    Some(with_status(old(self).task(p as int), TaskStatus::Running)),
                )
            },
    {
        match self.manager.fetch() {
            None => {
                proof {
                    lemma_wf_same(&*old(self), &*self);
                }
                None
            },
            Some(pid) => {
                proof {
                    assert(old(self).live(old(self).queue()[0] as int));
                }
                self.set_status(pid, TaskStatus::Running);
                self.processor.set_current(pid);
                match &self.tasks[pid] {
                    Some(t) => t.memory_set.activate(&mut self.processor),
                    None => {},
                }
                proof {
                    let o = *old(self);
                    assert forall|p: int| #[trigger] self.live(p) implies task_ok(self.task(p), p, self.frames()) by {
                        assert(o.live(p));
                    }
                    assert forall|p: int, q: int|
                        #![trigger self.live(p), self.live(q)]
                        self.live(p) && self.live(q) && p != q implies self.task(p).memory_set.frame_set().disjoint(
                            self.task(q).memory_set.frame_set()) by {
                        assert(o.live(p) && o.live(q));
                    }
                    assert forall|i: int|
                        0 <= i < self.queue().len() implies self.live(#[trigger] self.queue()[i] as int) && self.status(
                            self.queue()[i] as int) == TaskStatus::Ready by {
                        assert(self.queue()[i] == o.queue()[i + 1]);
                        assert(o.queue()[0] != o.queue()[i + 1]);
                        assert(o.live(o.queue()[i + 1] as int));
                    }
                    assert forall|i: int, j: int|
                        0 <= i < j < self.queue().len() implies #[trigger] self.queue()[i] != #[trigger] self.queue()[j] by {
                        assert(self.queue()[i] == o.queue()[i + 1]);
                        assert(self.queue()[j] == o.queue()[j + 1]);
                    }
                    assert forall|p: int| #[trigger] self.live(p) && self.status(p) == TaskStatus::Ready implies self.queue().contains(p as usize) by {
                        assert(o.live(p));
                        assert(p != pid);
                        let i = choose|i: int| 0 <= i < o.queue().len() && o.queue()[i] == p as usize;
                        assert(i != 0);
                        assert(self.queue()[i - 1] == p as usize);
                    }
                    assert forall|p: int| #[trigger] self.live(p) && self.status(p) == TaskStatus::Running implies self.current() == Some(p as usize) by {
                        if p != pid {
                            assert(o.live(p));
                        }
                    }
                }
                Some(pid)
            },
        }
    }

    /// Puts the current task back at the tail of the ready queue and clears the
    /// current slot.
    fn suspend_current(&mut self)
        requires
            old(self).wf(),
            old(self).current() is Some,
        ensures
            final(self).wf(),
            final(self).frames() == old(self).frames(),
            final(self).console() == old(self).console(),
            final(self).current() is None,
            final(self).queue() == old(self).queue().push(old(self).current()->Some_0),
            final(self).tasks() == old(self).tasks().update(
                old(self).current()->Some_0 as int,
                Some(with_status(old(self).task(old(self).current()->Some_0 as int), TaskStatus::Ready)),
            ),
    {
        let cur = self.processor.take_current().unwrap();
        self.processor.activate(self.boot_root);
        self.set_status(cur, TaskStatus::Ready);
        self.manager.add(cur);
        proof {
            let o = *old(self);
            assert forall|p: int| #[trigger] self.live(p) implies task_ok(self.task(p), p, self.frames()) by {
                assert(o.live(p));
            }
            assert forall|p: int, q: int|
                #![trigger self.live(p), self.live(q)]
                self.live(p) && self.live(q) && p != q implies self.task(p).memory_set.frame_set().disjoint(
                    self.task(q).memory_set.frame_set()) by {
                assert(o.live(p) && o.live(q));
            }
            assert forall|i: int|
                0 <= i < self.queue().len() implies self.live(#[trigger] self.queue()[i] as int) && self.status(
                    self.queue()[i] as int) == TaskStatus::Ready by {
                if i < o.queue().len() {
                    assert(self.queue()[i] == o.queue()[i]);
                    assert(o.live(o.queue()[i] as int));
                }
            }
            assert forall|i: int, j: int|
                0 <= i < j < self.queue().len() implies #[trigger] self.queue()[i] != #[trigger] self.queue()[j] by {
                assert(self.queue()[i] == o.queue()[i]);
                if j < o.queue().len() {
                    assert(self.queue()[j] == o.queue()[j]);
                } else {
                    assert(o.live(o.queue()[i] as int));
                }
            }
            assert forall|p: int| #[trigger] self.live(p) && self.status(p) == TaskStatus::Ready implies self.queue().contains(p as usize) by {
                if p != cur {
                    assert(o.live(p));
                    let i = choose|i: int| 0 <= i < o.queue().len() && o.queue()[i] == p as usize;
                    assert(self.queue()[i] == p as usize);
                } else {
                    assert(self.queue()[self.queue().len() - 1] == p as usize);
                }
            }
            assert forall|p: int| #[trigger] self.live(p) && self.status(p) == TaskStatus::Running implies self.current() == Some(p as usize) by {
                assert(o.live(p));
            }
        }
    }

    /// Yield: the current task goes to the tail of the ready queue and the
    /// head of the queue runs next. Returns the task that runs now.
    pub fn suspend_current_and_run_next(&mut self) -> (r: usize)
        requires
            old(self).wf(),
            old(self).current() is Some,
        ensures
            final(self).wf(),
            final(self).frames() == old(self).frames(),
            final(self).console() == old(self).console(),
            ({
                let q = old(self).queue().push(old(self).current()->Some_0);
                &&& r == q[0]
                &&& final(self).current() == Some(r)
                &&& final(self).queue() == q.drop_first()
            }),
            ({
                let c = old(self).current()->Some_0 as int;
                final(self).tasks() == old(self).tasks().update(c, Some(with_status(old(self).task(c), TaskStatus::Ready))).update(
                    r as int,
                    Some(with_status(old(self).task(r as int), TaskStatus::Running)),
                )
            }),
    {
        self.suspend_current();
        let ghost mid = *self;
        let r = self.run_next().unwrap();
        proof {
            let c = old(self).current()->Some_0 as int;
            assert(mid.live(r as int));
            assert(old(self).live(c));
            if r as int == c {
                assert(with_status(mid.task(c), TaskStatus::Running) == with_status(old(self).task(c), TaskStatus::Running));
            } else {
                assert(mid.task(r as int) == old(self).task(r as int));
            }
            assert(self.tasks() =~= old(self).tasks().update(c, Some(with_status(old(self).task(c), TaskStatus::Ready))).update(
                r as int,
                Some(with_status(old(self).task(r as int), TaskStatus::Running)),
            ));
        }
        r
    }
}

proof fn lemma_wf_same(a: &Kernel, b: &Kernel)
    requires
        a.wf(),
        a.frames() == b.frames(),
        a.tasks() == b.tasks(),
        a.queue() == b.queue(),
        a.current() == b.current(),
        a.active_root() == b.active_root(),
        a.boot_root() == b.boot_root(),
    ensures
        b.wf(),
{
    assert forall|p: int| #[trigger] b.live(p) implies task_ok(b.task(p), p, b.frames()) by {
        assert(a.live(p));
    }
    assert forall|p: int, q: int|
        #![trigger b.live(p), b.live(q)]
        b.live(p) && b.live(q) && p != q implies b.task(p).memory_set.frame_set().disjoint(b.task(q).memory_set.frame_set()) by {
        assert(a.live(p) && a.live(q));
    }
    assert forall|p: int| #[trigger] b.live(p) && b.status(p) == TaskStatus::Ready implies b.queue().contains(p as usize) by {
        assert(a.live(p));
    }
    assert forall|p: int| #[trigger] b.live(p) && b.status(p) == TaskStatus::Running implies b.current() == Some(p as usize) by {
        assert(a.live(p));
    }
}


impl Kernel {
    /// Makes every child of `pid` an orphan.
    fn orphan_children(&mut self, pid: usize)
        requires
            old(self).wf(),
        ensures
            final(self).wf(),
            final(self).frames() == old(self).frames(),
            final(self).queue() == old(self).queue(),
            final(self).current() == old(self).current(),
            final(self).console() == old(self).console(),
            final(self).tasks().len() == old(self).tasks().len(),
            forall|p: int|
                #![trigger final(self).tasks()[p]]
                0 <= p < old(self).tasks().len() ==> (final(self).tasks()[p] is Some) == (old(self).tasks()[p] is Some),
            forall|p: int|
                #![trigger final(self).task(p)]
                old(self).live(p) ==> final(self).task(p) == (TaskControlBlock {
                    parent: if old(self).task(p).parent == Some(pid) {
                        None
                    } else {
                        old(self).task(p).parent
                    },
                    ..old(self).task(p)
                }),
    {
        let mut i: usize = 0;
        while i < self.tasks.len()
            invariant
                i <= self.tasks@.len(),
                self.tasks@.len() == old(self).tasks@.len(),
                self.frames == old(self).frames,
                self.manager == old(self).manager,
                self.processor == old(self).processor,
                self.console == old(self).console,
                self.task_entry == old(self).task_entry,
                self.tp == old(self).tp,
                self.boot_root == old(self).boot_root,
                forall|p: int|
                    #![trigger self.tasks@[p]]
                    i <= p < self.tasks@.len() ==> self.tasks@[p] == old(self).tasks@[p],
                forall|p: int|
                    #![trigger self.tasks@[p]]
                    0 <= p < i ==> (self.tasks@[p] is Some) == (old(self).tasks@[p] is Some) && (self.tasks@[p] is Some
                        ==> self.tasks@[p]->Some_0 == (TaskControlBlock {
                        parent: if old(self).tasks@[p]->Some_0.parent == Some(pid) {
                            None
                        } else {
                            old(self).tasks@[p]->Some_0.parent
                        },
                        ..old(self).tasks@[p]->Some_0
                    })),
            decreases self.tasks@.len() - i,
        {
            let is_child = match &self.tasks[i] {
                Some(t) => t.parent == Some(pid),
                None => false,
            };
            if is_child {
                let mut t = self.take_slot(i);
                t.parent = None;
                self.tasks[i] = Some(t);
            }
            i = i + 1;
        }
        proof {
            let o = *old(self);
            assert forall|p: int| #[trigger] self.live(p) implies task_ok(self.task(p), p, self.frames()) by {
                assert(o.live(p));
            }
            assert forall|p: int, q: int|
                #![trigger self.live(p), self.live(q)]
                self.live(p) && self.live(q) && p != q implies self.task(p).memory_set.frame_set().disjoint(
                    self.task(q).memory_set.frame_set()) by {
                assert(o.live(p) && o.live(q));
            }
            assert forall|i: int|
                0 <= i < self.queue().len() implies self.live(#[trigger] self.queue()[i] as int) && self.status(
                    self.queue()[i] as int) == TaskStatus::Ready by {
                assert(o.live(o.queue()[i] as int));
            }
            assert forall|p: int| #[trigger] self.live(p) && self.status(p) == TaskStatus::Ready implies self.queue().contains(p as usize) by {
                assert(o.live(p));
            }
            assert forall|p: int| #[trigger] self.live(p) && self.status(p) == TaskStatus::Running implies self.current() == Some(p as usize) by {
                assert(o.live(p));
            }
            if self.current() is Some {
                assert(o.live(o.current()->Some_0 as int));
                assert(self.task(o.current()->Some_0 as int).memory_set == o.task(o.current()->Some_0 as int).memory_set);
            }
        }
    }

    /// Ends the current task with `exit_code`: it becomes a zombie that keeps
    /// only its page-table root until its parent reaps it, its other frames go
    /// back, its children become orphans, and the current slot is cleared.
    fn exit_current(&mut self, exit_code: i32)
        requires
            old(self).wf(),
            old(self).current() is Some,
        ensures
            final(self).wf(),
            final(self).current() is None,
            final(self).queue() == old(self).queue(),
            final(self).console() == old(self).console(),
            final(self).tasks().len() == old(self).tasks().len(),
            ({
                let c = old(self).current()->Some_0 as int;
                let old_ms = old(self).task(c).memory_set;
                &&& final(self).live(c)
                &&& final(self).status(c) == TaskStatus::Exited
                &&& final(self).task(c).exit_code == exit_code
                &&& final(self).task(c).memory_set.frame_set() == set![old_ms.root()]
                &&& final(self).frames().allocated() == old(self).frames().allocated().difference(
                    old_ms.frame_set().remove(old_ms.root()),
                )
                &&& final(self).free_frames() == old(self).free_frames() + old_ms.page_count()
                &&& forall|p: int|
                    #![trigger final(self).tasks()[p]]
                    0 <= p < old(self).tasks().len() ==> (final(self).tasks()[p] is Some) == (old(self).tasks()[p] is Some)
                &&& forall|p: int|
                    #![trigger final(self).task(p)]
                    old(self).live(p) && p != c ==> final(self).task(p) == orphaned(old(self).task(p), c as usize)
                &&& final(self).task(c) == (TaskControlBlock {
                    task_status: TaskStatus::Exited,
                    exit_code,
                    memory_set: final(self).task(c).memory_set,
                    ..orphaned(old(self).task(c), c as usize)
                })
            }),
    {
        let cur = self.processor.take_current().unwrap();
        self.processor.activate(self.boot_root);
        let mut t = self.take_slot(cur);
        t.task_status = TaskStatus::Exited;
        t.exit_code = exit_code;
        proof {
            assert(old(self).live(cur as int));
        }
        t.memory_set.recycle_data_pages(&mut self.frames);
        self.tasks[cur] = Some(t);
        proof {
            let o = *old(self);
            let c = cur as int;
            let old_ms = o.task(c).memory_set;
            assert forall|p: int| #[trigger] self.live(p) implies task_ok(self.task(p), p, self.frames()) by {
                assert(o.live(p));
                if p != c {
                    assert(o.task(p).memory_set.frame_set().disjoint(old_ms.frame_set()));
                } else {
                    assert(old_ms.frame_set().contains(old_ms.root()));
                }
            }
            assert forall|p: int, q: int|
                #![trigger self.live(p), self.live(q)]
                self.live(p) && self.live(q) && p != q implies self.task(p).memory_set.frame_set().disjoint(
                    self.task(q).memory_set.frame_set()) by {
                assert(o.live(p) && o.live(q));
                if p == c {
                    assert(old_ms.frame_set().contains(old_ms.root()));
                }
                if q == c {
                    assert(old_ms.frame_set().contains(old_ms.root()));
                }
            }
            assert forall|i: int|
                0 <= i < self.queue().len() implies self.live(#[trigger] self.queue()[i] as int) && self.status(
                    self.queue()[i] as int) == TaskStatus::Ready by {
                assert(o.live(o.queue()[i] as int));
            }
            assert forall|p: int| #[trigger] self.live(p) && self.status(p) == TaskStatus::Ready implies self.queue().contains(p as usize) by {
                assert(o.live(p));
            }
            assert forall|p: int| #[trigger] self.live(p) && self.status(p) == TaskStatus::Running implies self.current() == Some(p as usize) by {
                assert(o.live(p));
            }
        }
        let ghost mid = *self;
        self.orphan_children(cur);
        proof {
            assert forall|p: int|
                #![trigger self.tasks()[p]]
                0 <= p < old(self).tasks().len() implies (self.tasks()[p] is Some) == (old(self).tasks()[p] is Some) by {
                assert(mid.tasks()[p] is Some == old(self).tasks()[p] is Some);
            }
            assert forall|p: int|
                #![trigger self.task(p)]
                old(self).live(p) && p != cur implies self.task(p) == (TaskControlBlock {
                    parent: if old(self).task(p).parent == Some(cur) {
                        None
                    } else {
                        old(self).task(p).parent
                    },
                    ..old(self).task(p)
                }) by {
                assert(mid.live(p));
                assert(mid.task(p) == old(self).task(p));
            }
            assert(mid.live(cur as int));
        }
    }

    /// Ends the current task with `exit_code` (see `exit_current`), then runs
    /// the head of the ready queue. Returns the task that runs now, or `None`
    /// when no task is ready.
    pub fn exit_current_and_run_next(&mut self, exit_code: i32) -> (r: Option<usize>)
        requires
            old(self).wf(),
            old(self).current() is Some,
        ensures
            final(self).wf(),
            final(self).console() == old(self).console(),
            final(self).tasks().len() == old(self).tasks().len(),
            ({
                let c = old(self).current()->Some_0 as int;
                let old_ms = old(self).task(c).memory_set;
                &&& final(self).live(c)
                &&& final(self).status(c) == TaskStatus::Exited
                &&& final(self).task(c).exit_code == exit_code
                &&& final(self).task(c).memory_set.frame_set() == set![old_ms.root()]
                &&& final(self).frames().allocated() == old(self).frames().allocated().difference(
                    old_ms.frame_set().remove(old_ms.root()),
                )
                &&& final(self).free_frames() == old(self).free_frames() + old_ms.page_count()
                &&& final(self).task(c) == (TaskControlBlock {
                    task_status: TaskStatus::Exited,
                    exit_code,
                    memory_set: final(self).task(c).memory_set,
                    ..orphaned(old(self).task(c), c as usize)
                })
                &&& forall|p: int|
                    #![trigger final(self).tasks()[p]]
                    0 <= p < old(self).tasks().len() ==> (final(self).tasks()[p] is Some) == (old(self).tasks()[p] is Some)
                &&& forall|p: int|
                    #![trigger final(self).task(p)]
                    old(self).live(p) && p != c ==> final(self).task(p) == if r == Some(p as usize) {
                        with_status(orphaned(old(self).task(p), c as usize), TaskStatus::Running)
                    } else {
                        orphaned(old(self).task(p), c as usize)
                    }
            }),
            old(self).queue().len() == 0 ==> r is None && final(self).current() is None,
            old(self).queue().len() > 0 ==> r == Some(old(self).queue()[0]) && final(self).current() == r
                && final(self).queue() == old(self).queue().drop_first(),
    {
        self.exit_current(exit_code);
        let ghost mid = *self;
        let r = self.run_next();
        proof {
            let c = old(self).current()->Some_0 as int;
            if old(self).queue().len() > 0 {
                assert(old(self).queue()[0] != c);
                assert(mid.live(c));
                assert(self.tasks()[c] == mid.tasks()[c]);
            }
            assert forall|p: int|
                #![trigger self.tasks()[p]]
                0 <= p < old(self).tasks().len() implies (self.tasks()[p] is Some) == (old(self).tasks()[p] is Some) by {
                assert(mid.tasks()[p] is Some == old(self).tasks()[p] is Some);
            }
            assert forall|p: int|
                #![trigger self.task(p)]
                old(self).live(p) && p != c implies self.task(p) == if r == Some(p as usize) {
                    with_status(orphaned(old(self).task(p), c as usize), TaskStatus::Running)
                } else {
                    orphaned(old(self).task(p), c as usize)
                } by {
                assert(mid.live(p));
                assert(mid.task(p) == orphaned(old(self).task(p), c as usize));
            }
        }
        r
    }
}


impl Kernel {
    /// Puts `tcb` in slot `next_pid()` and queues it.
    fn add_ready_task(&mut self, tcb: TaskControlBlock)
        requires
            old(self).wf(),
            old(self).next_pid() < MAX_PID,
            tcb.pid == old(self).next_pid(),
            tcb.task_status == TaskStatus::Ready,
            tcb.memory_set.wf(),
            tcb.memory_set.frame_set().subset_of(old(self).frames().allocated()),
            forall|p: int| #[trigger] old(self).live(p) ==> old(self).task(p).memory_set.frame_set().disjoint(tcb.memory_set.frame_set()),
        ensures
            final(self).wf(),
            final(self).tasks() == put_slot(old(self).tasks(), tcb.pid as int, Some(tcb)),
            final(self).queue() == old(self).queue().push(tcb.pid),
            final(self).current() == old(self).current(),
            final(self).console() == old(self).console(),
            final(self).frames() == old(self).frames(),
            final(self).entry_pc() == old(self).entry_pc(),
            final(self).thread_pointer() == old(self).thread_pointer(),
    {
        let pid = tcb.pid;
        proof {
            lemma_first_free(self.tasks@, 0);
        }
        if pid == self.tasks.len() {
            self.tasks.push(Some(tcb));
        } else {
            self.tasks[pid] = Some(tcb);
        }
        self.manager.add(pid);
        proof {
            let o = *old(self);
            assert(self.tasks() =~= put_slot(o.tasks(), pid as int, Some(tcb)));
            assert(!o.live(pid as int));
            assert forall|p: int| #[trigger] self.live(p) implies task_ok(self.task(p), p, self.frames()) by {
                if p != pid {
                    assert(o.live(p));
                }
            }
            assert forall|p: int, q: int|
                #![trigger self.live(p), self.live(q)]
                self.live(p) && self.live(q) && p != q implies self.task(p).memory_set.frame_set().disjoint(
                    self.task(q).memory_set.frame_set()) by {
                if p != pid && q != pid {
                    assert(o.live(p) && o.live(q));
                } else if p != pid {
                    assert(o.live(p));
                } else {
                    assert(o.live(q));
                }
            }
            assert forall|i: int|
                0 <= i < self.queue().len() implies self.live(#[trigger] self.queue()[i] as int) && self.status(
                    self.queue()[i] as int) == TaskStatus::Ready by {
                if i < o.queue().len() {
                    assert(o.queue()[i] == self.queue()[i]);
                    assert(o.live(o.queue()[i] as int));
                }
            }
            assert forall|i: int, j: int|
                0 <= i < j < self.queue().len() implies #[trigger] self.queue()[i] != #[trigger] self.queue()[j] by {
                if j == self.queue().len() - 1 {
                    assert(o.queue()[i] == self.queue()[i]);
                    assert(o.live(o.queue()[i] as int));
                } else {
                    assert(o.queue()[i] == self.queue()[i]);
                    assert(o.queue()[j] == self.queue()[j]);
                }
            }
            assert forall|p: int| #[trigger] self.live(p) && self.status(p) == TaskStatus::Ready implies self.queue().contains(p as usize) by {
                if p != pid {
                    assert(o.live(p));
                    let i = choose|i: int| 0 <= i < o.queue().len() && o.queue()[i] == p as usize;
                    assert(self.queue()[i] == p as usize);
                } else {
                    assert(self.queue()[self.queue().len() - 1] == p as usize);
                }
            }
            if self.current() is Some {
                assert(o.live(self.current()->Some_0 as int));
            }
            assert forall|p: int| #[trigger] self.live(p) && self.status(p) == TaskStatus::Running implies self.current() == Some(p as usize) by {
                if p != pid {
                    assert(o.live(p));
                }
            }
        }
    }

    /// The current process's id.
    pub fn getpid(&self) -> (r: usize)
        requires
            self.wf(),
            self.current() is Some,
        ensures
            r == self.current()->Some_0,
            r == self.task(r as int).pid,
    {
        let c = self.processor.current().unwrap();
        proof {
            assert(self.live(c as int));
        }
        c
    }

    /// The current process forks: the child gets a copy of its address space in
    /// fresh frames, its user registers with 0 as the call's result, its own
    /// kernel stack, the current process as parent, and a place at the tail of
    /// the ready queue. Returns the child's id.
    pub fn fork(&mut self) -> (r: usize)
        requires
            old(self).wf(),
            old(self).current() is Some,
            old(self).next_pid() < MAX_PID,
            old(self).free_frames() >= old(self).task(old(self).current()->Some_0 as int).memory_set.page_count() + 1,
        ensures
            final(self).wf(),
            r == old(self).next_pid(),
            final(self).tasks() == put_slot(old(self).tasks(), r as int, final(self).tasks()[r as int]),
            final(self).queue() == old(self).queue().push(r),
            final(self).current() == old(self).current(),
            final(self).console() == old(self).console(),
            ({
                let parent = old(self).task(old(self).current()->Some_0 as int);
                let child = final(self).task(r as int);
                &&& final(self).live(r as int)
                &&& child.pid == r
                &&& child.task_status == TaskStatus::Ready
                &&& child.parent == Some(old(self).current()->Some_0)
                &&& child.fd_table@ == parent.fd_table@
                &&& child.trap_cx == (TrapFrame { a0: 0, ..parent.trap_cx })
                &&& child.task_cx == (KContext {
                    pc: old(self).entry_pc(),
                    sp: kernel_stack_top(r as int) as usize,
                    tp: old(self).thread_pointer(),
                })
                &&& child.memory_set.frame_set().disjoint(old(self).frames().allocated())
                &&& final(self).frames().allocated() == old(self).frames().allocated().union(child.memory_set.frame_set())
                &&& final(self).free_frames() + parent.memory_set.page_count() + 1 == old(self).free_frames()
                &&& agree_on(old(self).frames().mem(), final(self).frames().mem(), old(self).frames().allocated())
                &&& forall|va: int|
                    #![trigger child.memory_set.translate_spec(va)]
                    (child.memory_set.translate_spec(va) is Some) == (parent.memory_set.translate_spec(va) is Some)
                        && (child.memory_set.translate_spec(va) is Some ==> child.memory_set.translate_spec(va)->Some_0.1
                        == parent.memory_set.translate_spec(va)->Some_0.1)
                &&& forall|va: int|
                    #[trigger] child.memory_set.byte_at(final(self).frames().mem(), va) == parent.memory_set.byte_at(
                        old(self).frames().mem(),
                        va,
                    )
            }),
    {
        let cur = self.processor.current().unwrap();
        proof {
            assert(self.live(cur as int));
        }
        let pid = self.free_slot();
        let kstack = kernel_stack_position(pid);
        let ghost o = *self;
        let (memory_set, trap_cx, fd_table) = match &self.tasks[cur] {
            Some(parent) => {
                let ms = MemorySet::from_existed_user(&parent.memory_set, &mut self.frames);
                (ms, TrapFrame { a0: 0, ..parent.trap_cx }, copy_fd_table(&parent.fd_table))
            },
            None => {
                proof {
                    assert(false);
                }
                (MemorySet::new_bare(&mut self.frames), TrapFrame::app_init_context(0, 0), new_fd_table())
            },
        };
        let tcb = TaskControlBlock {
            pid,
            task_status: TaskStatus::Ready,
            task_cx: KContext { pc: self.task_entry, sp: kstack, tp: self.tp },
            trap_cx,
            memory_set,
            fd_table,
            parent: Some(cur),
            exit_code: 0,
        };
        proof {
            let ghost mid = *self;
            assert(mid.tasks() == o.tasks());
            assert forall|p: int| #[trigger] mid.live(p) implies task_ok(mid.task(p), p, mid.frames()) by {
                assert(o.live(p));
            }
            assert forall|p: int, q: int|
                #![trigger mid.live(p), mid.live(q)]
                mid.live(p) && mid.live(q) && p != q implies mid.task(p).memory_set.frame_set().disjoint(
                    mid.task(q).memory_set.frame_set()) by {
                assert(o.live(p) && o.live(q));
            }
            assert forall|p: int| #[trigger] mid.live(p) && mid.status(p) == TaskStatus::Ready implies mid.queue().contains(p as usize) by {
                assert(o.live(p));
            }
            assert forall|p: int| #[trigger] mid.live(p) && mid.status(p) == TaskStatus::Running implies mid.current() == Some(p as usize) by {
                assert(o.live(p));
            }
            assert(mid.wf());
            assert forall|p: int| #[trigger] mid.live(p) implies mid.task(p).memory_set.frame_set().disjoint(tcb.memory_set.frame_set()) by {
                assert(o.live(p));
                assert(task_ok(o.task(p), p, o.frames()));
            }
        }
        proof {
            lemma_first_free(self.tasks(), 0);
        }
        self.add_ready_task(tcb);
        proof {
            assert(self.tasks()[pid as int] == Some(tcb));
        }
        pid
    }

    /// Index of the first child of `cur` that `pid` names (-1: any child),
    /// among the slots from `from` on, looking for an exited one if `exited`.
    pub open spec fn is_match(&self, cur: usize, pid: isize, p: int) -> bool {
        &&& self.live(p)
        &&& self.task(p).parent == Some(cur)
        &&& (pid == -1 || pid == p)
    }

    /// The current process waits for a child: `pid` names it, or -1 for any.
    /// Returns (-1, 0) when no child matches, (-2, 0) when none that matches has
    /// exited yet, else the id and exit code of an exited match, which is then
    /// removed with its last frame.
    pub fn waitpid(&mut self, pid: isize) -> (r: (isize, i32))
        requires
            old(self).wf(),
            old(self).current() is Some,
        ensures
            final(self).wf(),
            final(self).queue() == old(self).queue(),
            final(self).current() == old(self).current(),
            final(self).console() == old(self).console(),
            final(self).tasks().len() == old(self).tasks().len(),
            ({
                let cur = old(self).current()->Some_0;
                &&& (r.0 == -1) == (forall|p: int| !#[trigger] old(self).is_match(cur, pid, p))
                &&& (r.0 == -2) == ((exists|p: int| #[trigger] old(self).is_match(cur, pid, p)) && forall|p: int|
                    #[trigger] old(self).is_match(cur, pid, p) ==> old(self).status(p) != TaskStatus::Exited)
                &&& r.0 >= -2
                &&& (exists|p: int| #[trigger] old(self).is_match(cur, pid, p) && old(self).status(p) == TaskStatus::Exited) ==> r.0 >= 0
                &&& r.0 < 0 ==> r.1 == 0 && final(self).tasks() == old(self).tasks() && final(self).frames() == old(self).frames()
                &&& r.0 >= 0 ==> {
                    let c = r.0 as int;
                    &&& old(self).is_match(cur, pid, c)
                    &&& old(self).status(c) == TaskStatus::Exited
                    &&& r.1 == old(self).task(c).exit_code
                    &&& final(self).tasks() == old(self).tasks().update(c, None)
                    &&& final(self).frames().allocated() == old(self).frames().allocated().difference(
                        old(self).task(c).memory_set.frame_set(),
                    )
                    &&& final(self).free_frames() == old(self).free_frames() + old(self).task(c).memory_set.page_count() + 1
                }
            }),
    {
        let cur = self.processor.current().unwrap();
        let mut found_any = false;
        let mut i: usize = 0;
        while i < self.tasks.len()
            invariant
                i <= self.tasks@.len(),
                *self == *old(self),
                old(self).wf(),
                cur == old(self).current()->Some_0,
                found_any == exists|p: int| 0 <= p < i && #[trigger] self.is_match(cur, pid, p),
                forall|p: int| 0 <= p < i && #[trigger] self.is_match(cur, pid, p) ==> self.status(p) != TaskStatus::Exited,
            decreases self.tasks@.len() - i,
        {
            let (matches, exited) = match &self.tasks[i] {
                Some(t) => (t.parent == Some(cur) && (pid == -1 || pid == i as isize), t.task_status == TaskStatus::Exited),
                None => (false, false),
            };
            proof {
                if matches {
                    assert(self.is_match(cur, pid, i as int));
                } else {
                    assert(!self.is_match(cur, pid, i as int));
                }
                if self.is_match(cur, pid, i as int) {
                    assert(exited == (self.status(i as int) == TaskStatus::Exited));
                }
            }
            if matches {
                found_any = true;
                if exited {
                    let child = self.take_slot(i);
                    let code = child.exit_code;
                    proof {
                        let o = *old(self);
                        assert(o.live(i as int));
                        assert(task_ok(o.task(i as int), i as int, o.frames()));
                    }
                    child.memory_set.release(&mut self.frames);
                    proof {
                        let o = *old(self);
                        assert forall|p: int| #[trigger] self.live(p) implies task_ok(self.task(p), p, self.frames()) by {
                            assert(o.live(p));
                            assert(o.task(p).memory_set.frame_set().disjoint(o.task(i as int).memory_set.frame_set()));
                        }
                        assert forall|p: int, q: int|
                            #![trigger self.live(p), self.live(q)]
                            self.live(p) && self.live(q) && p != q implies self.task(p).memory_set.frame_set().disjoint(
                                self.task(q).memory_set.frame_set()) by {
                            assert(o.live(p) && o.live(q));
                        }
                        assert forall|k: int|
                            0 <= k < self.queue().len() implies self.live(#[trigger] self.queue()[k] as int) && self.status(
                                self.queue()[k] as int) == TaskStatus::Ready by {
                            assert(o.live(o.queue()[k] as int));
                        }
                        assert forall|p: int| #[trigger] self.live(p) && self.status(p) == TaskStatus::Ready implies self.queue().contains(p as usize) by {
                            assert(o.live(p));
                        }
                        assert forall|p: int| #[trigger] self.live(p) && self.status(p) == TaskStatus::Running implies self.current() == Some(p as usize) by {
                            assert(o.live(p));
                        }
                        assert(o.is_match(cur, pid, i as int));
                    }
                    return (i as isize, code);
                }
            }
            i = i + 1;
        }
        proof {
            if !found_any {
                assert forall|p: int| !#[trigger] old(self).is_match(cur, pid, p) by {
                    if old(self).is_match(cur, pid, p) {
                        assert(0 <= p < i);
                    }
                }
            } else {
                assert forall|p: int| #[trigger] old(self).is_match(cur, pid, p) implies old(self).status(p) != TaskStatus::Exited by {
                    assert(0 <= p < i);
                }
            }
        }
        if found_any {
            (-2, 0)
        } else {
            (-1, 0)
        }
    }
}


/// The bytes of each argument.
pub open spec fn arg_seqs(args: Seq<Vec<u8>>) -> Seq<Seq<u8>> {
    args.map_values(|a: Vec<u8>| a@)
}

/// Bytes taken by the first `i` arguments, each with its terminating zero.
pub open spec fn strings_len(args: Seq<Seq<u8>>, i: int) -> int
    decreases i,
{
    if i <= 0 {
        0
    } else {
        strings_len(args, i - 1) + args[i - 1].len() + 1
    }
}

/// Start of the argument-pointer array below stack top `top`: one slot per
/// argument and a null slot.
pub open spec fn argv_base(top: int, n: int) -> int {
    top - (n + 1) * 8
}

/// Where argument `i` is written: the strings go down from the pointer array.
pub open spec fn arg_addr(args: Seq<Seq<u8>>, top: int, i: int) -> int {
    argv_base(top, args.len() as int) - strings_len(args, i + 1)
}

/// The initial stack pointer: below the strings, aligned down to a word.
pub open spec fn exec_sp(args: Seq<Seq<u8>>, top: int) -> int {
    let x = argv_base(top, args.len() as int) - strings_len(args, args.len() as int);
    x - x % 8
}

/// The pointer array, the strings and the alignment fit in a user stack.
pub open spec fn args_fit(args: Seq<Seq<u8>>) -> bool {
    (args.len() + 1) * 8 + strings_len(args, args.len() as int) + 8 <= USER_STACK_SIZE
}

proof fn lemma_strings_len_mono(args: Seq<Seq<u8>>, i: int, j: int)
    requires
        0 <= i <= j,
    ensures
        strings_len(args, i) + (j - i) <= strings_len(args, j),
    decreases j,
{
    if i < j {
        lemma_strings_len_mono(args, i, j - 1);
    }
}

impl Kernel {
    /// The current process runs a new program: its address space is replaced by
    /// one built from `elf_data`, the arguments are laid out on the new user
    /// stack (a pointer array, then the strings below it, each ended by a zero
    /// byte), and its user registers start the program with the argument count
    /// and the pointer array's address. The old space's frames go back.
    /// Returns the argument count.
    #[verifier::rlimit(100)]
    pub fn exec(&mut self, elf_data: &Vec<u8>, args: &Vec<Vec<u8>>) -> (r: isize)
        requires
            old(self).wf(),
            old(self).current() is Some,
            elf_loadable(elf_data@),
            old(self).free_frames() >= load_pages(elf_data@, ph_count(elf_data@)) + stack_pages() + 1,
            args_fit(arg_seqs(args@)),
        ensures
            final(self).wf(),
            r == args@.len(),
            final(self).queue() == old(self).queue(),
            final(self).current() == old(self).current(),
            final(self).console() == old(self).console(),
            final(self).tasks().len() == old(self).tasks().len(),
            ({
                let c = old(self).current()->Some_0 as int;
                let s = elf_data@;
                let a = arg_seqs(args@);
                let n = args@.len() as int;
                let top = stack_top(s);
                let t = final(self).task(c);
                let ms = t.memory_set;
                let mem = final(self).frames().mem();
                &&& forall|p: int| 0 <= p < old(self).tasks().len() && p != c ==> #[trigger] final(self).tasks()[p] == old(self).tasks()[p]
                &&& final(self).live(c)
                &&& t.pid == old(self).task(c).pid
                &&& t.task_status == old(self).task(c).task_status
                &&& t.parent == old(self).task(c).parent
                &&& t.fd_table == old(self).task(c).fd_table
                &&& t.task_cx == old(self).task(c).task_cx
                &&& t.trap_cx == (TrapFrame {
                    sepc: elf_entry(s) as usize,
                    sp: exec_sp(a, top) as usize,
                    a0: n as usize,
                    a1: argv_base(top, n) as usize,
                    a2: 0,
                    a7: 0,
                })
                &&& exec_sp(a, top) % 8 == 0
                &&& stack_bottom(s) <= exec_sp(a, top)
                &&& forall|i: int, k: int|
                    0 <= i < n && 0 <= k < 8 ==> #[trigger] ms.byte_at(mem, argv_base(top, n) + 8 * i + k) == Some(
                        word_byte(arg_addr(a, top, i), k as nat),
                    )
                &&& forall|k: int| 0 <= k < 8 ==> #[trigger] ms.byte_at(mem, argv_base(top, n) + 8 * n + k) == Some(0u8)
                &&& forall|i: int| 0 <= i < n ==> #[trigger] le_value(ms, mem, argv_base(top, n) + 8 * i, 8) == arg_addr(a, top, i)
                &&& le_value(ms, mem, argv_base(top, n) + 8 * n, 8) == 0
                &&& forall|i: int, k: int|
                    0 <= i < n && 0 <= k < a[i].len() ==> #[trigger] ms.byte_at(mem, arg_addr(a, top, i) + k) == Some(a[i][k])
                &&& forall|i: int| 0 <= i < n ==> #[trigger] ms.byte_at(mem, arg_addr(a, top, i) + a[i].len()) == Some(0u8)
                &&& forall|i: int, va: int|
                    #![trigger seg_is_load(s, i), ms.translate_spec(va)]
                    0 <= i < ph_count(s) && seg_is_load(s, i) && seg_start(s, i) <= va < seg_end(s, i)
                        ==> ms.translate_spec(va) is Some && ms.translate_spec(va)->Some_0.1 == seg_perm(s, i)
                        && ms.byte_at(mem, va) == Some(seg_byte(s, i, va))
                &&& ms.frame_set().disjoint(old(self).frames().allocated())
                &&& final(self).frames().allocated() == old(self).frames().allocated().union(ms.frame_set()).difference(
                    old(self).task(c).memory_set.frame_set(),
                )
            }),
    {
        let cur = self.processor.current().unwrap();
        let ghost s = elf_data@;
        let ghost a = arg_seqs(args@);
        let ghost o = *self;
        proof {
            assert(o.live(cur as int));
        }
        let (ms, user_sp, entry) = MemorySet::from_elf(&mut self.frames, elf_data);
        let ghost mem1 = self.frames.mem();
        let ghost fa1 = self.frames;
        let ghost top = user_sp as int;
        let n: usize = args.len();
        proof {
            assert(a.len() == n);
            lemma_strings_len_mono(a, 0, n as int);
            assert(top - USER_STACK_SIZE == stack_bottom(s));
            assert(stack_bottom(s) >= PAGE_SIZE) by {
                crate::memory_set::lemma_max_end_nonneg(s, ph_count(s));
            }
        }
        let argv: usize = user_sp - (n + 1) * 8;
        let mut cursor: usize = argv;
        let mut i: usize = 0;
        proof {
            self.frames.lemma_wf();
        }
        while i < n
            invariant
                self.tasks@ == o.tasks@,
                self.manager == o.manager,
                self.processor == o.processor,
                self.console == o.console,
                self.task_entry == o.task_entry,
                self.tp == o.tp,
                self.frames.wf(),
                self.frames.allocated() == fa1.allocated(),
                self.frames.arena() == fa1.arena(),
                self.frames.free_count() == fa1.free_count(),
                stack_bottom(s) >= PAGE_SIZE,
                ms.wf(),
                ms.fits(self.frames.mem()),
                self.frames.mem().len() == mem1.len(),
                n == args@.len(),
                a == arg_seqs(args@),
                top == stack_top(s),
                user_sp as int == top,
                top - USER_STACK_SIZE == stack_bottom(s),
                argv as int == argv_base(top, n as int),
                args_fit(a),
                i <= n,
                cursor as int == argv - strings_len(a, i as int),
                forall|va: int|
                    #![trigger ms.translate_spec(va)]
                    stack_bottom(s) <= va < stack_top(s) ==> ms.translate_spec(va) is Some,
                forall|va: int|
                    #![trigger ms.byte_at(self.frames.mem(), va)]
                    !(cursor <= va < argv + 8 * i) ==> ms.byte_at(self.frames.mem(), va) == ms.byte_at(mem1, va),
                forall|j: int, k: int|
                    0 <= j < i && 0 <= k < 8 ==> #[trigger] ms.byte_at(self.frames.mem(), argv + 8 * j + k) == Some(
                        word_byte(arg_addr(a, top, j), k as nat),
                    ),
                forall|j: int, k: int|
                    0 <= j < i && 0 <= k < a[j].len() ==> #[trigger] ms.byte_at(self.frames.mem(), arg_addr(a, top, j) + k)
                        == Some(a[j][k]),
                forall|j: int| 0 <= j < i ==> #[trigger] ms.byte_at(self.frames.mem(), arg_addr(a, top, j) + a[j].len()) == Some(0u8),
                forall|q: usize, j: int|
                    #![trigger ms.frame_set().contains(q), self.frames.mem()[j]]
                    !ms.frame_set().contains(q) && in_frame(j, q as int) && 0 <= j < mem1.len()
                        ==> self.frames.mem()[j] == mem1[j],
            decreases n - i,
        {
            let arg: &Vec<u8> = &args[i];
            proof {
                lemma_strings_len_mono(a, i as int + 1, n as int);
                assert(a[i as int] == arg@);
                assert(a.len() == n);
                assert(strings_len(a, i as int + 1) == strings_len(a, i as int) + a[i as int].len() + 1);
                assert(strings_len(a, n as int) + (n + 1) * 8 + 8 <= USER_STACK_SIZE);
            }
            cursor = cursor - (arg.len() + 1);
            let word = le_bytes(cursor);
            proof {
                lemma_strings_len_mono(a, 0, i as int);
                assert(argv + 8 * i + 8 <= top);
                assert(cursor >= stack_bottom(s));
                assert(cursor + arg@.len() + 1 <= argv);
                assert(stack_bottom(s) <= argv);
            }
            let ghost fa_before = self.frames;
            let ghost mem_before = self.frames.mem();
            ms.write_bytes(&mut self.frames, argv + i * 8, word.as_slice());
            let ghost mem_w = self.frames.mem();
            ms.write_bytes(&mut self.frames, cursor, arg.as_slice());
            let ghost mem_s = self.frames.mem();
            ms.write_bytes(&mut self.frames, cursor + arg.len(), &[0u8]);
            proof {
                // bookkeeping
                self.frames.lemma_same_bookkeeping(&fa_before, &fa_before);
                assert(arg_addr(a, top, i as int) == cursor);
                assert forall|j: int, k: int|
                    0 <= j < i + 1 && 0 <= k < 8 implies #[trigger] ms.byte_at(self.frames.mem(), argv + 8 * j + k) == Some(
                        word_byte(arg_addr(a, top, j), k as nat)) by {
                    if j == i {
                        assert(word@[k] == word_byte(cursor as int, k as nat));
                    }
                }
                assert forall|j: int, k: int|
                    0 <= j < i + 1 && 0 <= k < a[j].len() implies #[trigger] ms.byte_at(self.frames.mem(), arg_addr(a, top, j) + k)
                        == Some(a[j][k]) by {
                    let w = arg_addr(a, top, j) + k;
                    lemma_strings_len_mono(a, 0, j);
                    if j < i {
                        lemma_strings_len_mono(a, j + 1, i as int);
                        assert(ms.byte_at(mem_w, w) == ms.byte_at(mem_before, w));
                        assert(ms.byte_at(mem_s, w) == ms.byte_at(mem_w, w));
                        assert(ms.byte_at(self.frames.mem(), w) == ms.byte_at(mem_s, w));
                    } else {
                        assert(ms.byte_at(mem_s, w) == Some(arg@[k]));
                        assert(ms.byte_at(self.frames.mem(), w) == ms.byte_at(mem_s, w));
                    }
                }
                assert forall|j: int| 0 <= j < i + 1 implies #[trigger] ms.byte_at(self.frames.mem(), arg_addr(a, top, j) + a[j].len()) == Some(0u8) by {
                    let w = arg_addr(a, top, j) + a[j].len();
                    lemma_strings_len_mono(a, 0, j);
                    if j < i {
                        lemma_strings_len_mono(a, j + 1, i as int);
                        assert(ms.byte_at(mem_w, w) == ms.byte_at(mem_before, w));
                        assert(ms.byte_at(mem_s, w) == ms.byte_at(mem_w, w));
                        assert(ms.byte_at(self.frames.mem(), w) == ms.byte_at(mem_s, w));
                    }
                }
                assert forall|q: usize, j: int|
                    #![trigger ms.frame_set().contains(q), self.frames.mem()[j]]
                    !ms.frame_set().contains(q) && in_frame(j, q as int) && 0 <= j < mem1.len()
                        implies self.frames.mem()[j] == mem1[j] by {
                    assert(mem_s[j] == mem_w[j]);
                    assert(mem_w[j] == mem_before[j]);
                }
            }
            i = i + 1;
        }
        let zero = le_bytes(0);
        let ghost mem_before = self.frames.mem();
        proof {
            assert(argv + 8 * n + 8 == top);
            assert(stack_bottom(s) <= argv);
        }
        ms.write_bytes(&mut self.frames, argv + n * 8, zero.as_slice());
        let sp: usize = cursor - cursor % 8;
        let ghost ms_g = ms;
        let ghost mem2 = self.frames.mem();
        let new_root = ms.token();
        let mut t = self.take_slot(cur);
        let mut old_ms = ms;
        std::mem::swap(&mut old_ms, &mut t.memory_set);
        t.trap_cx = TrapFrame { sepc: entry, sp, a0: n, a1: argv, a2: 0, a7: 0 };
        self.tasks[cur] = Some(t);
        self.processor.activate(new_root);
        proof {
            assert(old_ms == o.task(cur as int).memory_set);
            assert(task_ok(o.task(cur as int), cur as int, o.frames()));
            assert(old_ms.frame_set().subset_of(self.frames.allocated()));
        }
        old_ms.release(&mut self.frames);
        proof {
            let c = cur as int;
            let old_set = o.task(c).memory_set.frame_set();
            assert(self.task(c).memory_set == ms_g);
            assert(self.frames.allocated() =~= o.frames().allocated().union(ms_g.frame_set()).difference(old_set));
            assert forall|p: int| #[trigger] self.live(p) implies task_ok(self.task(p), p, self.frames()) by {
                assert(o.live(p));
                if p != c {
                    assert(o.task(p).memory_set.frame_set().disjoint(old_set));
                    assert(task_ok(o.task(p), p, o.frames()));
                } else {
                    assert forall|f: usize| ms_g.frame_set().contains(f) implies self.frames.allocated().contains(f) by {
                        assert(!o.frames().allocated().contains(f));
                        assert(!old_set.contains(f)) by {
                            assert(old_set.subset_of(o.frames().allocated()));
                        }
                    }
                }
            }
            assert forall|p: int, q: int|
                #![trigger self.live(p), self.live(q)]
                self.live(p) && self.live(q) && p != q implies self.task(p).memory_set.frame_set().disjoint(
                    self.task(q).memory_set.frame_set()) by {
                assert(o.live(p) && o.live(q));
                if p == c {
                    assert(task_ok(o.task(q), q, o.frames()));
                }
                if q == c {
                    assert(task_ok(o.task(p), p, o.frames()));
                }
            }
            assert forall|k: int|
                0 <= k < self.queue().len() implies self.live(#[trigger] self.queue()[k] as int) && self.status(
                    self.queue()[k] as int) == TaskStatus::Ready by {
                assert(o.live(o.queue()[k] as int));
            }
            assert forall|p: int| #[trigger] self.live(p) && self.status(p) == TaskStatus::Ready implies self.queue().contains(p as usize) by {
                assert(o.live(p));
            }
            assert forall|p: int| #[trigger] self.live(p) && self.status(p) == TaskStatus::Running implies self.current() == Some(p as usize) by {
                assert(o.live(p));
            }
            assert(self.frames().mem() == mem2);
            assert forall|p: int| 0 <= p < o.tasks().len() && p != c implies #[trigger] self.tasks()[p] == o.tasks()[p] by {}
            // the pointer array, the strings, and the segments
            let nn = n as int;
            assert forall|k: int| 0 <= k < 8 implies #[trigger] ms_g.byte_at(mem2, argv_base(top, nn) + 8 * nn + k) == Some(0u8) by {
                assert(zero@[k] == word_byte(0, k as nat));
                assert(0int / crate::memory_set::pow256(k as nat) == 0) by {
                    crate::memory_set::lemma_pow256_pos(k as nat);
                }
            }
            assert forall|i: int, k: int|
                0 <= i < nn && 0 <= k < 8 implies #[trigger] ms_g.byte_at(mem2, argv_base(top, nn) + 8 * i + k) == Some(
                    word_byte(arg_addr(a, top, i), k as nat)) by {
                assert(ms_g.byte_at(mem_before, argv + 8 * i + k) == Some(word_byte(arg_addr(a, top, i), k as nat)));
            }
            assert forall|i: int, k: int|
                0 <= i < nn && 0 <= k < a[i].len() implies #[trigger] ms_g.byte_at(mem2, arg_addr(a, top, i) + k) == Some(a[i][k]) by {
                lemma_strings_len_mono(a, i + 1, nn);
                lemma_strings_len_mono(a, 0, i);
                assert(ms_g.byte_at(mem_before, arg_addr(a, top, i) + k) == Some(a[i][k]));
            }
            assert forall|i: int| 0 <= i < nn implies #[trigger] ms_g.byte_at(mem2, arg_addr(a, top, i) + a[i].len()) == Some(0u8) by {
                lemma_strings_len_mono(a, i + 1, nn);
                lemma_strings_len_mono(a, 0, i);
                assert(ms_g.byte_at(mem_before, arg_addr(a, top, i) + a[i].len()) == Some(0u8));
            }
            assert forall|i: int, va: int|
                #![trigger seg_is_load(s, i), ms_g.translate_spec(va)]
                0 <= i < ph_count(s) && seg_is_load(s, i) && seg_start(s, i) <= va < seg_end(s, i)
                    implies ms_g.translate_spec(va) is Some && ms_g.translate_spec(va)->Some_0.1 == seg_perm(s, i)
                    && ms_g.byte_at(mem2, va) == Some(seg_byte(s, i, va)) by {
                crate::memory_set::lemma_seg_below_stack(s, i);
                assert(ms_g.byte_at(mem_before, va) == ms_g.byte_at(mem1, va));
            }
            assert(exec_sp(a, top) == sp);
            lemma_pow256_8();
            assert forall|i: int| 0 <= i < nn implies #[trigger] le_value(ms_g, mem2, argv_base(top, nn) + 8 * i, 8) == arg_addr(a, top, i) by {
                let va = argv_base(top, nn) + 8 * i;
                let v = arg_addr(a, top, i);
                assert forall|k: int| 0 <= k < 8 implies #[trigger] ms_g.byte_at(mem2, va + k) == Some(word_byte(v, k as nat)) by {
                    assert(ms_g.byte_at(mem2, argv_base(top, nn) + 8 * i + k) == Some(word_byte(v, k as nat)));
                }
                lemma_strings_len_mono(a, i + 1, nn);
                lemma_strings_len_mono(a, 0, i);
                crate::memory_set::lemma_le_value(ms_g, mem2, va, v, 8);
                vstd::arithmetic::div_mod::lemma_small_mod(v as nat, 0x1_0000_0000_0000_0000nat);
            }
            {
                let va = argv_base(top, nn) + 8 * nn;
                assert forall|k: int| 0 <= k < 8 implies #[trigger] ms_g.byte_at(mem2, va + k) == Some(word_byte(0, k as nat)) by {
                    assert(ms_g.byte_at(mem2, argv_base(top, nn) + 8 * nn + k) == Some(0u8));
                    crate::memory_set::lemma_pow256_pos(k as nat);
                }
                crate::memory_set::lemma_le_value(ms_g, mem2, va, 0, 8);
            }
        }
        n as isize
    }
}


/// File descriptor of the console output.
pub const FD_STDOUT: usize = 1;

impl Kernel {
    /// The address space of live process `pid`.
    pub fn memory_set_of(&self, pid: usize) -> (r: &MemorySet)
        requires
            self.live(pid as int),
        ensures
            *r == self.task(pid as int).memory_set,
    {
        match &self.tasks[pid] {
            Some(t) => &t.memory_set,
            None => {
                proof {
                    assert(false);
                }
                &self.tasks[pid].as_ref().unwrap().memory_set
            },
        }
    }

    /// The saved user registers of live process `pid`.
    pub fn trap_cx_of(&self, pid: usize) -> (r: TrapFrame)
        requires
            self.live(pid as int),
        ensures
            r == self.task(pid as int).trap_cx,
    {
        self.memory_set_of(pid);
        match &self.tasks[pid] {
            Some(t) => t.trap_cx,
            None => TrapFrame::app_init_context(0, 0),
        }
    }

    /// The saved kernel context of live process `pid`, and the page-table root
    /// that a switch into it installs.
    pub fn switch_target(&self, pid: usize) -> (r: (KContext, usize))
        requires
            self.live(pid as int),
        ensures
            r.0 == self.task(pid as int).task_cx,
            r.1 == self.task(pid as int).memory_set.root(),
    {
        let ms = self.memory_set_of(pid);
        let token = ms.token();
        match &self.tasks[pid] {
            Some(t) => (t.task_cx, token),
            None => (KContext::blank(), token),
        }
    }

    /// The status of slot `pid`, if a process holds it.
    pub fn status_of(&self, pid: usize) -> (r: Option<TaskStatus>)
        ensures
            r == if self.live(pid as int) {
                Some(self.status(pid as int))
            } else {
                None
            },
    {
        if pid < self.tasks.len() {
            match &self.tasks[pid] {
                Some(t) => Some(t.task_status),
                None => None,
            }
        } else {
            None
        }
    }

    /// The page-table root that address translation uses now.
    pub fn active_page_table(&self) -> (r: usize)
        ensures
            r == self.active_root(),
    {
        self.processor.active_root()
    }

    /// The task that the processor runs, if any.
    pub fn current_task(&self) -> (r: Option<usize>)
        ensures
            r == self.current(),
    {
        self.processor.current()
    }

    /// Everything written to the console so far.
    pub fn console_output(&self) -> (r: &Vec<u8>)
        ensures
            r@ == self.console(),
    {
        &self.console
    }

    /// The byte at `va` in the address space of live process `pid`.
    pub fn read_user_byte(&self, pid: usize, va: usize) -> (r: Option<u8>)
        requires
            self.wf(),
            self.live(pid as int),
        ensures
            r == self.task(pid as int).memory_set.byte_at(self.frames().mem(), va as int),
    {
        let ms = self.memory_set_of(pid);
        proof {
            lemma_task_fits(self, pid as int);
        }
        ms.read_byte(&self.frames, va)
    }

    /// Writes `b` at `va` in the address space of live process `pid`; returns
    /// whether `va` is mapped there. Only that process's memory changes.
    pub fn write_user_byte(&mut self, pid: usize, va: usize, b: u8) -> (r: bool)
        requires
            old(self).wf(),
            old(self).live(pid as int),
        ensures
            final(self).wf(),
            final(self).tasks() == old(self).tasks(),
            final(self).queue() == old(self).queue(),
            final(self).current() == old(self).current(),
            final(self).console() == old(self).console(),
            final(self).frames().allocated() == old(self).frames().allocated(),
            r == (old(self).task(pid as int).memory_set.translate_spec(va as int) is Some),
            r ==> final(self).task(pid as int).memory_set.byte_at(final(self).frames().mem(), va as int) == Some(b),
            forall|w: int|
                w != va ==> #[trigger] final(self).task(pid as int).memory_set.byte_at(final(self).frames().mem(), w)
                    == old(self).task(pid as int).memory_set.byte_at(old(self).frames().mem(), w),
            forall|p: int, w: int|
                #![trigger final(self).task(p).memory_set.byte_at(final(self).frames().mem(), w)]
                old(self).live(p) && p != pid ==> final(self).task(p).memory_set.byte_at(final(self).frames().mem(), w)
                    == old(self).task(p).memory_set.byte_at(old(self).frames().mem(), w),
    {
        let ghost o = *self;
        proof {
            lemma_task_fits(self, pid as int);
            self.frames.lemma_wf();
        }
        let ok = match &self.tasks[pid] {
            Some(t) => {
                let ms = &t.memory_set;
                if ms.translate(va).is_some() {
                    let one: [u8; 1] = [b];
                    ms.write_bytes(&mut self.frames, va, one.as_slice());
                    true
                } else {
                    false
                }
            },
            None => false,
        };
        proof {
            let ms = o.task(pid as int).memory_set;
            assert forall|p: int| #[trigger] self.live(p) implies task_ok(self.task(p), p, self.frames()) by {
                assert(o.live(p));
            }
            assert forall|p: int, q: int|
                #![trigger self.live(p), self.live(q)]
                self.live(p) && self.live(q) && p != q implies self.task(p).memory_set.frame_set().disjoint(
                    self.task(q).memory_set.frame_set()) by {
                assert(o.live(p) && o.live(q));
            }
            assert forall|p: int| #[trigger] self.live(p) && self.status(p) == TaskStatus::Ready implies self.queue().contains(p as usize) by {
                assert(o.live(p));
            }
            assert forall|p: int| #[trigger] self.live(p) && self.status(p) == TaskStatus::Running implies self.current() == Some(p as usize) by {
                assert(o.live(p));
            }
            assert forall|p: int, w: int|
                #![trigger self.task(p).memory_set.byte_at(self.frames().mem(), w)]
                o.live(p) && p != pid implies self.task(p).memory_set.byte_at(self.frames().mem(), w)
                    == o.task(p).memory_set.byte_at(o.frames().mem(), w) by {
                let other = o.task(p).memory_set;
                lemma_task_fits(&o, p);
                assert(agree_on(o.frames().mem(), self.frames().mem(), other.frame_set())) by {
                    assert forall|q: usize, j: int|
                        #![trigger other.frame_set().contains(q), self.frames().mem()[j]]
                        other.frame_set().contains(q) && in_frame(j, q as int) && 0 <= j < o.frames().mem().len()
                            implies o.frames().mem()[j] == self.frames().mem()[j] by {
                        assert(!ms.frame_set().contains(q));
                    }
                }
                other.lemma_byte_at_agree(o.frames().mem(), self.frames().mem());
            }
        }
        ok
    }

    /// Handles `write(fd, buf, len)` of the current process: when `fd` holds
    /// the console output, the `len` bytes at `buf` in its address space are
    /// appended to the console output and `len` is returned; -1 for any other
    /// descriptor or when a byte is not mapped, with nothing written.
    pub fn sys_write(&mut self, fd: usize, buf: usize, len: usize) -> (r: isize)
        requires
            old(self).wf(),
            old(self).current() is Some,
            len <= isize::MAX,
            buf + len <= usize::MAX,
        ensures
            final(self).wf(),
            final(self).tasks() == old(self).tasks(),
            final(self).frames() == old(self).frames(),
            final(self).queue() == old(self).queue(),
            final(self).current() == old(self).current(),
            ({
                let ms = old(self).task(old(self).current()->Some_0 as int).memory_set;
                let mem = old(self).frames().mem();
                let files = old(self).task(old(self).current()->Some_0 as int).fd_table@;
                let ok = fd < files.len() && files[fd as int] == Some(OpenFile::Stdout) && forall|k: int|
                    0 <= k < len ==> (#[trigger] ms.byte_at(mem, buf + k)) is Some;
                &&& ok ==> r == len && final(self).console() == old(self).console() + Seq::new(
                    len as nat,
                    |k: int| ms.byte_at(mem, buf + k)->Some_0,
                )
                &&& !ok ==> r == -1 && final(self).console() == old(self).console()
            }),
    {
        let cur = self.processor.current().unwrap();
        proof {
            assert(self.live(cur as int));
        }
        let ghost ms_g = self.task(cur as int).memory_set;
        let ghost mem = self.frames().mem();
        let console_out = match &self.tasks[cur] {
            Some(t) => fd < t.fd_table.len() && t.fd_table[fd] == Some(OpenFile::Stdout),
            None => false,
        };
        if !console_out {
            return -1;
        }
        let mut bytes: Vec<u8> = Vec::new();
        let mut k: usize = 0;
        while k < len
            invariant
                self.wf(),
                *self == *old(self),
                self.live(cur as int),
                cur == old(self).current()->Some_0,
                ms_g == self.task(cur as int).memory_set,
                mem == self.frames().mem(),
                k <= len,
                buf + len <= usize::MAX,
                bytes@.len() == k,
                forall|j: int| 0 <= j < k ==> (#[trigger] ms_g.byte_at(mem, buf + j)) == Some(bytes@[j]),
            decreases len - k,
        {
            match self.read_user_byte(cur, buf + k) {
                Some(b) => bytes.push(b),
                None => {
                    proof {
                        assert(ms_g.byte_at(mem, buf + k) is None);
                    }
                    return -1;
                },
            }
            k = k + 1;
        }
        let ghost before = self.console@;
        self.console.extend_from_slice(bytes.as_slice());
        proof {
            assert(self.console@ =~= before + Seq::new(len as nat, |k: int| ms_g.byte_at(mem, buf + k)->Some_0));
            lemma_wf_same(&*old(self), &*self);
        }
        len as isize
    }

    /// Handles `yield`: see `suspend_current_and_run_next`. Returns the task that runs now.
    pub fn sys_yield(&mut self) -> (r: usize)
        requires
            old(self).wf(),
            old(self).current() is Some,
        ensures
            final(self).wf(),
            final(self).frames() == old(self).frames(),
            ({
                let q = old(self).queue().push(old(self).current()->Some_0);
                &&& r == q[0]
                &&& final(self).current() == Some(r)
                &&& final(self).queue() == q.drop_first()
            }),
            ({
                let c = old(self).current()->Some_0 as int;
                final(self).tasks() == old(self).tasks().update(c, Some(with_status(old(self).task(c), TaskStatus::Ready))).update(
                    r as int,
                    Some(with_status(old(self).task(r as int), TaskStatus::Running)),
                )
            }),
    {
        self.suspend_current_and_run_next()
    }

    /// Handles `exit(code)`: see `exit_current_and_run_next`. Returns the task
    /// that runs now, if any.
    pub fn sys_exit(&mut self, exit_code: i32) -> (r: Option<usize>)
        requires
            old(self).wf(),
            old(self).current() is Some,
        ensures
            final(self).wf(),
            ({
                let c = old(self).current()->Some_0 as int;
                &&& final(self).live(c)
                &&& final(self).status(c) == TaskStatus::Exited
                &&& final(self).task(c).exit_code == exit_code
                &&& final(self).task(c) == (TaskControlBlock {
                    task_status: TaskStatus::Exited,
                    exit_code,
                    memory_set: final(self).task(c).memory_set,
                    ..orphaned(old(self).task(c), c as usize)
                })
                &&& forall|p: int|
                    #![trigger final(self).tasks()[p]]
                    0 <= p < old(self).tasks().len() ==> (final(self).tasks()[p] is Some) == (old(self).tasks()[p] is Some)
                &&& forall|p: int|
                    #![trigger final(self).task(p)]
                    old(self).live(p) && p != c ==> final(self).task(p) == if r == Some(p as usize) {
                        with_status(orphaned(old(self).task(p), c as usize), TaskStatus::Running)
                    } else {
                        orphaned(old(self).task(p), c as usize)
                    }
            }),
            final(self).tasks().len() == old(self).tasks().len(),
            old(self).queue().len() == 0 ==> r is None && final(self).current() is None,
            old(self).queue().len() > 0 ==> r == Some(old(self).queue()[0]) && final(self).current() == r
                && final(self).queue() == old(self).queue().drop_first(),
    {
        self.exit_current_and_run_next(exit_code)
    }
}

/// Handles `get_time`: the clock's reading in milliseconds, `now_ms`, capped at `isize::MAX`.
pub fn sys_get_time(now_ms: usize) -> (r: isize)
    ensures
        r == if now_ms <= isize::MAX {
            now_ms as isize
        } else {
            isize::MAX
        },
{
    if now_ms <= isize::MAX as usize {
        now_ms as isize
    } else {
        isize::MAX
    }
}

/// A live process's frames all lie in physical memory.
pub proof fn lemma_task_fits(k: &Kernel, p: int)
    requires
        k.wf(),
        k.live(p),
    ensures
        k.task(p).memory_set.fits(k.frames().mem()),
        k.task(p).memory_set.wf(),
        k.task(p).memory_set.frame_set().subset_of(k.frames().allocated()),
{
    k.frames().lemma_wf();
    assert(task_ok(k.task(p), p, k.frames()));
    assert forall|f: usize| #[trigger] k.task(p).memory_set.frame_set().contains(f) implies (f + 1) * PAGE_SIZE <= k.frames().mem().len() by {
        assert(k.frames().allocated().contains(f));
        assert(k.frames().arena().contains(f));
    }
}


impl Kernel {
    /// Replaces the saved user registers of live process `pid`.
    pub fn set_trap_cx(&mut self, pid: usize, tf: TrapFrame)
        requires
            old(self).wf(),
            old(self).live(pid as int),
        ensures
            final(self).wf(),
            final(self).tasks() == old(self).tasks().update(pid as int, Some(TaskControlBlock { trap_cx: tf, ..old(self).task(pid as int) })),
            final(self).frames() == old(self).frames(),
            final(self).queue() == old(self).queue(),
            final(self).current() == old(self).current(),
            final(self).console() == old(self).console(),
    {
        let mut t = self.take_slot(pid);
        t.trap_cx = tf;
        self.tasks[pid] = Some(t);
        proof {
            let o = *old(self);
            assert(self.tasks@ =~= o.tasks@.update(pid as int, Some(TaskControlBlock { trap_cx: tf, ..o.task(pid as int) })));
            assert forall|p: int| #[trigger] self.live(p) implies task_ok(self.task(p), p, self.frames()) by {
                assert(o.live(p));
            }
            assert forall|p: int, q: int|
                #![trigger self.live(p), self.live(q)]
                self.live(p) && self.live(q) && p != q implies self.task(p).memory_set.frame_set().disjoint(
                    self.task(q).memory_set.frame_set()) by {
                assert(o.live(p) && o.live(q));
            }
            assert forall|k: int|
                0 <= k < self.queue().len() implies self.live(#[trigger] self.queue()[k] as int) && self.status(
                    self.queue()[k] as int) == TaskStatus::Ready by {
                assert(o.live(o.queue()[k] as int));
            }
            assert forall|p: int| #[trigger] self.live(p) && self.status(p) == TaskStatus::Ready implies self.queue().contains(p as usize) by {
                assert(o.live(p));
            }
            assert forall|p: int| #[trigger] self.live(p) && self.status(p) == TaskStatus::Running implies self.current() == Some(p as usize) by {
                assert(o.live(p));
            }
        }
    }
}


impl Kernel {
    /// The page-table root of the current task's address space.
    pub fn current_user_token(&self) -> (r: usize)
        requires
            self.wf(),
            self.current() is Some,
        ensures
            r == self.task(self.current()->Some_0 as int).memory_set.root(),
    {
        let c = self.processor.current().unwrap();
        proof {
            assert(self.live(c as int));
        }
        self.switch_target(c).1
    }

    /// The zero-terminated string at `va` in the address space of live process
    /// `pid`, without its terminator; `None` when an address before the
    /// terminator is not mapped.
    pub fn translated_str(&self, pid: usize, va: usize) -> (r: Option<Vec<u8>>)
        requires
            self.wf(),
            self.live(pid as int),
        ensures
            ({
                let ms = self.task(pid as int).memory_set;
                let mem = self.frames().mem();
                &&& r is Some ==> {
                    let s = r->Some_0@;
                    &&& forall|k: int| 0 <= k < s.len() ==> #[trigger] ms.byte_at(mem, va + k) == Some(s[k]) && s[k] != 0
                    &&& ms.byte_at(mem, va + s.len()) == Some(0u8)
                }
                &&& r is None ==> exists|n: int|
                    n >= 0 && (#[trigger] ms.byte_at(mem, va + n)) is None && forall|k: int|
                        0 <= k < n ==> (#[trigger] ms.byte_at(mem, va + k)) is Some && ms.byte_at(mem, va + k)->Some_0 != 0
            }),
    {
        let ghost ms = self.task(pid as int).memory_set;
        let ghost mem = self.frames().mem();
        let mut out: Vec<u8> = Vec::new();
        let mut addr: usize = va;
        proof {
            lemma_task_fits(self, pid as int);
        }
        loop
            invariant
                self.wf(),
                self.live(pid as int),
                ms == self.task(pid as int).memory_set,
                mem == self.frames().mem(),
                ms.wf(),
                addr == va + out@.len(),
                forall|k: int| 0 <= k < out@.len() ==> #[trigger] ms.byte_at(mem, va + k) == Some(out@[k]) && out@[k] != 0,
                out@.len() == 0 || addr <= USER_SPACE_END,
            decreases USER_SPACE_END + 1 - out@.len(),
        {
            match self.read_user_byte(pid, addr) {
                None => {
                    proof {
                        assert(ms.byte_at(mem, va + out@.len()) is None);
                    }
                    return None;
                },
                Some(b) => {
                    if b == 0 {
                        return Some(out);
                    }
                    proof {
                        ms.lemma_translate(addr as int);
                        let i = area_index(ms.areas(), addr as int);
                        assert(ms.areas()[i].wf());
                    }
                    out.push(b);
                    addr = addr + 1;
                    proof {
                        assert forall|k: int| 0 <= k < out@.len() implies #[trigger] ms.byte_at(mem, va + k) == Some(out@[k]) && out@[k] != 0 by {
                        }
                    }
                },
            }
        }
    }
}


impl Kernel {
    /// The current task waits for an event: it is marked blocked, kept out of
    /// the ready queue, and the head of the queue runs next. Returns the task
    /// that runs now, or `None` when no task is ready.
    pub fn block_current_and_run_next(&mut self) -> (r: Option<usize>)
        requires
            old(self).wf(),
            old(self).current() is Some,
        ensures
            final(self).wf(),
            final(self).frames() == old(self).frames(),
            final(self).console() == old(self).console(),
            ({
                let c = old(self).current()->Some_0 as int;
                let q = old(self).queue();
                &&& final(self).live(c)
                &&& final(self).status(c) == TaskStatus::Blocked
                &&& q.len() == 0 ==> r is None && final(self).current() is None && final(self).queue() == q
                &&& q.len() > 0 ==> r == Some(q[0]) && final(self).current() == r && final(self).queue() == q.drop_first()
                &&& final(self).tasks() == if q.len() > 0 {
                    old(self).tasks().update(c, Some(with_status(old(self).task(c), TaskStatus::Blocked))).update(
                        q[0] as int,
                        Some(with_status(old(self).task(q[0] as int), TaskStatus::Running)),
                    )
                } else {
                    old(self).tasks().update(c, Some(with_status(old(self).task(c), TaskStatus::Blocked)))
                }
            }),
    {
        let cur = self.processor.take_current().unwrap();
        self.processor.activate(self.boot_root);
        proof {
            assert(old(self).live(cur as int));
        }
        self.set_status(cur, TaskStatus::Blocked);
        proof {
            let o = *old(self);
            assert forall|p: int| #[trigger] self.live(p) implies task_ok(self.task(p), p, self.frames()) by {
                assert(o.live(p));
            }
            assert forall|p: int, q: int|
                #![trigger self.live(p), self.live(q)]
                self.live(p) && self.live(q) && p != q implies self.task(p).memory_set.frame_set().disjoint(
                    self.task(q).memory_set.frame_set()) by {
                assert(o.live(p) && o.live(q));
            }
            assert forall|i: int|
                0 <= i < self.queue().len() implies self.live(#[trigger] self.queue()[i] as int) && self.status(
                    self.queue()[i] as int) == TaskStatus::Ready by {
                assert(o.live(o.queue()[i] as int));
            }
            assert forall|p: int| #[trigger] self.live(p) && self.status(p) == TaskStatus::Ready implies self.queue().contains(p as usize) by {
                assert(o.live(p));
            }
            assert forall|p: int| #[trigger] self.live(p) && self.status(p) == TaskStatus::Running implies self.current() == Some(p as usize) by {
                assert(o.live(p));
            }
        }
        let ghost mid = *self;
        let r = self.run_next();
        proof {
            let q = old(self).queue();
            if q.len() > 0 {
                assert(q[0] != cur);
                assert(self.tasks()[cur as int] == mid.tasks()[cur as int]);
                assert(old(self).live(q[0] as int));
                assert(mid.task(q[0] as int) == old(self).task(q[0] as int));
            }
        }
        r
    }

    /// The event that blocked task `pid` awaits has come: it is marked ready
    /// and queued at the tail.
    pub fn wakeup_task(&mut self, pid: usize)
        requires
            old(self).wf(),
            old(self).live(pid as int),
            old(self).status(pid as int) == TaskStatus::Blocked,
        ensures
            final(self).wf(),
            final(self).frames() == old(self).frames(),
            final(self).console() == old(self).console(),
            final(self).current() == old(self).current(),
            final(self).queue() == old(self).queue().push(pid),
            final(self).tasks() == old(self).tasks().update(
                pid as int,
                Some(with_status(old(self).task(pid as int), TaskStatus::Ready)),
            ),
    {
        self.set_status(pid, TaskStatus::Ready);
        self.manager.add(pid);
        proof {
            let o = *old(self);
            assert forall|p: int| #[trigger] self.live(p) implies task_ok(self.task(p), p, self.frames()) by {
                assert(o.live(p));
            }
            assert forall|p: int, q: int|
                #![trigger self.live(p), self.live(q)]
                self.live(p) && self.live(q) && p != q implies self.task(p).memory_set.frame_set().disjoint(
                    self.task(q).memory_set.frame_set()) by {
                assert(o.live(p) && o.live(q));
            }
            assert forall|i: int|
                0 <= i < self.queue().len() implies self.live(#[trigger] self.queue()[i] as int) && self.status(
                    self.queue()[i] as int) == TaskStatus::Ready by {
                if i < o.queue().len() {
                    assert(self.queue()[i] == o.queue()[i]);
                    assert(o.live(o.queue()[i] as int));
                }
            }
            assert forall|i: int, j: int|
                0 <= i < j < self.queue().len() implies #[trigger] self.queue()[i] != #[trigger] self.queue()[j] by {
                assert(self.queue()[i] == o.queue()[i]);
                if j < o.queue().len() {
                    assert(self.queue()[j] == o.queue()[j]);
                } else {
                    assert(o.live(o.queue()[i] as int));
                }
            }
            assert forall|p: int| #[trigger] self.live(p) && self.status(p) == TaskStatus::Ready implies self.queue().contains(p as usize) by {
                if p != pid {
                    assert(o.live(p));
                    let i = choose|i: int| 0 <= i < o.queue().len() && o.queue()[i] == p as usize;
                    assert(self.queue()[i] == p as usize);
                } else {
                    assert(self.queue()[self.queue().len() - 1] == p as usize);
                }
            }
            assert forall|p: int| #[trigger] self.live(p) && self.status(p) == TaskStatus::Running implies self.current() == Some(p as usize) by {
                assert(o.live(p));
            }
            if self.current() is Some {
                assert(o.live(o.current()->Some_0 as int));
            }
        }
    }
}

} // verus!
