use crate::task::KContext;
use vstd::prelude::*;

verus! {

/// The one processor: the task it runs, if any, and the saved context of its
/// idle loop, which every switch out of a task returns to.
pub struct Processor {
    current: Option<usize>,
    idle_task_cx: KContext,
    active_root: usize,
}

impl Processor {
    pub closed spec fn current_spec(&self) -> Option<usize> {
        self.current
    }

    pub closed spec fn idle_cx(&self) -> KContext {
        self.idle_task_cx
    }

    /// The page-table root that address translation uses now.
    pub closed spec fn root_spec(&self) -> usize {
        self.active_root
    }

    /// An idle processor translating through page table `root`.
    pub fn new(root: usize) -> (r: Self)
        ensures
            r.current_spec() is None,
            r.idle_cx() == (KContext { pc: 0, sp: 0, tp: 0 }),
            r.root_spec() == root,
    {
        Processor { current: None, idle_task_cx: KContext::blank(), active_root: root }
    }

    /// Installs `root` as the page-table root.
    pub fn activate(&mut self, root: usize)
        ensures
            final(self).root_spec() == root,
            final(self).current_spec() == old(self).current_spec(),
            final(self).idle_cx() == old(self).idle_cx(),
    {
        self.active_root = root;
    }

    pub fn active_root(&self) -> (r: usize)
        ensures
            r == self.root_spec(),
    {
        self.active_root
    }

    /// Clears the current slot and returns what it held.
    pub fn take_current(&mut self) -> (r: Option<usize>)
        ensures
            r == old(self).current_spec(),
            final(self).current_spec() is None,
            final(self).idle_cx() == old(self).idle_cx(),
            final(self).root_spec() == old(self).root_spec(),
    {
        self.current.take()
    }

    pub fn current(&self) -> (r: Option<usize>)
        ensures
            r == self.current_spec(),
    {
        self.current
    }

    pub fn set_current(&mut self, task: usize)
        ensures
            final(self).current_spec() == Some(task),
            final(self).idle_cx() == old(self).idle_cx(),
            final(self).root_spec() == old(self).root_spec(),
    {
        self.current = Some(task);
    }

    /// The saved context of the idle loop.
    pub fn get_idle_task_cx(&self) -> (r: KContext)
        ensures
            r == self.idle_cx(),
    {
        self.idle_task_cx
    }
}

} // verus!
