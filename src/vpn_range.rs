use crate::config::PAGE_SIZE;
use vstd::prelude::*;

verus! {

/// A page-aligned range of virtual addresses `[l, r)`.
#[derive(Clone, Copy, Debug)]
pub struct VAddrRange {
    l: usize,
    r: usize,
}

impl VAddrRange {
    pub closed spec fn start(&self) -> usize {
        self.l
    }

    pub closed spec fn end(&self) -> usize {
        self.r
    }

    pub fn new(start: usize, end: usize) -> (r: Self)
        requires
            start <= end,
        ensures
            r.start() == start,
            r.end() == end,
    {
        VAddrRange { l: start, r: end }
    }

    pub fn get_start(&self) -> (r: usize)
        ensures
            r == self.start(),
    {
        self.l
    }

    pub fn get_end(&self) -> (r: usize)
        ensures
            r == self.end(),
    {
        self.r
    }

    /// Walks the page addresses of the range, from the lowest.
    pub fn iter(&self) -> (r: SimpleRangeIterator)
        requires
            self.start() <= self.end(),
            (self.end() - self.start()) % (PAGE_SIZE as int) == 0,
        ensures
            r.wf(),
            r.current() == self.start(),
            r.last() == self.end(),
    {
        SimpleRangeIterator::new(self.l, self.r)
    }
}

/// Yields `l, l + PAGE_SIZE, ...` up to, and without, `r`.
pub struct SimpleRangeIterator {
    current: usize,
    end: usize,
}

impl SimpleRangeIterator {
    pub closed spec fn current(&self) -> usize {
        self.current
    }

    pub closed spec fn last(&self) -> usize {
        self.end
    }

    pub closed spec fn wf(&self) -> bool {
        self.current <= self.end && (self.end - self.current) % (PAGE_SIZE as int) == 0
    }

    pub fn new(l: usize, r: usize) -> (it: Self)
        requires
            l <= r,
            (r - l) % (PAGE_SIZE as int) == 0,
        ensures
            it.wf(),
            it.current() == l,
            it.last() == r,
    {
        SimpleRangeIterator { current: l, end: r }
    }

    pub fn next(&mut self) -> (r: Option<usize>)
        requires
            old(self).wf(),
        ensures
            final(self).wf(),
            final(self).last() == old(self).last(),
            old(self).current() == old(self).last() ==> r is None && final(self).current() == old(self).current(),
            old(self).current() != old(self).last() ==> r == Some(old(self).current())
                && final(self).current() == old(self).current() + PAGE_SIZE,
    {
        if self.current == self.end {
            None
        } else {
            let t = self.current;
            self.current = self.current + PAGE_SIZE;
            Some(t)
        }
    }
}

} // verus!
