use crate::config::PAGE_SIZE;
use vstd::prelude::*;

verus! {

/// Single-owner handle of one physical frame, named by its frame number.
pub struct FrameTracker {
    pub ppn: usize,
}

/// Byte index range of frame `ppn` in physical memory.
pub open spec fn in_frame(i: int, ppn: int) -> bool {
    ppn * PAGE_SIZE <= i < ppn * PAGE_SIZE + PAGE_SIZE
}

/// `new` is `old` with frame `ppn` filled with zeros.
pub open spec fn frame_zeroed(old: Seq<u8>, new: Seq<u8>, ppn: int) -> bool {
    &&& new.len() == old.len()
    &&& forall|i: int| 0 <= i < new.len() ==> #[trigger] new[i] == (if in_frame(i, ppn) { 0u8 } else { old[i] })
}

/// `m1` and `m2` have the same length and the same bytes in every frame of `frames`.
pub open spec fn agree_on(m1: Seq<u8>, m2: Seq<u8>, frames: Set<usize>) -> bool {
    &&& m1.len() == m2.len()
    &&& forall|p: usize, i: int|
        #![trigger frames.contains(p), m2[i]]
        frames.contains(p) && in_frame(i, p as int) && 0 <= i < m1.len() ==> m1[i] == m2[i]
}

/// Every byte of frame `ppn` reads as zero.
pub open spec fn frame_is_zero(mem: Seq<u8>, ppn: int) -> bool {
    forall|i: int| in_frame(i, ppn) ==> #[trigger] mem[i] == 0u8
}

/// Physical frames `[start, end)` with their bytes.
///
/// Never-used frames are handed out from a cursor that only moves up; freed
/// frames go to a recycle list that is served first.
pub struct FrameAllocator {
    start: usize,
    current: usize,
    end: usize,
    recycled: Vec<usize>,
    mem: Vec<u8>,
}

impl FrameAllocator {
    pub closed spec fn wf(&self) -> bool {
        &&& self.start <= self.current <= self.end
        &&& self.end * PAGE_SIZE == self.mem@.len()
        &&& self.mem@.len() <= usize::MAX
        &&& forall|i: int| 0 <= i < self.recycled@.len() ==> self.start <= #[trigger] self.recycled@[i] < self.current
        &&& forall|i: int, j: int|
            0 <= i < j < self.recycled@.len() ==> #[trigger] self.recycled@[i] != #[trigger] self.recycled@[j]
    }

    /// `self` and `other` agree on everything but the bytes of memory.
    pub closed spec fn same_bookkeeping(&self, other: &FrameAllocator) -> bool {
        &&& self.start == other.start
        &&& self.current == other.current
        &&& self.end == other.end
        &&& self.recycled@ == other.recycled@
    }

    pub proof fn lemma_same_bookkeeping(&self, b: &FrameAllocator, c: &FrameAllocator)
        ensures
            self.same_bookkeeping(self),
            self.same_bookkeeping(b) && b.same_bookkeeping(c) ==> self.same_bookkeeping(c),
            self.same_bookkeeping(b) ==> {
                &&& b.same_bookkeeping(self)
                &&& self.arena() == b.arena()
                &&& self.allocated() == b.allocated()
                &&& self.free_count() == b.free_count()
                &&& self.run_capacity() == b.run_capacity()
                &&& self.next_free() == b.next_free()
            },
            self.same_bookkeeping(b) && self.wf() && self.mem().len() == b.mem().len() ==> b.wf(),
    {
    }

    /// The frames that this allocator manages.
    pub closed spec fn arena(&self) -> Set<usize> {
        Set::new(|p: usize| self.start <= p < self.end)
    }

    /// The frames handed out and not yet given back.
    pub closed spec fn allocated(&self) -> Set<usize> {
        Set::new(|p: usize| self.start <= p < self.current && !self.recycled@.contains(p))
    }

    /// Number of frames that can still be handed out one at a time.
    pub closed spec fn free_count(&self) -> nat {
        ((self.end - self.current) + self.recycled@.len()) as nat
    }

    /// Number of never-used frames left above the cursor, the only source of runs.
    pub closed spec fn run_capacity(&self) -> nat {
        (self.end - self.current) as nat
    }

    /// The first never-used frame.
    pub closed spec fn cursor(&self) -> usize {
        self.current
    }

    /// The freed frames waiting for reuse; the last one is served first.
    pub closed spec fn recycled(&self) -> Seq<usize> {
        self.recycled@
    }

    pub proof fn lemma_next_free(&self)
        requires
            self.wf(),
        ensures
            self.next_free() == if self.recycled().len() > 0 {
                self.recycled().last()
            } else {
                self.cursor()
            },
            self.free_count() == self.run_capacity() + self.recycled().len(),
            self.run_capacity() == self.arena_end() - self.cursor(),
    {
    }

    /// One past the last frame of the arena.
    pub closed spec fn arena_end(&self) -> usize {
        self.end
    }

    /// The frame that the next single allocation hands out.
    pub closed spec fn next_free(&self) -> usize {
        if self.recycled@.len() > 0 {
            self.recycled@.last()
        } else {
            self.current
        }
    }

    /// The bytes of physical memory, frame `p` at `[p * PAGE_SIZE, (p + 1) * PAGE_SIZE)`.
    pub closed spec fn mem(&self) -> Seq<u8> {
        self.mem@
    }

    pub proof fn lemma_wf(&self)
        requires
            self.wf(),
        ensures
            self.allocated().subset_of(self.arena()),
            self.free_count() > 0 ==> (self.next_free() + 1) * PAGE_SIZE <= self.mem().len(),
            self.free_count() > 0 ==> self.arena().contains(self.next_free())
                && !self.allocated().contains(self.next_free()),
            forall|p: usize| #[trigger] self.arena().contains(p) ==> (p + 1) * PAGE_SIZE <= self.mem().len(),
            self.mem().len() <= usize::MAX,
    {
        if self.recycled@.len() > 0 {
            assert(self.recycled@.contains(self.recycled@.last()));
        }
        assert forall|p: usize| #[trigger] self.arena().contains(p) implies (p + 1) * PAGE_SIZE <= self.mem().len() by {
            assert(p + 1 <= self.end);
        }
    }

    /// Nothing is left to hand out exactly when every frame of the arena is allocated.
    pub proof fn lemma_exhausted(&self)
        requires
            self.wf(),
        ensures
            self.free_count() == 0 <==> self.arena().subset_of(self.allocated()),
    {
        if self.free_count() == 0 {
            assert(self.recycled@.len() == 0);
            assert forall|p: usize| self.arena().contains(p) implies self.allocated().contains(p) by {
                assert(!self.recycled@.contains(p));
            }
        } else if self.current < self.end {
            assert(self.arena().contains(self.current));
            assert(!self.allocated().contains(self.current));
        } else {
            let p = self.recycled@[0];
            assert(self.recycled@.contains(p));
            assert(self.arena().contains(p));
            assert(!self.allocated().contains(p));
        }
    }

    /// Fills frame `ppn` with zeros.
    pub fn clear_frame(&mut self, ppn: usize)
        requires
            old(self).wf(),
            (ppn + 1) * PAGE_SIZE <= old(self).mem().len(),
        ensures
            final(self).same_bookkeeping(old(self)),
            final(self).wf(),
            final(self).arena() == old(self).arena(),
            final(self).allocated() == old(self).allocated(),
            final(self).free_count() == old(self).free_count(),
            final(self).run_capacity() == old(self).run_capacity(),
            final(self).next_free() == old(self).next_free(),
            frame_zeroed(old(self).mem(), final(self).mem(), ppn as int),
    {
        let base: usize = ppn * PAGE_SIZE;
        let mut i: usize = 0;
        while i < PAGE_SIZE
            invariant
                base == ppn * PAGE_SIZE,
                base + PAGE_SIZE <= self.mem@.len(),
                i <= PAGE_SIZE,
                self.mem@.len() == old(self).mem@.len(),
                self.start == old(self).start,
                self.current == old(self).current,
                self.end == old(self).end,
                self.recycled@ == old(self).recycled@,
                forall|k: int|
                    0 <= k < self.mem@.len() ==> #[trigger] self.mem@[k] == (if base <= k < base + i {
                        0u8
                    } else {
                        old(self).mem@[k]
                    }),
            decreases PAGE_SIZE - i,
        {
            self.mem[base + i] = 0;
            i = i + 1;
        }
    }

    pub fn free_frames_exec(&self) -> (r: usize)
        requires
            self.wf(),
        ensures
            r == self.free_count(),
    {
        proof {
            assert(self.recycled@.len() <= self.current - self.start) by {
                lemma_distinct_in_range(self.recycled@, self.start as int, self.current as int);
            }
        }
        (self.end - self.current) + self.recycled.len()
    }

    /// Reads byte `i` of physical memory.
    pub fn read_byte(&self, i: usize) -> (r: u8)
        requires
            i < self.mem().len(),
        ensures
            r == self.mem()[i as int],
    {
        self.mem[i]
    }

    /// Writes byte `i` of physical memory.
    pub fn write_byte(&mut self, i: usize, b: u8)
        requires
            old(self).wf(),
            i < old(self).mem().len(),
        ensures
            final(self).same_bookkeeping(old(self)),
            final(self).wf(),
            final(self).arena() == old(self).arena(),
            final(self).allocated() == old(self).allocated(),
            final(self).free_count() == old(self).free_count(),
            final(self).run_capacity() == old(self).run_capacity(),
            final(self).next_free() == old(self).next_free(),
            final(self).mem() == old(self).mem().update(i as int, b),
    {
        self.mem[i] = b;
    }

    /// Copies frame `src` over frame `dst`.
    pub fn copy_frame(&mut self, src: usize, dst: usize)
        requires
            old(self).wf(),
            (src + 1) * PAGE_SIZE <= old(self).mem().len(),
            (dst + 1) * PAGE_SIZE <= old(self).mem().len(),
            src != dst,
        ensures
            final(self).same_bookkeeping(old(self)),
            final(self).wf(),
            final(self).arena() == old(self).arena(),
            final(self).allocated() == old(self).allocated(),
            final(self).free_count() == old(self).free_count(),
            final(self).run_capacity() == old(self).run_capacity(),
            final(self).next_free() == old(self).next_free(),
            final(self).mem().len() == old(self).mem().len(),
            forall|i: int|
                0 <= i < final(self).mem().len() ==> #[trigger] final(self).mem()[i] == (if in_frame(i, dst as int) {
                    old(self).mem()[i - dst * PAGE_SIZE + src * PAGE_SIZE]
                } else {
                    old(self).mem()[i]
                }),
    {
        let sbase: usize = src * PAGE_SIZE;
        let dbase: usize = dst * PAGE_SIZE;
        let mut i: usize = 0;
        while i < PAGE_SIZE
            invariant
                sbase == src * PAGE_SIZE,
                dbase == dst * PAGE_SIZE,
                sbase + PAGE_SIZE <= self.mem@.len(),
                dbase + PAGE_SIZE <= self.mem@.len(),
                src != dst,
                i <= PAGE_SIZE,
                self.mem@.len() == old(self).mem@.len(),
                self.start == old(self).start,
                self.current == old(self).current,
                self.end == old(self).end,
                self.recycled@ == old(self).recycled@,
                forall|k: int|
                    0 <= k < self.mem@.len() ==> #[trigger] self.mem@[k] == (if dbase <= k < dbase + i {
                        old(self).mem@[k - dbase + sbase]
                    } else {
                        old(self).mem@[k]
                    }),
            decreases PAGE_SIZE - i,
        {
            let b = self.mem[sbase + i];
            self.mem[dbase + i] = b;
            i = i + 1;
        }
    }
}

impl FrameTracker {
    /// Takes ownership of frame `ppn`, cleaning it first.
    pub fn new(fa: &mut FrameAllocator, ppn: usize) -> (r: Self)
        requires
            old(fa).wf(),
            (ppn + 1) * PAGE_SIZE <= old(fa).mem().len(),
        ensures
            final(fa).same_bookkeeping(old(fa)),
            r.ppn == ppn,
            final(fa).wf(),
            final(fa).arena() == old(fa).arena(),
            final(fa).allocated() == old(fa).allocated(),
            final(fa).free_count() == old(fa).free_count(),
            final(fa).run_capacity() == old(fa).run_capacity(),
            final(fa).next_free() == old(fa).next_free(),
            frame_zeroed(old(fa).mem(), final(fa).mem(), ppn as int),
    {
        fa.clear_frame(ppn);
        FrameTracker { ppn }
    }
}

/// A sequence of distinct values from `[lo, hi)` has at most `hi - lo` elements.
proof fn lemma_distinct_in_range(s: Seq<usize>, lo: int, hi: int)
    requires
        forall|i: int| 0 <= i < s.len() ==> lo <= #[trigger] s[i] < hi,
        forall|i: int, j: int| 0 <= i < j < s.len() ==> #[trigger] s[i] != #[trigger] s[j],
    ensures
        s.len() <= hi - lo || s.len() == 0,
    decreases s.len(),
{
    if s.len() > 0 {
        let m = s.last();
        let rest = s.drop_last();
        // shrink the range by removing `m`: map values above m down by one
        let t = rest.map_values(|v: usize| if v > m { (v - 1) as usize } else { v });
        assert forall|i: int| 0 <= i < t.len() implies lo <= #[trigger] t[i] < hi - 1 by {
            assert(rest[i] == s[i]);
            assert(s[i] != s[s.len() - 1]);
        }
        assert forall|i: int, j: int| 0 <= i < j < t.len() implies #[trigger] t[i] != #[trigger] t[j] by {
            assert(rest[i] == s[i]);
            assert(rest[j] == s[j]);
            assert(s[i] != s[s.len() - 1]);
            assert(s[j] != s[s.len() - 1]);
        }
        lemma_distinct_in_range(t, lo, hi - 1);
    }
}

proof fn lemma_drop_last_contains(s: Seq<usize>, q: usize)
    requires
        s.len() > 0,
    ensures
        s.contains(q) <==> (s.drop_last().contains(q) || s.last() == q),
{
    if s.contains(q) {
        let k = choose|k: int| 0 <= k < s.len() && s[k] == q;
        if k < s.len() - 1 {
            assert(s.drop_last()[k] == q);
        }
    }
    if s.drop_last().contains(q) {
        let k = choose|k: int| 0 <= k < s.drop_last().len() && s.drop_last()[k] == q;
        assert(s[k] == q);
    }
}

/// Builds the allocator over the frames that lie wholly inside `[mm_start, mm_end)`,
/// with all memory below `mm_end` cleaned.
pub fn add_frames_range(mm_start: usize, mm_end: usize) -> (r: FrameAllocator)
    requires
        mm_start <= mm_end,
        mm_start <= usize::MAX - PAGE_SIZE,
    ensures
        r.wf(),
        r.allocated() == Set::<usize>::empty(),
        r.arena() == Set::new(|p: usize| (mm_start + PAGE_SIZE - 1) as int / PAGE_SIZE as int <= p as int && (p as int) < mm_end as int / PAGE_SIZE as int),
        r.free_count() == r.run_capacity(),
        r.recycled().len() == 0,
        r.arena_end() == mm_end / PAGE_SIZE,
        r.cursor() == if (mm_start + PAGE_SIZE - 1) as int / PAGE_SIZE as int <= mm_end as int / PAGE_SIZE as int {
            (mm_start + PAGE_SIZE - 1) as int / PAGE_SIZE as int
        } else {
            mm_end as int / PAGE_SIZE as int
        },
        r.mem().len() == (mm_end / PAGE_SIZE) * PAGE_SIZE,
        forall|i: int| 0 <= i < r.mem().len() ==> #[trigger] r.mem()[i] == 0u8,
{
    let end: usize = mm_end / PAGE_SIZE;
    let mut start: usize = (mm_start + (PAGE_SIZE - 1)) / PAGE_SIZE;
    if start > end {
        start = end;
    }
    let mem: Vec<u8> = vec![0u8; end * PAGE_SIZE];
    let r = FrameAllocator { start, current: start, end, recycled: Vec::new(), mem };
    assert(r.allocated() =~= Set::<usize>::empty());
    assert(r.arena() =~= Set::new(|p: usize| (mm_start + PAGE_SIZE - 1) as int / PAGE_SIZE as int <= p as int && (p as int) < mm_end as int / PAGE_SIZE as int));
    r
}

/// Hands out one unused frame, cleaned: the last recycled frame if there is one,
/// else the frame at the cursor.
pub fn frame_alloc(fa: &mut FrameAllocator) -> (r: Option<FrameTracker>)
    requires
        old(fa).wf(),
    ensures
        final(fa).wf(),
        final(fa).arena() == old(fa).arena(),
        (r is Some) == (old(fa).free_count() > 0),
        r is Some ==> {
            let p = r->Some_0.ppn;
            &&& p == old(fa).next_free()
            &&& old(fa).arena().contains(p)
            &&& !old(fa).allocated().contains(p)
            &&& final(fa).allocated() == old(fa).allocated().insert(p)
            &&& final(fa).free_count() + 1 == old(fa).free_count()
            &&& final(fa).run_capacity() <= old(fa).run_capacity()
            &&& frame_zeroed(old(fa).mem(), final(fa).mem(), p as int)
            &&& frame_is_zero(final(fa).mem(), p as int)
            &&& if old(fa).recycled().len() > 0 {
                final(fa).recycled() == old(fa).recycled().drop_last() && final(fa).cursor() == old(fa).cursor()
            } else {
                final(fa).recycled() == old(fa).recycled() && final(fa).cursor() == old(fa).cursor() + 1
            }
        },
        r is None ==> *final(fa) == *old(fa),
{
    match frame_alloc_persist(fa) {
        Some(p) => Some(FrameTracker { ppn: p }),
        None => None,
    }
}

/// Hands out one unused frame, cleaned, as a bare frame number that no handle
/// tracks (for page-table nodes).
pub fn frame_alloc_persist(fa: &mut FrameAllocator) -> (r: Option<usize>)
    requires
        old(fa).wf(),
    ensures
        final(fa).wf(),
        final(fa).arena() == old(fa).arena(),
        (r is Some) == (old(fa).free_count() > 0),
        r is Some ==> {
            let p = r->Some_0;
            &&& p == old(fa).next_free()
            &&& old(fa).arena().contains(p)
            &&& !old(fa).allocated().contains(p)
            &&& final(fa).allocated() == old(fa).allocated().insert(p)
            &&& final(fa).free_count() + 1 == old(fa).free_count()
            &&& final(fa).run_capacity() <= old(fa).run_capacity()
            &&& frame_zeroed(old(fa).mem(), final(fa).mem(), p as int)
            &&& frame_is_zero(final(fa).mem(), p as int)
            &&& if old(fa).recycled().len() > 0 {
                final(fa).recycled() == old(fa).recycled().drop_last() && final(fa).cursor() == old(fa).cursor()
            } else {
                final(fa).recycled() == old(fa).recycled() && final(fa).cursor() == old(fa).cursor() + 1
            }
        },
        r is None ==> *final(fa) == *old(fa),
{
    proof {
        fa.lemma_wf();
    }
    let p: usize;
    if fa.recycled.len() > 0 {
        let last = fa.recycled.pop().unwrap();
        p = last;
        proof {
            assert(old(fa).recycled@.contains(p));
            assert forall|i: int, j: int|
                0 <= i < j < fa.recycled@.len() implies #[trigger] fa.recycled@[i] != #[trigger] fa.recycled@[j] by {
                assert(fa.recycled@[i] == old(fa).recycled@[i]);
                assert(fa.recycled@[j] == old(fa).recycled@[j]);
            }
            assert forall|i: int| 0 <= i < fa.recycled@.len() implies fa.start <= #[trigger] fa.recycled@[i] < fa.current by {
                assert(fa.recycled@[i] == old(fa).recycled@[i]);
            }
            assert(!fa.recycled@.contains(p)) by {
                if fa.recycled@.contains(p) {
                    let k = choose|k: int| 0 <= k < fa.recycled@.len() && fa.recycled@[k] == p;
                    assert(old(fa).recycled@[k] == old(fa).recycled@[old(fa).recycled@.len() - 1]);
                }
            }
            assert(fa.recycled@ =~= old(fa).recycled@.drop_last());
            assert(fa.allocated() =~= old(fa).allocated().insert(p)) by {
                let last_i = old(fa).recycled@.len() - 1;
                assert(old(fa).recycled@[last_i] == p);
                assert(fa.start <= old(fa).recycled@[last_i] < fa.current);
                assert forall|q: usize| fa.allocated().contains(q) == old(fa).allocated().insert(p).contains(q) by {
                    lemma_drop_last_contains(old(fa).recycled@, q);
                    if q == p {
                        assert(!fa.recycled@.contains(q));
                    }
                }
            }
            assert(fa.arena() =~= old(fa).arena());
        }
    } else if fa.current < fa.end {
        p = fa.current;
        fa.current = fa.current + 1;
        proof {
            assert(fa.allocated() =~= old(fa).allocated().insert(p));
            assert(fa.arena() =~= old(fa).arena());
        }
    } else {
        return None;
    }
    proof {
        fa.lemma_wf();
        assert(fa.arena().contains(p));
    }
    fa.clear_frame(p);
    Some(p)
}

/// Hands out `count` frames with consecutive numbers, cleaned, all or none.
/// Runs come from the never-used frames above the cursor.
pub fn frames_alloc(fa: &mut FrameAllocator, count: usize) -> (r: Option<Vec<FrameTracker>>)
    requires
        old(fa).wf(),
    ensures
        final(fa).wf(),
        final(fa).arena() == old(fa).arena(),
        (r is Some) == (count <= old(fa).run_capacity()),
        r is Some ==> {
            let v = r->Some_0@;
            &&& v.len() == count
            &&& forall|k: int| 0 <= k < count ==> (#[trigger] v[k]).ppn == v[0].ppn + k
            &&& forall|k: int|
                0 <= k < count ==> old(fa).arena().contains(#[trigger] v[k].ppn)
                    && !old(fa).allocated().contains(v[k].ppn)
                    && frame_is_zero(final(fa).mem(), v[k].ppn as int)
            &&& final(fa).allocated() == old(fa).allocated().union(
                Set::new(|p: usize| exists|k: int| 0 <= k < count && v[k].ppn == p),
            )
            &&& final(fa).free_count() + count == old(fa).free_count()
            &&& agree_on(old(fa).mem(), final(fa).mem(), old(fa).allocated())
            &&& v.len() > 0 ==> v[0].ppn == old(fa).cursor()
            &&& final(fa).cursor() == old(fa).cursor() + count
            &&& final(fa).recycled() == old(fa).recycled()
        },
        r is None ==> *final(fa) == *old(fa),
{
    if count > fa.end - fa.current {
        return None;
    }
    let first: usize = fa.current;
    let mut v: Vec<FrameTracker> = Vec::new();
    let mut i: usize = 0;
    while i < count
        invariant
            fa.wf(),
            first == old(fa).current,
            first + count <= fa.end,
            fa.current == first + i,
            i <= count,
            fa.start == old(fa).start,
            fa.end == old(fa).end,
            fa.recycled@ == old(fa).recycled@,
            fa.mem@.len() == old(fa).mem@.len(),
            v@.len() == i,
            forall|k: int| 0 <= k < i ==> (#[trigger] v@[k]).ppn == first + k,
            forall|k: int| 0 <= k < i ==> frame_is_zero(fa.mem@, #[trigger] v@[k].ppn as int),
            agree_on(old(fa).mem@, fa.mem@, old(fa).allocated()),
        decreases count - i,
    {
        let p = fa.current;
        fa.current = fa.current + 1;
        proof {
            assert(fa.end * PAGE_SIZE == fa.mem@.len());
            assert((p + 1) * PAGE_SIZE <= fa.end * PAGE_SIZE);
        }
        let ghost before = fa.mem@;
        let t = FrameTracker::new(fa, p);
        proof {
            assert forall|k: int| 0 <= k < i implies frame_is_zero(fa.mem@, #[trigger] v@[k].ppn as int) by {
                let q = v@[k].ppn as int;
                assert(q != p);
                assert forall|j: int| in_frame(j, q) implies #[trigger] fa.mem@[j] == 0u8 by {
                    assert(frame_is_zero(before, q));
                    assert(before[j] == 0u8);
                }
            }
            assert forall|q: usize, j: int|
                #![trigger old(fa).allocated().contains(q), fa.mem@[j]]
                old(fa).allocated().contains(q) && in_frame(j, q as int) && 0 <= j < old(fa).mem@.len()
                    implies old(fa).mem@[j] == fa.mem@[j] by {
                assert(q != p) by {
                    assert(!old(fa).recycled@.contains(p)) by {
                        if old(fa).recycled@.contains(p) {
                            let m = choose|m: int| 0 <= m < old(fa).recycled@.len() && old(fa).recycled@[m] == p;
                        }
                    }
                }
                assert(before[j] == old(fa).mem@[j]);
            }
        }
        v.push(t);
        i = i + 1;
    }
    proof {
        let vs = v@;
        assert(fa.arena() =~= old(fa).arena());
        assert(fa.allocated() =~= old(fa).allocated().union(
            Set::new(|p: usize| exists|k: int| 0 <= k < count && vs[k].ppn == p),
        )) by {
            assert forall|q: usize| fa.allocated().contains(q) == old(fa).allocated().union(
                Set::new(|p: usize| exists|k: int| 0 <= k < count && vs[k].ppn == p)).contains(q) by {
                if first <= q < first + count {
                    let k = q - first;
                    assert(vs[k].ppn == q);
                    if old(fa).recycled@.contains(q) {
                        let j = choose|j: int| 0 <= j < old(fa).recycled@.len() && old(fa).recycled@[j] == q;
                        assert(old(fa).start <= old(fa).recycled@[j] < old(fa).current);
                    }
                }
            }
        }
        assert forall|k: int| 0 <= k < count implies old(fa).arena().contains(#[trigger] vs[k].ppn)
            && !old(fa).allocated().contains(vs[k].ppn) by {
        }
    }
    Some(v)
}

/// Gives frame `ppn` back; it is served again before any never-used frame.
pub fn frame_dealloc(fa: &mut FrameAllocator, ppn: usize)
    requires
        old(fa).wf(),
        old(fa).allocated().contains(ppn),
    ensures
        final(fa).wf(),
        final(fa).arena() == old(fa).arena(),
        final(fa).allocated() == old(fa).allocated().remove(ppn),
        final(fa).free_count() == old(fa).free_count() + 1,
        final(fa).run_capacity() == old(fa).run_capacity(),
        final(fa).next_free() == ppn,
        final(fa).recycled() == old(fa).recycled().push(ppn),
        final(fa).cursor() == old(fa).cursor(),
        final(fa).mem() == old(fa).mem(),
{
    fa.recycled.push(ppn);
    proof {
        assert forall|i: int, j: int|
            0 <= i < j < fa.recycled@.len() implies #[trigger] fa.recycled@[i] != #[trigger] fa.recycled@[j] by {
            if j == fa.recycled@.len() - 1 {
                assert(old(fa).recycled@[i] == fa.recycled@[i]);
                assert(old(fa).recycled@.contains(fa.recycled@[i]));
            }
        }
        assert(fa.allocated() =~= old(fa).allocated().remove(ppn)) by {
            assert forall|q: usize| fa.recycled@.contains(q) == (old(fa).recycled@.contains(q) || q == ppn) by {
                if old(fa).recycled@.contains(q) {
                    let k = choose|k: int| 0 <= k < old(fa).recycled@.len() && old(fa).recycled@[k] == q;
                    assert(fa.recycled@[k] == q);
                }
                if fa.recycled@.contains(q) && q != ppn {
                    let k = choose|k: int| 0 <= k < fa.recycled@.len() && fa.recycled@[k] == q;
                    assert(old(fa).recycled@[k] == q);
                }
                assert(fa.recycled@[fa.recycled@.len() - 1] == ppn);
            }
        }
        assert(fa.arena() =~= old(fa).arena());
    }
}

/// Gives a tracked frame back, ending its handle.
pub fn frame_release(fa: &mut FrameAllocator, frame: FrameTracker)
    requires
        old(fa).wf(),
        old(fa).allocated().contains(frame.ppn),
    ensures
        final(fa).wf(),
        final(fa).arena() == old(fa).arena(),
        final(fa).allocated() == old(fa).allocated().remove(frame.ppn),
        final(fa).free_count() == old(fa).free_count() + 1,
        final(fa).run_capacity() == old(fa).run_capacity(),
        final(fa).mem() == old(fa).mem(),
{
    frame_dealloc(fa, frame.ppn);
}

} // verus!
