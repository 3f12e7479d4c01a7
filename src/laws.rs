//! Properties that relate several operations of the library.
use crate::frame_allocator::{agree_on, in_frame, FrameAllocator};
use crate::kernel::{task_ok, Kernel};
use crate::manager::{lemma_rotate_n, rotate, rotate_n};
use crate::memory_set::MemorySet;
use vstd::prelude::*;

verus! {

/// Frame uniqueness: in a well-formed kernel every frame that a process holds
/// lies in the allocator's arena and is marked allocated, and no frame is held
/// by two processes; `frame_alloc` only ever returns a frame outside the
/// allocated set.
pub proof fn law_frame_uniqueness(k: &Kernel, p: int, q: int, f: usize)
    requires
        k.wf(),
        k.live(p),
        k.task(p).memory_set.frame_set().contains(f),
    ensures
        k.frames().allocated().contains(f),
        k.frames().arena().contains(f),
        k.live(q) && q != p ==> !k.task(q).memory_set.frame_set().contains(f),
{
    assert(task_ok(k.task(p), p, k.frames()));
    k.frames().lemma_wf();
    if k.live(q) && q != p {
        assert(k.task(p).memory_set.frame_set().disjoint(k.task(q).memory_set.frame_set()));
    }
}

/// The allocated frames of a well-formed allocator all lie in its arena.
pub proof fn law_allocated_in_arena(fa: &FrameAllocator)
    requires
        fa.wf(),
    ensures
        fa.allocated().subset_of(fa.arena()),
{
    fa.lemma_wf();
}

/// FIFO fairness, one step: when the task `cur` runs with `q` queued behind it
/// and yields, the order "running task, then queue" turns left by one place,
/// which is what `suspend_current_and_run_next` yields: the new running task is
/// `q.push(cur)[0]` and the new queue `q.push(cur).drop_first()`.
pub proof fn law_yield_rotates(cur: usize, q: Seq<usize>)
    ensures
        seq![q.push(cur)[0]] + q.push(cur).drop_first() == rotate(seq![cur] + q),
{
    assert(seq![q.push(cur)[0]] + q.push(cur).drop_first() =~= q.push(cur));
    assert((seq![cur] + q).drop_first() =~= q);
}

/// FIFO fairness: if every task yields as soon as it runs, then after `n`
/// yields the running task is `order[n mod |order|]`, where `order` is the
/// running task followed by the queue at the start: A, B, C, A, B, C, ...
pub proof fn law_fifo_fairness(order: Seq<usize>, n: nat)
    requires
        order.len() > 0,
    ensures
        rotate_n(order, n)[0] == order[(n as int) % (order.len() as int)],
{
    lemma_rotate_n(order, n);
    assert(rotate_n(order, n)[0] == order[(0int + n) % (order.len() as int)]);
}

/// No aliasing after a duplication: when memory changes only inside the frames
/// of `dup`, and `dup` shares no frame with `source`, every address of
/// `source` reads as before. `MemorySet::from_existed_user` and `fork` give
/// the disjointness; `MemorySet::write_bytes` and `Kernel::write_user_byte`
/// change only frames of the space written to.
pub proof fn law_duplicate_isolated(source: &MemorySet, dup: &MemorySet, m1: Seq<u8>, m2: Seq<u8>)
    requires
        source.wf(),
        source.fits(m1),
        dup.frame_set().disjoint(source.frame_set()),
        m1.len() == m2.len(),
        forall|q: usize, j: int|
            #![trigger dup.frame_set().contains(q), m2[j]]
            !dup.frame_set().contains(q) && in_frame(j, q as int) && 0 <= j < m1.len() ==> m2[j] == m1[j],
    ensures
        forall|va: int| #[trigger] source.byte_at(m2, va) == source.byte_at(m1, va),
{
    assert(agree_on(m1, m2, source.frame_set())) by {
        assert forall|q: usize, j: int|
            #![trigger source.frame_set().contains(q), m2[j]]
            source.frame_set().contains(q) && in_frame(j, q as int) && 0 <= j < m1.len() implies m1[j] == m2[j] by {
            assert(!dup.frame_set().contains(q));
        }
    }
    source.lemma_byte_at_agree(m1, m2);
}

} // verus!
