use std::collections::VecDeque;
use vstd::prelude::*;

verus! {

/// The ready queue: tasks run in the order in which they were added.
pub struct TaskManager {
    ready_queue: VecDeque<usize>,
}

impl View for TaskManager {
    type V = Seq<usize>;

    closed spec fn view(&self) -> Seq<usize> {
        self.ready_queue@
    }
}

impl TaskManager {
    pub fn new() -> (r: Self)
        ensures
            r@ == Seq::<usize>::empty(),
    {
        TaskManager { ready_queue: VecDeque::new() }
    }

    /// Appends `task` at the tail.
    pub fn add(&mut self, task: usize)
        ensures
            final(self)@ == old(self)@.push(task),
    {
        self.ready_queue.push_back(task);
    }

    /// Takes the task at the head, if any.
    pub fn fetch(&mut self) -> (r: Option<usize>)
        ensures
            old(self)@.len() == 0 ==> r is None && final(self)@ == old(self)@,
            old(self)@.len() > 0 ==> r == Some(old(self)@[0]) && final(self)@ == old(self)@.drop_first(),
    {
        self.ready_queue.pop_front()
    }

    pub fn len(&self) -> (r: usize)
        ensures
            r == self@.len(),
    {
        self.ready_queue.len()
    }
}

/// One round of the scheduler on queue `q`: the head runs, yields, and goes
/// back to the tail.
pub open spec fn rotate(q: Seq<usize>) -> Seq<usize> {
    q.drop_first().push(q[0])
}

/// The queue after `n` rounds.
pub open spec fn rotate_n(q: Seq<usize>, n: nat) -> Seq<usize>
    decreases n,
{
    if n == 0 {
        q
    } else {
        rotate(rotate_n(q, (n - 1) as nat))
    }
}

/// After `n` rounds the queue is `q` turned left by `n mod |q|` places.
pub proof fn lemma_rotate_n(q: Seq<usize>, n: nat)
    requires
        q.len() > 0,
    ensures
        rotate_n(q, n).len() == q.len(),
        forall|i: int| 0 <= i < q.len() ==> #[trigger] rotate_n(q, n)[i] == q[(i + n) % (q.len() as int)],
    decreases n,
{
    if n == 0 {
        assert forall|i: int| 0 <= i < q.len() implies #[trigger] rotate_n(q, n)[i] == q[(i + n) % (q.len() as int)] by {
            vstd::arithmetic::div_mod::lemma_small_mod(i as nat, q.len());
        }
    } else {
        lemma_rotate_n(q, (n - 1) as nat);
        let p = rotate_n(q, (n - 1) as nat);
        let len = q.len() as int;
        assert forall|i: int| 0 <= i < len implies #[trigger] rotate_n(q, n)[i] == q[(i + n) % len] by {
            if i < len - 1 {
                assert(rotate_n(q, n)[i] == p[i + 1]);
                assert(p[i + 1] == q[(i + 1 + (n - 1)) % len]);
            } else {
                assert(rotate_n(q, n)[i] == p[0]);
                assert(p[0] == q[(0 + (n - 1)) % len]);
                assert((len - 1 + n) % len == (n - 1) % len) by {
                    vstd::arithmetic::div_mod::lemma_mod_add_multiples_vanish((n - 1) as int, len);
                }
            }
        }
    }
}

} // verus!
