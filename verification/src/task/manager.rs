//! The ready queue and its stride scheduler.
use vstd::prelude::*;
use std::collections::VecDeque;

verus! {

/// The stride numerator: a task of priority `p` advances by `BIG_STRIDE / p`
/// each time it is scheduled.
pub const BIG_STRIDE: usize = 100;

/// What the scheduler knows of a ready task.
#[derive(Copy, Clone, Debug, PartialEq, Eq, Structural)]
pub struct ReadyTask {
    /// Process id of the task.
    pub pid: usize,
    /// How far the task has advanced.
    pub stride: usize,
    /// How far it advances each time it runs.
    pub pass: usize,
    /// Its priority.
    pub prio: usize,
}

impl ReadyTask {
    /// The task after one more turn: its stride grows by its pass, wrapping
    /// around at the top of `usize`.
    pub open spec fn advanced(self) -> ReadyTask {
        ReadyTask { stride: self.stride.wrapping_add(self.pass), ..self }
    }
}

/// `q[i]` has the smallest stride in `q`, and no task before it has that stride.
pub open spec fn is_first_min(q: Seq<ReadyTask>, i: int) -> bool {
    &&& 0 <= i < q.len()
    &&& forall|k: int| 0 <= k < q.len() ==> q[i].stride <= #[trigger] q[k].stride
    &&& forall|k: int| 0 <= k < i ==> q[i].stride < #[trigger] q[k].stride
}

/// The queue of tasks that are ready to run.
pub struct TaskManager {
    ready_queue: VecDeque<ReadyTask>,
}

impl View for TaskManager {
    type V = Seq<ReadyTask>;

    closed spec fn view(&self) -> Seq<ReadyTask> {
        self.ready_queue@
    }
}

impl TaskManager {
    /// An empty ready queue.
    pub fn new() -> (m: Self)
        ensures
            m@ == Seq::<ReadyTask>::empty(),
    {
        TaskManager { ready_queue: VecDeque::new() }
    }

    /// Puts a task at the back of the ready queue.
    pub fn add(&mut self, task: ReadyTask)
        ensures
            final(self)@ == old(self)@.push(task),
    {
        self.ready_queue.push_back(task);
    }

    /// Takes out the task with the smallest stride (the earliest one among
    /// equals) and advances its stride by its pass, wrapping around at the
    /// top of `usize`.
    pub fn fetch(&mut self) -> (r: Option<ReadyTask>)
        ensures
            r is None <==> old(self)@.len() == 0,
            r is None ==> final(self)@ == old(self)@,
            r matches Some(t) ==> exists|i: int| #[trigger] is_first_min(old(self)@, i)
                && t == old(self)@[i].advanced()
                && final(self)@ == old(self)@.remove(i),
    {
        let len = self.ready_queue.len();
        if len == 0 {
            return None;
        }
        let mut min_stride: usize = usize::MAX;
        let mut min_idx: usize = 0;
        let mut i: usize = 0;
        while i < len
            invariant
                len == self.ready_queue@.len(),
                self.ready_queue@ == old(self)@,
                0 < len,
                i <= len,
                min_idx == 0 || min_idx < i,
                min_idx < len,
                forall|k: int| 0 <= k < i ==> min_stride <= #[trigger] self.ready_queue@[k].stride,
                forall|k: int| 0 <= k < min_idx ==> min_stride < #[trigger] self.ready_queue@[k].stride,
                min_stride == usize::MAX || self.ready_queue@[min_idx as int].stride == min_stride,
            decreases len - i,
        {
            let stride = self.ready_queue[i].stride;
            if stride < min_stride {
                min_stride = stride;
                min_idx = i;
            }
            i = i + 1;
        }
        proof {
            if min_stride == usize::MAX && min_idx > 0 {
                assert(min_stride < self.ready_queue@[0].stride);
            }
            assert(is_first_min(self.ready_queue@, min_idx as int));
        }
        let task = self.ready_queue.remove(min_idx).unwrap();
        let advanced = ReadyTask { stride: task.stride.wrapping_add(task.pass), ..task };
        assert(advanced == old(self)@[min_idx as int].advanced());
        Some(advanced)
    }
}

/// The first smallest-stride task of a queue is unique, so `fetch` has one
/// possible outcome for each queue.
pub proof fn lemma_first_min_unique(q: Seq<ReadyTask>, i: int, j: int)
    requires
        is_first_min(q, i),
        is_first_min(q, j),
    ensures
        i == j,
{
    if i < j {
        assert(q[j].stride < q[i].stride);
    } else if j < i {
        assert(q[i].stride < q[j].stride);
    }
}

/// A non-empty queue has a first smallest-stride task.
pub proof fn lemma_first_min_exists(q: Seq<ReadyTask>) -> (i: int)
    requires
        q.len() > 0,
    ensures
        is_first_min(q, i),
    decreases q.len(),
{
    if q.len() == 1 {
        0
    } else {
        let p = q.drop_last();
        let i0 = lemma_first_min_exists(p);
        assert(forall|k: int| 0 <= k < p.len() ==> p[k] == q[k]);
        if q[i0].stride <= q.last().stride {
            i0
        } else {
            let last = q.len() - 1;
            assert forall|k: int| 0 <= k < last implies q[last].stride < #[trigger] q[k].stride by {
                assert(p[i0].stride <= p[k].stride);
            }
            last
        }
    }
}

} // verus!
