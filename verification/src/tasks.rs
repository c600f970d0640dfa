//! The work-queue model of the bounded producer/consumer pattern.
//!
//! A `WorkQueue` is a FIFO of task numbers plus a `done` flag.  `worker_step`
//! is the whole scheduling decision a worker makes under the lock: take the
//! front task, exit when the queue is drained and closed, or wait.  The
//! threads, the lock and the condition signal around it are plumbing that a
//! caller supplies; every decision and the work itself (`process_task`) are
//! here.

use vstd::prelude::*;

use std::collections::VecDeque;

verus! {

/// Squares a task number.
pub fn process_task(n: usize) -> (r: usize)
    requires
        n * n <= usize::MAX,
    ensures
        r == n * n,
{
    n * n
}

/// What a worker does next.
#[derive(Debug, PartialEq, Eq, Structural, Clone, Copy)]
pub enum WorkerAction {
    /// Take the front task and compute its square.
    Process(usize),
    /// The queue is empty and closed: stop.
    Exit,
    /// The queue is empty but more tasks may come: wait for a signal.
    Wait,
}

/// A FIFO of pending tasks and the flag that closes it.
pub struct WorkQueue {
    pub tasks: VecDeque<usize>,
    pub done: bool,
}

impl WorkQueue {
    /// An open, empty queue.
    pub fn new() -> (q: WorkQueue)
        ensures
            q.tasks@ == Seq::<usize>::empty(),
            !q.done,
    {
        WorkQueue { tasks: VecDeque::new(), done: false }
    }

    /// Appends a task at the back.
    pub fn push(&mut self, task: usize)
        ensures
            final(self).tasks@ == old(self).tasks@.push(task),
            final(self).done == old(self).done,
    {
        self.tasks.push_back(task);
    }

    /// Closes the queue: no further tasks are owed, workers may exit once it
    /// is drained.
    pub fn close(&mut self)
        ensures
            final(self).tasks@ == old(self).tasks@,
            final(self).done,
    {
        self.done = true;
    }

    /// One worker decision: take the front task, exit when drained and
    /// closed, or wait.  No task is lost and none is handed out twice: a
    /// taken task is exactly the old front, and the rest keep their order.
    pub fn worker_step(&mut self) -> (a: WorkerAction)
        ensures
            final(self).done == old(self).done,
            match a {
                WorkerAction::Process(t) => old(self).tasks@.len() > 0 && t == old(self).tasks@[0]
                    && final(self).tasks@ == old(self).tasks@.subrange(
                    1,
                    old(self).tasks@.len() as int,
                ),
                WorkerAction::Exit => old(self).tasks@.len() == 0 && old(self).done
                    && final(self).tasks@ == old(self).tasks@,
                WorkerAction::Wait => old(self).tasks@.len() == 0 && !old(self).done
                    && final(self).tasks@ == old(self).tasks@,
            },
    {
        match self.tasks.pop_front() {
            Some(t) => WorkerAction::Process(t),
            None => if self.done {
                WorkerAction::Exit
            } else {
                WorkerAction::Wait
            },
        }
    }
}

/// Squares every task in order: the result a pool of workers must together
/// produce — one result per task, each the square of its task.
pub fn square_all(tasks: &Vec<usize>) -> (r: Vec<usize>)
    requires
        forall|i: int|
            0 <= i < tasks@.len() ==> #[trigger] (tasks@[i] * tasks@[i]) <= usize::MAX,
    ensures
        r@.len() == tasks@.len(),
        forall|i: int| 0 <= i < tasks@.len() ==> r@[i] == tasks@[i] * tasks@[i],
{
    let mut out: Vec<usize> = Vec::new();
    let n = tasks.len();
    let mut i: usize = 0;
    while i < n
        invariant
            i <= n,
            n == tasks@.len(),
            out@.len() == i,
            forall|j: int| 0 <= j < i ==> out@[j] == tasks@[j] * tasks@[j],
            forall|j: int|
                0 <= j < tasks@.len() ==> #[trigger] (tasks@[j] * tasks@[j]) <= usize::MAX,
        decreases n - i,
    {
        let t = tasks[i];
        out.push(process_task(t));
        i = i + 1;
    }
    out
}


/// The pool law on the queue itself: repeatedly taking `worker_step`
/// decisions on a closed queue until `Exit` yields exactly one result per
/// queued task — each task's square, in queue order, none lost and none
/// taken twice — and leaves the queue drained.
pub fn drain_queue(q: &mut WorkQueue) -> (r: Vec<usize>)
    requires
        old(q).done,
        forall|i: int|
            0 <= i < old(q).tasks@.len() ==> #[trigger] (old(q).tasks@[i] * old(q).tasks@[i])
                <= usize::MAX,
    ensures
        r@.len() == old(q).tasks@.len(),
        forall|i: int|
            0 <= i < r@.len() ==> r@[i] == old(q).tasks@[i] * old(q).tasks@[i],
        final(q).tasks@.len() == 0,
        final(q).done,
{
    let ghost ts = q.tasks@;
    let mut out: Vec<usize> = Vec::new();
    #[verifier::loop_isolation(true)]
    loop
        invariant
            q.done,
            out@.len() <= ts.len(),
            q.tasks@ == ts.subrange(out@.len() as int, ts.len() as int),
            forall|i: int| 0 <= i < out@.len() ==> out@[i] == ts[i] * ts[i],
            forall|i: int| 0 <= i < ts.len() ==> #[trigger] (ts[i] * ts[i]) <= usize::MAX,
        ensures
            out@.len() == ts.len(),
            forall|i: int| 0 <= i < out@.len() ==> out@[i] == ts[i] * ts[i],
            q.tasks@.len() == 0,
            q.done,
        decreases q.tasks@.len(),
    {
        let ghost done_before = out@.len() as int;
        match q.worker_step() {
            WorkerAction::Process(t) => {
                proof {
                    assert(t == ts[done_before]);
                    assert(q.tasks@ =~= ts.subrange(done_before + 1, ts.len() as int));
                }
                out.push(process_task(t));
            },
            WorkerAction::Exit => {
                proof {
                    assert(ts.subrange(done_before, ts.len() as int).len() == 0);
                }
                break ;
            },
            WorkerAction::Wait => {
                // A closed queue never asks a worker to wait.
                proof {
                    assert(false);
                }
                break ;
            },
        }
    }
    out
}


/// The squares of a task list, element by element.
pub open spec fn squares_of(ts: Seq<usize>) -> Seq<int> {
    Seq::new(ts.len(), |i: int| ts[i] * ts[i])
}

/// Order does not matter: two drains that take the same tasks (as a
/// multiset, so whatever the interleaving of workers) produce the same
/// multiset of squares — one entry per task, none lost, none doubled.
pub proof fn lemma_results_multiset(ts1: Seq<usize>, ts2: Seq<usize>)
    requires
        ts1.to_multiset() == ts2.to_multiset(),
    ensures
        squares_of(ts1).to_multiset() == squares_of(ts2).to_multiset(),
    decreases ts1.len(),
{
    broadcast use vstd::seq_lib::group_to_multiset_ensures, vstd::multiset::group_multiset_axioms;

    if ts1.len() == 0 {
        assert(ts1.to_multiset().len() == 0);
        assert(ts2.to_multiset().len() == ts2.len());
        assert(ts2.len() == 0);
        assert(squares_of(ts1).to_multiset() =~= squares_of(ts2).to_multiset());
    } else {
        let x = ts1[0];
        assert(ts1.contains(x));
        assert(ts2.to_multiset().count(x) > 0);
        assert(ts2.contains(x));
        let j = choose|j: int| 0 <= j < ts2.len() && ts2[j] == x;
        let r1 = ts1.remove(0);
        let r2 = ts2.remove(j);
        assert(r1.to_multiset() == r2.to_multiset()) by {
            assert(r1.to_multiset() =~= ts1.to_multiset().remove(x));
            assert(r2.to_multiset() =~= ts2.to_multiset().remove(x));
        }
        lemma_results_multiset(r1, r2);
        assert(squares_of(ts1).remove(0) =~= squares_of(r1));
        assert(squares_of(ts2).remove(j) =~= squares_of(r2));
        assert(squares_of(ts1).remove(0).to_multiset() =~= squares_of(ts1).to_multiset().remove(
            x * x,
        ));
        assert(squares_of(ts2).remove(j).to_multiset() =~= squares_of(ts2).to_multiset().remove(
            x * x,
        ));
        assert(squares_of(ts1).to_multiset().count(x * x) > 0) by {
            assert(squares_of(ts1).contains(x * x)) by {
                assert(squares_of(ts1)[0] == x * x);
            }
        }
        assert(squares_of(ts2).to_multiset().count(x * x) > 0) by {
            assert(squares_of(ts2).contains(x * x)) by {
                assert(squares_of(ts2)[j] == x * x);
            }
        }
        let m1 = squares_of(ts1).to_multiset();
        let m2 = squares_of(ts2).to_multiset();
        assert(m1.remove(x * x) == m2.remove(x * x));
        assert(m1 =~= m2) by {
            assert forall|a: int| true implies m1.count(a) == m2.count(a) by {
                assert(m1.remove(x * x).count(a) == m2.remove(x * x).count(a));
                assert(m1.remove(x * x).count(a) == m1.count(a) - (if a == x * x {
                    1int
                } else {
                    0int
                }));
                assert(m2.remove(x * x).count(a) == m2.count(a) - (if a == x * x {
                    1int
                } else {
                    0int
                }));
            }
        }
    }
}

} // verus!
