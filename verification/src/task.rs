//! The cooperative scheduler: tasks, wakers and the executor.
//!
//! A task is a suspendable computation plus an identifier that is unique
//! for the executor's whole life.  The executor keeps a task table and a
//! FIFO ready queue; `run_ready_tasks` polls ready tasks until the queue
//! is empty, removing the ones that complete.  A suspended task re-enters
//! the ready queue only when its waker fires, which may happen from
//! interrupt context via the scancode queue's waker hand-off.  A waker
//! firing for an identifier no longer in the table is a no-op.

use vstd::prelude::*;
use crate::keyboard::PollNext;
use crate::keyboard::ScancodeQueue;

verus! {

/// A handle carrying a task's identifier; invoking it (through
/// `Executor::wake`) marks that task ready again.
#[derive(Clone, Copy, Debug, PartialEq, Eq, Structural)]
pub struct Waker {
    pub task_id: u64,
}

/// The suspendable computations this kernel schedules.
#[derive(Clone, Debug)]
pub enum TaskProgram {
    /// Reports "not ready" the given number of times, then completes.
    /// It registers no waker, so once suspended it stays suspended.
    CountDown { polls_left: u64 },
    /// Drains the scancode queue, recording every byte in arrival
    /// order, and suspends with its waker registered when the queue is
    /// empty.  It never completes.
    KeyboardConsumer { observed: Vec<u8> },
}

/// The mathematical shape of a task's computation.
pub enum ProgramView {
    CountDown { polls_left: u64 },
    KeyboardConsumer { observed: Seq<u8> },
}

/// The view of a program: byte vectors become sequences.
pub open spec fn view_program(p: TaskProgram) -> ProgramView {
    match p {
        TaskProgram::CountDown { polls_left } => ProgramView::CountDown { polls_left },
        TaskProgram::KeyboardConsumer { observed } => ProgramView::KeyboardConsumer {
            observed: observed@,
        },
    }
}

/// A schedulable unit wrapping a suspendable computation.  The executor
/// assigns its identifier when it is spawned.
pub struct Task {
    pub program: TaskProgram,
}

impl Task {
    /// Wraps a computation so it can be spawned.
    pub fn new(program: TaskProgram) -> (t: Task)
        ensures
            t.program == program,
    {
        Task { program }
    }
}

/// The index of the entry carrying `id`, if any.
pub open spec fn find_task(table: Seq<(u64, ProgramView)>, id: u64) -> Option<int> {
    if exists|j: int| 0 <= j < table.len() && table[j].0 == id {
        Some(choose|j: int| 0 <= j < table.len() && table[j].0 == id)
    } else {
        None
    }
}

/// One poll of a task: the successor program, what is left in the
/// scancode queue, the queue's waker slot afterward, and whether the
/// task completed.
pub open spec fn poll_view(p: ProgramView, id: u64, bytes: Seq<u8>, waker: Option<u64>) -> (
    ProgramView,
    Seq<u8>,
    Option<u64>,
    bool,
) {
    match p {
        ProgramView::CountDown { polls_left } => {
            if polls_left == 0 {
                (p, bytes, waker, true)
            } else {
                (ProgramView::CountDown { polls_left: (polls_left - 1) as u64 }, bytes, waker, false)
            }
        },
        ProgramView::KeyboardConsumer { observed } => {
            (
                ProgramView::KeyboardConsumer { observed: observed + bytes },
                Seq::empty(),
                Some(id),
                false,
            )
        },
    }
}

/// What one full pass of the executor over its ready queue does: poll
/// each ready identifier in FIFO order, skip stale ones, drop completed
/// tasks, and keep suspended ones out of the queue.
pub open spec fn run_spec(
    table: Seq<(u64, ProgramView)>,
    ready: Seq<u64>,
    bytes: Seq<u8>,
    waker: Option<u64>,
) -> (Seq<(u64, ProgramView)>, Seq<u8>, Option<u64>)
    decreases ready.len(),
{
    if ready.len() == 0 {
        (table, bytes, waker)
    } else {
        let id = ready[0];
        let rest = ready.drop_first();
        match find_task(table, id) {
            None => run_spec(table, rest, bytes, waker),
            Some(j) => {
                let step = poll_view(table[j].1, id, bytes, waker);
                if step.3 {
                    run_spec(table.remove(j), rest, step.1, step.2)
                } else {
                    run_spec(table.update(j, (id, step.0)), rest, step.1, step.2)
                }
            },
        }
    }
}

/// Owns the live tasks, polls the ready ones, and hands out identifiers
/// that are never reused while it lives.
pub struct Executor {
    tasks: Vec<(u64, TaskProgram)>,
    ready: Vec<u64>,
    next_id: u64,
}

impl Executor {
    /// The task table: each live task's identifier and computation.
    pub closed spec fn table(self) -> Seq<(u64, ProgramView)> {
        self.tasks@.map_values(|e: (u64, TaskProgram)| (e.0, view_program(e.1)))
    }

    /// The identifiers waiting to be polled, first in first out.
    pub closed spec fn ready_queue(self) -> Seq<u64> {
        self.ready@
    }

    /// The identifier the next spawned task will get.
    pub closed spec fn fresh_id(self) -> u64 {
        self.next_id
    }

    /// Internal invariant: identifiers in the table are distinct and
    /// below the fresh-identifier counter.
    pub closed spec fn wf(self) -> bool {
        &&& forall|i: int, j: int| 0 <= i < j < self.tasks@.len()
                ==> self.tasks@[i].0 != self.tasks@[j].0
        &&& forall|i: int| 0 <= i < self.tasks@.len()
                ==> (#[trigger] self.tasks@[i]).0 < self.next_id
    }

    /// An executor with no tasks and nothing ready.
    pub fn new() -> (r: Self)
        ensures
            r.wf(),
            r.table() == Seq::<(u64, ProgramView)>::empty(),
            r.ready_queue() == Seq::<u64>::empty(),
            r.fresh_id() == 0,
    {
        let r = Executor { tasks: Vec::new(), ready: Vec::new(), next_id: 0 };
        proof {
            assert(r.table() =~= Seq::<(u64, ProgramView)>::empty());
            assert(r.ready_queue() =~= Seq::<u64>::empty());
        }
        r
    }

    /// Inserts the task under a fresh identifier, ready to be polled,
    /// and returns that identifier.  O(1); identifiers are never reused
    /// while the executor lives.
    pub fn spawn(&mut self, task: Task) -> (id: u64)
        requires
            old(self).wf(),
            old(self).fresh_id() < u64::MAX,
        ensures
            final(self).wf(),
            id == old(self).fresh_id(),
            forall|i: int| 0 <= i < old(self).table().len()
                ==> (#[trigger] old(self).table()[i]).0 != id,
            final(self).table() == old(self).table().push((id, view_program(task.program))),
            final(self).ready_queue() == old(self).ready_queue().push(id),
            final(self).fresh_id() == old(self).fresh_id() + 1,
    {
        let id = self.next_id;
        self.next_id = self.next_id + 1;
        self.tasks.push((id, task.program));
        self.ready.push(id);
        proof {
            assert(self.table() =~= old(self).table().push((id, view_program(task.program))));
        }
        id
    }

    /// Invokes a waker: pushes its identifier onto the ready queue.  A
    /// stale identifier (its task already completed) is skipped when it
    /// is next polled, never an error.
    pub fn wake(&mut self, waker: Waker)
        requires
            old(self).wf(),
        ensures
            final(self).wf(),
            final(self).table() == old(self).table(),
            final(self).ready_queue() == old(self).ready_queue().push(waker.task_id),
            final(self).fresh_id() == old(self).fresh_id(),
    {
        self.ready.push(waker.task_id);
    }

    /// How many tasks are live.
    pub fn task_count(&self) -> (r: usize)
        ensures
            r == self.table().len(),
    {
        self.tasks.len()
    }

    /// Whether a task with this identifier is live.
    pub fn contains_task(&self, id: u64) -> (r: bool)
        requires
            self.wf(),
        ensures
            r == (find_task(self.table(), id) is Some),
    {
        let mut i: usize = 0;
        while i < self.tasks.len()
            invariant
                i <= self.tasks@.len(),
                self.wf(),
                forall|j: int| 0 <= j < i ==> self.table()[j].0 != id,
            decreases self.tasks@.len() - i,
        {
            if self.tasks[i].0 == id {
                proof {
                    assert(self.table()[i as int].0 == id);
                }
                return true;
            }
            proof {
                assert(self.table()[i as int].0 == self.tasks@[i as int].0);
            }
            i = i + 1;
        }
        proof {
            if exists|j: int| 0 <= j < self.table().len() && self.table()[j].0 == id {
                let j = choose|j: int| 0 <= j < self.table().len() && self.table()[j].0 == id;
                assert(false);
            }
        }
        false
    }

    /// What a keyboard-consuming task has observed so far, or `None`
    /// when the identifier is stale or names another kind of task.
    pub fn task_observed(&self, id: u64) -> (r: Option<Vec<u8>>)
        requires
            self.wf(),
        ensures
            match find_task(self.table(), id) {
                Some(j) => match self.table()[j].1 {
                    ProgramView::KeyboardConsumer { observed } => {
                        &&& r is Some
                        &&& r->Some_0@ == observed
                    },
                    _ => r is None,
                },
                None => r is None,
            },
    {
        let mut i: usize = 0;
        while i < self.tasks.len()
            invariant
                i <= self.tasks@.len(),
                self.wf(),
                forall|j: int| 0 <= j < i ==> self.table()[j].0 != id,
            decreases self.tasks@.len() - i,
        {
            if self.tasks[i].0 == id {
                proof {
                    assert(self.table()[i as int].0 == id);
                    assert forall|a: int, b: int| 0 <= a < b < self.table().len() implies
                        self.table()[a].0 != self.table()[b].0 by {
                        assert(self.table()[a].0 == self.tasks@[a].0);
                        assert(self.table()[b].0 == self.tasks@[b].0);
                    }
                    lemma_find_task_unique(self.table(), id, i as int);
                }
                match &self.tasks[i].1 {
                    TaskProgram::KeyboardConsumer { observed } => {
                        return Some(observed.clone());
                    },
                    _ => {
                        return None;
                    },
                }
            }
            proof {
                assert(self.table()[i as int].0 == self.tasks@[i as int].0);
            }
            i = i + 1;
        }
        proof {
            if exists|j: int| 0 <= j < self.table().len() && self.table()[j].0 == id {
                let j = choose|j: int| 0 <= j < self.table().len() && self.table()[j].0 == id;
                assert(false);
            }
        }
        None
    }

    /// Polls every ready task once (in FIFO order of becoming ready)
    /// until the ready queue is empty: completed tasks leave the table,
    /// suspended ones stay but are not re-queued, stale identifiers are
    /// skipped.  The keyboard consumer drains the scancode queue and
    /// leaves its waker registered there.
    pub fn run_ready_tasks(&mut self, queue: &mut ScancodeQueue)
        requires
            old(self).wf(),
            old(queue).wf(),
        ensures
            final(self).wf(),
            final(queue).wf(),
            final(self).ready_queue() == Seq::<u64>::empty(),
            final(self).fresh_id() == old(self).fresh_id(),
            final(queue).cap() == old(queue).cap(),
            final(queue).dropped_count() == old(queue).dropped_count(),
            (final(self).table(), final(queue).bytes(), final(queue).waker_spec()) == run_spec(
                old(self).table(),
                old(self).ready_queue(),
                old(queue).bytes(),
                old(queue).waker_spec(),
            ),
    {
        let ghost goal = run_spec(
            old(self).table(),
            old(self).ready_queue(),
            old(queue).bytes(),
            old(queue).waker_spec(),
        );
        while self.ready.len() > 0
            invariant
                self.wf(),
                queue.wf(),
                self.fresh_id() == old(self).fresh_id(),
                queue.cap() == old(queue).cap(),
                queue.dropped_count() == old(queue).dropped_count(),
                run_spec(self.table(), self.ready_queue(), queue.bytes(), queue.waker_spec())
                    == goal,
            decreases self.ready@.len(),
        {
            let ghost table0 = self.table();
            let ghost ready0 = self.ready_queue();
            let ghost bytes0 = queue.bytes();
            let ghost waker0 = queue.waker_spec();
            let id = self.ready.remove(0);
            proof {
                assert(self.ready_queue() =~= ready0.drop_first());
            }
            let mut i: usize = 0;
            let mut found = false;
            while i < self.tasks.len() && !found
                invariant
                    i <= self.tasks@.len(),
                    self.wf(),
                    table0 == self.table(),
                    found ==> i < self.tasks@.len() && self.table()[i as int].0 == id,
                    !found ==> forall|j: int| 0 <= j < i ==> self.table()[j].0 != id,
                decreases self.tasks@.len() - i + (if found { 0int } else { 1int }),
            {
                if self.tasks[i].0 == id {
                    found = true;
                    proof {
                        assert(self.table()[i as int].0 == self.tasks@[i as int].0);
                    }
                } else {
                    proof {
                        assert(self.table()[i as int].0 == self.tasks@[i as int].0);
                    }
                    i = i + 1;
                }
            }
            if !found {
                proof {
                    if exists|j: int| 0 <= j < table0.len() && table0[j].0 == id {
                        let j = choose|j: int| 0 <= j < table0.len() && table0[j].0 == id;
                        assert(false);
                    }
                    assert(find_task(table0, id) is None);
                    assert(run_spec(table0, ready0, bytes0, waker0) == run_spec(
                        self.table(),
                        self.ready_queue(),
                        queue.bytes(),
                        queue.waker_spec(),
                    ));
                }
                continue;
            }
            proof {
                assert forall|a: int, b: int| 0 <= a < b < table0.len() implies
                    table0[a].0 != table0[b].0 by {
                    assert(table0[a].0 == self.tasks@[a].0);
                    assert(table0[b].0 == self.tasks@[b].0);
                }
                lemma_find_task_unique(table0, id, i as int);
            }
            let entry = self.tasks.remove(i);
            let tid = entry.0;
            proof {
                assert(self.table() =~= table0.remove(i as int));
            }
            match entry.1 {
                TaskProgram::CountDown { polls_left } => {
                    if polls_left == 0 {
                        // Completed: it stays out of the table.
                        proof {
                            assert(poll_view(table0[i as int].1, id, bytes0, waker0).3);
                            assert(run_spec(table0, ready0, bytes0, waker0) == run_spec(
                                self.table(),
                                self.ready_queue(),
                                queue.bytes(),
                                queue.waker_spec(),
                            ));
                        }
                    } else {
                        self.tasks.insert(
                            i,
                            (tid, TaskProgram::CountDown { polls_left: polls_left - 1 }),
                        );
                        proof {
                            let step = poll_view(table0[i as int].1, id, bytes0, waker0);
                            assert(!step.3);
                            assert(self.table() =~= table0.update(i as int, (id, step.0)));
                            assert(run_spec(table0, ready0, bytes0, waker0) == run_spec(
                                self.table(),
                                self.ready_queue(),
                                queue.bytes(),
                                queue.waker_spec(),
                            ));
                        }
                    }
                },
                TaskProgram::KeyboardConsumer { observed } => {
                    let mut observed = observed;
                    let ghost obs0 = observed@;
                    while !queue.is_empty()
                        invariant
                            queue.wf(),
                            queue.cap() == old(queue).cap(),
                            queue.dropped_count() == old(queue).dropped_count(),
                            observed@ + queue.bytes() == obs0 + bytes0,
                        decreases queue.bytes().len(),
                    {
                        match queue.poll_next(Waker { task_id: id }) {
                            PollNext::Ready(b) => {
                                observed.push(b);
                                proof {
                                    assert(observed@ + queue.bytes() =~= obs0 + bytes0);
                                }
                            },
                            PollNext::Pending => {
                                proof {
                                    assert(false);
                                }
                            },
                        }
                    }
                    let r = queue.poll_next(Waker { task_id: id });
                    proof {
                        assert(r is Pending);
                        assert(queue.waker_spec() == Some(id));
                        assert(observed@ =~= obs0 + bytes0);
                    }
                    self.tasks.insert(i, (tid, TaskProgram::KeyboardConsumer { observed }));
                    proof {
                        let step = poll_view(table0[i as int].1, id, bytes0, waker0);
                        assert(!step.3);
                        assert(step.0 == ProgramView::KeyboardConsumer { observed: obs0 + bytes0 });
                        assert(self.table() =~= table0.update(i as int, (id, step.0)));
                        assert(queue.bytes() =~= Seq::<u8>::empty());
                        assert(run_spec(table0, ready0, bytes0, waker0) == run_spec(
                            self.table(),
                            self.ready_queue(),
                            queue.bytes(),
                            queue.waker_spec(),
                        ));
                    }
                },
            }
        }
        proof {
            assert(self.ready_queue() =~= Seq::<u64>::empty());
        }
    }
}

/// With distinct identifiers, finding one pins the table index.
proof fn lemma_find_task_unique(table: Seq<(u64, ProgramView)>, id: u64, j: int)
    requires
        0 <= j < table.len(),
        table[j].0 == id,
        forall|a: int, b: int| 0 <= a < b < table.len() ==> table[a].0 != table[b].0,
    ensures
        find_task(table, id) == Some(j),
{
    let jj = choose|k: int| 0 <= k < table.len() && table[k].0 == id;
    if jj != j {
        if jj < j {
            assert(table[jj].0 != table[j].0);
        } else {
            assert(table[j].0 != table[jj].0);
        }
    }
}

} // verus!
