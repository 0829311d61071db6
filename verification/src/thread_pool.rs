//! The work queue that a pool of workers shares.
//!
//! The queue is the state that the workers keep under one lock. It counts
//! the tasks that were handed out or queued and are not completed yet, and
//! it shuts down once: when no task is left and none is under way, or when
//! it is told to. What a worker does on each answer of `pop` is its own
//! affair; the queue only says whether to work, to wait or to stop.

use vstd::prelude::*;
use std::collections::VecDeque;
use crate::stats::raised;
use crate::text::string_views;

verus! {

/// What a `WorkQueue` holds.
pub ghost struct QueueSpec {
    /// The paths that wait, first in, first out.
    pub queue: Seq<Seq<char>>,
    /// The tasks that were queued and are not completed yet.
    pub active_tasks: nat,
    /// Whether the queue has shut down.
    pub shutdown: bool,
}

/// The answer to a worker that asks for work.
pub enum PopOutcome {
    /// A path to work on.
    Task(String),
    /// Nothing now, but tasks are under way that may bring more: wait.
    Wait,
    /// Nothing, now and ever: the queue has shut down.
    Done,
}

/// What a `PopOutcome` stands for.
pub ghost enum OutcomeSpec {
    Task(Seq<char>),
    Wait,
    Done,
}

impl View for PopOutcome {
    type V = OutcomeSpec;

    open spec fn view(&self) -> OutcomeSpec {
        match self {
            PopOutcome::Task(path) => OutcomeSpec::Task(path@),
            PopOutcome::Wait => OutcomeSpec::Wait,
            PopOutcome::Done => OutcomeSpec::Done,
        }
    }
}

impl QueueSpec {
    /// A running queue without tasks.
    pub open spec fn empty() -> QueueSpec {
        QueueSpec { queue: Seq::empty(), active_tasks: 0, shutdown: false }
    }

    /// The queue after a worker asked for work, and the answer. A queue
    /// that has shut down gives nothing. Else the first path that waits is
    /// handed out. With no path waiting the queue shuts down if no task is
    /// under way, and tells the worker to wait if one is.
    pub open spec fn popped(self) -> (QueueSpec, OutcomeSpec) {
        if self.shutdown {
            (self, OutcomeSpec::Done)
        } else if self.queue.len() > 0 {
            (QueueSpec { queue: self.queue.skip(1), ..self }, OutcomeSpec::Task(self.queue[0]))
        } else if self.active_tasks == 0 {
            (QueueSpec { shutdown: true, ..self }, OutcomeSpec::Done)
        } else {
            (self, OutcomeSpec::Wait)
        }
    }

    /// The queue after paths were offered: a running queue takes them all
    /// and counts them as tasks; a queue that has shut down takes none.
    pub open spec fn extended(self, paths: Seq<Seq<char>>) -> QueueSpec {
        if self.shutdown {
            self
        } else {
            QueueSpec {
                queue: self.queue + paths,
                active_tasks: raised(self.active_tasks, paths.len()),
                ..self
            }
        }
    }

    /// The queue after a task was completed.
    pub open spec fn completed(self) -> QueueSpec {
        QueueSpec {
            active_tasks: if self.active_tasks > 0 {
                (self.active_tasks - 1) as nat
            } else {
                0
            },
            ..self
        }
    }
}

/// The state of the shared work queue.
pub struct WorkQueue {
    queue: VecDeque<String>,
    active_tasks: usize,
    shutdown: bool,
}

impl View for WorkQueue {
    type V = QueueSpec;

    closed spec fn view(&self) -> QueueSpec {
        QueueSpec {
            queue: string_views(self.queue@),
            active_tasks: self.active_tasks as nat,
            shutdown: self.shutdown,
        }
    }
}

impl WorkQueue {
    /// A running queue without tasks.
    pub fn new() -> (queue: Self)
        ensures
            queue@ == QueueSpec::empty(),
    {
        let queue = WorkQueue { queue: VecDeque::new(), active_tasks: 0, shutdown: false };
        assert(queue@.queue =~= Seq::empty());
        queue
    }

    /// Queues the first task, which from then on is the one task under way.
    pub fn push_initial(&mut self, path: String)
        ensures
            final(self)@ == (QueueSpec {
                queue: old(self)@.queue.push(path@),
                active_tasks: 1,
                ..old(self)@
            }),
    {
        self.queue.push_back(path);
        self.active_tasks = 1;
        assert(self@.queue =~= old(self)@.queue.push(path@));
    }

    /// Answers a worker that asks for work.
    pub fn pop(&mut self) -> (outcome: PopOutcome)
        ensures
            (final(self)@, outcome@) == old(self)@.popped(),
            old(self)@.shutdown ==> outcome is Done && final(self)@ == old(self)@,
            old(self)@.shutdown ==> final(self)@.shutdown,
    {
        if self.shutdown {
            return PopOutcome::Done;
        }
        match self.queue.pop_front() {
            Some(path) => {
                assert(self@.queue =~= old(self)@.queue.skip(1));
                PopOutcome::Task(path)
            },
            None => {
                assert(self@.queue =~= old(self)@.queue);
                if self.active_tasks == 0 {
                    self.shutdown = true;
                    PopOutcome::Done
                } else {
                    PopOutcome::Wait
                }
            },
        }
    }

    /// Offers paths to the queue: a running queue takes them all and
    /// counts them as tasks; a queue that has shut down takes none.
    pub fn extend(&mut self, paths: Vec<String>)
        ensures
            final(self)@ == old(self)@.extended(string_views(paths@)),
            old(self)@.shutdown ==> final(self)@ == old(self)@,
    {
        if self.shutdown {
            return ;
        }
        let count = paths.len();
        let ghost offered = string_views(paths@);
        let mut rest = paths;
        let mut taken: Vec<String> = Vec::new();
        // The paths are taken from the back, so they are queued in turn
        // from a vector that holds them in reverse.
        while rest.len() > 0
            invariant
                string_views(rest@) + string_views(taken@).reverse() == offered,
            decreases rest.len(),
        {
            let ghost rest_before = string_views(rest@);
            let ghost taken_before = string_views(taken@);
            let path = rest.pop().unwrap();
            taken.push(path);
            assert(string_views(rest@) + string_views(taken@).reverse() =~= rest_before
                + taken_before.reverse());
        }
        assert(string_views(taken@).reverse() =~= offered);
        let ghost start = self@.queue;
        while taken.len() > 0
            invariant
                self.shutdown == old(self).shutdown,
                self.active_tasks == old(self).active_tasks,
                start == old(self)@.queue,
                offered.len() == count,
                self@.queue + string_views(taken@).reverse() == start + offered,
            decreases taken.len(),
        {
            let ghost queue_before = self@.queue;
            let ghost taken_before = string_views(taken@);
            let path = taken.pop().unwrap();
            self.queue.push_back(path);
            assert(self@.queue + string_views(taken@).reverse() =~= queue_before
                + taken_before.reverse());
        }
        assert(self@.queue =~= start + offered);
        self.active_tasks = self.active_tasks.saturating_add(count);
    }

    /// Counts a task as completed.
    pub fn complete_task(&mut self)
        ensures
            final(self)@ == old(self)@.completed(),
    {
        self.active_tasks = self.active_tasks.saturating_sub(1);
    }

    /// Shuts the queue down, whatever waits in it.
    pub fn shutdown(&mut self)
        ensures
            final(self)@ == (QueueSpec { shutdown: true, ..old(self)@ }),
    {
        self.shutdown = true;
    }

    /// Tells whether the queue has shut down.
    pub fn is_shutdown(&self) -> (shutdown: bool)
        ensures
            shutdown == self@.shutdown,
    {
        self.shutdown
    }
}

/// A queue that has shut down stays shut down, takes no work and gives
/// none, whatever is asked of it.
pub proof fn lemma_shutdown_is_final(queue: QueueSpec, paths: Seq<Seq<char>>)
    requires
        queue.shutdown,
    ensures
        queue.popped() == (queue, OutcomeSpec::Done),
        queue.extended(paths) == queue,
        queue.completed().shutdown,
        queue.completed().queue == queue.queue,
{
}

/// A worker is told to stop only by a queue that has shut down, and a
/// running queue shuts down on a request for work only when no path waits
/// and no task is under way; with a task under way the worker is told to
/// wait.
pub proof fn lemma_pop_outcomes(queue: QueueSpec)
    requires
        !queue.shutdown,
    ensures
        queue.popped().1 is Done <==> queue.queue.len() == 0 && queue.active_tasks == 0,
        queue.popped().1 is Wait <==> queue.queue.len() == 0 && queue.active_tasks > 0,
        queue.popped().1 is Task <==> queue.queue.len() > 0,
        queue.popped().0.shutdown <==> queue.popped().1 is Done,
{
}

} // verus!
