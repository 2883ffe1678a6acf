//! The task queue and its completion signal.
//!
//! The queue grows while it is drained: expanding a directory submits the
//! directory's children. Whoever may still submit holds a *submission
//! capability*. One exists from the start, for seeding the queue; one travels
//! with every directory task, and passes to the worker that takes the task,
//! who releases it when the directory's last child has been submitted. The
//! queue is complete when nothing is pending and no capability is left: only
//! then can no further task arrive.

use crate::location::PathLocation;
use std::collections::VecDeque;
use vstd::prelude::*;

verus! {

/// A unit of work: expand one directory, or hash one file. A directory task
/// carries a submission capability with it.
#[derive(Debug)]
pub enum Work {
    Directory { path: PathLocation },
    File { path: PathLocation },
}

/// The number of directory tasks among `tasks`: the capabilities that travel
/// with them.
pub open spec fn directories(tasks: Seq<Work>) -> nat
    decreases tasks.len(),
{
    if tasks.len() == 0 {
        0
    } else {
        directories(tasks.drop_last()) + if tasks.last() is Directory {
            1nat
        } else {
            0nat
        }
    }
}

/// What a call of `next` found.
#[derive(Debug)]
pub enum Next {
    /// A task, now the caller's to carry out. With a directory task the caller
    /// holds its capability until it calls `release`.
    Task(Work),
    /// Nothing is pending, but a capability is still out: more may arrive.
    Wait,
    /// Nothing is pending and nothing can arrive any more.
    Closed,
}

/// The queue of tasks, first in, first out, with the count of capabilities
/// that are out with the seeder or with workers.
pub struct TaskQueue {
    pending: VecDeque<Work>,
    held: usize,
}

impl TaskQueue {
    /// The tasks that wait to be taken, oldest first.
    pub closed spec fn pending(&self) -> Seq<Work> {
        self.pending@
    }

    /// The number of capabilities held outside the queue: by the seeder, and
    /// by workers in the middle of expanding a directory.
    pub closed spec fn held(&self) -> nat {
        self.held as nat
    }

    /// The number of live capabilities: those held outside the queue and those
    /// that travel with pending directory tasks.
    pub open spec fn live(&self) -> nat {
        self.held() + directories(self.pending())
    }

    /// The completion signal: nothing is pending and no capability is live.
    pub open spec fn complete(&self) -> bool {
        self.pending().len() == 0 && self.live() == 0
    }

    /// An empty queue, with the one capability that seeding needs.
    pub fn new() -> (queue: TaskQueue)
        ensures
            queue.pending() == Seq::<Work>::empty(),
            queue.held() == 1,
    {
        TaskQueue { pending: VecDeque::new(), held: 1 }
    }

    /// Appends a task. Only a holder of a capability may submit.
    pub fn submit(&mut self, work: Work)
        requires
            old(self).held() >= 1,
        ensures
            final(self).pending() == old(self).pending().push(work),
            final(self).held() == old(self).held(),
    {
        self.pending.push_back(work);
    }

    /// Gives up one capability that is held outside the queue.
    pub fn release(&mut self)
        requires
            old(self).held() >= 1,
        ensures
            final(self).pending() == old(self).pending(),
            final(self).held() == old(self).held() - 1,
    {
        self.held = self.held - 1;
    }

    /// Takes the oldest pending task. With a directory task its capability
    /// passes to the caller. Where nothing is pending, says whether more may
    /// still arrive.
    pub fn next(&mut self) -> (next: Next)
        requires
            old(self).held() < usize::MAX,
        ensures
            old(self).pending().len() > 0 ==> {
                &&& next == Next::Task(old(self).pending().first())
                &&& final(self).pending() == old(self).pending().drop_first()
                &&& final(self).held() == old(self).held() + if old(self).pending().first()
                    is Directory {
                    1nat
                } else {
                    0nat
                }
            },
            old(self).pending().len() == 0 ==> {
                &&& final(self).pending() == old(self).pending()
                &&& final(self).held() == old(self).held()
                &&& next == if old(self).held() == 0 {
                    Next::Closed
                } else {
                    Next::Wait
                }
            },
    {
        match self.pending.pop_front() {
            Some(work) => {
                if let Work::Directory { .. } = &work {
                    self.held = self.held + 1;
                }
                assert(self.pending@ =~= old(self).pending@.drop_first());
                Next::Task(work)
            },
            None => {
                if self.held == 0 {
                    Next::Closed
                } else {
                    Next::Wait
                }
            },
        }
    }

    /// Whether the completion signal has fired.
    pub fn is_closed(&self) -> (closed: bool)
        ensures
            closed == self.complete(),
    {
        let empty = self.pending.len() == 0;
        proof {
            if self.pending@.len() == 0 {
                assert(directories(self.pending@) == 0);
            }
        }
        empty && self.held == 0
    }

    /// The number of pending tasks.
    pub fn pending_len(&self) -> (n: usize)
        ensures
            n == self.pending().len(),
    {
        self.pending.len()
    }

    /// The number of capabilities held outside the queue.
    pub fn held_count(&self) -> (n: usize)
        ensures
            n == self.held(),
    {
        self.held
    }
}

/// The size of the worker pool: the hardware parallelism that was detected,
/// and two where none could be detected.
pub fn worker_count(detected: Option<usize>) -> (count: usize)
    ensures
        count == match detected {
            Some(parallelism) => if parallelism >= 1 {
                parallelism
            } else {
                2
            },
            None => 2,
        },
{
    match detected {
        Some(parallelism) => if parallelism >= 1 {
            parallelism
        } else {
            2
        },
        None => 2,
    }
}

} // verus!
