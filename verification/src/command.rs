//! Deferred work requested by application update logic.
//!
//! A task is a unit of work executed by an external scheduler; its payload
//! is opaque to the runtime, which never inspects or executes it and only
//! hands it on. On completion the scheduler turns the task's finish value
//! into a message fed back into the normal dispatch cycle; a task dropped
//! before completion simply never produces that message.

use vstd::prelude::*;
use crate::event::Message;

verus! {

/// A deferred unit of work, owned by the external scheduler once emitted.
#[derive(Clone, Copy, PartialEq, Eq, Structural, Debug)]
pub struct Task {
    /// Opaque description of the work; only the scheduler interprets it.
    pub payload: u64,
    /// The message produced when the work completes.
    pub finish: Message,
}

/// A batch of tasks requested by one `update` call.
pub struct Command {
    /// The batch, in emission order.
    pub tasks: Vec<Task>,
}

impl Command {
    /// The tasks the command carries, in emission order.
    pub open spec fn view(&self) -> Seq<Task> {
        self.tasks@
    }

    /// A command requesting nothing.
    pub fn none() -> (c: Command)
        ensures
            c@ == Seq::<Task>::empty(),
    {
        Command { tasks: Vec::new() }
    }

    /// A command requesting a single task.
    pub fn single(t: Task) -> (c: Command)
        ensures
            c@ == seq![t],
    {
        let mut tasks: Vec<Task> = Vec::new();
        tasks.push(t);
        proof {
            assert(tasks@ =~= seq![t]);
        }
        Command { tasks }
    }

    /// Adds a task to the batch.
    pub fn push(&mut self, t: Task)
        ensures
            final(self)@ == old(self)@.push(t),
    {
        self.tasks.push(t);
    }

    /// Hands the batch to the scheduler; the command is consumed.
    pub fn into_tasks(self) -> (ts: Vec<Task>)
        ensures
            ts@ == self@,
    {
        self.tasks
    }
}

} // verus!
