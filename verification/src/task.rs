//! Handles and results of background tasks.

use vstd::prelude::*;

verus! {

/// Identifies a background task.
#[derive(Clone, Copy, PartialEq, Eq, Structural)]
pub struct TaskHandle(pub usize);

impl TaskHandle {
    pub fn into_index(self) -> (r: usize)
        ensures
            r == self.0,
    {
        self.0
    }
}

/// What a task reports back.
pub enum TaskResult {
    Finished,
    ChildPartialOutput(String),
}

} // verus!
