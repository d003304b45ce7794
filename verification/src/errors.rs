//! Structural error kinds surfaced by the library.
//!
//! The taxonomy is deliberately small: a scheduler `spawn` can collide with a
//! live task name, and `cancel` can miss; everything else is modelled as an
//! ordinary "empty" result rather than an error.

use vstd::prelude::*;

verus! {

/// Errors returned by the task scheduler.
#[derive(Clone, Copy, Debug, PartialEq, Eq, Structural)]
pub enum TaskError {
    /// `spawn` was called with a name that is already queued or running.
    DuplicateTask,
    /// `cancel` was called with a name that is neither queued nor running.
    TaskNotFound,
}

impl TaskError {
    /// A human-readable description of the error.
    pub fn message(&self) -> (r: &'static str)
        ensures
            *self is DuplicateTask ==> r@ == "task with this name already exists"@,
            *self is TaskNotFound ==> r@ == "task not found"@,
    {
        match self {
            TaskError::DuplicateTask => "task with this name already exists",
            TaskError::TaskNotFound => "task not found",
        }
    }
}

} // verus!
