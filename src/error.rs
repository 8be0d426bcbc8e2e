use vstd::prelude::*;

verus! {

/// What can go wrong in the task store and its codec.
#[derive(PartialEq, Eq, Structural, Debug, Clone, Copy)]
pub enum TodoError {
    /// A task text that is empty or made of whitespace alone.
    InvalidTask,
    /// A descriptor text that does not follow the descriptor codec.
    MalformedDescriptor,
    /// Two stored tasks with the same descriptor.
    DuplicateDescriptor,
    /// No task carries the requested id.
    TaskNotFound,
}

} // verus!
