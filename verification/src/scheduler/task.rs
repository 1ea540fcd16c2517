//! Tasks: the schedulable units of kernel execution.
use vstd::prelude::*;

verus! {

#[derive(Debug, Clone, Copy, PartialEq, Eq, Structural)]
pub struct TaskId(pub u32);

#[derive(Debug, Clone, Copy, PartialEq, Eq, Structural)]
pub enum TaskState {
    Ready,
    Running,
    Blocked,
}

/// Scheduling classes, most urgent first.
#[derive(Debug, Clone, Copy, PartialEq, Eq, Structural)]
pub enum PriorityClass {
    RealTime,
    Interactive,
    Productive,
    Background,
}

/// Position of a class in the order the scheduler serves them.
pub open spec fn rank(p: PriorityClass) -> int {
    match p {
        PriorityClass::RealTime => 0,
        PriorityClass::Interactive => 1,
        PriorityClass::Productive => 2,
        PriorityClass::Background => 3,
    }
}

#[derive(Clone, Copy)]
pub struct Task {
    pub id: TaskId,
    pub name: &'static str,
    pub priority: PriorityClass,
    pub state: TaskState,
    pub ticks: u64,
    pub entry: u64,
    pub stack_top: u64,
}

impl Task {
    pub open spec fn spec_new(
        id: TaskId,
        name: &'static str,
        priority: PriorityClass,
        entry: u64,
        stack_top: u64,
    ) -> Task {
        Task { id, name, priority, state: TaskState::Ready, ticks: 0, entry, stack_top }
    }

    /// A ready task that has not run yet.
    pub fn new(id: TaskId, name: &'static str, priority: PriorityClass, entry: u64, stack_top: u64) -> (t:
        Task)
        ensures
            t == Task::spec_new(id, name, priority, entry, stack_top),
    {
        Task { id, name, priority, state: TaskState::Ready, ticks: 0, entry, stack_top }
    }
}

} // verus!
