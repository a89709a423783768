//! The declarative schedule configuration: the system's tick rate and major
//! cycle length, and the frames on which each task is slotted.

use vstd::prelude::*;

verus! {

/// System-wide timing parameters.
#[derive(Debug, Clone)]
pub struct SystemConfig {
    /// Timer ticks per second; one frame lasts one tick.
    pub tick_rate_hz: u32,
    /// Number of frames in the repeating major cycle.
    pub major_cycle_frames: usize,
}

/// One task of the schedule.
#[derive(Debug, Clone)]
pub struct TaskConfig {
    /// The task's name, by which its measured execution time is looked up.
    pub name: String,
    /// The path of the function that implements the task.
    pub func: String,
    /// The frames of the major cycle on which the task runs.
    pub frames: Vec<usize>,
}

/// A whole schedule configuration.
#[derive(Debug, Clone)]
pub struct ScheduleConfig {
    pub system: SystemConfig,
    pub tasks: Vec<TaskConfig>,
}

} // verus!
