//! A time-triggered cyclic executive and the worst-case execution time
//! analysis of its static schedule.

pub mod config;
pub mod executive;
pub mod time;
pub mod wcet;

pub use config::{ScheduleConfig, SystemConfig, TaskConfig};
pub use executive::{CyclicExecutive, OverrunError, Timer};
pub use time::Duration;
pub use vstd::hash_map::StringHashMap;
pub use wcet::{analyze_schedule, profile_task, AnalysisError, AnalysisReport, FrameReport, TaskStats};
