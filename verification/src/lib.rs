//! Aggregation pipeline of a system-call cost profiler.
//!
//! A tracer prints one line per completed system call, of the shape
//! `name(arguments) = result <seconds>`. This crate frames the tracer's byte
//! stream into lines, parses each line, folds the parsed events into a table
//! of per-call totals, and ranks the table for the final report.

mod clock;
pub mod duration;
pub mod event;
pub mod framer;
pub mod launch;
pub mod laws;
pub mod report;
pub mod session;
pub mod stat;
pub mod table;
pub mod text;

pub use crate::duration::parse_duration;
pub use crate::event::{parse_line, SyscallEvent};
pub use crate::framer::Framer;
pub use crate::launch::{exit_code, outcome, tracer_arguments, RunError};
pub use crate::report::{render, report};
pub use crate::session::{flush_due, Session, Step};
pub use crate::stat::Syscall;
pub use crate::table::SyscallTable;
