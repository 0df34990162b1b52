//! A verified simulator of CPU scheduling policies: first-come first-served,
//! preemptive shortest job first, round robin and a completely-fair-style
//! scheduler, together with the parser of the input description and the
//! renderer of the report.

pub mod text;
pub mod model;
pub mod fcfs;
pub mod sjf;
pub mod sjf_delay;
pub mod rr;
pub mod cfs;
pub mod config;
pub mod report;
pub mod graph;
pub mod skeleton;
pub mod dispatch;
