//! Placeholder schedulers: each schedules nothing, returning an empty log,
//! no figures and the stop tick 0.

use vstd::prelude::*;
use crate::model::{Process, ScheduleResult};

verus! {

/// Placeholder for first-come first-served: no events, no figures, stopped at 0.
pub fn first_in_first_out(_control: [i32; 4], _processes: &Vec<Process>) -> (r: ScheduleResult)
    ensures
        r.events@.len() == 0,
        r.stats@.len() == 0,
        r.finish_time == 0,
{
    ScheduleResult { events: Vec::new(), stats: Vec::new(), finish_time: 0 }
}

/// Placeholder for shortest job first: no events, no figures, stopped at 0.
pub fn shortest_job_first(_control: [i32; 4], _processes: &Vec<Process>) -> (r: ScheduleResult)
    ensures
        r.events@.len() == 0,
        r.stats@.len() == 0,
        r.finish_time == 0,
{
    ScheduleResult { events: Vec::new(), stats: Vec::new(), finish_time: 0 }
}

/// Placeholder for round robin: no events, no figures, stopped at 0.
pub fn round_robin(_control: [i32; 4], _processes: &Vec<Process>) -> (r: ScheduleResult)
    ensures
        r.events@.len() == 0,
        r.stats@.len() == 0,
        r.finish_time == 0,
{
    ScheduleResult { events: Vec::new(), stats: Vec::new(), finish_time: 0 }
}

} // verus!
