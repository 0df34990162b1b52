//! Choosing the scheduler by its number.

use vstd::prelude::*;
use crate::model::{Process, ScheduleResult, SpecEvent, SpecStats, events_view, stats_view, render_events, render_stats};
use crate::fcfs::{first_in_first_out, fcfs_outcome, fcfs_stats};
use crate::sjf::{shortest_job_first, sjf_outcome, sjf_stats};
use crate::rr::{round_robin, rr_events, rr_stats};
use crate::cfs::{linux_cfs, cfs_events, cfs_stats};

verus! {

/// The log and figures of policy `control[2]` (0 first-come first-served,
/// 1 shortest job first, 2 round robin, 3 fair), none for another number.
pub open spec fn scheduled(ps: Seq<Process>, control: Seq<i32>) -> Option<(Seq<SpecEvent>, Seq<SpecStats>)> {
    let runfor = control[1] as int;
    let quantum = control[3] as int;
    if control[2] == 0 {
        Some((fcfs_outcome(ps, runfor).events, fcfs_stats(ps, fcfs_outcome(ps, runfor), ps.len())))
    } else if control[2] == 1 {
        Some((sjf_outcome(ps, runfor).events, sjf_stats(ps, sjf_outcome(ps, runfor))))
    } else if control[2] == 2 {
        Some((rr_events(ps, runfor, quantum), rr_stats(ps, runfor, quantum)))
    } else if control[2] == 3 {
        Some((cfs_events(ps, runfor), cfs_stats(ps, runfor)))
    } else {
        None
    }
}

/// Runs the policy numbered `control[2]`; `None` for an unknown number.
pub fn run_scheduler(control: [i32; 4], processes: &Vec<Process>) -> (r: Option<ScheduleResult>)
    ensures
        match scheduled(processes@, control@) {
            Some((ev, st)) => r matches Some(res) && res.finish_time == control[1]
                && events_view(res.events@) == render_events(ev, processes@)
                && stats_view(res.stats@) == render_stats(st, processes@),
            None => r is None,
        },
{
    let alg = control[2];
    if alg == 0 {
        Some(first_in_first_out(control, processes))
    } else if alg == 1 {
        Some(shortest_job_first(control, processes))
    } else if alg == 2 {
        Some(round_robin(control, processes))
    } else if alg == 3 {
        Some(linux_cfs(control, processes))
    } else {
        None
    }
}

} // verus!
