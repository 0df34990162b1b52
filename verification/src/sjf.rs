//! Preemptive shortest job first: every tick the CPU goes to the ready
//! process with the least work left.

use vstd::prelude::*;
use crate::model::{
    Process, Event, ProcessStats, ScheduleResult, SpecEvent, SpecStats, arrivals_at, arrival_events,
    agree_i64, agree_opt, events_view, render_events, stats_view,
    render_stats, lemma_render_push, lemma_events_view_push, lemma_render_stats_push,
    lemma_stats_view_push, arrived_event, finished_event, idle_event, selected_padded_event,
    stats_row, in_time_order, logged_before, extends_at, lemma_extends_refl, lemma_extends_push,
    lemma_extends_arrivals, lemma_extends_trans, lemma_close_log, lemma_logged_tick, lemma_logged_close, idle_count, work_done, lemma_idle_push, lemma_idle_arrivals, lemma_work_step, lemma_work_zero,
};
use crate::fcfs::ticks;

verus! {

/// The state of the shortest-job-first simulation between two ticks.
pub struct SjfState {
    pub remaining: Seq<int>,
    pub started: Seq<bool>,
    pub start_time: Seq<int>,
    pub finish_time: Seq<int>,
    pub finished: Seq<bool>,
    pub running: Option<int>,
    /// The process whose selection was logged last, while it keeps the CPU.
    pub last_selected: Option<int>,
    pub events: Seq<SpecEvent>,
}

pub open spec fn sjf_init(ps: Seq<Process>) -> SjfState {
    SjfState {
        remaining: Seq::new(ps.len(), |i: int| ps[i].burst as int),
        started: Seq::new(ps.len(), |i: int| false),
        start_time: Seq::new(ps.len(), |i: int| 0int),
        finish_time: Seq::new(ps.len(), |i: int| 0int),
        finished: Seq::new(ps.len(), |i: int| false),
        running: None,
        last_selected: None,
        events: Seq::empty(),
    }
}

/// Step 1: arrivals are logged (readiness itself goes by `arrival <= t`).
pub open spec fn sjf_arrive(ps: Seq<Process>, s: SjfState, t: int) -> SjfState {
    SjfState { events: s.events + arrival_events(arrivals_at(ps, t, ps.len()), t), ..s }
}

/// Step 2: a running process with no work left is logged as finished at `t`.
pub open spec fn sjf_complete(s: SjfState, t: int) -> SjfState {
    match s.running {
        Some(idx) => if s.remaining[idx] == 0 {
            SjfState {
                finished: s.finished.update(idx, true),
                finish_time: s.finish_time.update(idx, t),
                events: s.events.push(SpecEvent::Finished { time: t, p: idx }),
                running: None,
                last_selected: None,
                ..s
            }
        } else {
            s
        },
        None => s,
    }
}

/// Process `i` may run at tick `t`: it has arrived, is not finished and has work left.
pub open spec fn sjf_eligible(ps: Seq<Process>, s: SjfState, t: int, i: int) -> bool {
    ps[i].arrival <= t && !s.finished[i] && s.remaining[i] > 0
}

/// `i` comes before `j` in the order (remaining work, arrival, input position).
pub open spec fn sjf_before(ps: Seq<Process>, s: SjfState, i: int, j: int) -> bool {
    ||| s.remaining[i] < s.remaining[j]
    ||| (s.remaining[i] == s.remaining[j] && ps[i].arrival < ps[j].arrival)
    ||| (s.remaining[i] == s.remaining[j] && ps[i].arrival == ps[j].arrival && i < j)
}

/// The choice among the first `k` processes, scanning in input order and
/// replacing the candidate only by a process strictly before it.
pub open spec fn sjf_best(ps: Seq<Process>, s: SjfState, t: int, k: nat) -> Option<int>
    decreases k,
{
    if k == 0 {
        None
    } else {
        let b = sjf_best(ps, s, t, (k - 1) as nat);
        let i = k - 1;
        if sjf_eligible(ps, s, t, i) {
            match b {
                None => Some(i),
                Some(bi) => if sjf_before(ps, s, i, bi) { Some(i) } else { b },
            }
        } else {
            b
        }
    }
}

/// Step 3 and 4: the chosen process runs for the tick (its selection logged
/// when it was not the one logged last), or the tick is logged idle.
pub open spec fn sjf_run_tick(ps: Seq<Process>, s: SjfState, t: int) -> SjfState {
    match sjf_best(ps, s, t, ps.len()) {
        Some(idx) => {
            let logged = if s.last_selected != Some(idx) {
                s.events.push(SpecEvent::SelectedPadded { time: t, p: idx, burst: s.remaining[idx] })
            } else {
                s.events
            };
            SjfState {
                running: Some(idx),
                started: s.started.update(idx, true),
                start_time: if s.started[idx] { s.start_time } else { s.start_time.update(idx, t) },
                events: logged,
                last_selected: Some(idx),
                remaining: s.remaining.update(idx, s.remaining[idx] - 1),
                ..s
            }
        },
        None => SjfState {
            running: None,
            events: s.events.push(SpecEvent::Idle { time: t }),
            last_selected: None,
            ..s
        },
    }
}

pub open spec fn sjf_tick(ps: Seq<Process>, s: SjfState, t: int) -> SjfState {
    sjf_run_tick(ps, sjf_complete(sjf_arrive(ps, s, t), t), t)
}

pub open spec fn sjf_run(ps: Seq<Process>, t: nat) -> SjfState
    decreases t,
{
    if t == 0 {
        sjf_init(ps)
    } else {
        sjf_tick(ps, sjf_run(ps, (t - 1) as nat), t - 1)
    }
}

/// All ticks, then a last check for a completion at `runfor`.
pub open spec fn sjf_outcome(ps: Seq<Process>, runfor: int) -> SjfState {
    sjf_complete(sjf_run(ps, ticks(runfor)), runfor)
}

/// The figures of process `i`: measured when it finished, `-1` otherwise
/// (the response is still measured for a process that started).
pub open spec fn sjf_row(ps: Seq<Process>, s: SjfState, i: int) -> SpecStats {
    if s.finished[i] {
        let turnaround = s.finish_time[i] - ps[i].arrival;
        SpecStats {
            p: i,
            wait: turnaround - ps[i].burst,
            turnaround,
            response: s.start_time[i] - ps[i].arrival,
        }
    } else {
        SpecStats {
            p: i,
            wait: -1,
            turnaround: -1,
            response: if s.started[i] { s.start_time[i] - ps[i].arrival } else { -1 },
        }
    }
}

pub open spec fn sjf_stats(ps: Seq<Process>, s: SjfState) -> Seq<SpecStats> {
    Seq::new(ps.len(), |i: int| sjf_row(ps, s, i))
}

pub open spec fn sjf_wf(ps: Seq<Process>, s: SjfState, t: int) -> bool {
    let n = ps.len();
    &&& s.remaining.len() == n
    &&& s.started.len() == n
    &&& s.start_time.len() == n
    &&& s.finish_time.len() == n
    &&& s.finished.len() == n
    &&& forall|i: int| 0 <= i < n ==> ps[i].burst - t <= #[trigger] s.remaining[i] <= ps[i].burst
    &&& forall|i: int| 0 <= i < n ==> 0 <= #[trigger] s.start_time[i] <= t
    &&& forall|i: int| 0 <= i < n ==> 0 <= #[trigger] s.finish_time[i] <= t
    &&& (s.running matches Some(i) ==> 0 <= i < n)
}

pub proof fn lemma_sjf_best_bounded(ps: Seq<Process>, s: SjfState, t: int, k: nat)
    requires
        k <= ps.len(),
    ensures
        sjf_best(ps, s, t, k) matches Some(i) ==> 0 <= i < k && sjf_eligible(ps, s, t, i),
    decreases k,
{
    if k > 0 {
        lemma_sjf_best_bounded(ps, s, t, (k - 1) as nat);
    }
}

pub proof fn lemma_sjf_wf(ps: Seq<Process>, t: nat)
    ensures
        sjf_wf(ps, sjf_run(ps, t), t as int),
    decreases t,
{
    if t > 0 {
        lemma_sjf_wf(ps, (t - 1) as nat);
        let s0 = sjf_run(ps, (t - 1) as nat);
        let s2 = sjf_complete(sjf_arrive(ps, s0, t - 1), t - 1);
        lemma_sjf_best_bounded(ps, s2, t - 1, ps.len());
    }
}

/// The choice of shortest job first: when some process may run, the chosen
/// one may run and comes strictly before every other process that may run
/// in the order (remaining work, arrival, input position); when none may
/// run, nothing is chosen.
pub proof fn law_sjf_runs_least_remaining(ps: Seq<Process>, s: SjfState, t: int)
    requires
        s.remaining.len() == ps.len(),
        s.finished.len() == ps.len(),
    ensures
        match sjf_best(ps, s, t, ps.len()) {
            Some(i) => 0 <= i < ps.len() && sjf_eligible(ps, s, t, i) && forall|j: int|
                0 <= j < ps.len() && j != i && #[trigger] sjf_eligible(ps, s, t, j) ==> sjf_before(ps, s, i, j),
            None => forall|j: int| 0 <= j < ps.len() ==> !#[trigger] sjf_eligible(ps, s, t, j),
        },
{
    lemma_sjf_best_least(ps, s, t, ps.len());
}

proof fn lemma_sjf_best_least(ps: Seq<Process>, s: SjfState, t: int, k: nat)
    requires
        k <= ps.len(),
        s.remaining.len() == ps.len(),
        s.finished.len() == ps.len(),
    ensures
        match sjf_best(ps, s, t, k) {
            Some(i) => 0 <= i < k && sjf_eligible(ps, s, t, i) && forall|j: int|
                0 <= j < k && j != i && #[trigger] sjf_eligible(ps, s, t, j) ==> sjf_before(ps, s, i, j),
            None => forall|j: int| 0 <= j < k ==> !#[trigger] sjf_eligible(ps, s, t, j),
        },
    decreases k,
{
    if k > 0 {
        lemma_sjf_best_least(ps, s, t, (k - 1) as nat);
    }
}

proof fn lemma_sjf_tick_log(ps: Seq<Process>, s0: SjfState, t: int)
    ensures
        extends_at(s0.events, sjf_tick(ps, s0, t).events, t),
{
    let s1 = sjf_arrive(ps, s0, t);
    let s2 = sjf_complete(s1, t);
    let s3 = sjf_run_tick(ps, s2, t);
    lemma_extends_arrivals(s0.events, arrivals_at(ps, t, ps.len()), t);
    lemma_close_log(s1.events, s1.remaining, s1.running, t);
    match sjf_best(ps, s2, t, ps.len()) {
        Some(idx) => if s2.last_selected != Some(idx) {
            lemma_extends_push(s2.events, SpecEvent::SelectedPadded { time: t, p: idx, burst: s2.remaining[idx] }, t);
        } else {
            lemma_extends_refl(s2.events, t);
        },
        None => lemma_extends_push(s2.events, SpecEvent::Idle { time: t }, t),
    }
    lemma_extends_trans(s0.events, s1.events, s2.events, t);
    lemma_extends_trans(s0.events, s2.events, s3.events, t);
}

proof fn lemma_sjf_log(ps: Seq<Process>, t: nat)
    ensures
        logged_before(sjf_run(ps, t).events, t as int),
    decreases t,
{
    if t > 0 {
        lemma_sjf_log(ps, (t - 1) as nat);
        lemma_sjf_tick_log(ps, sjf_run(ps, (t - 1) as nat), t - 1);
        lemma_logged_tick(sjf_run(ps, (t - 1) as nat).events, sjf_run(ps, t).events, t - 1);
    }
}

/// The shortest-job-first log is in order of time.
pub proof fn law_sjf_log_in_time_order(ps: Seq<Process>, runfor: int)
    ensures
        in_time_order(sjf_outcome(ps, runfor).events),
{
    let t = ticks(runfor);
    lemma_sjf_log(ps, t);
    let s = sjf_run(ps, t);
    lemma_close_log(s.events, s.remaining, s.running, runfor);
    if runfor >= 0 {
        lemma_logged_close(s.events, sjf_outcome(ps, runfor).events, t as int, runfor);
    } else {
        assert(s == sjf_init(ps));
        assert(sjf_outcome(ps, runfor) == s);
    }
}

proof fn lemma_sjf_tick_accounting(ps: Seq<Process>, s0: SjfState, t: int)
    requires
        t >= 0,
        sjf_wf(ps, s0, t),
    ensures
        idle_count(sjf_tick(ps, s0, t).events) + work_done(ps, sjf_tick(ps, s0, t).remaining, ps.len())
            == idle_count(s0.events) + work_done(ps, s0.remaining, ps.len()) + 1,
{
    let n = ps.len();
    let s1 = sjf_arrive(ps, s0, t);
    let s2 = sjf_complete(s1, t);
    lemma_idle_arrivals(s0.events, arrivals_at(ps, t, n), t);
    if let Some(idx) = s1.running {
        if s1.remaining[idx] == 0 {
            lemma_idle_push(s1.events, SpecEvent::Finished { time: t, p: idx });
        }
    }
    lemma_sjf_best_bounded(ps, s2, t, n);
    match sjf_best(ps, s2, t, n) {
        Some(idx) => {
            if s2.last_selected != Some(idx) {
                lemma_idle_push(s2.events, SpecEvent::SelectedPadded { time: t, p: idx, burst: s2.remaining[idx] });
            }
            lemma_work_step(ps, s2.remaining, idx, n);
        },
        None => {
            lemma_idle_push(s2.events, SpecEvent::Idle { time: t });
        },
    }
}

/// Every tick is accounted for exactly once: after `t` ticks, the idle
/// ticks in the log plus the CPU time given to the processes make `t`.
pub proof fn law_sjf_every_tick_accounted(ps: Seq<Process>, t: nat)
    ensures
        idle_count(sjf_run(ps, t).events) + work_done(ps, sjf_run(ps, t).remaining, ps.len()) == t,
    decreases t,
{
    if t > 0 {
        law_sjf_every_tick_accounted(ps, (t - 1) as nat);
        lemma_sjf_wf(ps, (t - 1) as nat);
        lemma_sjf_tick_accounting(ps, sjf_run(ps, (t - 1) as nat), t - 1);
    } else {
        lemma_work_zero(ps, sjf_init(ps).remaining, ps.len());
    }
}

/// How shortest job first keeps time: a process that has not started has
/// all its work left, a started one has run no more ticks than have passed
/// since its start, and a finished one finished no earlier than its start
/// plus its burst.
pub open spec fn sjf_timing(ps: Seq<Process>, s: SjfState, t: int) -> bool {
    let n = ps.len();
    &&& forall|i: int| 0 <= i < n && !#[trigger] s.started[i] ==> s.remaining[i] == ps[i].burst && !s.finished[i]
    &&& forall|i: int| 0 <= i < n && #[trigger] s.started[i] ==> ps[i].burst - s.remaining[i] <= t - s.start_time[i]
    &&& forall|i: int| 0 <= i < n && #[trigger] s.finished[i] ==> s.finish_time[i] >= s.start_time[i] + ps[i].burst
    &&& (s.running matches Some(r) ==> s.started[r])
}

pub proof fn lemma_sjf_timing(ps: Seq<Process>, t: nat)
    ensures
        sjf_timing(ps, sjf_run(ps, t), t as int),
    decreases t,
{
    if t > 0 {
        lemma_sjf_timing(ps, (t - 1) as nat);
        lemma_sjf_wf(ps, (t - 1) as nat);
        let tt = t - 1;
        let s0 = sjf_run(ps, (t - 1) as nat);
        let s2 = sjf_complete(sjf_arrive(ps, s0, tt), tt);
        lemma_sjf_best_bounded(ps, s2, tt, ps.len());
        let s3 = sjf_run_tick(ps, s2, tt);
        assert forall|i: int| 0 <= i < ps.len() && #[trigger] s3.started[i] implies ps[i].burst - s3.remaining[i] <= t - s3.start_time[i] by {
            if !s2.started[i] {
                assert(sjf_best(ps, s2, tt, ps.len()) == Some(i));
            }
        }
    }
}

/// Shortest job first may interrupt a process but never runs it before its
/// start: for every process that finished, the response is at most the wait.
pub proof fn law_sjf_response_at_most_wait(ps: Seq<Process>, runfor: int)
    ensures
        forall|i: int| 0 <= i < ps.len() && #[trigger] sjf_outcome(ps, runfor).finished[i] ==>
            sjf_stats(ps, sjf_outcome(ps, runfor))[i].response <= sjf_stats(ps, sjf_outcome(ps, runfor))[i].wait,
{
    let t = ticks(runfor);
    lemma_sjf_timing(ps, t);
    lemma_sjf_wf(ps, t);
    let s = sjf_run(ps, t);
    let f = sjf_outcome(ps, runfor);
    assert forall|i: int| 0 <= i < ps.len() && #[trigger] f.finished[i] implies f.finish_time[i] >= f.start_time[i] + ps[i].burst by {
        if !s.finished[i] {
            assert(s.running == Some(i));
        }
    }
}

/// Shortest job first, tick by tick: the process that ran during tick `t`
/// had, at the start of that tick, the least remaining work among all the
/// processes that had arrived, were not finished and had work left (ties
/// going to the earlier arrival, then to the earlier input position); the
/// tick is idle only when no such process existed.
pub proof fn law_sjf_tick_runs_shortest(ps: Seq<Process>, t: nat)
    ensures
        ({
            let next = sjf_run(ps, t + 1);
            match next.running {
                Some(i) => 0 <= i < ps.len() && forall|j: int|
                    0 <= j < ps.len() && j != i && ps[j].arrival <= t && !next.finished[j] && #[trigger] next.remaining[j] > 0
                        ==> {
                            ||| next.remaining[i] + 1 < next.remaining[j]
                            ||| next.remaining[i] + 1 == next.remaining[j] && ps[i].arrival < ps[j].arrival
                            ||| next.remaining[i] + 1 == next.remaining[j] && ps[i].arrival == ps[j].arrival && i < j
                        },
                None => forall|j: int|
                    0 <= j < ps.len() ==> !(ps[j].arrival <= t && !next.finished[j] && #[trigger] next.remaining[j] > 0),
            }
        }),
{
    let tt = t as int;
    let n = ps.len();
    lemma_sjf_wf(ps, t);
    let s0 = sjf_run(ps, t);
    let s2 = sjf_complete(sjf_arrive(ps, s0, tt), tt);
    lemma_sjf_best_least(ps, s2, tt, n);
    let next = sjf_run_tick(ps, s2, tt);
    assert(next == sjf_run(ps, t + 1));
    match sjf_best(ps, s2, tt, n) {
        Some(i) => {
            assert forall|j: int|
                0 <= j < n && j != i && ps[j].arrival <= t && !next.finished[j] && #[trigger] next.remaining[j] > 0 implies {
                    ||| next.remaining[i] + 1 < next.remaining[j]
                    ||| next.remaining[i] + 1 == next.remaining[j] && ps[i].arrival < ps[j].arrival
                    ||| next.remaining[i] + 1 == next.remaining[j] && ps[i].arrival == ps[j].arrival && i < j
                } by {
                assert(next.remaining[j] == s2.remaining[j]);
                assert(sjf_eligible(ps, s2, tt, j));
            }
        },
        None => {
            assert forall|j: int| 0 <= j < n implies !(ps[j].arrival <= t && !next.finished[j] && #[trigger] next.remaining[j] > 0) by {
                assert(!sjf_eligible(ps, s2, tt, j));
            }
        },
    }
}

/// The exec vectors hold the state `s`.
pub open spec fn sjf_agree(
    remaining: Seq<i64>,
    started: Seq<bool>,
    start_time: Seq<i64>,
    finish_time: Seq<i64>,
    finished: Seq<bool>,
    running: Option<usize>,
    last_selected: Option<usize>,
    s: SjfState,
) -> bool {
    &&& agree_i64(remaining, s.remaining)
    &&& started == s.started
    &&& agree_i64(start_time, s.start_time)
    &&& agree_i64(finish_time, s.finish_time)
    &&& finished == s.finished
    &&& agree_opt(running, s.running)
    &&& agree_opt(last_selected, s.last_selected)
}

/// Runs the workload with preemptive shortest job first for `control[1]` ticks.
///
/// Each tick logs the arrivals and the completion of the running process;
/// then the arrived, unfinished process with the least remaining work runs
/// (ties go to the earlier arrival, then to the earlier position in the
/// input), its selection logged when it differs from the last one logged.
/// Figures are given for every process in input order, `-1` where a
/// process did not finish.
#[verifier::loop_isolation(false)]
pub fn shortest_job_first(control: [i32; 4], processes: &Vec<Process>) -> (r: ScheduleResult)
    ensures
        r.finish_time == control[1],
        events_view(r.events@) == render_events(
            sjf_outcome(processes@, control[1] as int).events,
            processes@,
        ),
        stats_view(r.stats@) == render_stats(
            sjf_stats(processes@, sjf_outcome(processes@, control[1] as int)),
            processes@,
        ),
{
    let runfor = control[1];
    let n = processes.len();
    let ghost ps = processes@;
    let mut remaining: Vec<i64> = Vec::new();
    let mut started: Vec<bool> = Vec::new();
    let mut start_time: Vec<i64> = Vec::new();
    let mut finish_time: Vec<i64> = Vec::new();
    let mut finished: Vec<bool> = Vec::new();
    let mut k: usize = 0;
    while k < n
        invariant
            0 <= k <= n,
            remaining@.len() == k,
            started@.len() == k,
            start_time@.len() == k,
            finish_time@.len() == k,
            finished@.len() == k,
            forall|i: int| 0 <= i < k ==> remaining@[i] == ps[i].burst as i64,
            forall|i: int| 0 <= i < k ==> !started@[i] && !finished@[i],
            forall|i: int| 0 <= i < k ==> start_time@[i] == 0 && finish_time@[i] == 0,
        decreases n - k,
    {
        remaining.push(processes[k].burst as i64);
        started.push(false);
        start_time.push(0);
        finish_time.push(0);
        finished.push(false);
        k = k + 1;
    }
    let mut running: Option<usize> = None;
    let mut last_selected: Option<usize> = None;
    let mut events: Vec<Event> = Vec::new();
    let ghost mut gs = sjf_init(ps);
    assert(started@ =~= gs.started);
    assert(finished@ =~= gs.finished);
    assert(events_view(events@) =~= render_events(gs.events, ps));

    let limit: i32 = if runfor < 0 { 0 } else { runfor };
    let mut t: i32 = 0;
    while t < limit
        invariant
            0 <= t <= limit,
            gs == sjf_run(ps, t as nat),
            sjf_agree(remaining@, started@, start_time@, finish_time@, finished@, running, last_selected, gs),
            events_view(events@) == render_events(gs.events, ps),
        decreases limit - t,
    {
        proof {
            lemma_sjf_wf(ps, t as nat);
        }
        let ghost s0 = gs;
        // 1. arrivals
        let mut i: usize = 0;
        while i < n
            invariant
                0 <= i <= n,
                events_view(events@) == render_events(
                    s0.events + arrival_events(arrivals_at(ps, t as int, i as nat), t as int),
                    ps,
                ),
            decreases n - i,
        {
            let ghost before = arrivals_at(ps, t as int, i as nat);
            if processes[i].arrival == t {
                let e = arrived_event(t, &processes[i].name);
                proof {
                    lemma_events_view_push(events@, e);
                    let se = SpecEvent::Arrived { time: t as int, p: i as int };
                    lemma_render_push(s0.events + arrival_events(before, t as int), se, ps);
                    assert(s0.events + arrival_events(before.push(i as int), t as int)
                        =~= (s0.events + arrival_events(before, t as int)).push(se));
                }
                events.push(e);
            }
            i = i + 1;
        }
        proof {
            gs = sjf_arrive(ps, s0, t as int);
        }
        // 2. completion
        let ghost s1 = gs;
        if let Some(idx) = running {
            if remaining[idx] == 0 {
                finished.set(idx, true);
                finish_time.set(idx, t as i64);
                let e = finished_event(t, &processes[idx].name);
                proof {
                    lemma_events_view_push(events@, e);
                    lemma_render_push(s1.events, SpecEvent::Finished { time: t as int, p: idx as int }, ps);
                }
                events.push(e);
                running = None;
                last_selected = None;
            }
        }
        proof {
            gs = sjf_complete(s1, t as int);
        }
        assert(finished@ =~= gs.finished);
        // 3. choice
        let ghost s2 = gs;
        let mut best: Option<usize> = None;
        let mut j: usize = 0;
        while j < n
            invariant
                0 <= j <= n,
                agree_opt(best, sjf_best(ps, s2, t as int, j as nat)),
                best matches Some(b) ==> b < j,
            decreases n - j,
        {
            if processes[j].arrival <= t && !finished[j] && remaining[j] > 0 {
                match best {
                    None => {
                        best = Some(j);
                    },
                    Some(bi) => {
                        let better = remaining[j] < remaining[bi] || (remaining[j] == remaining[bi]
                            && processes[j].arrival < processes[bi].arrival) || (remaining[j]
                            == remaining[bi] && processes[j].arrival == processes[bi].arrival && j < bi);
                        if better {
                            best = Some(j);
                        }
                    },
                }
            }
            j = j + 1;
        }
        running = best;
        // 4. execution
        match running {
            Some(idx) => {
                if !started[idx] {
                    started.set(idx, true);
                    start_time.set(idx, t as i64);
                }
                let logged = match last_selected {
                    Some(l) => l != idx,
                    None => true,
                };
                if logged {
                    let e = selected_padded_event(t, &processes[idx].name, remaining[idx]);
                    proof {
                        lemma_events_view_push(events@, e);
                        lemma_render_push(
                            s2.events,
                            SpecEvent::SelectedPadded { time: t as int, p: idx as int, burst: s2.remaining[idx as int] },
                            ps,
                        );
                    }
                    events.push(e);
                }
                last_selected = Some(idx);
                let r = remaining[idx];
                remaining.set(idx, r - 1);
            },
            None => {
                let e = idle_event(t);
                proof {
                    lemma_events_view_push(events@, e);
                    lemma_render_push(s2.events, SpecEvent::Idle { time: t as int }, ps);
                }
                events.push(e);
                last_selected = None;
            },
        }
        proof {
            gs = sjf_run_tick(ps, s2, t as int);
        }
        assert(started@ =~= gs.started);
        t = t + 1;
    }
    proof {
        lemma_sjf_wf(ps, t as nat);
    }
    let ghost s4 = gs;
    if let Some(idx) = running {
        if remaining[idx] == 0 {
            finished.set(idx, true);
            finish_time.set(idx, runfor as i64);
            let e = finished_event(runfor, &processes[idx].name);
            proof {
                lemma_events_view_push(events@, e);
                lemma_render_push(s4.events, SpecEvent::Finished { time: runfor as int, p: idx as int }, ps);
            }
            events.push(e);
        }
    }
    proof {
        gs = sjf_complete(s4, runfor as int);
    }
    assert(finished@ =~= gs.finished);
    let ghost fs = gs;
    assert forall|j: int| 0 <= j < n implies 0 <= #[trigger] finish_time@[j] <= i32::MAX && 0
        <= start_time@[j] <= i32::MAX by {
        assert(finish_time@[j] as int == fs.finish_time[j]);
        assert(start_time@[j] as int == fs.start_time[j]);
        assert(s4.start_time[j] <= t);
        assert(s4.finish_time[j] <= t);
    }

    let mut stats: Vec<ProcessStats> = Vec::new();
    let mut i: usize = 0;
    while i < n
        invariant
            0 <= i <= n,
            stats_view(stats@) == render_stats(sjf_stats(ps, fs).take(i as int), ps),
        decreases n - i,
    {
        let row = if finished[i] {
            let turnaround = finish_time[i] - processes[i].arrival as i64;
            let wait = turnaround - processes[i].burst as i64;
            let response = start_time[i] - processes[i].arrival as i64;
            stats_row(&processes[i].name, wait, turnaround, response)
        } else {
            let response = if started[i] {
                start_time[i] - processes[i].arrival as i64
            } else {
                -1
            };
            stats_row(&processes[i].name, -1, -1, response)
        };
        proof {
            let sr = sjf_row(ps, fs, i as int);
            lemma_stats_view_push(stats@, row);
            lemma_render_stats_push(sjf_stats(ps, fs).take(i as int), sr, ps);
            assert(sjf_stats(ps, fs).take(i + 1) =~= sjf_stats(ps, fs).take(i as int).push(sr));
        }
        stats.push(row);
        i = i + 1;
    }
    assert(sjf_stats(ps, fs).take(n as int) =~= sjf_stats(ps, fs));
    ScheduleResult { events, stats, finish_time: runfor }
}

} // verus!
