//! First-come first-served: a non-preemptive queue in order of arrival.

use vstd::prelude::*;
use crate::model::{
    Process, Event, ProcessStats, ScheduleResult, SpecEvent, SpecStats, arrivals_at, arrival_events,
    lemma_arrivals_bounded, agree_i64, agree_idx, agree_opt, events_view, render_events, stats_view,
    render_stats, lemma_render_push, lemma_events_view_push, lemma_render_stats_push,
    lemma_stats_view_push, arrived_event, finished_event, idle_event, selected_padded_event,
    stats_row, event_time, selection_at, in_time_order, logged_before, extends_at, lemma_extends_refl, lemma_extends_push,
    lemma_extends_arrivals, lemma_extends_trans, lemma_close_log, lemma_logged_tick, lemma_logged_close, idle_count, work_done, lemma_idle_push, lemma_idle_arrivals, lemma_work_step, lemma_work_zero,
};

verus! {

/// The state of the first-come first-served simulation between two ticks.
pub struct FcfsState {
    /// Ticks of CPU time each process still needs.
    pub remaining: Seq<int>,
    pub started: Seq<bool>,
    /// Tick of the first selection (meaningful once started).
    pub start_time: Seq<int>,
    /// Tick of the completion (meaningful once finished).
    pub finish_time: Seq<int>,
    pub finished: Seq<bool>,
    /// Indices of the processes waiting, oldest first.
    pub ready: Seq<int>,
    pub running: Option<int>,
    pub events: Seq<SpecEvent>,
}

pub open spec fn fcfs_init(ps: Seq<Process>) -> FcfsState {
    FcfsState {
        remaining: Seq::new(ps.len(), |i: int| ps[i].burst as int),
        started: Seq::new(ps.len(), |i: int| false),
        start_time: Seq::new(ps.len(), |i: int| 0int),
        finish_time: Seq::new(ps.len(), |i: int| 0int),
        finished: Seq::new(ps.len(), |i: int| false),
        ready: Seq::empty(),
        running: None,
        events: Seq::empty(),
    }
}

/// Step 1 of a tick: the processes arriving at `t` are logged and queued.
pub open spec fn fcfs_arrive(ps: Seq<Process>, s: FcfsState, t: int) -> FcfsState {
    let arr = arrivals_at(ps, t, ps.len());
    FcfsState { ready: s.ready + arr, events: s.events + arrival_events(arr, t), ..s }
}

/// Step 2: a running process with no work left is logged as finished at `t`.
pub open spec fn fcfs_complete(s: FcfsState, t: int) -> FcfsState {
    match s.running {
        Some(idx) => if s.remaining[idx] == 0 {
            FcfsState {
                events: s.events.push(SpecEvent::Finished { time: t, p: idx }),
                finished: s.finished.update(idx, true),
                finish_time: s.finish_time.update(idx, t),
                running: None,
                ..s
            }
        } else {
            s
        },
        None => s,
    }
}

/// Step 3: a free CPU takes the oldest waiting process.
pub open spec fn fcfs_select(ps: Seq<Process>, s: FcfsState, t: int) -> FcfsState {
    if s.running is None && s.ready.len() > 0 {
        let idx = s.ready[0];
        FcfsState {
            ready: s.ready.drop_first(),
            running: Some(idx),
            started: s.started.update(idx, true),
            start_time: if s.started[idx] { s.start_time } else { s.start_time.update(idx, t) },
            events: s.events.push(SpecEvent::SelectedPadded { time: t, p: idx, burst: ps[idx].burst as int }),
            ..s
        }
    } else {
        s
    }
}

/// Step 4: the running process uses the tick, or the tick is logged idle.
pub open spec fn fcfs_execute(s: FcfsState, t: int) -> FcfsState {
    match s.running {
        Some(idx) => FcfsState { remaining: s.remaining.update(idx, s.remaining[idx] - 1), ..s },
        None => FcfsState { events: s.events.push(SpecEvent::Idle { time: t }), ..s },
    }
}

pub open spec fn fcfs_tick(ps: Seq<Process>, s: FcfsState, t: int) -> FcfsState {
    fcfs_execute(fcfs_select(ps, fcfs_complete(fcfs_arrive(ps, s, t), t), t), t)
}

/// The state after the first `t` ticks.
pub open spec fn fcfs_run(ps: Seq<Process>, t: nat) -> FcfsState
    decreases t,
{
    if t == 0 {
        fcfs_init(ps)
    } else {
        fcfs_tick(ps, fcfs_run(ps, (t - 1) as nat), t - 1)
    }
}

/// The number of ticks simulated for a run length (none when it is negative).
pub open spec fn ticks(runfor: int) -> nat {
    if runfor < 0 { 0 } else { runfor as nat }
}

/// The final state: all ticks, then a last check for a completion at `runfor`.
pub open spec fn fcfs_outcome(ps: Seq<Process>, runfor: int) -> FcfsState {
    fcfs_complete(fcfs_run(ps, ticks(runfor)), runfor)
}

/// Figures of the finished processes among the first `k`, in input order.
pub open spec fn fcfs_stats(ps: Seq<Process>, s: FcfsState, k: nat) -> Seq<SpecStats>
    decreases k,
{
    if k == 0 {
        Seq::empty()
    } else {
        let prev = fcfs_stats(ps, s, (k - 1) as nat);
        let i = k - 1;
        if s.finished[i] {
            let turnaround = s.finish_time[i] - ps[i].arrival;
            prev.push(SpecStats {
                p: i,
                wait: turnaround - ps[i].burst,
                turnaround,
                response: s.start_time[i] - ps[i].arrival,
            })
        } else {
            prev
        }
    }
}

/// Shape and bounds of a state reached after `t` ticks.
pub open spec fn fcfs_wf(ps: Seq<Process>, s: FcfsState, t: int) -> bool {
    let n = ps.len();
    &&& s.remaining.len() == n
    &&& s.started.len() == n
    &&& s.start_time.len() == n
    &&& s.finish_time.len() == n
    &&& s.finished.len() == n
    &&& forall|i: int| 0 <= i < n ==> ps[i].burst - t <= #[trigger] s.remaining[i] <= ps[i].burst
    &&& forall|i: int| 0 <= i < n ==> 0 <= #[trigger] s.start_time[i] <= t
    &&& forall|i: int| 0 <= i < n ==> 0 <= #[trigger] s.finish_time[i] <= t
    &&& forall|j: int| 0 <= j < s.ready.len() ==> 0 <= #[trigger] s.ready[j] < n
    &&& (s.running matches Some(i) ==> 0 <= i < n)
}

pub proof fn lemma_fcfs_wf(ps: Seq<Process>, t: nat)
    ensures
        fcfs_wf(ps, fcfs_run(ps, t), t as int),
    decreases t,
{
    if t > 0 {
        lemma_fcfs_wf(ps, (t - 1) as nat);
        let tt = t - 1;
        lemma_arrivals_bounded(ps, tt, ps.len());
        let s0 = fcfs_run(ps, (t - 1) as nat);
        let s1 = fcfs_arrive(ps, s0, tt);
        assert forall|j: int| 0 <= j < s1.ready.len() implies 0 <= #[trigger] s1.ready[j] < ps.len() by {
            if j >= s0.ready.len() {
                assert(s1.ready[j] == arrivals_at(ps, tt, ps.len())[j - s0.ready.len()]);
            }
        }
        let s2 = fcfs_complete(s1, tt);
        let s3 = fcfs_select(ps, s2, tt);
        assert forall|j: int| 0 <= j < s3.ready.len() implies 0 <= #[trigger] s3.ready[j] < ps.len() by {
            if s2.running is None && s2.ready.len() > 0 {
                assert(s3.ready[j] == s2.ready[j + 1]);
            }
        }
    }
}


/// How the non-preemptive queue keeps time: a process that started has run
/// without interruption since its start, and a finished one ran exactly its
/// burst from its start.
pub open spec fn fcfs_timing(ps: Seq<Process>, s: FcfsState, t: int) -> bool {
    let n = ps.len();
    &&& forall|i: int| 0 <= i < n && #[trigger] s.finished[i] ==> s.started[i] && s.finish_time[i] == s.start_time[i] + ps[i].burst && s.running != Some(i)
    &&& forall|i: int| 0 <= i < n && !#[trigger] s.started[i] ==> s.remaining[i] == ps[i].burst && !s.finished[i]
    &&& forall|i: int| 0 <= i < n && #[trigger] s.started[i] ==> ps[i].arrival < t
    &&& (s.running matches Some(r) ==> s.started[r] && s.start_time[r] + ps[r].burst - s.remaining[r] == t)
    &&& forall|j: int| 0 <= j < s.ready.len() ==> !s.started[#[trigger] s.ready[j]] && ps[s.ready[j]].arrival < t
    &&& forall|a: int, b: int| 0 <= a < b < s.ready.len() ==> s.ready[a] != s.ready[b]
}

proof fn lemma_fcfs_tick_timing(ps: Seq<Process>, s0: FcfsState, t: int)
    requires
        t >= 0,
        fcfs_wf(ps, s0, t),
        fcfs_timing(ps, s0, t),
    ensures
        fcfs_timing(ps, fcfs_tick(ps, s0, t), t + 1),
{
    let n = ps.len();
    lemma_arrivals_bounded(ps, t, n);
    let arr = arrivals_at(ps, t, n);
    let s1 = fcfs_arrive(ps, s0, t);
    let l0 = s0.ready.len();
    assert forall|j: int| 0 <= j < s1.ready.len() implies !s1.started[#[trigger] s1.ready[j]] && ps[s1.ready[j]].arrival <= t && 0 <= s1.ready[j] < n by {
        if j < l0 {
            assert(s1.ready[j] == s0.ready[j]);
        } else {
            assert(s1.ready[j] == arr[j - l0]);
            if s0.started[arr[j - l0]] {
                assert(ps[arr[j - l0]].arrival < t);
            }
        }
    }
    assert forall|a: int, b: int| 0 <= a < b < s1.ready.len() implies s1.ready[a] != s1.ready[b] by {
        if b < l0 {
            assert(s1.ready[a] == s0.ready[a]);
            assert(s1.ready[b] == s0.ready[b]);
        } else if a < l0 {
            assert(s1.ready[a] == s0.ready[a]);
            assert(s1.ready[b] == arr[b - l0]);
        } else {
            assert(s1.ready[a] == arr[a - l0]);
            assert(s1.ready[b] == arr[b - l0]);
        }
    }
    let s2 = fcfs_complete(s1, t);
    let s3 = fcfs_select(ps, s2, t);
    if s2.running is None && s2.ready.len() > 0 {
        let idx = s2.ready[0];
        assert(!s2.started[idx]);
        assert forall|j: int| 0 <= j < s3.ready.len() implies !s3.started[#[trigger] s3.ready[j]] && ps[s3.ready[j]].arrival <= t by {
            assert(s3.ready[j] == s2.ready[j + 1]);
            assert(s2.ready[j + 1] != idx);
        }
        assert forall|a: int, b: int| 0 <= a < b < s3.ready.len() implies s3.ready[a] != s3.ready[b] by {
            assert(s3.ready[a] == s2.ready[a + 1]);
            assert(s3.ready[b] == s2.ready[b + 1]);
        }
    }
    let s4 = fcfs_execute(s3, t);
    assert forall|i: int| 0 <= i < n && #[trigger] s4.started[i] implies ps[i].arrival < t + 1 by {
        if !s0.started[i] {
            assert(s2.ready.len() > 0 && s2.ready[0] == i);
        }
    }
}

proof fn lemma_fcfs_timing(ps: Seq<Process>, t: nat)
    ensures
        fcfs_timing(ps, fcfs_run(ps, t), t as int),
    decreases t,
{
    if t > 0 {
        lemma_fcfs_timing(ps, (t - 1) as nat);
        lemma_fcfs_wf(ps, (t - 1) as nat);
        lemma_fcfs_tick_timing(ps, fcfs_run(ps, (t - 1) as nat), t - 1);
    }
}

proof fn lemma_fcfs_stats_rows(ps: Seq<Process>, s: FcfsState, k: nat)
    requires
        k <= ps.len(),
    ensures
        forall|m: int| 0 <= m < fcfs_stats(ps, s, k).len() ==> {
            let r = #[trigger] fcfs_stats(ps, s, k)[m];
            &&& 0 <= r.p < k
            &&& s.finished[r.p]
            &&& r.turnaround == s.finish_time[r.p] - ps[r.p].arrival
            &&& r.wait == r.turnaround - ps[r.p].burst
            &&& r.response == s.start_time[r.p] - ps[r.p].arrival
        },
    decreases k,
{
    if k > 0 {
        lemma_fcfs_stats_rows(ps, s, (k - 1) as nat);
        let prev = fcfs_stats(ps, s, (k - 1) as nat);
        let cur = fcfs_stats(ps, s, k);
        assert forall|m: int| 0 <= m < cur.len() implies {
            let r = #[trigger] cur[m];
            &&& 0 <= r.p < k
            &&& s.finished[r.p]
            &&& r.turnaround == s.finish_time[r.p] - ps[r.p].arrival
            &&& r.wait == r.turnaround - ps[r.p].burst
            &&& r.response == s.start_time[r.p] - ps[r.p].arrival
        } by {
            if m < prev.len() {
                assert(cur[m] == prev[m]);
            }
        }
    }
}

/// First-come first-served never interrupts a process: for every process
/// in the figures (the finished ones), the response equals the wait.
pub proof fn law_fcfs_response_equals_wait(ps: Seq<Process>, runfor: int)
    ensures
        forall|m: int| 0 <= m < fcfs_stats(ps, fcfs_outcome(ps, runfor), ps.len()).len() ==>
            (#[trigger] fcfs_stats(ps, fcfs_outcome(ps, runfor), ps.len())[m]).response
                == fcfs_stats(ps, fcfs_outcome(ps, runfor), ps.len())[m].wait,
{
    let t = ticks(runfor);
    lemma_fcfs_timing(ps, t);
    lemma_fcfs_wf(ps, t);
    let s = fcfs_run(ps, t);
    let f = fcfs_outcome(ps, runfor);
    lemma_fcfs_stats_rows(ps, f, ps.len());
    assert forall|i: int| 0 <= i < ps.len() && #[trigger] f.finished[i] implies f.finish_time[i] == f.start_time[i] + ps[i].burst by {
        if !s.finished[i] {
            assert(s.running == Some(i));
        }
    }
}

proof fn lemma_fcfs_tick_log(ps: Seq<Process>, s0: FcfsState, t: int)
    ensures
        extends_at(s0.events, fcfs_tick(ps, s0, t).events, t),
{
    let s1 = fcfs_arrive(ps, s0, t);
    let s2 = fcfs_complete(s1, t);
    let s3 = fcfs_select(ps, s2, t);
    let s4 = fcfs_execute(s3, t);
    lemma_extends_arrivals(s0.events, arrivals_at(ps, t, ps.len()), t);
    lemma_close_log(s1.events, s1.remaining, s1.running, t);
    if s2.running is None && s2.ready.len() > 0 {
        let idx = s2.ready[0];
        lemma_extends_push(s2.events, SpecEvent::SelectedPadded { time: t, p: idx, burst: ps[idx].burst as int }, t);
    } else {
        lemma_extends_refl(s2.events, t);
    }
    if s3.running is None {
        lemma_extends_push(s3.events, SpecEvent::Idle { time: t }, t);
    } else {
        lemma_extends_refl(s3.events, t);
    }
    lemma_extends_trans(s0.events, s1.events, s2.events, t);
    lemma_extends_trans(s0.events, s2.events, s3.events, t);
    lemma_extends_trans(s0.events, s3.events, s4.events, t);
}

proof fn lemma_fcfs_log(ps: Seq<Process>, t: nat)
    ensures
        logged_before(fcfs_run(ps, t).events, t as int),
    decreases t,
{
    if t > 0 {
        lemma_fcfs_log(ps, (t - 1) as nat);
        lemma_fcfs_tick_log(ps, fcfs_run(ps, (t - 1) as nat), t - 1);
        lemma_logged_tick(fcfs_run(ps, (t - 1) as nat).events, fcfs_run(ps, t).events, t - 1);
    }
}

/// The first-come first-served log is in order of time.
pub proof fn law_fcfs_log_in_time_order(ps: Seq<Process>, runfor: int)
    ensures
        in_time_order(fcfs_outcome(ps, runfor).events),
{
    let t = ticks(runfor);
    lemma_fcfs_log(ps, t);
    let s = fcfs_run(ps, t);
    lemma_close_log(s.events, s.remaining, s.running, runfor);
    if runfor >= 0 {
        lemma_logged_close(s.events, fcfs_outcome(ps, runfor).events, t as int, runfor);
    } else {
        assert(s == fcfs_init(ps));
        assert(fcfs_outcome(ps, runfor) == s);
    }
}

proof fn lemma_fcfs_tick_accounting(ps: Seq<Process>, s0: FcfsState, t: int)
    requires
        t >= 0,
        fcfs_wf(ps, s0, t),
    ensures
        idle_count(fcfs_tick(ps, s0, t).events) + work_done(ps, fcfs_tick(ps, s0, t).remaining, ps.len())
            == idle_count(s0.events) + work_done(ps, s0.remaining, ps.len()) + 1,
{
    let n = ps.len();
    lemma_arrivals_bounded(ps, t, n);
    let s1 = fcfs_arrive(ps, s0, t);
    let s2 = fcfs_complete(s1, t);
    let s3 = fcfs_select(ps, s2, t);
    lemma_idle_arrivals(s0.events, arrivals_at(ps, t, n), t);
    if let Some(idx) = s1.running {
        if s1.remaining[idx] == 0 {
            lemma_idle_push(s1.events, SpecEvent::Finished { time: t, p: idx });
        }
    }
    if s2.running is None && s2.ready.len() > 0 {
        let idx = s2.ready[0];
        if 0 < s0.ready.len() {
            assert(s1.ready[0] == s0.ready[0]);
        } else {
            assert(s1.ready[0] == arrivals_at(ps, t, n)[0]);
        }
        lemma_idle_push(s2.events, SpecEvent::SelectedPadded { time: t, p: idx, burst: ps[idx].burst as int });
    }
    match s3.running {
        Some(idx) => {
            lemma_work_step(ps, s3.remaining, idx, n);
        },
        None => {
            lemma_idle_push(s3.events, SpecEvent::Idle { time: t });
        },
    }
}

/// Every tick is accounted for exactly once: after `t` ticks, the idle
/// ticks in the log plus the CPU time given to the processes make `t`.
pub proof fn law_fcfs_every_tick_accounted(ps: Seq<Process>, t: nat)
    ensures
        idle_count(fcfs_run(ps, t).events) + work_done(ps, fcfs_run(ps, t).remaining, ps.len()) == t,
    decreases t,
{
    if t > 0 {
        law_fcfs_every_tick_accounted(ps, (t - 1) as nat);
        lemma_fcfs_wf(ps, (t - 1) as nat);
        lemma_fcfs_tick_accounting(ps, fcfs_run(ps, (t - 1) as nat), t - 1);
    } else {
        lemma_work_zero(ps, fcfs_init(ps).remaining, ps.len());
    }
}

/// Process `a` comes before process `b` in order of arrival: it arrived at
/// an earlier tick, or at the same tick and earlier in the input.
pub open spec fn arrives_before(ps: Seq<Process>, a: int, b: int) -> bool {
    ps[a].arrival < ps[b].arrival || (ps[a].arrival == ps[b].arrival && a < b)
}

/// The queue `q` is in order of arrival.
pub open spec fn in_arrival_order(ps: Seq<Process>, q: Seq<int>) -> bool {
    forall|a: int, b: int| 0 <= a < b < q.len() ==> arrives_before(ps, #[trigger] q[a], #[trigger] q[b])
}

/// Queueing the arrivals of tick `t` behind processes that all arrived
/// earlier keeps the queue in order of arrival.
proof fn lemma_arrivals_keep_order(ps: Seq<Process>, q: Seq<int>, t: int)
    requires
        in_arrival_order(ps, q),
        forall|j: int| 0 <= j < q.len() ==> ps[#[trigger] q[j]].arrival < t,
    ensures
        in_arrival_order(ps, q + arrivals_at(ps, t, ps.len())),
{
    let arr = arrivals_at(ps, t, ps.len());
    lemma_arrivals_bounded(ps, t, ps.len());
    let r = q + arr;
    let l = q.len();
    assert forall|a: int, b: int| 0 <= a < b < r.len() implies arrives_before(ps, #[trigger] r[a], #[trigger] r[b]) by {
        if b < l {
            assert(r[a] == q[a] && r[b] == q[b]);
        } else if a < l {
            assert(r[a] == q[a] && r[b] == arr[b - l]);
        } else {
            assert(r[a] == arr[a - l] && r[b] == arr[b - l]);
        }
    }
}

/// First come, first served keeps its queue in order of arrival: after any
/// number of ticks, every waiting process arrived before (or at the same
/// tick and earlier in the input than) every process queued behind it.
pub proof fn law_fcfs_queue_in_arrival_order(ps: Seq<Process>, t: nat)
    ensures
        in_arrival_order(ps, fcfs_run(ps, t).ready),
    decreases t,
{
    if t > 0 {
        let tt = t - 1;
        law_fcfs_queue_in_arrival_order(ps, (t - 1) as nat);
        lemma_fcfs_wf(ps, (t - 1) as nat);
        lemma_fcfs_timing(ps, (t - 1) as nat);
        let s0 = fcfs_run(ps, (t - 1) as nat);
        lemma_arrivals_keep_order(ps, s0.ready, tt);
        let s2 = fcfs_complete(fcfs_arrive(ps, s0, tt), tt);
        let s3 = fcfs_select(ps, s2, tt);
        if s2.running is None && s2.ready.len() > 0 {
            assert forall|a: int, b: int| 0 <= a < b < s3.ready.len() implies arrives_before(ps, #[trigger] s3.ready[a], #[trigger] s3.ready[b]) by {
                assert(s3.ready[a] == s2.ready[a + 1] && s3.ready[b] == s2.ready[b + 1]);
            }
        }
    }
}

/// First come, first served: a process selected at tick `t` comes first in
/// order of arrival among all the processes still waiting after that tick;
/// none of them arrived earlier, and those that arrived at the same tick are
/// later in the input.
pub proof fn law_fcfs_selects_first_come(ps: Seq<Process>, t: nat)
    ensures
        forall|j: int, k: int|
            0 <= j < fcfs_run(ps, t + 1).events.len() && 0 <= k < fcfs_run(ps, t + 1).ready.len() ==> (
                selection_at(#[trigger] fcfs_run(ps, t + 1).events[j], t as int) is Some
                    ==> arrives_before(ps, selection_at(fcfs_run(ps, t + 1).events[j], t as int)->0, #[trigger] fcfs_run(ps, t + 1).ready[k])),
{
    let tt = t as int;
    let n = ps.len();
    lemma_fcfs_wf(ps, t);
    lemma_fcfs_timing(ps, t);
    lemma_fcfs_log(ps, t);
    law_fcfs_queue_in_arrival_order(ps, t);
    let s0 = fcfs_run(ps, t);
    lemma_arrivals_keep_order(ps, s0.ready, tt);
    let arr = arrivals_at(ps, tt, n);
    let s1 = fcfs_arrive(ps, s0, tt);
    let s2 = fcfs_complete(s1, tt);
    let s3 = fcfs_select(ps, s2, tt);
    let s4 = fcfs_execute(s3, tt);
    assert(s4 == fcfs_run(ps, t + 1));
    assert forall|j: int, k: int|
        0 <= j < s4.events.len() && 0 <= k < s4.ready.len() implies (
            selection_at(#[trigger] s4.events[j], t as int) is Some
                ==> arrives_before(ps, selection_at(s4.events[j], t as int)->0, #[trigger] s4.ready[k])) by {
        if j < s3.events.len() {
            assert(s4.events[j] == s3.events[j]);
        }
        if j < s2.events.len() {
            assert(s3.events[j] == s2.events[j]);
        }
        if j < s1.events.len() {
            assert(s2.events[j] == s1.events[j]);
        }
        if j < s0.events.len() {
            assert(s1.events[j] == s0.events[j]);
            assert(event_time(s0.events[j]) < tt);
        } else if j < s1.events.len() {
            assert(s1.events[j] == arrival_events(arr, tt)[j - s0.events.len()]);
        } else if j < s2.events.len() {
        } else if j < s3.events.len() {
            assert(s2.running is None && s2.ready.len() > 0);
            assert(s4.ready[k] == s2.ready[k + 1]);
        }
    }
}

/// First come, first served never leaves the CPU idle while a process
/// waits: when tick `t` is logged idle, nobody is waiting after it.
pub proof fn law_fcfs_idle_only_when_nothing_waits(ps: Seq<Process>, t: nat)
    ensures
        forall|j: int|
            0 <= j < fcfs_run(ps, t + 1).events.len() && #[trigger] fcfs_run(ps, t + 1).events[j] == (SpecEvent::Idle { time: t as int })
                ==> fcfs_run(ps, t + 1).ready.len() == 0,
{
    let tt = t as int;
    let n = ps.len();
    lemma_fcfs_log(ps, t);
    let s0 = fcfs_run(ps, t);
    let arr = arrivals_at(ps, tt, n);
    let s1 = fcfs_arrive(ps, s0, tt);
    let s2 = fcfs_complete(s1, tt);
    let s3 = fcfs_select(ps, s2, tt);
    let s4 = fcfs_execute(s3, tt);
    assert(s4 == fcfs_run(ps, t + 1));
    assert forall|j: int|
        0 <= j < s4.events.len() && #[trigger] s4.events[j] == (SpecEvent::Idle { time: tt }) implies s4.ready.len() == 0 by {
        if j < s3.events.len() {
            assert(s4.events[j] == s3.events[j]);
            if j < s2.events.len() {
                assert(s3.events[j] == s2.events[j]);
            }
            if j < s1.events.len() {
                assert(s2.events[j] == s1.events[j]);
            }
            if j < s0.events.len() {
                assert(s1.events[j] == s0.events[j]);
                assert(event_time(s0.events[j]) < tt);
            } else if j < s1.events.len() {
                assert(s1.events[j] == arrival_events(arr, tt)[j - s0.events.len()]);
            }
        }
    }
}

/// The exec vectors hold the state `s`.
pub open spec fn fcfs_agree(
    remaining: Seq<i64>,
    started: Seq<bool>,
    start_time: Seq<i64>,
    finish_time: Seq<i64>,
    finished: Seq<bool>,
    ready: Seq<usize>,
    running: Option<usize>,
    s: FcfsState,
) -> bool {
    &&& agree_i64(remaining, s.remaining)
    &&& started == s.started
    &&& agree_i64(start_time, s.start_time)
    &&& agree_i64(finish_time, s.finish_time)
    &&& finished == s.finished
    &&& agree_idx(ready, s.ready)
    &&& agree_opt(running, s.running)
}

/// Runs the workload first-come first-served for `control[1]` ticks.
///
/// Each tick logs the arrivals, then the completion of the running process,
/// then the selection of the oldest waiting process when the CPU is free, and
/// the tick is used by the running process or logged `Idle`.  Figures are
/// given for the finished processes only, in input order.
#[verifier::loop_isolation(false)]
pub fn first_in_first_out(control: [i32; 4], processes: &Vec<Process>) -> (r: ScheduleResult)
    ensures
        r.finish_time == control[1],
        events_view(r.events@) == render_events(
            fcfs_outcome(processes@, control[1] as int).events,
            processes@,
        ),
        stats_view(r.stats@) == render_stats(
            fcfs_stats(processes@, fcfs_outcome(processes@, control[1] as int), processes@.len()),
            processes@,
        ),
{
    let runfor = control[1];
    let n = processes.len();
    let ghost ps = processes@;
    let mut remaining: Vec<i64> = Vec::new();
    let mut started: Vec<bool> = Vec::new();
    let mut start_time: Vec<i64> = Vec::new();
    let mut finish_time: Vec<i64> = Vec::new();
    let mut finished: Vec<bool> = Vec::new();
    let mut k: usize = 0;
    while k < n
        invariant
            0 <= k <= n,
            remaining@.len() == k,
            started@.len() == k,
            start_time@.len() == k,
            finish_time@.len() == k,
            finished@.len() == k,
            forall|i: int| 0 <= i < k ==> remaining@[i] == ps[i].burst as i64,
            forall|i: int| 0 <= i < k ==> !started@[i] && !finished@[i],
            forall|i: int| 0 <= i < k ==> start_time@[i] == 0 && finish_time@[i] == 0,
        decreases n - k,
    {
        remaining.push(processes[k].burst as i64);
        started.push(false);
        start_time.push(0);
        finish_time.push(0);
        finished.push(false);
        k = k + 1;
    }
    let mut ready: Vec<usize> = Vec::new();
    let mut running: Option<usize> = None;
    let mut events: Vec<Event> = Vec::new();
    let ghost mut gs = fcfs_init(ps);
    assert(started@ =~= gs.started);
    assert(finished@ =~= gs.finished);
    assert(events_view(events@) =~= render_events(gs.events, ps));

    let limit: i32 = if runfor < 0 { 0 } else { runfor };
    let mut t: i32 = 0;
    while t < limit
        invariant
            0 <= t <= limit,
            gs == fcfs_run(ps, t as nat),
            fcfs_agree(remaining@, started@, start_time@, finish_time@, finished@, ready@, running, gs),
            events_view(events@) == render_events(gs.events, ps),
        decreases limit - t,
    {
        proof {
            lemma_fcfs_wf(ps, t as nat);
        }
        let ghost s0 = gs;
        // 1. arrivals
        let mut i: usize = 0;
        while i < n
            invariant
                0 <= i <= n,
                agree_idx(ready@, s0.ready + arrivals_at(ps, t as int, i as nat)),
                events_view(events@) == render_events(
                    s0.events + arrival_events(arrivals_at(ps, t as int, i as nat), t as int),
                    ps,
                ),
            decreases n - i,
        {
            let ghost before = arrivals_at(ps, t as int, i as nat);
            if processes[i].arrival == t {
                let e = arrived_event(t, &processes[i].name);
                proof {
                    lemma_events_view_push(events@, e);
                    let se = SpecEvent::Arrived { time: t as int, p: i as int };
                    lemma_render_push(s0.events + arrival_events(before, t as int), se, ps);
                    assert(s0.events + arrival_events(before.push(i as int), t as int)
                        =~= (s0.events + arrival_events(before, t as int)).push(se));
                }
                events.push(e);
                ready.push(i);
                assert(s0.ready + before.push(i as int) =~= (s0.ready + before).push(i as int));
            }
            i = i + 1;
        }
        proof {
            gs = fcfs_arrive(ps, s0, t as int);
            lemma_arrivals_bounded(ps, t as int, n as nat);
            assert forall|j: int| 0 <= j < ready@.len() implies ready@[j] < n by {
                assert(ready@[j] as int == gs.ready[j]);
                if j < s0.ready.len() {
                    assert(gs.ready[j] == s0.ready[j]);
                } else {
                    assert(gs.ready[j] == arrivals_at(ps, t as int, n as nat)[j - s0.ready.len()]);
                }
            }
        }
        // 2. completion
        let ghost s1 = gs;
        if let Some(idx) = running {
            if remaining[idx] == 0 {
                let e = finished_event(t, &processes[idx].name);
                proof {
                    lemma_events_view_push(events@, e);
                    lemma_render_push(s1.events, SpecEvent::Finished { time: t as int, p: idx as int }, ps);
                }
                events.push(e);
                finished.set(idx, true);
                finish_time.set(idx, t as i64);
                running = None;
            }
        }
        proof {
            gs = fcfs_complete(s1, t as int);
        }
        assert(finished@ =~= gs.finished);
        // 3. selection
        let ghost s2 = gs;
        if running.is_none() && ready.len() > 0 {
            let idx = ready.remove(0);
            running = Some(idx);
            if !started[idx] {
                started.set(idx, true);
                start_time.set(idx, t as i64);
            }
            let e = selected_padded_event(t, &processes[idx].name, processes[idx].burst as i64);
            proof {
                lemma_events_view_push(events@, e);
                lemma_render_push(
                    s2.events,
                    SpecEvent::SelectedPadded { time: t as int, p: idx as int, burst: ps[idx as int].burst as int },
                    ps,
                );
            }
            events.push(e);
        }
        proof {
            gs = fcfs_select(ps, s2, t as int);
        }
        assert(started@ =~= gs.started);
        assert(agree_idx(ready@, gs.ready));
        // 4. execution
        let ghost s3 = gs;
        match running {
            Some(idx) => {
                let r = remaining[idx];
                remaining.set(idx, r - 1);
            },
            None => {
                let e = idle_event(t);
                proof {
                    lemma_events_view_push(events@, e);
                    lemma_render_push(s3.events, SpecEvent::Idle { time: t as int }, ps);
                }
                events.push(e);
            },
        }
        proof {
            gs = fcfs_execute(s3, t as int);
        }
        t = t + 1;
    }
    proof {
        lemma_fcfs_wf(ps, t as nat);
    }
    // a process that used its last tick in the final round
    let ghost s4 = gs;
    if let Some(idx) = running {
        if remaining[idx] == 0 {
            let e = finished_event(runfor, &processes[idx].name);
            proof {
                lemma_events_view_push(events@, e);
                lemma_render_push(s4.events, SpecEvent::Finished { time: runfor as int, p: idx as int }, ps);
            }
            events.push(e);
            finished.set(idx, true);
            finish_time.set(idx, runfor as i64);
        }
    }
    proof {
        gs = fcfs_complete(s4, runfor as int);
    }
    assert(finished@ =~= gs.finished);
    let ghost fs = gs;
    assert forall|j: int| 0 <= j < n implies 0 <= #[trigger] finish_time@[j] <= i32::MAX && 0
        <= start_time@[j] <= i32::MAX by {
        assert(finish_time@[j] as int == fs.finish_time[j]);
        assert(start_time@[j] as int == fs.start_time[j]);
        assert(s4.start_time[j] <= t);
        assert(s4.finish_time[j] <= t);
    }

    let mut stats: Vec<ProcessStats> = Vec::new();
    let mut i: usize = 0;
    while i < n
        invariant
            0 <= i <= n,
            stats_view(stats@) == render_stats(fcfs_stats(ps, fs, i as nat), ps),
        decreases n - i,
    {
        if finished[i] {
            let turnaround = finish_time[i] - processes[i].arrival as i64;
            let wait = turnaround - processes[i].burst as i64;
            let response = start_time[i] - processes[i].arrival as i64;
            let row = stats_row(&processes[i].name, wait, turnaround, response);
            proof {
                lemma_stats_view_push(stats@, row);
                lemma_render_stats_push(
                    fcfs_stats(ps, fs, i as nat),
                    SpecStats {
                        p: i as int,
                        wait: wait as int,
                        turnaround: turnaround as int,
                        response: response as int,
                    },
                    ps,
                );
            }
            stats.push(row);
        }
        i = i + 1;
    }
    ScheduleResult { events, stats, finish_time: runfor }
}

} // verus!
