//! Round robin: a queue in order of arrival where the running process goes
//! back to the end of the queue when its quantum runs out.

use vstd::prelude::*;
use crate::model::{
    Process, Event, ProcessStats, ScheduleResult, SpecEvent, SpecStats, arrivals_at, arrival_events,
    lemma_arrivals_bounded, lemma_contains_concat, lemma_contains_push, lemma_contains_remove, agree_i64, agree_idx, agree_opt, events_view, render_events, stats_view,
    render_stats, lemma_render_push, lemma_events_view_push, lemma_render_stats_push,
    lemma_stats_view_push, arrived_event, finished_event, idle_event, selected_plain_event,
    unfinished_event, stats_row, event_time, in_time_order, logged_before, extends_at, lemma_extends_refl,
    lemma_extends_push, lemma_extends_arrivals, lemma_close_log, lemma_extends_trans, lemma_logged_tick, lemma_logged_close,
    idle_count, work_done, lemma_idle_push, lemma_idle_arrivals, lemma_work_step, lemma_work_zero,
};
use crate::fcfs::ticks;

verus! {

/// The state of the round-robin simulation between two ticks.
pub struct RrState {
    pub remaining: Seq<int>,
    /// Ticks spent in the ready queue so far.
    pub wait: Seq<int>,
    /// Ticks from arrival to first selection, `-1` before that.
    pub response: Seq<int>,
    /// Tick of completion, `-1` before that.
    pub finished_time: Seq<int>,
    pub ready: Seq<int>,
    pub current: Option<int>,
    pub quantum_left: int,
    pub events: Seq<SpecEvent>,
}

pub open spec fn rr_init(ps: Seq<Process>) -> RrState {
    RrState {
        remaining: Seq::new(ps.len(), |i: int| ps[i].burst as int),
        wait: Seq::new(ps.len(), |i: int| 0int),
        response: Seq::new(ps.len(), |i: int| -1int),
        finished_time: Seq::new(ps.len(), |i: int| -1int),
        ready: Seq::empty(),
        current: None,
        quantum_left: 0,
        events: Seq::empty(),
    }
}

/// Step 1: the processes arriving at `t` are logged and queued.
pub open spec fn rr_arrive(ps: Seq<Process>, s: RrState, t: int) -> RrState {
    let arr = arrivals_at(ps, t, ps.len());
    RrState { ready: s.ready + arr, events: s.events + arrival_events(arr, t), ..s }
}

/// Step 2: the running process is logged as finished when it has no work
/// left, or goes back to the end of the queue when its quantum is used up.
pub open spec fn rr_manage(s: RrState, t: int) -> RrState {
    match s.current {
        Some(idx) => if s.remaining[idx] == 0 {
            RrState {
                events: s.events.push(SpecEvent::Finished { time: t, p: idx }),
                finished_time: s.finished_time.update(idx, t),
                current: None,
                ..s
            }
        } else if s.quantum_left == 0 {
            RrState { ready: s.ready.push(idx), current: None, ..s }
        } else {
            s
        },
        None => s,
    }
}

/// Step 3: a free CPU takes the head of the queue with a fresh quantum.
pub open spec fn rr_select(ps: Seq<Process>, s: RrState, t: int, quantum: int) -> RrState {
    if s.current is None && s.ready.len() > 0 {
        let next = s.ready[0];
        RrState {
            ready: s.ready.drop_first(),
            current: Some(next),
            quantum_left: quantum,
            response: if s.response[next] == -1 {
                s.response.update(next, t - ps[next].arrival)
            } else {
                s.response
            },
            events: s.events.push(SpecEvent::SelectedPlain { time: t, p: next, burst: s.remaining[next] }),
            ..s
        }
    } else {
        s
    }
}

/// Step 4: the running process uses the tick and a tick of its quantum, or
/// the tick is logged idle.
pub open spec fn rr_execute(s: RrState, t: int) -> RrState {
    match s.current {
        Some(idx) => RrState {
            remaining: s.remaining.update(idx, s.remaining[idx] - 1),
            quantum_left: s.quantum_left - 1,
            ..s
        },
        None => RrState { events: s.events.push(SpecEvent::Idle { time: t }), ..s },
    }
}

/// Step 5: every process in the queue waits one more tick.
pub open spec fn rr_age(s: RrState) -> RrState {
    RrState {
        wait: Seq::new(s.wait.len(), |i: int| s.wait[i] + if s.ready.contains(i) { 1int } else { 0int }),
        ..s
    }
}

pub open spec fn rr_tick(ps: Seq<Process>, quantum: int, s: RrState, t: int) -> RrState {
    rr_age(rr_execute(rr_select(ps, rr_manage(rr_arrive(ps, s, t), t), t, quantum), t))
}

pub open spec fn rr_run(ps: Seq<Process>, quantum: int, t: nat) -> RrState
    decreases t,
{
    if t == 0 {
        rr_init(ps)
    } else {
        rr_tick(ps, quantum, rr_run(ps, quantum, (t - 1) as nat), t - 1)
    }
}

/// The closing log entries: one per unfinished process (completion tick
/// `-1`) among the first `k`.
pub open spec fn unfinished_events(finished_time: Seq<int>, runfor: int, k: nat) -> Seq<SpecEvent>
    decreases k,
{
    if k == 0 {
        Seq::empty()
    } else {
        let prev = unfinished_events(finished_time, runfor, (k - 1) as nat);
        if finished_time[k - 1] == -1 {
            prev.push(SpecEvent::Unfinished { time: runfor, p: k - 1 })
        } else {
            prev
        }
    }
}

/// The figures of process `i`; the turnaround of an unfinished process is 0.
pub open spec fn timed_row(
    ps: Seq<Process>,
    wait: Seq<int>,
    response: Seq<int>,
    finished_time: Seq<int>,
    i: int,
) -> SpecStats {
    SpecStats {
        p: i,
        wait: wait[i],
        turnaround: if finished_time[i] != -1 { finished_time[i] - ps[i].arrival } else { 0 },
        response: response[i],
    }
}

/// The last check at `runfor`: a running process with no work left is
/// logged as finished then, so that only processes that did not complete
/// within the run are listed as unfinished.
pub open spec fn rr_close(s: RrState, runfor: int) -> RrState {
    match s.current {
        Some(idx) => if s.remaining[idx] == 0 {
            RrState {
                events: s.events.push(SpecEvent::Finished { time: runfor, p: idx }),
                finished_time: s.finished_time.update(idx, runfor),
                current: None,
                ..s
            }
        } else {
            s
        },
        None => s,
    }
}

/// The state after all ticks and the last check for a completion at `runfor`.
pub open spec fn rr_outcome(ps: Seq<Process>, runfor: int, quantum: int) -> RrState {
    rr_close(rr_run(ps, quantum, ticks(runfor)), runfor)
}

/// The whole log: the ticks, a completion at `runfor`, then the unfinished processes.
pub open spec fn rr_events(ps: Seq<Process>, runfor: int, quantum: int) -> Seq<SpecEvent> {
    let s = rr_outcome(ps, runfor, quantum);
    s.events + unfinished_events(s.finished_time, runfor, ps.len())
}

pub open spec fn rr_stats(ps: Seq<Process>, runfor: int, quantum: int) -> Seq<SpecStats> {
    let s = rr_outcome(ps, runfor, quantum);
    Seq::new(ps.len(), |i: int| timed_row(ps, s.wait, s.response, s.finished_time, i))
}

/// No process is queued twice, and the running process is not queued.
pub open spec fn queue_distinct(ready: Seq<int>, current: Option<int>) -> bool {
    &&& forall|a: int, b: int| 0 <= a < b < ready.len() ==> ready[a] != ready[b]
    &&& (current matches Some(c) ==> !ready.contains(c))
}

/// Every queued process is one of `ps` and arrived before tick `t`.
pub open spec fn queued_before(ps: Seq<Process>, ready: Seq<int>, t: int) -> bool {
    forall|j: int| 0 <= j < ready.len() ==> 0 <= #[trigger] ready[j] < ps.len() && 0 <= ps[ready[j]].arrival < t
}

/// Queueing the arrivals of tick `t` behind processes that arrived earlier
/// keeps the queue free of repeats and clear of the running process.
pub proof fn lemma_queue_arrivals(ps: Seq<Process>, ready: Seq<int>, current: Option<int>, t: int)
    requires
        t >= 0,
        queue_distinct(ready, current),
        queued_before(ps, ready, t),
        current matches Some(c) ==> 0 <= c < ps.len() && 0 <= ps[c].arrival < t,
    ensures
        queue_distinct(ready + arrivals_at(ps, t, ps.len()), current),
        queued_before(ps, ready + arrivals_at(ps, t, ps.len()), t + 1),
{
    let n = ps.len();
    lemma_arrivals_bounded(ps, t, n);
    let arr = arrivals_at(ps, t, n);
    let r = ready + arr;
    let l0 = ready.len();
    assert forall|j: int| 0 <= j < r.len() implies 0 <= #[trigger] r[j] < n && 0 <= ps[r[j]].arrival < t + 1 by {
        if j < l0 {
            assert(r[j] == ready[j]);
        } else {
            assert(r[j] == arr[j - l0]);
        }
    }
    assert forall|a: int, b: int| 0 <= a < b < r.len() implies r[a] != r[b] by {
        if b < l0 {
            assert(r[a] == ready[a]);
            assert(r[b] == ready[b]);
        } else if a < l0 {
            assert(r[a] == ready[a]);
            assert(r[b] == arr[b - l0]);
            assert(ps[r[a]].arrival < t);
        } else {
            assert(r[a] == arr[a - l0]);
            assert(r[b] == arr[b - l0]);
        }
    }
    if let Some(c) = current {
        assert forall|j: int| 0 <= j < r.len() implies r[j] != c by {
            if j < l0 {
                assert(r[j] == ready[j]);
                assert(!ready.contains(c));
            } else {
                assert(r[j] == arr[j - l0]);
            }
        }
    }
}

/// Putting the running process back at the end of the queue keeps the
/// queue free of repeats.
pub proof fn lemma_queue_push(ps: Seq<Process>, ready: Seq<int>, c: int, t: int)
    requires
        queue_distinct(ready, Some(c)),
        queued_before(ps, ready, t),
        0 <= c < ps.len(),
        0 <= ps[c].arrival < t,
    ensures
        queue_distinct(ready.push(c), None),
        queued_before(ps, ready.push(c), t),
{
    let r = ready.push(c);
    assert forall|j: int| 0 <= j < r.len() implies 0 <= #[trigger] r[j] < ps.len() && 0 <= ps[r[j]].arrival < t by {
        if j < ready.len() {
            assert(r[j] == ready[j]);
        }
    }
    assert forall|a: int, b: int| 0 <= a < b < r.len() implies r[a] != r[b] by {
        assert(r[a] == ready[a]);
        if b < ready.len() {
            assert(r[b] == ready[b]);
        }
    }
}

/// Taking the process at `pos` out of the queue to run it keeps the queue
/// free of repeats and clear of that process.
pub proof fn lemma_queue_take(ps: Seq<Process>, ready: Seq<int>, pos: int, t: int)
    requires
        queue_distinct(ready, None),
        queued_before(ps, ready, t),
        0 <= pos < ready.len(),
    ensures
        queue_distinct(ready.remove(pos), Some(ready[pos])),
        queued_before(ps, ready.remove(pos), t),
        forall|x: int| ready.remove(pos).contains(x) <==> (ready.contains(x) && x != ready[pos]),
{
    let r = ready.remove(pos);
    assert forall|j: int| 0 <= j < r.len() implies 0 <= #[trigger] r[j] < ps.len() && 0 <= ps[r[j]].arrival < t by {
        if j < pos {
            assert(r[j] == ready[j]);
        } else {
            assert(r[j] == ready[j + 1]);
        }
    }
    assert forall|a: int, b: int| 0 <= a < b < r.len() implies r[a] != r[b] by {
        if a < pos {
            assert(r[a] == ready[a]);
        } else {
            assert(r[a] == ready[a + 1]);
        }
        if b < pos {
            assert(r[b] == ready[b]);
        } else {
            assert(r[b] == ready[b + 1]);
        }
    }
    assert forall|x: int| r.contains(x) <==> (ready.contains(x) && x != ready[pos]) by {
        lemma_contains_remove(ready, pos, x);
    }
}

/// Shape and bounds of a state reached after `t` ticks.
pub open spec fn rr_wf(ps: Seq<Process>, quantum: int, s: RrState, t: int) -> bool {
    let n = ps.len();
    &&& s.remaining.len() == n
    &&& s.wait.len() == n
    &&& s.response.len() == n
    &&& s.finished_time.len() == n
    &&& forall|i: int| 0 <= i < n ==> ps[i].burst - t <= #[trigger] s.remaining[i] <= ps[i].burst
    &&& forall|i: int| 0 <= i < n ==> 0 <= #[trigger] s.wait[i] <= t
    &&& forall|i: int| 0 <= i < n ==> -1 <= #[trigger] s.finished_time[i] <= t
    &&& forall|i: int| 0 <= i < n ==> #[trigger] s.response[i] == -1 || (0 <= s.response[i] <= t)
    &&& queued_before(ps, s.ready, t)
    &&& (s.current matches Some(c) ==> 0 <= c < n && 0 <= ps[c].arrival < t)
    &&& queue_distinct(s.ready, s.current)
    &&& (if quantum < 0 { quantum } else { 0 }) - t <= s.quantum_left <= (if quantum < 0 { 0 } else { quantum })
}

pub proof fn lemma_rr_tick_wf(ps: Seq<Process>, quantum: int, s0: RrState, t: int)
    requires
        t >= 0,
        rr_wf(ps, quantum, s0, t),
    ensures
        rr_wf(ps, quantum, rr_tick(ps, quantum, s0, t), t + 1),
{
    let n = ps.len();
    lemma_rr_tick_queue(ps, quantum, s0, t);
    let s4 = rr_execute(rr_select(ps, rr_manage(rr_arrive(ps, s0, t), t), t, quantum), t);
    let s5 = rr_age(s4);
    assert forall|i: int| 0 <= i < n implies 0 <= #[trigger] s5.wait[i] <= t + 1 by {
        assert(s4.wait[i] == s0.wait[i]);
    }
}

/// How the queue moves through one tick: the arrivals join it, a preempted
/// process goes back to its end, and a selected one leaves its head; at
/// each step no process is queued twice and the running one is not queued.
proof fn lemma_rr_tick_queue(ps: Seq<Process>, quantum: int, s0: RrState, t: int)
    requires
        t >= 0,
        rr_wf(ps, quantum, s0, t),
    ensures
        ({
            let s1 = rr_arrive(ps, s0, t);
            let s2 = rr_manage(s1, t);
            let s3 = rr_select(ps, s2, t, quantum);
            &&& queue_distinct(s1.ready, s1.current) && queued_before(ps, s1.ready, t + 1)
            &&& queue_distinct(s2.ready, s2.current) && queued_before(ps, s2.ready, t + 1)
            &&& queue_distinct(s3.ready, s3.current) && queued_before(ps, s3.ready, t + 1)
        }),
{
    let s1 = rr_arrive(ps, s0, t);
    lemma_queue_arrivals(ps, s0.ready, s0.current, t);
    let s2 = rr_manage(s1, t);
    if let Some(c) = s1.current {
        if s1.remaining[c] != 0 && s1.quantum_left == 0 {
            lemma_queue_push(ps, s1.ready, c, t + 1);
        }
    }
    let s3 = rr_select(ps, s2, t, quantum);
    if s2.current is None && s2.ready.len() > 0 {
        assert(s2.ready.drop_first() =~= s2.ready.remove(0));
        lemma_queue_take(ps, s2.ready, 0, t + 1);
    }
}

pub proof fn lemma_rr_wf(ps: Seq<Process>, quantum: int, t: nat)
    ensures
        rr_wf(ps, quantum, rr_run(ps, quantum, t), t as int),
    decreases t,
{
    if t > 0 {
        lemma_rr_wf(ps, quantum, (t - 1) as nat);
        lemma_rr_tick_wf(ps, quantum, rr_run(ps, quantum, (t - 1) as nat), t - 1);
    }
}

/// Queue discipline of round robin: after any number of ticks no process
/// is queued twice and the running process is not queued.
pub proof fn law_rr_queue_distinct(ps: Seq<Process>, quantum: int, t: nat)
    ensures
        queue_distinct(rr_run(ps, quantum, t).ready, rr_run(ps, quantum, t).current),
{
    lemma_rr_wf(ps, quantum, t);
}

/// Process `i` is queued or running.
pub open spec fn in_system(ready: Seq<int>, current: Option<int>, i: int) -> bool {
    current == Some(i) || ready.contains(i)
}

/// The time accounting of process `i` after `t` ticks: before its arrival
/// nothing has happened to it; from its arrival on, every tick was spent
/// either waiting in the queue or running, so that a finished process has
/// turnaround = wait + burst; its response is measured at its first
/// selection and never exceeds its wait.
pub open spec fn timing_of(
    ps: Seq<Process>,
    remaining: Seq<int>,
    wait: Seq<int>,
    response: Seq<int>,
    finished_time: Seq<int>,
    ready: Seq<int>,
    current: Option<int>,
    t: int,
    i: int,
) -> bool {
    let arr = ps[i].arrival as int;
    let b = ps[i].burst as int;
    &&& !(0 <= arr < t) ==> wait[i] == 0 && remaining[i] == b && finished_time[i] == -1 && response[i] == -1
        && !in_system(ready, current, i)
    &&& (0 <= arr < t && finished_time[i] == -1) ==> t - arr == wait[i] + b - remaining[i] && in_system(ready, current, i)
    &&& finished_time[i] != -1 ==> 0 <= arr < t && finished_time[i] - arr == wait[i] + b && !in_system(ready, current, i)
    &&& response[i] == -1 ==> remaining[i] == b && current != Some(i)
    &&& response[i] != -1 ==> 0 <= response[i] <= wait[i]
}

pub open spec fn rr_timing(ps: Seq<Process>, s: RrState, t: int) -> bool {
    forall|i: int| 0 <= i < ps.len() ==> #[trigger] timing_of(ps, s.remaining, s.wait, s.response, s.finished_time, s.ready, s.current, t, i)
}

proof fn lemma_rr_tick_timing(ps: Seq<Process>, q: int, s0: RrState, t: int)
    requires
        t >= 0,
        rr_wf(ps, q, s0, t),
        rr_timing(ps, s0, t),
    ensures
        rr_timing(ps, rr_tick(ps, q, s0, t), t + 1),
{
    let n = ps.len();
    lemma_arrivals_bounded(ps, t, n);
    lemma_rr_tick_wf(ps, q, s0, t);
    let arr = arrivals_at(ps, t, n);
    let s1 = rr_arrive(ps, s0, t);
    let s2 = rr_manage(s1, t);
    let s3 = rr_select(ps, s2, t, q);
    let s4 = rr_execute(s3, t);
    let s5 = rr_age(s4);
    lemma_rr_tick_queue(ps, q, s0, t);
    assert forall|i: int| 0 <= i < n implies #[trigger] timing_of(ps, s5.remaining, s5.wait, s5.response, s5.finished_time, s5.ready, s5.current, t + 1, i) by {
        assert(timing_of(ps, s0.remaining, s0.wait, s0.response, s0.finished_time, s0.ready, s0.current, t, i));
        // membership through the phases
        lemma_contains_concat(s0.ready, arr, i);
        let arrives = arr.contains(i);
        assert(arrives <==> ps[i].arrival == t) by {
            if ps[i].arrival == t {
                assert(arrivals_at(ps, t, n).contains(i)) by {
                    lemma_arrivals_complete(ps, t, n, i);
                }
            }
            if arrives {
                let j = choose|j: int| 0 <= j < arr.len() && arr[j] == i;
            }
        }
        if let Some(c) = s1.current {
            lemma_contains_push(s1.ready, c, i);
        }
        if s2.current is None && s2.ready.len() > 0 {
            lemma_contains_remove(s2.ready, 0, i);
            assert(s2.ready.drop_first() =~= s2.ready.remove(0));
        }
        assert(s4.ready == s3.ready);
        assert(s5.wait[i] == s4.wait[i] + if s4.ready.contains(i) { 1int } else { 0int });
        if s4.current == Some(i) {
            assert(!s4.ready.contains(i));
        }
    }
}

proof fn lemma_rr_timing(ps: Seq<Process>, q: int, t: nat)
    ensures
        rr_timing(ps, rr_run(ps, q, t), t as int),
    decreases t,
{
    if t > 0 {
        lemma_rr_timing(ps, q, (t - 1) as nat);
        lemma_rr_wf(ps, q, (t - 1) as nat);
        lemma_rr_tick_timing(ps, q, rr_run(ps, q, (t - 1) as nat), t - 1);
    } else {
        let s = rr_run(ps, q, 0);
        assert forall|i: int| 0 <= i < ps.len() implies #[trigger] timing_of(ps, s.remaining, s.wait, s.response, s.finished_time, s.ready, s.current, 0, i) by {
            assert(!s.ready.contains(i));
        }
    }
}

/// Round robin accounts for every tick after an arrival as waiting or
/// running: a process that finished has turnaround = wait + burst, and no
/// process has a response above its wait.
pub proof fn law_rr_turnaround_is_wait_plus_burst(ps: Seq<Process>, runfor: int, quantum: int)
    ensures
        forall|i: int| 0 <= i < ps.len() ==> {
            let r = #[trigger] rr_stats(ps, runfor, quantum)[i];
            &&& rr_outcome(ps, runfor, quantum).finished_time[i] != -1 ==> r.turnaround == r.wait + ps[i].burst
            &&& r.response <= r.wait
        },
{
    let t = ticks(runfor);
    lemma_rr_timing(ps, quantum, t);
    lemma_rr_wf(ps, quantum, t);
    let s0 = rr_run(ps, quantum, t);
    let s = rr_outcome(ps, runfor, quantum);
    assert forall|i: int| 0 <= i < ps.len() implies {
        let r = #[trigger] rr_stats(ps, runfor, quantum)[i];
        &&& s.finished_time[i] != -1 ==> r.turnaround == r.wait + ps[i].burst
        &&& r.response <= r.wait
    } by {
        assert(timing_of(ps, s0.remaining, s0.wait, s0.response, s0.finished_time, s0.ready, s0.current, t as int, i));
        lemma_close_timing(ps, s0.remaining, s0.wait, s0.response, s0.finished_time, s0.ready, s0.current, runfor, i);
    }
}

/// The last check at `runfor` keeps the accounting: a process found there
/// with no work left has spent every tick since its arrival waiting or
/// running, and every other process keeps its completion tick.
pub proof fn lemma_close_timing(
    ps: Seq<Process>,
    remaining: Seq<int>,
    wait: Seq<int>,
    response: Seq<int>,
    finished_time: Seq<int>,
    ready: Seq<int>,
    current: Option<int>,
    runfor: int,
    i: int,
)
    requires
        0 <= i < finished_time.len(),
        timing_of(ps, remaining, wait, response, finished_time, ready, current, ticks(runfor) as int, i),
    ensures
        ({
            let closes = current == Some(i) && remaining[i] == 0;
            let ft = if closes { runfor } else { finished_time[i] };
            &&& closes ==> finished_time[i] == -1
            &&& ft != -1 ==> ft - ps[i].arrival == wait[i] + ps[i].burst
        }),
{
    if current == Some(i) {
        assert(in_system(ready, current, i));
    }
}

/// Every process queued at tick `t` arrived at `t` or was queued already.
pub proof fn lemma_arrivals_complete(ps: Seq<Process>, t: int, k: nat, i: int)
    requires
        k <= ps.len(),
        0 <= i < k,
        ps[i].arrival == t,
    ensures
        arrivals_at(ps, t, k).contains(i),
    decreases k,
{
    if i < k - 1 {
        lemma_arrivals_complete(ps, t, (k - 1) as nat, i);
        let prev = arrivals_at(ps, t, (k - 1) as nat);
        let j = choose|j: int| 0 <= j < prev.len() && prev[j] == i;
        assert(arrivals_at(ps, t, k)[j] == i);
    } else {
        let a = arrivals_at(ps, t, k);
        assert(a[a.len() - 1] == i);
    }
}

proof fn lemma_rr_tick_log(ps: Seq<Process>, q: int, s0: RrState, t: int)
    ensures
        extends_at(s0.events, rr_tick(ps, q, s0, t).events, t),
{
    let s1 = rr_arrive(ps, s0, t);
    let s2 = rr_manage(s1, t);
    let s3 = rr_select(ps, s2, t, q);
    let s4 = rr_execute(s3, t);
    lemma_extends_arrivals(s0.events, arrivals_at(ps, t, ps.len()), t);
    lemma_close_log(s1.events, s1.remaining, s1.current, t);
    if s2.current is None && s2.ready.len() > 0 {
        let next = s2.ready[0];
        lemma_extends_push(s2.events, SpecEvent::SelectedPlain { time: t, p: next, burst: s2.remaining[next] }, t);
    } else {
        lemma_extends_refl(s2.events, t);
    }
    if s3.current is None {
        lemma_extends_push(s3.events, SpecEvent::Idle { time: t }, t);
    } else {
        lemma_extends_refl(s3.events, t);
    }
    lemma_extends_trans(s0.events, s1.events, s2.events, t);
    lemma_extends_trans(s0.events, s2.events, s3.events, t);
    lemma_extends_trans(s0.events, s3.events, s4.events, t);
}

proof fn lemma_rr_log(ps: Seq<Process>, q: int, t: nat)
    ensures
        logged_before(rr_run(ps, q, t).events, t as int),
    decreases t,
{
    if t > 0 {
        lemma_rr_log(ps, q, (t - 1) as nat);
        lemma_rr_tick_log(ps, q, rr_run(ps, q, (t - 1) as nat), t - 1);
        lemma_logged_tick(rr_run(ps, q, (t - 1) as nat).events, rr_run(ps, q, t).events, t - 1);
    }
}

/// Round robin sends a process whose quantum ran out to the end of the
/// queue: after that tick it stands behind every process that was waiting
/// (those queued before and those arriving at that tick, in their order),
/// the head of that queue runs, and the preempted process runs again at once
/// only when nobody else was waiting.
pub proof fn law_rr_preempted_goes_last(ps: Seq<Process>, quantum: int, t: nat)
    ensures
        ({
            let s = rr_run(ps, quantum, t);
            let next = rr_run(ps, quantum, t + 1);
            let waiting = s.ready + arrivals_at(ps, t as int, ps.len());
            s.current is Some && s.remaining[s.current->0] != 0 && s.quantum_left == 0 ==> {
                let c = s.current->0;
                &&& waiting.len() == 0 ==> next.current == Some(c) && next.ready.len() == 0
                &&& waiting.len() > 0 ==> next.current == Some(waiting[0]) && next.ready == waiting.drop_first().push(c)
            }
        }),
{
    let s = rr_run(ps, quantum, t);
    let waiting = s.ready + arrivals_at(ps, t as int, ps.len());
    if s.current is Some && s.remaining[s.current->0] != 0 && s.quantum_left == 0 {
        let c = s.current->0;
        assert(rr_run(ps, quantum, t + 1) == rr_tick(ps, quantum, s, t as int));
        if waiting.len() > 0 {
            assert(waiting.push(c).drop_first() =~= waiting.drop_first().push(c));
        } else {
            assert(waiting.push(c).drop_first() =~= Seq::<int>::empty());
        }
    }
}

/// Round robin never leaves the CPU idle while a process waits: when tick
/// `t` is logged idle, nobody is waiting after it.
pub proof fn law_rr_idle_only_when_nothing_waits(ps: Seq<Process>, quantum: int, t: nat)
    ensures
        forall|j: int|
            0 <= j < rr_run(ps, quantum, t + 1).events.len()
                && #[trigger] rr_run(ps, quantum, t + 1).events[j] == (SpecEvent::Idle { time: t as int })
                ==> rr_run(ps, quantum, t + 1).ready.len() == 0,
{
    let tt = t as int;
    let n = ps.len();
    lemma_rr_log(ps, quantum, t);
    let s0 = rr_run(ps, quantum, t);
    let arr = arrivals_at(ps, tt, n);
    let s1 = rr_arrive(ps, s0, tt);
    let s2 = rr_manage(s1, tt);
    let s3 = rr_select(ps, s2, tt, quantum);
    let s4 = rr_execute(s3, tt);
    let s5 = rr_age(s4);
    assert(s5 == rr_run(ps, quantum, t + 1));
    assert forall|j: int|
        0 <= j < s5.events.len() && #[trigger] s5.events[j] == (SpecEvent::Idle { time: tt }) implies s5.ready.len() == 0 by {
        if j < s3.events.len() {
            assert(s4.events[j] == s3.events[j]);
            if j < s2.events.len() {
                assert(s3.events[j] == s2.events[j]);
            }
            if j < s1.events.len() {
                assert(s2.events[j] == s1.events[j]);
            }
            if j < s0.events.len() {
                assert(s1.events[j] == s0.events[j]);
                assert(event_time(s0.events[j]) < tt);
            } else if j < s1.events.len() {
                assert(s1.events[j] == arrival_events(arr, tt)[j - s0.events.len()]);
            }
        }
    }
}

/// The round-robin queue is first in, first out: during a tick, processes
/// join it only at its back (the arrivals of the tick in input order, then
/// a process whose quantum ran out) and leave it only from its front (the
/// process then selected, which runs after the tick).
pub proof fn law_rr_queue_is_fifo(ps: Seq<Process>, quantum: int, t: nat)
    ensures
        ({
            let s = rr_run(ps, quantum, t);
            let next = rr_run(ps, quantum, t + 1);
            let preempted = s.current is Some && s.remaining[s.current->0] != 0 && s.quantum_left == 0;
            let waiting = s.ready + arrivals_at(ps, t as int, ps.len());
            let back = if preempted { waiting.push(s.current->0) } else { waiting };
            ||| next.ready == back
            ||| back.len() > 0 && next.ready == back.drop_first() && next.current == Some(back[0])
        }),
{
    let s = rr_run(ps, quantum, t);
    assert(rr_run(ps, quantum, t + 1) == rr_tick(ps, quantum, s, t as int));
}

/// Running longer only adds to the log: the log of the first `t` ticks is
/// a prefix of the log of the first `u` ticks, for every `t <= u`.
pub proof fn law_rr_longer_run_extends_log(ps: Seq<Process>, quantum: int, t: nat, u: nat)
    requires
        t <= u,
    ensures
        rr_run(ps, quantum, t).events.len() <= rr_run(ps, quantum, u).events.len(),
        rr_run(ps, quantum, u).events.take(rr_run(ps, quantum, t).events.len() as int)
            == rr_run(ps, quantum, t).events,
    decreases u - t,
{
    if t < u {
        law_rr_longer_run_extends_log(ps, quantum, t, (u - 1) as nat);
        let a = rr_run(ps, quantum, t).events;
        let b = rr_run(ps, quantum, (u - 1) as nat).events;
        let c = rr_run(ps, quantum, u).events;
        lemma_rr_tick_log(ps, quantum, rr_run(ps, quantum, (u - 1) as nat), u - 1);
        assert(c.take(a.len() as int) =~= c.take(b.len() as int).take(a.len() as int));
    } else {
        let a = rr_run(ps, quantum, t).events;
        assert(a.take(a.len() as int) =~= a);
    }
}

/// The closing entries all carry the tick `runfor`.
pub proof fn lemma_unfinished_log(ev: Seq<SpecEvent>, finished_time: Seq<int>, runfor: int, k: nat)
    requires
        k <= finished_time.len(),
    ensures
        extends_at(ev, ev + unfinished_events(finished_time, runfor, k), runfor),
    decreases k,
{
    let all = ev + unfinished_events(finished_time, runfor, k);
    assert(all.take(ev.len() as int) =~= ev);
    if k > 0 {
        lemma_unfinished_log(ev, finished_time, runfor, (k - 1) as nat);
        let prev = ev + unfinished_events(finished_time, runfor, (k - 1) as nat);
        assert forall|j: int| ev.len() <= j < all.len() implies event_time(#[trigger] all[j]) == runfor by {
            if j < prev.len() {
                assert(all[j] == prev[j]);
            }
        }
    }
}

/// The round-robin log is in order of time.
pub proof fn law_rr_log_in_time_order(ps: Seq<Process>, runfor: int, quantum: int)
    ensures
        in_time_order(rr_events(ps, runfor, quantum)),
{
    let t = ticks(runfor);
    lemma_rr_log(ps, quantum, t);
    lemma_rr_wf(ps, quantum, t);
    let s0 = rr_run(ps, quantum, t);
    let s = rr_outcome(ps, runfor, quantum);
    lemma_close_log(s0.events, s0.remaining, s0.current, runfor);
    lemma_unfinished_log(s.events, s.finished_time, runfor, ps.len());
    lemma_extends_trans(s0.events, s.events, rr_events(ps, runfor, quantum), runfor);
    if runfor >= 0 {
        lemma_logged_close(s0.events, rr_events(ps, runfor, quantum), t as int, runfor);
    } else {
        assert(s0.events.len() == 0);
        lemma_logged_close(s0.events, rr_events(ps, runfor, quantum), runfor, runfor);
    }
}

proof fn lemma_rr_tick_accounting(ps: Seq<Process>, q: int, s0: RrState, t: int)
    requires
        t >= 0,
        rr_wf(ps, q, s0, t),
    ensures
        idle_count(rr_tick(ps, q, s0, t).events) + work_done(ps, rr_tick(ps, q, s0, t).remaining, ps.len())
            == idle_count(s0.events) + work_done(ps, s0.remaining, ps.len()) + 1,
{
    let n = ps.len();
    lemma_rr_tick_wf(ps, q, s0, t);
    lemma_arrivals_bounded(ps, t, n);
    let s1 = rr_arrive(ps, s0, t);
    let s2 = rr_manage(s1, t);
    let s3 = rr_select(ps, s2, t, q);
    lemma_idle_arrivals(s0.events, arrivals_at(ps, t, n), t);
    if let Some(idx) = s1.current {
        if s1.remaining[idx] == 0 {
            lemma_idle_push(s1.events, SpecEvent::Finished { time: t, p: idx });
        }
    }
    if s2.current is None && s2.ready.len() > 0 {
        let next = s2.ready[0];
        lemma_idle_push(s2.events, SpecEvent::SelectedPlain { time: t, p: next, burst: s2.remaining[next] });
        if 0 < s1.ready.len() {
            assert(s2.ready[0] == s1.ready[0]);
            if 0 < s0.ready.len() {
                assert(s1.ready[0] == s0.ready[0]);
            } else {
                assert(s1.ready[0] == arrivals_at(ps, t, n)[0]);
            }
        }
    }
    match s3.current {
        Some(idx) => {
            lemma_work_step(ps, s3.remaining, idx, n);
        },
        None => {
            lemma_idle_push(s3.events, SpecEvent::Idle { time: t });
        },
    }
}

/// Every tick is accounted for exactly once: after `t` ticks, the idle
/// ticks in the log plus the CPU time given to the processes make `t`.
pub proof fn law_rr_every_tick_accounted(ps: Seq<Process>, quantum: int, t: nat)
    ensures
        idle_count(rr_run(ps, quantum, t).events) + work_done(ps, rr_run(ps, quantum, t).remaining, ps.len()) == t,
    decreases t,
{
    if t > 0 {
        law_rr_every_tick_accounted(ps, quantum, (t - 1) as nat);
        lemma_rr_wf(ps, quantum, (t - 1) as nat);
        lemma_rr_tick_accounting(ps, quantum, rr_run(ps, quantum, (t - 1) as nat), t - 1);
    } else {
        lemma_work_zero(ps, rr_init(ps).remaining, ps.len());
    }
}

/// Adds one tick of waiting to every process in the queue `ready`.
pub(crate) fn age_queue(
    wait: &mut Vec<i64>,
    ready: &Vec<usize>,
    Ghost(gw): Ghost<Seq<int>>,
    Ghost(gr): Ghost<Seq<int>>,
    Ghost(bound): Ghost<int>,
)
    requires
        agree_i64(old(wait)@, gw),
        agree_idx(ready@, gr),
        forall|a: int, b: int| 0 <= a < b < gr.len() ==> gr[a] != gr[b],
        forall|j: int| 0 <= j < gr.len() ==> 0 <= #[trigger] gr[j] < gw.len(),
        forall|i: int| 0 <= i < gw.len() ==> #[trigger] gw[i] <= bound,
        bound < i64::MAX,
    ensures
        agree_i64(
            final(wait)@,
            Seq::new(gw.len(), |i: int| gw[i] + if gr.contains(i) { 1int } else { 0int }),
        ),
{
    let mut w: usize = 0;
    while w < ready.len()
        invariant
            0 <= w <= ready@.len(),
            agree_idx(ready@, gr),
            forall|a: int, b: int| 0 <= a < b < gr.len() ==> gr[a] != gr[b],
            forall|j: int| 0 <= j < gr.len() ==> 0 <= #[trigger] gr[j] < gw.len(),
            forall|i: int| 0 <= i < gw.len() ==> #[trigger] gw[i] <= bound,
            bound < i64::MAX,
            wait@.len() == gw.len(),
            forall|i: int|
                0 <= i < gw.len() ==> #[trigger] wait@[i] as int == gw[i] + if exists|j: int|
                    0 <= j < w && gr[j] == i {
                    1int
                } else {
                    0int
                },
        decreases ready@.len() - w,
    {
        let idx = ready[w];
        assert(gr[w as int] == idx as int);
        let cur = wait[idx];
        assert(!(exists|j: int| 0 <= j < w && gr[j] == idx as int));
        wait.set(idx, cur + 1);
        assert forall|i: int| 0 <= i < gw.len() implies #[trigger] wait@[i] as int == gw[i] + if exists|j: int|
            0 <= j < w + 1 && gr[j] == i {
            1int
        } else {
            0int
        } by {
            if i == idx as int {
                assert(gr[w as int] == i);
            } else {
                if exists|j: int| 0 <= j < w + 1 && gr[j] == i {
                    let j = choose|j: int| 0 <= j < w + 1 && gr[j] == i;
                    assert(j < w);
                }
            }
        }
        w = w + 1;
    }
}

/// Logs the processes without a completion tick at `run_for` and builds the
/// figures of every process from the waiting, response and completion ticks.
pub(crate) fn close_timed(
    events: &mut Vec<Event>,
    processes: &Vec<Process>,
    wait: &Vec<i64>,
    response: &Vec<i64>,
    finished_time: &Vec<i64>,
    run_for: i32,
    Ghost(gw): Ghost<Seq<int>>,
    Ghost(gresp): Ghost<Seq<int>>,
    Ghost(gft): Ghost<Seq<int>>,
) -> (stats: Vec<ProcessStats>)
    requires
        agree_i64(wait@, gw),
        agree_i64(response@, gresp),
        agree_i64(finished_time@, gft),
        gw.len() == processes@.len(),
        gresp.len() == processes@.len(),
        gft.len() == processes@.len(),
        forall|j: int| 0 <= j < gft.len() ==> -1 <= #[trigger] gft[j] <= i32::MAX,
    ensures
        events_view(final(events)@) == events_view(old(events)@) + render_events(
            unfinished_events(gft, run_for as int, processes@.len()),
            processes@,
        ),
        stats_view(stats@) == render_stats(
            Seq::new(processes@.len(), |i: int| timed_row(processes@, gw, gresp, gft, i)),
            processes@,
        ),
{
    let n = processes.len();
    let ghost ps = processes@;
    let ghost ev0 = events@;
    let ghost all = Seq::new(n as nat, |i: int| timed_row(ps, gw, gresp, gft, i));
    let mut stats: Vec<ProcessStats> = Vec::new();
    let mut i: usize = 0;
    assert(events_view(events@) =~= events_view(ev0) + render_events(unfinished_events(gft, run_for as int, 0), ps));
    while i < n
        invariant
            0 <= i <= n,
            n == ps.len(),
            ps == processes@,
            agree_i64(wait@, gw),
            agree_i64(response@, gresp),
            agree_i64(finished_time@, gft),
            gw.len() == n,
            gresp.len() == n,
            gft.len() == n,
            forall|j: int| 0 <= j < gft.len() ==> -1 <= #[trigger] gft[j] <= i32::MAX,
            all == Seq::new(n as nat, |i: int| timed_row(ps, gw, gresp, gft, i)),
            events_view(events@) == events_view(ev0) + render_events(unfinished_events(gft, run_for as int, i as nat), ps),
            stats_view(stats@) == render_stats(all.take(i as int), ps),
        decreases n - i,
    {
        let mut turnaround: i64 = 0;
        let w = wait[i];
        assert(finished_time@[i as int] as int == gft[i as int]);
        if finished_time[i] != -1 {
            turnaround = finished_time[i] - processes[i].arrival as i64;
        } else {
            let e = unfinished_event(run_for, &processes[i].name);
            proof {
                let se = SpecEvent::Unfinished { time: run_for as int, p: i as int };
                lemma_events_view_push(events@, e);
                assert(unfinished_events(gft, run_for as int, (i + 1) as nat)
                    == unfinished_events(gft, run_for as int, i as nat).push(se));
                lemma_render_push(unfinished_events(gft, run_for as int, i as nat), se, ps);
            }
            events.push(e);
        }
        let row = stats_row(&processes[i].name, w, turnaround, response[i]);
        proof {
            let sr = timed_row(ps, gw, gresp, gft, i as int);
            lemma_stats_view_push(stats@, row);
            lemma_render_stats_push(all.take(i as int), sr, ps);
            assert(all.take(i + 1) =~= all.take(i as int).push(sr));
        }
        stats.push(row);
        i = i + 1;
    }
    assert(all.take(n as int) =~= all);
    stats
}

/// The exec vectors hold the state `s`.
pub open spec fn rr_agree(
    remaining: Seq<i64>,
    wait: Seq<i64>,
    response: Seq<i64>,
    finished_time: Seq<i64>,
    ready: Seq<usize>,
    current: Option<usize>,
    quantum_left: i64,
    s: RrState,
) -> bool {
    &&& agree_i64(remaining, s.remaining)
    &&& agree_i64(wait, s.wait)
    &&& agree_i64(response, s.response)
    &&& agree_i64(finished_time, s.finished_time)
    &&& agree_idx(ready, s.ready)
    &&& agree_opt(current, s.current)
    &&& quantum_left as int == s.quantum_left
}

/// Runs the workload round robin with quantum `control[3]` for `control[1]` ticks.
///
/// Each tick logs the arrivals (queued in input order), then either the
/// completion of the running process or its return to the end of the queue
/// when its quantum is used up; a free CPU takes the head of the queue with a
/// fresh quantum; the tick is used or logged `Idle`; every queued process
/// waits one tick.  At `control[1]` a running process with no work left is
/// logged as finished, and the processes that still have not finished are
/// logged as such.  Figures are given for every process in input order.
#[verifier::loop_isolation(false)]
#[verifier::rlimit(60)]
pub fn round_robin(control: [i32; 4], processes: &Vec<Process>) -> (r: ScheduleResult)
    ensures
        r.finish_time == control[1],
        events_view(r.events@) == render_events(
            rr_events(processes@, control[1] as int, control[3] as int),
            processes@,
        ),
        stats_view(r.stats@) == render_stats(
            rr_stats(processes@, control[1] as int, control[3] as int),
            processes@,
        ),
{
    let run_for = control[1];
    let quantum = control[3];
    let n = processes.len();
    let ghost ps = processes@;
    let ghost q = quantum as int;
    let mut remaining: Vec<i64> = Vec::new();
    let mut wait_times: Vec<i64> = Vec::new();
    let mut response_times: Vec<i64> = Vec::new();
    let mut finished_time: Vec<i64> = Vec::new();
    let mut k: usize = 0;
    while k < n
        invariant
            0 <= k <= n,
            remaining@.len() == k,
            wait_times@.len() == k,
            response_times@.len() == k,
            finished_time@.len() == k,
            forall|i: int| 0 <= i < k ==> remaining@[i] == ps[i].burst as i64,
            forall|i: int| 0 <= i < k ==> wait_times@[i] == 0,
            forall|i: int| 0 <= i < k ==> response_times@[i] == -1 && finished_time@[i] == -1,
        decreases n - k,
    {
        remaining.push(processes[k].burst as i64);
        wait_times.push(0);
        response_times.push(-1);
        finished_time.push(-1);
        k = k + 1;
    }
    let mut ready: Vec<usize> = Vec::new();
    let mut current: Option<usize> = None;
    let mut quantum_left: i64 = 0;
    let mut events: Vec<Event> = Vec::new();
    let ghost mut gs = rr_init(ps);
    assert(events_view(events@) =~= render_events(gs.events, ps));

    let limit: i32 = if run_for < 0 { 0 } else { run_for };
    let mut t: i32 = 0;
    while t < limit
        invariant
            0 <= t <= limit,
            gs == rr_run(ps, q, t as nat),
            rr_agree(remaining@, wait_times@, response_times@, finished_time@, ready@, current, quantum_left, gs),
            events_view(events@) == render_events(gs.events, ps),
        decreases limit - t,
    {
        proof {
            lemma_rr_wf(ps, q, t as nat);
            lemma_rr_tick_wf(ps, q, gs, t as int);
            lemma_arrivals_bounded(ps, t as int, n as nat);
        }
        let ghost s0 = gs;
        // 1. arrivals
        let mut i: usize = 0;
        while i < n
            invariant
                0 <= i <= n,
                agree_idx(ready@, s0.ready + arrivals_at(ps, t as int, i as nat)),
                events_view(events@) == render_events(
                    s0.events + arrival_events(arrivals_at(ps, t as int, i as nat), t as int),
                    ps,
                ),
            decreases n - i,
        {
            let ghost before = arrivals_at(ps, t as int, i as nat);
            if processes[i].arrival == t {
                let e = arrived_event(t, &processes[i].name);
                proof {
                    lemma_events_view_push(events@, e);
                    let se = SpecEvent::Arrived { time: t as int, p: i as int };
                    lemma_render_push(s0.events + arrival_events(before, t as int), se, ps);
                    assert(s0.events + arrival_events(before.push(i as int), t as int)
                        =~= (s0.events + arrival_events(before, t as int)).push(se));
                }
                events.push(e);
                ready.push(i);
                assert(s0.ready + before.push(i as int) =~= (s0.ready + before).push(i as int));
            }
            i = i + 1;
        }
        proof {
            gs = rr_arrive(ps, s0, t as int);
            assert forall|j: int| 0 <= j < ready@.len() implies ready@[j] < n by {
                assert(ready@[j] as int == gs.ready[j]);
                if j < s0.ready.len() {
                    assert(gs.ready[j] == s0.ready[j]);
                } else {
                    assert(gs.ready[j] == arrivals_at(ps, t as int, n as nat)[j - s0.ready.len()]);
                }
            }
        }
        // 2. completion or preemption
        let ghost s1 = gs;
        if let Some(idx) = current {
            if remaining[idx] == 0 {
                let e = finished_event(t, &processes[idx].name);
                proof {
                    lemma_events_view_push(events@, e);
                    lemma_render_push(s1.events, SpecEvent::Finished { time: t as int, p: idx as int }, ps);
                }
                events.push(e);
                finished_time.set(idx, t as i64);
                current = None;
            } else if quantum_left == 0 {
                ready.push(idx);
                current = None;
            }
        }
        proof {
            gs = rr_manage(s1, t as int);
        }
        // 3. selection
        let ghost s2 = gs;
        if current.is_none() && ready.len() > 0 {
            let next = ready.remove(0);
            current = Some(next);
            quantum_left = quantum as i64;
            if response_times[next] == -1 {
                response_times.set(next, t as i64 - processes[next].arrival as i64);
            }
            let e = selected_plain_event(t, &processes[next].name, remaining[next]);
            proof {
                lemma_events_view_push(events@, e);
                lemma_render_push(
                    s2.events,
                    SpecEvent::SelectedPlain { time: t as int, p: next as int, burst: s2.remaining[next as int] },
                    ps,
                );
            }
            events.push(e);
        }
        proof {
            gs = rr_select(ps, s2, t as int, q);
        }
        assert(agree_idx(ready@, gs.ready));
        // 4. execution
        let ghost s3 = gs;
        match current {
            Some(idx) => {
                let r = remaining[idx];
                remaining.set(idx, r - 1);
                quantum_left = quantum_left - 1;
            },
            None => {
                let e = idle_event(t);
                proof {
                    lemma_events_view_push(events@, e);
                    lemma_render_push(s3.events, SpecEvent::Idle { time: t as int }, ps);
                }
                events.push(e);
            },
        }
        proof {
            gs = rr_execute(s3, t as int);
        }
        // 5. waiting
        let ghost s4 = gs;
        age_queue(&mut wait_times, &ready, Ghost(s4.wait), Ghost(s4.ready), Ghost(t as int));
        proof {
            gs = rr_age(s4);
        }
        assert(agree_i64(wait_times@, gs.wait));
        t = t + 1;
    }
    proof {
        lemma_rr_wf(ps, q, t as nat);
    }
    // a process that used its last tick in the final round
    let ghost s_end = gs;
    if let Some(idx) = current {
        if remaining[idx] == 0 {
            let e = finished_event(run_for, &processes[idx].name);
            proof {
                lemma_events_view_push(events@, e);
                lemma_render_push(s_end.events, SpecEvent::Finished { time: run_for as int, p: idx as int }, ps);
            }
            events.push(e);
            finished_time.set(idx, run_for as i64);
            current = None;
        }
    }
    proof {
        gs = rr_close(s_end, run_for as int);
    }
    let ghost fs = gs;
    let ghost ev0 = events@;
    let stats = close_timed(
        &mut events,
        processes,
        &wait_times,
        &response_times,
        &finished_time,
        run_for,
        Ghost(fs.wait),
        Ghost(fs.response),
        Ghost(fs.finished_time),
    );
    proof {
        assert(render_events(fs.events + unfinished_events(fs.finished_time, run_for as int, n as nat), ps)
            =~= render_events(fs.events, ps) + render_events(unfinished_events(fs.finished_time, run_for as int, n as nat), ps));
    }
    ScheduleResult { events, stats, finish_time: run_for }
}

} // verus!
