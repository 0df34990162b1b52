//! A completely-fair-style scheduler: the ready process with the least
//! virtual runtime runs, and preempts the running one when strictly below it.
//! Every running tick adds one to the virtual runtime, so virtual runtimes
//! are whole numbers of ticks.

use vstd::prelude::*;
use crate::model::{
    Process, Event, ScheduleResult, SpecEvent, SpecStats, arrivals_at,
    lemma_arrivals_bounded, lemma_contains_concat, lemma_contains_push, lemma_contains_remove, agree_i64, agree_idx, agree_opt, events_view, render_events, stats_view,
    render_stats, lemma_render_push, lemma_events_view_push, arrived_event, finished_event,
    idle_event, selected_fair_event, in_time_order, logged_before, extends_at, lemma_extends_refl,
    lemma_extends_push, lemma_extends_trans, lemma_close_log, event_time, lemma_logged_tick, lemma_logged_close,
    idle_count, work_done, lemma_idle_push, lemma_work_step, lemma_work_zero,
};
use crate::fcfs::ticks;
use crate::rr::{
    queue_distinct, unfinished_events, timed_row, age_queue, close_timed, timing_of, lemma_arrivals_complete,
    lemma_unfinished_log, lemma_close_timing, queued_before, lemma_queue_arrivals, lemma_queue_push,
    lemma_queue_take,
};

verus! {

/// The state of the simulation between two ticks.
pub struct CfsState {
    pub vruntime: Seq<int>,
    pub remaining: Seq<int>,
    pub finished_time: Seq<int>,
    pub response: Seq<int>,
    pub wait: Seq<int>,
    pub ready: Seq<int>,
    pub current: Option<int>,
    pub events: Seq<SpecEvent>,
}

pub open spec fn cfs_init(ps: Seq<Process>) -> CfsState {
    CfsState {
        vruntime: Seq::new(ps.len(), |i: int| 0int),
        remaining: Seq::new(ps.len(), |i: int| ps[i].burst as int),
        finished_time: Seq::new(ps.len(), |i: int| -1int),
        response: Seq::new(ps.len(), |i: int| -1int),
        wait: Seq::new(ps.len(), |i: int| 0int),
        ready: Seq::empty(),
        current: None,
        events: Seq::empty(),
    }
}

/// The least element of a non-empty sequence.
pub open spec fn seq_min(v: Seq<int>) -> int
    decreases v.len(),
{
    if v.len() <= 1 {
        v[0]
    } else {
        let m = seq_min(v.drop_last());
        if v.last() < m { v.last() } else { m }
    }
}

/// Step 1 over the first `k` processes: each arrival at `t` is logged,
/// queued, and given the least virtual runtime held at that moment.
pub open spec fn cfs_arrive(ps: Seq<Process>, s: CfsState, t: int, k: nat) -> CfsState
    decreases k,
{
    if k == 0 {
        s
    } else {
        let p = cfs_arrive(ps, s, t, (k - 1) as nat);
        let i = k - 1;
        if ps[i].arrival == t {
            CfsState {
                events: p.events.push(SpecEvent::Arrived { time: t, p: i }),
                ready: p.ready.push(i),
                vruntime: p.vruntime.update(i, seq_min(p.vruntime)),
                ..p
            }
        } else {
            p
        }
    }
}

/// Step 2: a running process with no work left is logged as finished at `t`.
pub open spec fn cfs_complete(s: CfsState, t: int) -> CfsState {
    match s.current {
        Some(idx) => if s.remaining[idx] == 0 {
            CfsState {
                events: s.events.push(SpecEvent::Finished { time: t, p: idx }),
                finished_time: s.finished_time.update(idx, t),
                current: None,
                ..s
            }
        } else {
            s
        },
        None => s,
    }
}

/// The first position among the first `k` of the queue whose process has
/// the least virtual runtime.
pub open spec fn min_pos(ready: Seq<int>, vruntime: Seq<int>, k: nat) -> int
    decreases k,
{
    if k <= 1 {
        0
    } else {
        let b = min_pos(ready, vruntime, (k - 1) as nat);
        if vruntime[ready[k - 1]] < vruntime[ready[b]] { k - 1 } else { b }
    }
}

/// Step 3: the queued process with the least virtual runtime is chosen; it
/// preempts the running process when its virtual runtime is strictly lower
/// (the preempted one goes to the end of the queue), and takes a free CPU.
pub open spec fn cfs_select(ps: Seq<Process>, s: CfsState, t: int) -> CfsState {
    if s.ready.len() > 0 {
        let pos = min_pos(s.ready, s.vruntime, s.ready.len());
        let next = s.ready[pos];
        let s1 = match s.current {
            Some(c) => if s.vruntime[next] < s.vruntime[c] {
                CfsState { ready: s.ready.push(c), current: None, ..s }
            } else {
                s
            },
            None => s,
        };
        if s1.current is None {
            CfsState {
                ready: s1.ready.remove(pos),
                current: Some(next),
                response: if s1.response[next] == -1 {
                    s1.response.update(next, t - ps[next].arrival)
                } else {
                    s1.response
                },
                events: s1.events.push(
                    SpecEvent::SelectedFair {
                        time: t,
                        p: next,
                        burst: s1.remaining[next],
                        vruntime: s1.vruntime[next],
                    },
                ),
                ..s1
            }
        } else {
            s1
        }
    } else {
        s
    }
}

/// Step 4: the running process uses the tick, or the tick is logged idle.
pub open spec fn cfs_execute(s: CfsState, t: int) -> CfsState {
    match s.current {
        Some(idx) => CfsState {
            remaining: s.remaining.update(idx, s.remaining[idx] - 1),
            vruntime: s.vruntime.update(idx, s.vruntime[idx] + 1),
            ..s
        },
        None => CfsState { events: s.events.push(SpecEvent::Idle { time: t }), ..s },
    }
}

/// Step 5: every queued process waits one more tick.
pub open spec fn cfs_age(s: CfsState) -> CfsState {
    CfsState {
        wait: Seq::new(s.wait.len(), |i: int| s.wait[i] + if s.ready.contains(i) { 1int } else { 0int }),
        ..s
    }
}

pub open spec fn cfs_tick(ps: Seq<Process>, s: CfsState, t: int) -> CfsState {
    cfs_age(cfs_execute(cfs_select(ps, cfs_complete(cfs_arrive(ps, s, t, ps.len()), t), t), t))
}

pub open spec fn cfs_run(ps: Seq<Process>, t: nat) -> CfsState
    decreases t,
{
    if t == 0 {
        cfs_init(ps)
    } else {
        cfs_tick(ps, cfs_run(ps, (t - 1) as nat), t - 1)
    }
}

/// All ticks, then a last check for a completion at `runfor`.
pub open spec fn cfs_outcome(ps: Seq<Process>, runfor: int) -> CfsState {
    cfs_complete(cfs_run(ps, ticks(runfor)), runfor)
}

/// The whole log: the ticks, a completion at `runfor`, then the unfinished processes.
pub open spec fn cfs_events(ps: Seq<Process>, runfor: int) -> Seq<SpecEvent> {
    let s = cfs_outcome(ps, runfor);
    s.events + unfinished_events(s.finished_time, runfor, ps.len())
}

pub open spec fn cfs_stats(ps: Seq<Process>, runfor: int) -> Seq<SpecStats> {
    let s = cfs_outcome(ps, runfor);
    Seq::new(ps.len(), |i: int| timed_row(ps, s.wait, s.response, s.finished_time, i))
}

/// Shape and bounds of a state reached after `t` ticks.
pub open spec fn cfs_wf(ps: Seq<Process>, s: CfsState, t: int) -> bool {
    let n = ps.len();
    &&& s.vruntime.len() == n
    &&& s.remaining.len() == n
    &&& s.wait.len() == n
    &&& s.response.len() == n
    &&& s.finished_time.len() == n
    &&& forall|i: int| 0 <= i < n ==> 0 <= #[trigger] s.vruntime[i] <= t
    &&& forall|i: int| 0 <= i < n ==> ps[i].burst - t <= #[trigger] s.remaining[i] <= ps[i].burst
    &&& forall|i: int| 0 <= i < n ==> 0 <= #[trigger] s.wait[i] <= t
    &&& forall|i: int| 0 <= i < n ==> -1 <= #[trigger] s.finished_time[i] <= t
    &&& queued_before(ps, s.ready, t)
    &&& (s.current matches Some(c) ==> 0 <= c < n && 0 <= ps[c].arrival < t)
    &&& queue_distinct(s.ready, s.current)
}

pub proof fn lemma_seq_min(v: Seq<int>)
    requires
        v.len() > 0,
    ensures
        exists|j: int| 0 <= j < v.len() && v[j] == seq_min(v),
        forall|j: int| 0 <= j < v.len() ==> seq_min(v) <= #[trigger] v[j],
    decreases v.len(),
{
    if v.len() > 1 {
        let w = v.drop_last();
        lemma_seq_min(w);
        let j0 = choose|j: int| 0 <= j < w.len() && w[j] == seq_min(w);
        assert(v[j0] == w[j0]);
        assert forall|j: int| 0 <= j < v.len() implies seq_min(v) <= #[trigger] v[j] by {
            if j < w.len() {
                assert(v[j] == w[j]);
            }
        }
    } else {
        assert(v[0] == seq_min(v));
    }
}

pub proof fn lemma_min_pos(ready: Seq<int>, vruntime: Seq<int>, k: nat)
    requires
        1 <= k <= ready.len(),
    ensures
        0 <= min_pos(ready, vruntime, k) < k,
    decreases k,
{
    if k > 1 {
        lemma_min_pos(ready, vruntime, (k - 1) as nat);
    }
}

/// The choice of the fair scheduler: the chosen queue position holds a
/// process with the least virtual runtime in the queue, and every earlier
/// position holds a strictly greater one.
pub proof fn law_cfs_picks_first_least_vruntime(ready: Seq<int>, vruntime: Seq<int>)
    requires
        ready.len() >= 1,
    ensures
        0 <= min_pos(ready, vruntime, ready.len()) < ready.len(),
        forall|j: int| 0 <= j < ready.len() ==> vruntime[ready[min_pos(ready, vruntime, ready.len())]] <= vruntime[#[trigger] ready[j]],
        forall|j: int| 0 <= j < min_pos(ready, vruntime, ready.len()) ==> vruntime[ready[min_pos(ready, vruntime, ready.len())]] < vruntime[#[trigger] ready[j]],
{
    lemma_min_pos_least(ready, vruntime, ready.len());
}

proof fn lemma_min_pos_least(ready: Seq<int>, vruntime: Seq<int>, k: nat)
    requires
        1 <= k <= ready.len(),
    ensures
        0 <= min_pos(ready, vruntime, k) < k,
        forall|j: int| 0 <= j < k ==> vruntime[ready[min_pos(ready, vruntime, k)]] <= vruntime[#[trigger] ready[j]],
        forall|j: int| 0 <= j < min_pos(ready, vruntime, k) ==> vruntime[ready[min_pos(ready, vruntime, k)]] < vruntime[#[trigger] ready[j]],
    decreases k,
{
    if k > 1 {
        lemma_min_pos_least(ready, vruntime, (k - 1) as nat);
    }
}

/// Queue discipline of the fair scheduler: after any number of ticks no
/// process is queued twice and the running process is not queued.
pub proof fn law_cfs_queue_distinct(ps: Seq<Process>, t: nat)
    ensures
        queue_distinct(cfs_run(ps, t).ready, cfs_run(ps, t).current),
{
    lemma_cfs_wf(ps, t);
}

/// What the arrival step changes: the queue grows by the arrivals in input
/// order, virtual runtimes stay within `[0, t]`, the rest is kept.
pub proof fn lemma_cfs_arrive(ps: Seq<Process>, s: CfsState, t: int, k: nat)
    requires
        k <= ps.len(),
        t >= 0,
        s.vruntime.len() == ps.len(),
        forall|i: int| 0 <= i < ps.len() ==> 0 <= #[trigger] s.vruntime[i] <= t,
    ensures
        ({
            let a = cfs_arrive(ps, s, t, k);
            &&& a.ready == s.ready + arrivals_at(ps, t, k)
            &&& a.vruntime.len() == ps.len()
            &&& forall|i: int| 0 <= i < ps.len() ==> 0 <= #[trigger] a.vruntime[i] <= t
            &&& a.remaining == s.remaining
            &&& a.finished_time == s.finished_time
            &&& a.response == s.response
            &&& a.wait == s.wait
            &&& a.current == s.current
        }),
    decreases k,
{
    if k > 0 {
        lemma_cfs_arrive(ps, s, t, (k - 1) as nat);
        let p = cfs_arrive(ps, s, t, (k - 1) as nat);
        if ps[k - 1].arrival == t {
            assert(p.vruntime.len() > 0);
            lemma_seq_min(p.vruntime);
            let j0 = choose|j: int| 0 <= j < p.vruntime.len() && p.vruntime[j] == seq_min(p.vruntime);
            assert(0 <= p.vruntime[j0] <= t);
            assert(s.ready + arrivals_at(ps, t, (k - 1) as nat).push(k - 1) =~= (s.ready + arrivals_at(ps, t, (k - 1) as nat)).push(k - 1));
        }
    }
}

pub proof fn lemma_cfs_tick_wf(ps: Seq<Process>, s0: CfsState, t: int)
    requires
        t >= 0,
        cfs_wf(ps, s0, t),
    ensures
        cfs_wf(ps, cfs_tick(ps, s0, t), t + 1),
{
    let n = ps.len();
    lemma_cfs_tick_queue(ps, s0, t);
    let s4 = cfs_execute(cfs_select(ps, cfs_complete(cfs_arrive(ps, s0, t, n), t), t), t);
    let s5 = cfs_age(s4);
    assert forall|i: int| 0 <= i < n implies 0 <= #[trigger] s5.wait[i] <= t + 1 by {
        assert(s4.wait[i] == s0.wait[i]);
    }
}

/// How the queue moves through one tick: the arrivals join it, a preempted
/// process goes back to its end, and the chosen one leaves it; at each step
/// no process is queued twice and the running one is not queued.
proof fn lemma_cfs_tick_queue(ps: Seq<Process>, s0: CfsState, t: int)
    requires
        t >= 0,
        cfs_wf(ps, s0, t),
    ensures
        ({
            let s1 = cfs_arrive(ps, s0, t, ps.len());
            let s2 = cfs_complete(s1, t);
            let s3 = cfs_select(ps, s2, t);
            &&& s1.ready == s0.ready + arrivals_at(ps, t, ps.len())
            &&& s1.vruntime.len() == ps.len()
            &&& forall|i: int| 0 <= i < ps.len() ==> 0 <= #[trigger] s1.vruntime[i] <= t
            &&& s1.remaining == s0.remaining && s1.finished_time == s0.finished_time
            &&& s1.response == s0.response && s1.wait == s0.wait && s1.current == s0.current
            &&& queue_distinct(s2.ready, s2.current) && queued_before(ps, s2.ready, t + 1)
            &&& queue_distinct(s3.ready, s3.current) && queued_before(ps, s3.ready, t + 1)
            &&& (s3.current matches Some(c) ==> 0 <= c < ps.len() && 0 <= ps[c].arrival < t + 1)
        }),
{
    let n = ps.len();
    lemma_cfs_arrive(ps, s0, t, n);
    lemma_queue_arrivals(ps, s0.ready, s0.current, t);
    let s1 = cfs_arrive(ps, s0, t, n);
    let s2 = cfs_complete(s1, t);
    let s3 = cfs_select(ps, s2, t);
    if s2.ready.len() > 0 {
        lemma_min_pos(s2.ready, s2.vruntime, s2.ready.len());
        let pos = min_pos(s2.ready, s2.vruntime, s2.ready.len());
        let next = s2.ready[pos];
        let preempt = s2.current is Some && s2.vruntime[next] < s2.vruntime[s2.current->0];
        let mid_ready = if preempt { s2.ready.push(s2.current->0) } else { s2.ready };
        if preempt {
            lemma_queue_push(ps, s2.ready, s2.current->0, t + 1);
        }
        assert(mid_ready[pos] == next);
        if preempt || s2.current is None {
            lemma_queue_take(ps, mid_ready, pos, t + 1);
            assert(s3.ready == mid_ready.remove(pos));
        }
    }
}

pub proof fn lemma_cfs_wf(ps: Seq<Process>, t: nat)
    ensures
        cfs_wf(ps, cfs_run(ps, t), t as int),
    decreases t,
{
    if t > 0 {
        lemma_cfs_wf(ps, (t - 1) as nat);
        lemma_cfs_tick_wf(ps, cfs_run(ps, (t - 1) as nat), t - 1);
    }
}

fn min_value(v: &Vec<i64>, Ghost(g): Ghost<Seq<int>>) -> (m: i64)
    requires
        agree_i64(v@, g),
        g.len() > 0,
    ensures
        m as int == seq_min(g),
{
    let mut m = v[0];
    let mut k: usize = 1;
    assert(g.take(1).drop_last() =~= g.take(0));
    while k < v.len()
        invariant
            1 <= k <= v@.len(),
            agree_i64(v@, g),
            m as int == seq_min(g.take(k as int)),
        decreases v@.len() - k,
    {
        assert(g.take(k + 1).drop_last() =~= g.take(k as int));
        assert(g.take(k + 1).last() == g[k as int]);
        if v[k] < m {
            m = v[k];
        }
        k = k + 1;
    }
    assert(g.take(v@.len() as int) =~= g);
    m
}

fn first_min_pos(
    ready: &Vec<usize>,
    vruntime: &Vec<i64>,
    Ghost(gr): Ghost<Seq<int>>,
    Ghost(gv): Ghost<Seq<int>>,
) -> (pos: usize)
    requires
        agree_idx(ready@, gr),
        agree_i64(vruntime@, gv),
        gr.len() > 0,
        forall|j: int| 0 <= j < gr.len() ==> 0 <= #[trigger] gr[j] < gv.len(),
    ensures
        pos as int == min_pos(gr, gv, gr.len()),
        pos < gr.len(),
{
    let mut best: usize = 0;
    let mut k: usize = 1;
    while k < ready.len()
        invariant
            1 <= k <= ready@.len(),
            agree_idx(ready@, gr),
            agree_i64(vruntime@, gv),
            forall|j: int| 0 <= j < gr.len() ==> 0 <= #[trigger] gr[j] < gv.len(),
            best as int == min_pos(gr, gv, k as nat),
            best < k,
        decreases ready@.len() - k,
    {
        let a = ready[k];
        let b = ready[best];
        assert(gr[k as int] == a as int && gr[best as int] == b as int);
        if vruntime[a] < vruntime[b] {
            best = k;
        }
        k = k + 1;
    }
    best
}

pub open spec fn cfs_timing(ps: Seq<Process>, s: CfsState, t: int) -> bool {
    forall|i: int| 0 <= i < ps.len() ==> #[trigger] timing_of(ps, s.remaining, s.wait, s.response, s.finished_time, s.ready, s.current, t, i)
}

proof fn lemma_cfs_tick_timing(ps: Seq<Process>, s0: CfsState, t: int)
    requires
        t >= 0,
        cfs_wf(ps, s0, t),
        cfs_timing(ps, s0, t),
    ensures
        cfs_timing(ps, cfs_tick(ps, s0, t), t + 1),
{
    let n = ps.len();
    lemma_arrivals_bounded(ps, t, n);
    lemma_cfs_tick_wf(ps, s0, t);
    lemma_cfs_tick_queue(ps, s0, t);
    let arr = arrivals_at(ps, t, n);
    let s1 = cfs_arrive(ps, s0, t, n);
    let s2 = cfs_complete(s1, t);
    let s3 = cfs_select(ps, s2, t);
    let s4 = cfs_execute(s3, t);
    let s5 = cfs_age(s4);
    // the queue between preemption and removal
    let pos = min_pos(s2.ready, s2.vruntime, s2.ready.len());
    let next = s2.ready[pos];
    let preempt = s2.ready.len() > 0 && s2.current is Some && s2.vruntime[next] < s2.vruntime[s2.current->0];
    let mid_ready = if preempt { s2.ready.push(s2.current->0) } else { s2.ready };
    let mid_current = if preempt { None } else { s2.current };
    if s2.ready.len() > 0 {
        lemma_min_pos(s2.ready, s2.vruntime, s2.ready.len());
        if preempt {
            lemma_queue_push(ps, s2.ready, s2.current->0, t + 1);
        }
        assert(mid_ready[pos] == next);
        if mid_current is None {
            assert(s3.ready == mid_ready.remove(pos));
            assert(s3.current == Some(next));
        } else {
            assert(s3.ready == mid_ready && s3.current == mid_current);
        }
    }
    assert forall|i: int| 0 <= i < n implies #[trigger] timing_of(ps, s5.remaining, s5.wait, s5.response, s5.finished_time, s5.ready, s5.current, t + 1, i) by {
        assert(timing_of(ps, s0.remaining, s0.wait, s0.response, s0.finished_time, s0.ready, s0.current, t, i));
        lemma_contains_concat(s0.ready, arr, i);
        let arrives = arr.contains(i);
        assert(arrives <==> ps[i].arrival == t) by {
            if ps[i].arrival == t {
                lemma_arrivals_complete(ps, t, n, i);
            }
            if arrives {
                let j = choose|j: int| 0 <= j < arr.len() && arr[j] == i;
            }
        }
        if s2.ready.len() > 0 {
            if preempt {
                lemma_contains_push(s2.ready, s2.current->0, i);
            }
            if mid_current is None {
                lemma_contains_remove(mid_ready, pos, i);
            }
        }
        assert(s4.ready == s3.ready);
        assert(s5.wait[i] == s4.wait[i] + if s4.ready.contains(i) { 1int } else { 0int });
        if s4.current == Some(i) {
            assert(!s4.ready.contains(i));
        }
    }
}

proof fn lemma_cfs_timing(ps: Seq<Process>, t: nat)
    ensures
        cfs_timing(ps, cfs_run(ps, t), t as int),
    decreases t,
{
    if t > 0 {
        lemma_cfs_timing(ps, (t - 1) as nat);
        lemma_cfs_wf(ps, (t - 1) as nat);
        lemma_cfs_tick_timing(ps, cfs_run(ps, (t - 1) as nat), t - 1);
    } else {
        let s = cfs_run(ps, 0);
        assert forall|i: int| 0 <= i < ps.len() implies #[trigger] timing_of(ps, s.remaining, s.wait, s.response, s.finished_time, s.ready, s.current, 0, i) by {
            assert(!s.ready.contains(i));
        }
    }
}

/// The fair scheduler accounts for every tick after an arrival as waiting
/// or running: a process that finished has turnaround = wait + burst, and no
/// process has a response above its wait.
pub proof fn law_cfs_turnaround_is_wait_plus_burst(ps: Seq<Process>, runfor: int)
    ensures
        forall|i: int| 0 <= i < ps.len() ==> {
            let r = #[trigger] cfs_stats(ps, runfor)[i];
            &&& cfs_outcome(ps, runfor).finished_time[i] != -1 ==> r.turnaround == r.wait + ps[i].burst
            &&& r.response <= r.wait
        },
{
    let t = ticks(runfor);
    lemma_cfs_timing(ps, t);
    lemma_cfs_wf(ps, t);
    let s0 = cfs_run(ps, t);
    let s = cfs_outcome(ps, runfor);
    assert forall|i: int| 0 <= i < ps.len() implies {
        let r = #[trigger] cfs_stats(ps, runfor)[i];
        &&& s.finished_time[i] != -1 ==> r.turnaround == r.wait + ps[i].burst
        &&& r.response <= r.wait
    } by {
        assert(timing_of(ps, s0.remaining, s0.wait, s0.response, s0.finished_time, s0.ready, s0.current, t as int, i));
        lemma_close_timing(ps, s0.remaining, s0.wait, s0.response, s0.finished_time, s0.ready, s0.current, runfor, i);
    }
}

proof fn lemma_cfs_arrive_log(ps: Seq<Process>, s: CfsState, t: int, k: nat)
    ensures
        extends_at(s.events, cfs_arrive(ps, s, t, k).events, t),
    decreases k,
{
    if k == 0 {
        lemma_extends_refl(s.events, t);
    } else {
        lemma_cfs_arrive_log(ps, s, t, (k - 1) as nat);
        let p = cfs_arrive(ps, s, t, (k - 1) as nat);
        if ps[k - 1].arrival == t {
            lemma_extends_push(p.events, SpecEvent::Arrived { time: t, p: k - 1 }, t);
        } else {
            lemma_extends_refl(p.events, t);
        }
        lemma_extends_trans(s.events, p.events, cfs_arrive(ps, s, t, k).events, t);
    }
}

proof fn lemma_cfs_tick_log(ps: Seq<Process>, s0: CfsState, t: int)
    ensures
        extends_at(s0.events, cfs_tick(ps, s0, t).events, t),
{
    let s1 = cfs_arrive(ps, s0, t, ps.len());
    let s2 = cfs_complete(s1, t);
    let s3 = cfs_select(ps, s2, t);
    let s4 = cfs_execute(s3, t);
    lemma_cfs_arrive_log(ps, s0, t, ps.len());
    lemma_close_log(s1.events, s1.remaining, s1.current, t);
    if s3.events == s2.events {
        lemma_extends_refl(s2.events, t);
    } else {
        let pos = min_pos(s2.ready, s2.vruntime, s2.ready.len());
        let next = s2.ready[pos];
        lemma_extends_push(
            s2.events,
            SpecEvent::SelectedFair { time: t, p: next, burst: s2.remaining[next], vruntime: s2.vruntime[next] },
            t,
        );
    }
    if s3.current is None {
        lemma_extends_push(s3.events, SpecEvent::Idle { time: t }, t);
    } else {
        lemma_extends_refl(s3.events, t);
    }
    lemma_extends_trans(s0.events, s1.events, s2.events, t);
    lemma_extends_trans(s0.events, s2.events, s3.events, t);
    lemma_extends_trans(s0.events, s3.events, s4.events, t);
}

proof fn lemma_cfs_log(ps: Seq<Process>, t: nat)
    ensures
        logged_before(cfs_run(ps, t).events, t as int),
    decreases t,
{
    if t > 0 {
        lemma_cfs_log(ps, (t - 1) as nat);
        lemma_cfs_tick_log(ps, cfs_run(ps, (t - 1) as nat), t - 1);
        lemma_logged_tick(cfs_run(ps, (t - 1) as nat).events, cfs_run(ps, t).events, t - 1);
    }
}

/// The log of the fair scheduler is in order of time.
pub proof fn law_cfs_log_in_time_order(ps: Seq<Process>, runfor: int)
    ensures
        in_time_order(cfs_events(ps, runfor)),
{
    let t = ticks(runfor);
    lemma_cfs_log(ps, t);
    lemma_cfs_wf(ps, t);
    let s0 = cfs_run(ps, t);
    let s = cfs_outcome(ps, runfor);
    lemma_close_log(s0.events, s0.remaining, s0.current, runfor);
    lemma_unfinished_log(s.events, s.finished_time, runfor, ps.len());
    lemma_extends_trans(s0.events, s.events, cfs_events(ps, runfor), runfor);
    if runfor >= 0 {
        lemma_logged_close(s0.events, cfs_events(ps, runfor), t as int, runfor);
    } else {
        assert(s0.events.len() == 0);
        lemma_logged_close(s0.events, cfs_events(ps, runfor), runfor, runfor);
    }
}

proof fn lemma_cfs_arrive_idle(ps: Seq<Process>, s: CfsState, t: int, k: nat)
    ensures
        idle_count(cfs_arrive(ps, s, t, k).events) == idle_count(s.events),
    decreases k,
{
    if k > 0 {
        lemma_cfs_arrive_idle(ps, s, t, (k - 1) as nat);
        let p = cfs_arrive(ps, s, t, (k - 1) as nat);
        if ps[k - 1].arrival == t {
            lemma_idle_push(p.events, SpecEvent::Arrived { time: t, p: k - 1 });
        }
    }
}

proof fn lemma_cfs_tick_accounting(ps: Seq<Process>, s0: CfsState, t: int)
    requires
        t >= 0,
        cfs_wf(ps, s0, t),
    ensures
        idle_count(cfs_tick(ps, s0, t).events) + work_done(ps, cfs_tick(ps, s0, t).remaining, ps.len())
            == idle_count(s0.events) + work_done(ps, s0.remaining, ps.len()) + 1,
{
    let n = ps.len();
    lemma_cfs_tick_wf(ps, s0, t);
    lemma_cfs_arrive(ps, s0, t, n);
    lemma_cfs_arrive_idle(ps, s0, t, n);
    let s1 = cfs_arrive(ps, s0, t, n);
    let s2 = cfs_complete(s1, t);
    let s3 = cfs_select(ps, s2, t);
    if let Some(idx) = s1.current {
        if s1.remaining[idx] == 0 {
            lemma_idle_push(s1.events, SpecEvent::Finished { time: t, p: idx });
        }
    }
    if s3.events != s2.events {
        let pos = min_pos(s2.ready, s2.vruntime, s2.ready.len());
        let next = s2.ready[pos];
        lemma_idle_push(
            s2.events,
            SpecEvent::SelectedFair { time: t, p: next, burst: s2.remaining[next], vruntime: s2.vruntime[next] },
        );
    }
    assert(s3.remaining == s2.remaining);
    match s3.current {
        Some(idx) => {
            lemma_work_step(ps, s3.remaining, idx, n);
        },
        None => {
            lemma_idle_push(s3.events, SpecEvent::Idle { time: t });
        },
    }
}

/// Every tick is accounted for exactly once: after `t` ticks, the idle
/// ticks in the log plus the CPU time given to the processes make `t`.
pub proof fn law_cfs_every_tick_accounted(ps: Seq<Process>, t: nat)
    ensures
        idle_count(cfs_run(ps, t).events) + work_done(ps, cfs_run(ps, t).remaining, ps.len()) == t,
    decreases t,
{
    if t > 0 {
        law_cfs_every_tick_accounted(ps, (t - 1) as nat);
        lemma_cfs_wf(ps, (t - 1) as nat);
        lemma_cfs_tick_accounting(ps, cfs_run(ps, (t - 1) as nat), t - 1);
    } else {
        lemma_work_zero(ps, cfs_init(ps).remaining, ps.len());
    }
}

/// The arrival step only logs arrivals, after the entries already there.
proof fn lemma_cfs_arrive_logs_arrivals(ps: Seq<Process>, s: CfsState, t: int, k: nat)
    ensures
        ({
            let a = cfs_arrive(ps, s, t, k);
            &&& s.events.len() <= a.events.len()
            &&& forall|j: int| 0 <= j < s.events.len() ==> #[trigger] a.events[j] == s.events[j]
            &&& forall|j: int| s.events.len() <= j < a.events.len() ==> (#[trigger] a.events[j]) is Arrived
        }),
    decreases k,
{
    if k > 0 {
        lemma_cfs_arrive_logs_arrivals(ps, s, t, (k - 1) as nat);
        let p = cfs_arrive(ps, s, t, (k - 1) as nat);
        let a = cfs_arrive(ps, s, t, k);
        if ps[k - 1].arrival == t {
            assert forall|j: int| 0 <= j < s.events.len() implies #[trigger] a.events[j] == s.events[j] by {
                assert(a.events[j] == p.events[j]);
            }
            assert forall|j: int| s.events.len() <= j < a.events.len() implies (#[trigger] a.events[j]) is Arrived by {
                if j < p.events.len() {
                    assert(a.events[j] == p.events[j]);
                }
            }
        }
    }
}

/// The fair scheduler takes from the queue a process of least virtual
/// runtime: a process selected at tick `t` had, when selected, a virtual
/// runtime no greater than that of any process still waiting after the tick.
pub proof fn law_cfs_selects_least_vruntime(ps: Seq<Process>, t: nat)
    ensures
        forall|j: int, k: int|
            0 <= j < cfs_run(ps, t + 1).events.len() && 0 <= k < cfs_run(ps, t + 1).ready.len() ==> (
                (#[trigger] cfs_run(ps, t + 1).events[j] is SelectedFair && cfs_run(ps, t + 1).events[j]->SelectedFair_time == t)
                    ==> cfs_run(ps, t + 1).events[j]->SelectedFair_vruntime
                        <= cfs_run(ps, t + 1).vruntime[#[trigger] cfs_run(ps, t + 1).ready[k]]),
{
    let tt = t as int;
    let n = ps.len();
    lemma_cfs_wf(ps, t);
    lemma_cfs_log(ps, t);
    lemma_cfs_tick_queue(ps, cfs_run(ps, t), tt);
    let s0 = cfs_run(ps, t);
    lemma_cfs_arrive_logs_arrivals(ps, s0, tt, n);
    let s1 = cfs_arrive(ps, s0, tt, n);
    let s2 = cfs_complete(s1, tt);
    let s3 = cfs_select(ps, s2, tt);
    let s4 = cfs_execute(s3, tt);
    let s5 = cfs_age(s4);
    assert(s5 == cfs_run(ps, t + 1));
    assert forall|j: int, k: int|
        0 <= j < s5.events.len() && 0 <= k < s5.ready.len() implies (
            (#[trigger] s5.events[j] is SelectedFair && s5.events[j]->SelectedFair_time == t)
                ==> s5.events[j]->SelectedFair_vruntime <= s5.vruntime[#[trigger] s5.ready[k]]) by {
        if s5.events[j] is SelectedFair && s5.events[j]->SelectedFair_time == t {
            if j < s3.events.len() {
                assert(s4.events[j] == s3.events[j]);
            }
            if j < s2.events.len() {
                assert(s3.events[j] == s2.events[j]);
            }
            if j < s1.events.len() {
                assert(s2.events[j] == s1.events[j]);
            }
            if j < s0.events.len() {
                assert(event_time(s0.events[j]) < tt);
            }
            assert(s2.events.len() <= j < s3.events.len());
            assert(s2.ready.len() > 0);
            law_cfs_picks_first_least_vruntime(s2.ready, s2.vruntime);
            let pos = min_pos(s2.ready, s2.vruntime, s2.ready.len());
            let next = s2.ready[pos];
            let preempt = s2.current is Some && s2.vruntime[next] < s2.vruntime[s2.current->0];
            let mid_ready = if preempt { s2.ready.push(s2.current->0) } else { s2.ready };
            assert(s3.current == Some(next));
            assert(s3.ready == mid_ready.remove(pos));
            let x = s5.ready[k];
            assert(x != next);
            assert(s5.vruntime[x] == s2.vruntime[x]);
            if k < pos {
                assert(x == mid_ready[k]);
            } else {
                assert(x == mid_ready[k + 1]);
            }
        }
    }
}

/// The exec vectors hold the state `s`.
pub open spec fn cfs_agree(
    vruntime: Seq<i64>,
    remaining: Seq<i64>,
    finished_time: Seq<i64>,
    response: Seq<i64>,
    wait: Seq<i64>,
    ready: Seq<usize>,
    current: Option<usize>,
    s: CfsState,
) -> bool {
    &&& agree_i64(vruntime, s.vruntime)
    &&& agree_i64(remaining, s.remaining)
    &&& agree_i64(finished_time, s.finished_time)
    &&& agree_i64(response, s.response)
    &&& agree_i64(wait, s.wait)
    &&& agree_idx(ready, s.ready)
    &&& agree_opt(current, s.current)
}

/// One tick of the simulation on the exec state.
#[verifier::loop_isolation(false)]
#[verifier::rlimit(40)]
fn cfs_step(
    processes: &Vec<Process>,
    t: i32,
    vruntime: &mut Vec<i64>,
    remaining: &mut Vec<i64>,
    finished_time: &mut Vec<i64>,
    response: &mut Vec<i64>,
    wait: &mut Vec<i64>,
    ready: &mut Vec<usize>,
    current: &mut Option<usize>,
    events: &mut Vec<Event>,
    Ghost(s0): Ghost<CfsState>,
)
    requires
        0 <= t,
        cfs_wf(processes@, s0, t as int),
        cfs_agree(old(vruntime)@, old(remaining)@, old(finished_time)@, old(response)@, old(wait)@, old(ready)@, *old(current), s0),
        events_view(old(events)@) == render_events(s0.events, processes@),
    ensures
        cfs_agree(final(vruntime)@, final(remaining)@, final(finished_time)@, final(response)@, final(wait)@, final(ready)@, *final(current), cfs_tick(processes@, s0, t as int)),
        events_view(final(events)@) == render_events(cfs_tick(processes@, s0, t as int).events, processes@),
{
    let n = processes.len();
    let ghost ps = processes@;
    proof {
        lemma_cfs_tick_wf(ps, s0, t as int);
        lemma_arrivals_bounded(ps, t as int, n as nat);
    }
    // 1. arrivals
    let mut i: usize = 0;
    while i < n
        invariant
            0 <= i <= n,
            cfs_agree(vruntime@, remaining@, finished_time@, response@, wait@, ready@, *current, cfs_arrive(ps, s0, t as int, i as nat)),
            events_view(events@) == render_events(cfs_arrive(ps, s0, t as int, i as nat).events, ps),
        decreases n - i,
    {
        proof {
            lemma_cfs_arrive(ps, s0, t as int, i as nat);
        }
        let ghost p = cfs_arrive(ps, s0, t as int, i as nat);
        if processes[i].arrival == t {
            let e = arrived_event(t, &processes[i].name);
            proof {
                lemma_events_view_push(events@, e);
                lemma_render_push(p.events, SpecEvent::Arrived { time: t as int, p: i as int }, ps);
            }
            events.push(e);
            ready.push(i);
            let m = min_value(vruntime, Ghost(p.vruntime));
            vruntime.set(i, m);
        }
        i = i + 1;
    }
    let ghost s1 = cfs_arrive(ps, s0, t as int, n as nat);
    proof {
        lemma_cfs_arrive(ps, s0, t as int, n as nat);
        assert forall|j: int| 0 <= j < s1.ready.len() implies 0 <= #[trigger] s1.ready[j] < n by {
            if j >= s0.ready.len() {
                assert(s1.ready[j] == arrivals_at(ps, t as int, n as nat)[j - s0.ready.len()]);
            } else {
                assert(s1.ready[j] == s0.ready[j]);
            }
        }
    }
    // 2. completion
    if let Some(idx) = *current {
        if remaining[idx] == 0 {
            let e = finished_event(t, &processes[idx].name);
            proof {
                lemma_events_view_push(events@, e);
                lemma_render_push(s1.events, SpecEvent::Finished { time: t as int, p: idx as int }, ps);
            }
            events.push(e);
            finished_time.set(idx, t as i64);
            *current = None;
        }
    }
    let ghost s2 = cfs_complete(s1, t as int);
    // 3. selection
    if ready.len() > 0 {
        let pos = first_min_pos(ready, vruntime, Ghost(s2.ready), Ghost(s2.vruntime));
        let next = ready[pos];
        if let Some(c) = *current {
            if vruntime[next] < vruntime[c] {
                ready.push(c);
                *current = None;
            }
        }
        if current.is_none() {
            let idx = ready.remove(pos);
            *current = Some(idx);
            if response[idx] == -1 {
                response.set(idx, t as i64 - processes[idx].arrival as i64);
            }
            let e = selected_fair_event(t, &processes[idx].name, remaining[idx], vruntime[idx]);
            proof {
                lemma_events_view_push(events@, e);
                lemma_render_push(
                    s2.events,
                    SpecEvent::SelectedFair {
                        time: t as int,
                        p: idx as int,
                        burst: s2.remaining[idx as int],
                        vruntime: s2.vruntime[idx as int],
                    },
                    ps,
                );
            }
            events.push(e);
        }
    }
    let ghost s3 = cfs_select(ps, s2, t as int);
    assert(agree_idx(ready@, s3.ready));
    // 4. execution
    match *current {
        Some(idx) => {
            let r = remaining[idx];
            remaining.set(idx, r - 1);
            let v = vruntime[idx];
            vruntime.set(idx, v + 1);
        },
        None => {
            let e = idle_event(t);
            proof {
                lemma_events_view_push(events@, e);
                lemma_render_push(s3.events, SpecEvent::Idle { time: t as int }, ps);
            }
            events.push(e);
        },
    }
    let ghost s4 = cfs_execute(s3, t as int);
    // 5. waiting
    age_queue(wait, ready, Ghost(s4.wait), Ghost(s4.ready), Ghost(t as int));
}

/// Runs the workload with the fair scheduler for `control[1]` ticks.
///
/// Each tick logs the arrivals (queued, with the least virtual runtime held
/// at that moment) and the completion of the running process; the queued
/// process with the least virtual runtime (the first such in the queue) takes
/// a free CPU, or preempts the running process when strictly below it; the
/// running process gains one tick of virtual runtime, or the tick is logged
/// `Idle`; every queued process waits one tick.  At `control[1]` a running
/// process with no work left is logged as finished, and the processes that
/// still have not finished are logged as such.  Figures are given for every
/// process.
#[verifier::loop_isolation(false)]
pub fn linux_cfs(control: [i32; 4], processes: &Vec<Process>) -> (r: ScheduleResult)
    ensures
        r.finish_time == control[1],
        events_view(r.events@) == render_events(cfs_events(processes@, control[1] as int), processes@),
        stats_view(r.stats@) == render_stats(cfs_stats(processes@, control[1] as int), processes@),
{
    let run_for = control[1];
    let n = processes.len();
    let ghost ps = processes@;
    let mut vruntime: Vec<i64> = Vec::new();
    let mut remaining: Vec<i64> = Vec::new();
    let mut finished_time: Vec<i64> = Vec::new();
    let mut response: Vec<i64> = Vec::new();
    let mut wait: Vec<i64> = Vec::new();
    let mut k: usize = 0;
    while k < n
        invariant
            0 <= k <= n,
            vruntime@.len() == k,
            remaining@.len() == k,
            finished_time@.len() == k,
            response@.len() == k,
            wait@.len() == k,
            forall|i: int| 0 <= i < k ==> remaining@[i] == ps[i].burst as i64,
            forall|i: int| 0 <= i < k ==> vruntime@[i] == 0 && wait@[i] == 0,
            forall|i: int| 0 <= i < k ==> response@[i] == -1 && finished_time@[i] == -1,
        decreases n - k,
    {
        vruntime.push(0);
        remaining.push(processes[k].burst as i64);
        finished_time.push(-1);
        response.push(-1);
        wait.push(0);
        k = k + 1;
    }
    let mut ready: Vec<usize> = Vec::new();
    let mut current: Option<usize> = None;
    let mut events: Vec<Event> = Vec::new();
    let ghost mut gs = cfs_init(ps);
    assert(events_view(events@) =~= render_events(gs.events, ps));

    let limit: i32 = if run_for < 0 { 0 } else { run_for };
    let mut t: i32 = 0;
    while t < limit
        invariant
            0 <= t <= limit,
            gs == cfs_run(ps, t as nat),
            cfs_agree(vruntime@, remaining@, finished_time@, response@, wait@, ready@, current, gs),
            events_view(events@) == render_events(gs.events, ps),
        decreases limit - t,
    {
        proof {
            lemma_cfs_wf(ps, t as nat);
        }
        cfs_step(
            processes,
            t,
            &mut vruntime,
            &mut remaining,
            &mut finished_time,
            &mut response,
            &mut wait,
            &mut ready,
            &mut current,
            &mut events,
            Ghost(gs),
        );
        proof {
            gs = cfs_tick(ps, gs, t as int);
        }
        t = t + 1;
    }
    proof {
        lemma_cfs_wf(ps, t as nat);
    }
    // a process that used its last tick in the final round
    let ghost s_end = gs;
    if let Some(idx) = current {
        if remaining[idx] == 0 {
            let e = finished_event(run_for, &processes[idx].name);
            proof {
                lemma_events_view_push(events@, e);
                lemma_render_push(s_end.events, SpecEvent::Finished { time: run_for as int, p: idx as int }, ps);
            }
            events.push(e);
            finished_time.set(idx, run_for as i64);
            current = None;
        }
    }
    proof {
        gs = cfs_complete(s_end, run_for as int);
    }
    let ghost fs = gs;
    let stats = close_timed(
        &mut events,
        processes,
        &wait,
        &response,
        &finished_time,
        run_for,
        Ghost(fs.wait),
        Ghost(fs.response),
        Ghost(fs.finished_time),
    );
    proof {
        assert(render_events(fs.events + unfinished_events(fs.finished_time, run_for as int, n as nat), ps)
            =~= render_events(fs.events, ps) + render_events(unfinished_events(fs.finished_time, run_for as int, n as nat), ps));
    }
    ScheduleResult { events, stats, finish_time: run_for }
}

} // verus!
