//! Shortest job first is blind to when time starts: a workload whose
//! arrivals all come `d` ticks later runs the same way, after `d` idle ticks.

use vstd::prelude::*;
use crate::model::{Process, SpecEvent, arrivals_at, arrival_events};
use crate::fcfs::ticks;
use crate::sjf::{
    SjfState, sjf_init, sjf_arrive, sjf_complete, sjf_run_tick, sjf_tick, sjf_run, sjf_outcome, sjf_best,
    sjf_eligible, sjf_wf, sjf_row, sjf_stats, lemma_sjf_wf, lemma_sjf_best_bounded, lemma_sjf_timing,
};

verus! {

/// The event `e` moved `d` ticks later.
pub open spec fn shift_event(e: SpecEvent, d: int) -> SpecEvent {
    match e {
        SpecEvent::Arrived { time, p } => SpecEvent::Arrived { time: time + d, p },
        SpecEvent::Finished { time, p } => SpecEvent::Finished { time: time + d, p },
        SpecEvent::SelectedPadded { time, p, burst } => SpecEvent::SelectedPadded { time: time + d, p, burst },
        SpecEvent::SelectedPlain { time, p, burst } => SpecEvent::SelectedPlain { time: time + d, p, burst },
        SpecEvent::SelectedFair { time, p, burst, vruntime } =>
            SpecEvent::SelectedFair { time: time + d, p, burst, vruntime },
        SpecEvent::Idle { time } => SpecEvent::Idle { time: time + d },
        SpecEvent::Unfinished { time, p } => SpecEvent::Unfinished { time: time + d, p },
    }
}

/// The log `ev` moved `d` ticks later.
pub open spec fn shift_events(ev: Seq<SpecEvent>, d: int) -> Seq<SpecEvent> {
    ev.map_values(|e: SpecEvent| shift_event(e, d))
}

/// The log of `d` idle ticks from tick 0.
pub open spec fn idle_ticks(d: nat) -> Seq<SpecEvent> {
    Seq::new(d, |j: int| SpecEvent::Idle { time: j })
}

/// `later` is the workload `ps` with every arrival `d` ticks later.
pub open spec fn delayed(ps: Seq<Process>, later: Seq<Process>, d: int) -> bool {
    &&& later.len() == ps.len()
    &&& forall|i: int| 0 <= i < ps.len() ==> {
        &&& (#[trigger] later[i]).name == ps[i].name
        &&& later[i].burst == ps[i].burst
        &&& later[i].arrival == ps[i].arrival + d
    }
}

/// `s2` is the state `s` seen `d` ticks later: the same progress, start and
/// completion ticks `d` later, and a log that is `d` idle ticks followed by
/// the log of `s` moved `d` ticks later.
pub open spec fn delayed_state(s: SjfState, s2: SjfState, d: int) -> bool {
    &&& s2.remaining == s.remaining
    &&& s2.started == s.started
    &&& s2.finished == s.finished
    &&& s2.running == s.running
    &&& s2.last_selected == s.last_selected
    &&& s2.start_time.len() == s.start_time.len()
    &&& s2.finish_time.len() == s.finish_time.len()
    &&& forall|i: int| 0 <= i < s.started.len() && s.started[i] ==> #[trigger] s2.start_time[i] == s.start_time[i] + d
    &&& forall|i: int| 0 <= i < s.finished.len() && s.finished[i] ==> #[trigger] s2.finish_time[i] == s.finish_time[i] + d
    &&& s2.events == idle_ticks(d as nat) + shift_events(s.events, d)
}

proof fn lemma_shift_push(pre: Seq<SpecEvent>, ev: Seq<SpecEvent>, e: SpecEvent, d: int)
    ensures
        (pre + shift_events(ev, d)).push(shift_event(e, d)) == pre + shift_events(ev.push(e), d),
{
    assert((pre + shift_events(ev, d)).push(shift_event(e, d)) =~= pre + shift_events(ev.push(e), d));
}

proof fn lemma_shift_arrivals(pre: Seq<SpecEvent>, ev: Seq<SpecEvent>, arr: Seq<int>, t: int, d: int)
    ensures
        pre + shift_events(ev, d) + arrival_events(arr, t + d) == pre + shift_events(ev + arrival_events(arr, t), d),
{
    assert(pre + shift_events(ev, d) + arrival_events(arr, t + d) =~= pre + shift_events(ev + arrival_events(arr, t), d));
}

/// The arrivals of tick `t + d` in the later workload are those of tick `t`.
proof fn lemma_arrivals_delayed(ps: Seq<Process>, later: Seq<Process>, d: int, t: int, k: nat)
    requires
        k <= ps.len(),
        delayed(ps, later, d),
    ensures
        arrivals_at(later, t + d, k) == arrivals_at(ps, t, k),
    decreases k,
{
    if k > 0 {
        lemma_arrivals_delayed(ps, later, d, t, (k - 1) as nat);
        assert(later[k - 1].arrival == ps[k - 1].arrival + d);
    }
}

/// No process arrives at a tick before every arrival.
proof fn lemma_no_arrivals(ps: Seq<Process>, t: int, k: nat)
    requires
        k <= ps.len(),
        forall|i: int| 0 <= i < ps.len() ==> #[trigger] ps[i].arrival > t,
    ensures
        arrivals_at(ps, t, k) == Seq::<int>::empty(),
    decreases k,
{
    if k > 0 {
        lemma_no_arrivals(ps, t, (k - 1) as nat);
        assert(ps[k - 1].arrival > t);
    }
}

/// The choice at tick `t + d` in the later workload is the choice at `t`.
proof fn lemma_best_delayed(ps: Seq<Process>, later: Seq<Process>, d: int, s: SjfState, s2: SjfState, t: int, k: nat)
    requires
        k <= ps.len(),
        delayed(ps, later, d),
        s2.remaining == s.remaining,
        s2.finished == s.finished,
    ensures
        sjf_best(later, s2, t + d, k) == sjf_best(ps, s, t, k),
    decreases k,
{
    if k > 0 {
        lemma_best_delayed(ps, later, d, s, s2, t, (k - 1) as nat);
        assert(later[k - 1].arrival == ps[k - 1].arrival + d);
        assert(sjf_eligible(later, s2, t + d, k - 1) == sjf_eligible(ps, s, t, k - 1));
        if let Some(bi) = sjf_best(ps, s, t, (k - 1) as nat) {
            lemma_sjf_best_bounded(ps, s, t, (k - 1) as nat);
            assert(later[bi].arrival == ps[bi].arrival + d);
        }
    }
}

/// Nothing is chosen at a tick before every arrival.
proof fn lemma_best_none(ps: Seq<Process>, s: SjfState, t: int, k: nat)
    requires
        k <= ps.len(),
        forall|i: int| 0 <= i < ps.len() ==> #[trigger] ps[i].arrival > t,
    ensures
        sjf_best(ps, s, t, k) is None,
    decreases k,
{
    if k > 0 {
        lemma_best_none(ps, s, t, (k - 1) as nat);
        assert(ps[k - 1].arrival > t);
    }
}

/// Before its first arrival the later workload only logs idle ticks.
proof fn lemma_idle_start(later: Seq<Process>, d: int, k: nat)
    requires
        k <= d,
        forall|i: int| 0 <= i < later.len() ==> #[trigger] later[i].arrival >= d,
    ensures
        sjf_run(later, k) == (SjfState { events: idle_ticks(k), ..sjf_init(later) }),
    decreases k,
{
    if k > 0 {
        lemma_idle_start(later, d, (k - 1) as nat);
        let t = k - 1;
        let s0 = sjf_run(later, (k - 1) as nat);
        assert forall|i: int| 0 <= i < later.len() implies #[trigger] later[i].arrival > t by {
            assert(later[i].arrival >= d);
        }
        lemma_no_arrivals(later, t, later.len());
        let s1 = sjf_arrive(later, s0, t);
        assert(s1.events =~= s0.events);
        assert(s1 == s0);
        let s2 = sjf_complete(s1, t);
        lemma_best_none(later, s2, t, later.len());
        assert(idle_ticks((k - 1) as nat).push(SpecEvent::Idle { time: t }) =~= idle_ticks(k));
    } else {
        assert(idle_ticks(0) =~= Seq::<SpecEvent>::empty());
    }
}

/// One completion check keeps the relation between the two runs.
proof fn lemma_complete_delayed(s: SjfState, s2: SjfState, d: int, t: int)
    requires
        delayed_state(s, s2, d),
        s.finish_time.len() == s.finished.len(),
        s.running matches Some(i) ==> 0 <= i < s.finished.len(),
    ensures
        delayed_state(sjf_complete(s, t), sjf_complete(s2, t + d), d),
{
    if let Some(idx) = s.running {
        if s.remaining[idx] == 0 {
            lemma_shift_push(idle_ticks(d as nat), s.events, SpecEvent::Finished { time: t, p: idx }, d);
            let c = sjf_complete(s, t);
            let c2 = sjf_complete(s2, t + d);
            assert forall|i: int| 0 <= i < c.finished.len() && c.finished[i] implies #[trigger] c2.finish_time[i] == c.finish_time[i] + d by {
                if i != idx {
                    assert(s.finished[i]);
                }
            }
        }
    }
}

/// One tick keeps the relation between the two runs.
proof fn lemma_tick_delayed(ps: Seq<Process>, later: Seq<Process>, d: int, s: SjfState, s2: SjfState, t: int)
    requires
        t >= 0,
        delayed(ps, later, d),
        sjf_wf(ps, s, t),
        delayed_state(s, s2, d),
    ensures
        delayed_state(sjf_tick(ps, s, t), sjf_tick(later, s2, t + d), d),
{
    let n = ps.len();
    let pre = idle_ticks(d as nat);
    lemma_arrivals_delayed(ps, later, d, t, n);
    lemma_shift_arrivals(pre, s.events, arrivals_at(ps, t, n), t, d);
    let a = sjf_arrive(ps, s, t);
    let a2 = sjf_arrive(later, s2, t + d);
    assert(delayed_state(a, a2, d));
    lemma_complete_delayed(a, a2, d, t);
    let c = sjf_complete(a, t);
    let c2 = sjf_complete(a2, t + d);
    lemma_best_delayed(ps, later, d, c, c2, t, n);
    lemma_sjf_best_bounded(ps, c, t, n);
    let r = sjf_run_tick(ps, c, t);
    let r2 = sjf_run_tick(later, c2, t + d);
    match sjf_best(ps, c, t, n) {
        Some(idx) => {
            if c.last_selected != Some(idx) {
                lemma_shift_push(pre, c.events, SpecEvent::SelectedPadded { time: t, p: idx, burst: c.remaining[idx] }, d);
            }
            assert forall|i: int| 0 <= i < r.started.len() && r.started[i] implies #[trigger] r2.start_time[i] == r.start_time[i] + d by {
                if i != idx {
                    assert(c.started[i]);
                }
            }
        },
        None => {
            lemma_shift_push(pre, c.events, SpecEvent::Idle { time: t }, d);
        },
    }
}

/// After `d + k` ticks the later workload is where `ps` is after `k`.
proof fn lemma_run_delayed(ps: Seq<Process>, later: Seq<Process>, d: int, k: nat)
    requires
        d >= 0,
        delayed(ps, later, d),
        forall|i: int| 0 <= i < ps.len() ==> #[trigger] ps[i].arrival >= 0,
    ensures
        delayed_state(sjf_run(ps, k), sjf_run(later, (d + k) as nat), d),
    decreases k,
{
    if k == 0 {
        assert forall|i: int| 0 <= i < later.len() implies #[trigger] later[i].arrival >= d by {
            assert(ps[i].arrival >= 0);
        }
        lemma_idle_start(later, d, d as nat);
        let s = sjf_init(ps);
        let s2 = sjf_run(later, d as nat);
        assert(s2.remaining =~= s.remaining);
        assert(s2.started =~= s.started);
        assert(s2.finished =~= s.finished);
        assert(s2.events =~= idle_ticks(d as nat) + shift_events(s.events, d));
    } else {
        lemma_run_delayed(ps, later, d, (k - 1) as nat);
        lemma_sjf_wf(ps, (k - 1) as nat);
        lemma_tick_delayed(ps, later, d, sjf_run(ps, (k - 1) as nat), sjf_run(later, (d + k - 1) as nat), k - 1);
    }
}

/// Delaying every arrival and the end of the run by `d` ticks only puts `d`
/// idle ticks in front of the log of shortest job first: the rest of the
/// log is the earlier log moved `d` ticks later, and every figure (wait,
/// turnaround, response) stays the same.
pub proof fn law_sjf_delay(ps: Seq<Process>, later: Seq<Process>, runfor: int, d: int)
    requires
        runfor >= 0,
        d >= 0,
        delayed(ps, later, d),
        forall|i: int| 0 <= i < ps.len() ==> #[trigger] ps[i].arrival >= 0,
    ensures
        sjf_outcome(later, runfor + d).events == idle_ticks(d as nat) + shift_events(sjf_outcome(ps, runfor).events, d),
        sjf_stats(later, sjf_outcome(later, runfor + d)) == sjf_stats(ps, sjf_outcome(ps, runfor)),
{
    let k = ticks(runfor);
    lemma_run_delayed(ps, later, d, k);
    lemma_sjf_wf(ps, k);
    lemma_sjf_timing(ps, k);
    assert(ticks(runfor + d) == (d + k) as nat);
    let s = sjf_run(ps, k);
    let s2 = sjf_run(later, (d + k) as nat);
    lemma_complete_delayed(s, s2, d, runfor);
    let f = sjf_outcome(ps, runfor);
    let f2 = sjf_outcome(later, runfor + d);
    assert(f.finished.len() == ps.len() && f.started.len() == ps.len());
    assert forall|i: int| 0 <= i < ps.len() implies #[trigger] sjf_row(later, f2, i) == sjf_row(ps, f, i) by {
        assert(later[i].arrival == ps[i].arrival + d);
        assert(later[i].burst == ps[i].burst);
        if f.finished[i] {
            assert(f2.finish_time[i] == f.finish_time[i] + d);
            if !s.finished[i] {
                assert(s.running == Some(i));
            }
            assert(s.started[i]);
        }
        if f.started[i] {
            assert(f2.start_time[i] == f.start_time[i] + d);
        }
    }
    assert(sjf_stats(later, f2) =~= sjf_stats(ps, f));
}

} // verus!
