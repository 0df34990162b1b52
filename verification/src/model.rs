//! The data the schedulers work on and produce, and the text of their log.

use vstd::prelude::*;
use crate::text::{decimal, decimal3, push_decimal, push_decimal3};

verus! {

/// A process of the workload: its name, the tick at which it arrives and the
/// number of ticks of CPU time it needs.
#[derive(Clone, Debug, PartialEq)]
pub struct Process {
    pub name: String,
    pub arrival: i32,
    pub burst: i32,
}

/// One line of the event log: the tick and the message.
#[derive(Debug, PartialEq)]
pub struct Event {
    pub time: i32,
    pub message: String,
}

/// Per-process figures of a schedule.
#[derive(Debug, PartialEq)]
pub struct ProcessStats {
    pub name: String,
    pub wait: i64,
    pub turnaround: i64,
    pub response: i64,
}

/// What a scheduler hands back: the log, the per-process figures, and the
/// tick at which the simulation stopped.
#[derive(Debug, PartialEq)]
pub struct ScheduleResult {
    pub events: Vec<Event>,
    pub stats: Vec<ProcessStats>,
    pub finish_time: i32,
}

/// An event of the log as a mathematical value; `p` is the index of the
/// process in the workload.
pub enum SpecEvent {
    Arrived { time: int, p: int },
    Finished { time: int, p: int },
    /// A selection logged with the burst right-aligned in three columns.
    SelectedPadded { time: int, p: int, burst: int },
    /// A selection logged with the burst as plain decimal.
    SelectedPlain { time: int, p: int, burst: int },
    /// A selection logged with the burst and the virtual runtime.
    SelectedFair { time: int, p: int, burst: int, vruntime: int },
    Idle { time: int },
    Unfinished { time: int, p: int },
}

/// A row of per-process figures as a mathematical value.
pub struct SpecStats {
    pub p: int,
    pub wait: int,
    pub turnaround: int,
    pub response: int,
}

pub open spec fn event_time(e: SpecEvent) -> int {
    match e {
        SpecEvent::Arrived { time, .. } => time,
        SpecEvent::Finished { time, .. } => time,
        SpecEvent::SelectedPadded { time, .. } => time,
        SpecEvent::SelectedPlain { time, .. } => time,
        SpecEvent::SelectedFair { time, .. } => time,
        SpecEvent::Idle { time } => time,
        SpecEvent::Unfinished { time, .. } => time,
    }
}

/// The process whose selection `e` logs at tick `t`, if `e` is a selection
/// at that tick.
pub open spec fn selection_at(e: SpecEvent, t: int) -> Option<int> {
    match e {
        SpecEvent::SelectedPadded { time, p, .. } => if time == t { Some(p) } else { None },
        SpecEvent::SelectedPlain { time, p, .. } => if time == t { Some(p) } else { None },
        SpecEvent::SelectedFair { time, p, .. } => if time == t { Some(p) } else { None },
        _ => None,
    }
}

/// The message that the log shows for an event.
pub open spec fn event_text(e: SpecEvent, ps: Seq<Process>) -> Seq<char> {
    match e {
        SpecEvent::Arrived { p, .. } => ps[p].name@ + " arrived"@,
        SpecEvent::Finished { p, .. } => ps[p].name@ + " finished"@,
        SpecEvent::SelectedPadded { p, burst, .. } =>
            ps[p].name@ + " selected (burst "@ + decimal3(burst) + ")"@,
        SpecEvent::SelectedPlain { p, burst, .. } =>
            ps[p].name@ + " selected (burst "@ + decimal(burst) + ")"@,
        SpecEvent::SelectedFair { p, burst, vruntime, .. } =>
            ps[p].name@ + " selected (burst "@ + decimal(burst) + ", vruntime "@ + decimal(vruntime)
                + ".00)"@,
        SpecEvent::Idle { .. } => "Idle"@,
        SpecEvent::Unfinished { p, .. } => ps[p].name@ + " did not finish"@,
    }
}

/// The log as (tick, message) pairs.
pub open spec fn events_view(ev: Seq<Event>) -> Seq<(int, Seq<char>)> {
    ev.map_values(|e: Event| (e.time as int, e.message@))
}

/// The (tick, message) pairs of a sequence of mathematical events.
pub open spec fn render_events(se: Seq<SpecEvent>, ps: Seq<Process>) -> Seq<(int, Seq<char>)> {
    se.map_values(|e: SpecEvent| (event_time(e), event_text(e, ps)))
}

/// The figures as (name, wait, turnaround, response).
pub open spec fn stats_view(st: Seq<ProcessStats>) -> Seq<(Seq<char>, int, int, int)> {
    st.map_values(|s: ProcessStats| (s.name@, s.wait as int, s.turnaround as int, s.response as int))
}

/// The (name, wait, turnaround, response) rows of mathematical figures.
pub open spec fn render_stats(ss: Seq<SpecStats>, ps: Seq<Process>) -> Seq<(Seq<char>, int, int, int)> {
    ss.map_values(|s: SpecStats| (ps[s.p].name@, s.wait, s.turnaround, s.response))
}

/// Indices `i < k` of the processes that arrive at tick `t`, in input order.
pub open spec fn arrivals_at(ps: Seq<Process>, t: int, k: nat) -> Seq<int>
    decreases k,
{
    if k == 0 {
        Seq::empty()
    } else {
        let prev = arrivals_at(ps, t, (k - 1) as nat);
        if ps[k - 1].arrival == t {
            prev.push(k - 1)
        } else {
            prev
        }
    }
}

/// The events that announce the arrivals `arr` at tick `t`.
pub open spec fn arrival_events(arr: Seq<int>, t: int) -> Seq<SpecEvent> {
    arr.map_values(|i: int| SpecEvent::Arrived { time: t, p: i })
}

pub proof fn lemma_arrivals_bounded(ps: Seq<Process>, t: int, k: nat)
    requires
        k <= ps.len(),
    ensures
        forall|j: int| 0 <= j < arrivals_at(ps, t, k).len() ==> 0 <= #[trigger] arrivals_at(ps, t, k)[j] < k,
        forall|j: int| 0 <= j < arrivals_at(ps, t, k).len() ==> ps[#[trigger] arrivals_at(ps, t, k)[j]].arrival == t,
        forall|a: int, b: int|
            0 <= a < b < arrivals_at(ps, t, k).len() ==> #[trigger] arrivals_at(ps, t, k)[a] < #[trigger] arrivals_at(ps, t, k)[b],
    decreases k,
{
    if k > 0 {
        lemma_arrivals_bounded(ps, t, (k - 1) as nat);
        let prev = arrivals_at(ps, t, (k - 1) as nat);
        let cur = arrivals_at(ps, t, k);
        assert forall|j: int| 0 <= j < cur.len() implies 0 <= #[trigger] cur[j] < k && ps[cur[j]].arrival == t by {
            if j < prev.len() {
                assert(cur[j] == prev[j]);
            }
        }
        assert forall|a: int, b: int| 0 <= a < b < cur.len() implies #[trigger] cur[a] < #[trigger] cur[b] by {
            assert(cur[a] == prev[a]);
            if b < prev.len() {
                assert(cur[b] == prev[b]);
            }
        }
    }
}

/// An exec vector of `i64` holds the integers of `s`.
pub open spec fn agree_i64(v: Seq<i64>, s: Seq<int>) -> bool {
    &&& v.len() == s.len()
    &&& forall|i: int| 0 <= i < v.len() ==> v[i] as int == #[trigger] s[i]
}

/// An exec vector of indices holds the integers of `s`.
pub open spec fn agree_idx(v: Seq<usize>, s: Seq<int>) -> bool {
    &&& v.len() == s.len()
    &&& forall|i: int| 0 <= i < v.len() ==> v[i] as int == #[trigger] s[i]
}

/// An exec optional index holds the optional integer `s`.
pub open spec fn agree_opt(o: Option<usize>, s: Option<int>) -> bool {
    match o {
        Some(i) => s == Some(i as int),
        None => s is None,
    }
}

pub proof fn lemma_render_push(se: Seq<SpecEvent>, e: SpecEvent, ps: Seq<Process>)
    ensures
        render_events(se.push(e), ps) == render_events(se, ps).push((event_time(e), event_text(e, ps))),
{
    assert(render_events(se.push(e), ps) =~= render_events(se, ps).push((event_time(e), event_text(e, ps))));
}

pub proof fn lemma_events_view_push(ev: Seq<Event>, e: Event)
    ensures
        events_view(ev.push(e)) == events_view(ev).push((e.time as int, e.message@)),
{
    assert(events_view(ev.push(e)) =~= events_view(ev).push((e.time as int, e.message@)));
}

pub proof fn lemma_render_stats_push(ss: Seq<SpecStats>, s: SpecStats, ps: Seq<Process>)
    ensures
        render_stats(ss.push(s), ps) == render_stats(ss, ps).push((ps[s.p].name@, s.wait, s.turnaround, s.response)),
{
    assert(render_stats(ss.push(s), ps) =~= render_stats(ss, ps).push((ps[s.p].name@, s.wait, s.turnaround, s.response)));
}

pub proof fn lemma_stats_view_push(st: Seq<ProcessStats>, s: ProcessStats)
    ensures
        stats_view(st.push(s)) == stats_view(st).push((s.name@, s.wait as int, s.turnaround as int, s.response as int)),
{
    assert(stats_view(st.push(s)) =~= stats_view(st).push((s.name@, s.wait as int, s.turnaround as int, s.response as int)));
}

pub proof fn lemma_contains_concat(a: Seq<int>, b: Seq<int>, x: int)
    ensures
        (a + b).contains(x) <==> (a.contains(x) || b.contains(x)),
{
    if (a + b).contains(x) {
        let j = choose|j: int| 0 <= j < (a + b).len() && (a + b)[j] == x;
        if j >= a.len() {
            assert(b[j - a.len()] == x);
        }
    }
    if a.contains(x) {
        let j = choose|j: int| 0 <= j < a.len() && a[j] == x;
        assert((a + b)[j] == x);
    }
    if b.contains(x) {
        let j = choose|j: int| 0 <= j < b.len() && b[j] == x;
        assert((a + b)[j + a.len()] == x);
    }
}

pub proof fn lemma_contains_push(a: Seq<int>, y: int, x: int)
    ensures
        a.push(y).contains(x) <==> (a.contains(x) || x == y),
{
    if a.push(y).contains(x) {
        let j = choose|j: int| 0 <= j < a.push(y).len() && a.push(y)[j] == x;
        if j < a.len() {
            assert(a[j] == x);
        }
    }
    if a.contains(x) {
        let j = choose|j: int| 0 <= j < a.len() && a[j] == x;
        assert(a.push(y)[j] == x);
    }
    if x == y {
        assert(a.push(y)[a.len() as int] == x);
    }
}

/// Removing position `p` of a sequence without repeats removes exactly that element.
pub proof fn lemma_contains_remove(a: Seq<int>, p: int, x: int)
    requires
        0 <= p < a.len(),
        forall|u: int, v: int| 0 <= u < v < a.len() ==> a[u] != a[v],
    ensures
        a.remove(p).contains(x) <==> (a.contains(x) && x != a[p]),
{
    let r = a.remove(p);
    if r.contains(x) {
        let j = choose|j: int| 0 <= j < r.len() && r[j] == x;
        if j < p {
            assert(a[j] == x);
        } else {
            assert(a[j + 1] == x);
        }
    }
    if a.contains(x) && x != a[p] {
        let j = choose|j: int| 0 <= j < a.len() && a[j] == x;
        if j < p {
            assert(r[j] == x);
        } else {
            assert(j != p);
            assert(r[j - 1] == x);
        }
    }
}

/// The events are in order of time.
pub open spec fn in_time_order(ev: Seq<SpecEvent>) -> bool {
    forall|a: int, b: int| 0 <= a < b < ev.len() ==> event_time(#[trigger] ev[a]) <= event_time(#[trigger] ev[b])
}

/// In time order, and every event before tick `t`.
pub open spec fn logged_before(ev: Seq<SpecEvent>, t: int) -> bool {
    &&& in_time_order(ev)
    &&& forall|j: int| 0 <= j < ev.len() ==> event_time(#[trigger] ev[j]) < t
}

/// `new` is `old` followed by events at tick `t`.
pub open spec fn extends_at(old: Seq<SpecEvent>, new: Seq<SpecEvent>, t: int) -> bool {
    &&& old.len() <= new.len()
    &&& new.take(old.len() as int) == old
    &&& forall|j: int| old.len() <= j < new.len() ==> event_time(#[trigger] new[j]) == t
}

pub proof fn lemma_extends_refl(ev: Seq<SpecEvent>, t: int)
    ensures
        extends_at(ev, ev, t),
{
    assert(ev.take(ev.len() as int) =~= ev);
}

pub proof fn lemma_extends_push(ev: Seq<SpecEvent>, e: SpecEvent, t: int)
    requires
        event_time(e) == t,
    ensures
        extends_at(ev, ev.push(e), t),
{
    assert(ev.push(e).take(ev.len() as int) =~= ev);
}

/// A completion check at `t` logs at most one entry, at `t`: the running
/// process, when it has no work left.
pub proof fn lemma_close_log(events: Seq<SpecEvent>, remaining: Seq<int>, current: Option<int>, t: int)
    ensures
        extends_at(
            events,
            match current {
                Some(idx) => if remaining[idx] == 0 {
                    events.push(SpecEvent::Finished { time: t, p: idx })
                } else {
                    events
                },
                None => events,
            },
            t,
        ),
{
    match current {
        Some(idx) => if remaining[idx] == 0 {
            lemma_extends_push(events, SpecEvent::Finished { time: t, p: idx }, t);
        } else {
            lemma_extends_refl(events, t);
        },
        None => lemma_extends_refl(events, t),
    }
}

pub proof fn lemma_extends_arrivals(ev: Seq<SpecEvent>, arr: Seq<int>, t: int)
    ensures
        extends_at(ev, ev + arrival_events(arr, t), t),
{
    assert((ev + arrival_events(arr, t)).take(ev.len() as int) =~= ev);
    assert forall|j: int| ev.len() <= j < (ev + arrival_events(arr, t)).len() implies event_time(#[trigger] (ev + arrival_events(arr, t))[j]) == t by {
        assert((ev + arrival_events(arr, t))[j] == arrival_events(arr, t)[j - ev.len()]);
    }
}

pub proof fn lemma_extends_trans(a: Seq<SpecEvent>, b: Seq<SpecEvent>, c: Seq<SpecEvent>, t: int)
    requires
        extends_at(a, b, t),
        extends_at(b, c, t),
    ensures
        extends_at(a, c, t),
{
    assert(c.take(a.len() as int) =~= b.take(a.len() as int));
    assert forall|j: int| a.len() <= j < c.len() implies event_time(#[trigger] c[j]) == t by {
        if j < b.len() {
            assert(c[j] == c.take(b.len() as int)[j]);
            assert(b[j] == c[j]);
        }
    }
}

/// A tick's events keep the log in order.
pub proof fn lemma_logged_tick(old: Seq<SpecEvent>, new: Seq<SpecEvent>, t: int)
    requires
        logged_before(old, t),
        extends_at(old, new, t),
    ensures
        logged_before(new, t + 1),
{
    assert forall|j: int| 0 <= j < old.len() implies new[j] == #[trigger] old[j] by {
        assert(new.take(old.len() as int)[j] == new[j]);
    }
    assert forall|a: int, b: int| 0 <= a < b < new.len() implies event_time(#[trigger] new[a]) <= event_time(#[trigger] new[b]) by {
        if b < old.len() {
            assert(new[a] == old[a] && new[b] == old[b]);
        } else if a < old.len() {
            assert(new[a] == old[a]);
        }
    }
    assert forall|j: int| 0 <= j < new.len() implies event_time(#[trigger] new[j]) < t + 1 by {
        if j < old.len() {
            assert(new[j] == old[j]);
        }
    }
}

/// Events at a tick no earlier than every logged one keep the log in order.
pub proof fn lemma_logged_close(old: Seq<SpecEvent>, new: Seq<SpecEvent>, t: int, u: int)
    requires
        logged_before(old, t),
        t <= u,
        extends_at(old, new, u),
    ensures
        in_time_order(new),
{
    assert forall|j: int| 0 <= j < old.len() implies new[j] == #[trigger] old[j] by {
        assert(new.take(old.len() as int)[j] == new[j]);
    }
    assert forall|a: int, b: int| 0 <= a < b < new.len() implies event_time(#[trigger] new[a]) <= event_time(#[trigger] new[b]) by {
        if b < old.len() {
            assert(new[a] == old[a] && new[b] == old[b]);
        } else if a < old.len() {
            assert(new[a] == old[a]);
        }
    }
}

/// The number of idle ticks in a log.
pub open spec fn idle_count(ev: Seq<SpecEvent>) -> nat
    decreases ev.len(),
{
    if ev.len() == 0 {
        0
    } else {
        idle_count(ev.drop_last()) + if ev.last() is Idle { 1nat } else { 0nat }
    }
}

/// The CPU time the first `k` processes have received: burst minus remaining work.
pub open spec fn work_done(ps: Seq<Process>, remaining: Seq<int>, k: nat) -> int
    decreases k,
{
    if k == 0 {
        0
    } else {
        work_done(ps, remaining, (k - 1) as nat) + (ps[k - 1].burst - remaining[k - 1])
    }
}

pub proof fn lemma_idle_push(ev: Seq<SpecEvent>, e: SpecEvent)
    ensures
        idle_count(ev.push(e)) == idle_count(ev) + if e is Idle { 1nat } else { 0nat },
{
    assert(ev.push(e).drop_last() =~= ev);
}

pub proof fn lemma_idle_arrivals(ev: Seq<SpecEvent>, arr: Seq<int>, t: int)
    ensures
        idle_count(ev + arrival_events(arr, t)) == idle_count(ev),
    decreases arr.len(),
{
    if arr.len() > 0 {
        let shorter = arr.drop_last();
        lemma_idle_arrivals(ev, shorter, t);
        assert((ev + arrival_events(arr, t)).drop_last() =~= ev + arrival_events(shorter, t));
    } else {
        assert(ev + arrival_events(arr, t) =~= ev);
    }
}

pub proof fn lemma_work_step(ps: Seq<Process>, remaining: Seq<int>, idx: int, k: nat)
    requires
        0 <= idx < remaining.len(),
        k <= remaining.len(),
    ensures
        work_done(ps, remaining.update(idx, remaining[idx] - 1), k) == work_done(ps, remaining, k) + if idx < k { 1int } else { 0int },
    decreases k,
{
    if k > 0 {
        lemma_work_step(ps, remaining, idx, (k - 1) as nat);
    }
}

pub proof fn lemma_work_zero(ps: Seq<Process>, remaining: Seq<int>, k: nat)
    requires
        k <= ps.len(),
        k <= remaining.len(),
        forall|i: int| 0 <= i < k ==> remaining[i] == ps[i].burst,
    ensures
        work_done(ps, remaining, k) == 0,
    decreases k,
{
    if k > 0 {
        lemma_work_zero(ps, remaining, (k - 1) as nat);
    }
}

/// The log entry for an arrival.
pub fn arrived_event(time: i32, name: &String) -> (e: Event)
    ensures
        e.time == time,
        e.message@ == name@ + " arrived"@,
{
    let mut m = name.clone();
    m.append(" arrived");
    Event { time, message: m }
}

/// The log entry for a completion.
pub fn finished_event(time: i32, name: &String) -> (e: Event)
    ensures
        e.time == time,
        e.message@ == name@ + " finished"@,
{
    let mut m = name.clone();
    m.append(" finished");
    Event { time, message: m }
}

/// The log entry for a process that was still unfinished when the simulation stopped.
pub fn unfinished_event(time: i32, name: &String) -> (e: Event)
    ensures
        e.time == time,
        e.message@ == name@ + " did not finish"@,
{
    let mut m = name.clone();
    m.append(" did not finish");
    Event { time, message: m }
}

/// The log entry for an idle tick.
pub fn idle_event(time: i32) -> (e: Event)
    ensures
        e.time == time,
        e.message@ == "Idle"@,
{
    Event { time, message: String::from_str("Idle") }
}

/// The log entry for a selection, with the burst in three columns.
pub fn selected_padded_event(time: i32, name: &String, burst: i64) -> (e: Event)
    ensures
        e.time == time,
        e.message@ == name@ + " selected (burst "@ + decimal3(burst as int) + ")"@,
{
    let mut m = name.clone();
    m.append(" selected (burst ");
    push_decimal3(&mut m, burst);
    m.append(")");
    Event { time, message: m }
}

/// The log entry for a selection, with the burst as plain decimal.
pub fn selected_plain_event(time: i32, name: &String, burst: i64) -> (e: Event)
    ensures
        e.time == time,
        e.message@ == name@ + " selected (burst "@ + decimal(burst as int) + ")"@,
{
    let mut m = name.clone();
    m.append(" selected (burst ");
    push_decimal(&mut m, burst);
    m.append(")");
    Event { time, message: m }
}

/// The log entry for a selection, with the burst and the virtual runtime.
pub fn selected_fair_event(time: i32, name: &String, burst: i64, vruntime: i64) -> (e: Event)
    ensures
        e.time == time,
        e.message@ == name@ + " selected (burst "@ + decimal(burst as int) + ", vruntime "@
            + decimal(vruntime as int) + ".00)"@,
{
    let mut m = name.clone();
    m.append(" selected (burst ");
    push_decimal(&mut m, burst);
    m.append(", vruntime ");
    push_decimal(&mut m, vruntime);
    m.append(".00)");
    Event { time, message: m }
}

/// The row of figures of one process.
pub fn stats_row(name: &String, wait: i64, turnaround: i64, response: i64) -> (s: ProcessStats)
    ensures
        s.name@ == name@,
        s.wait == wait,
        s.turnaround == turnaround,
        s.response == response,
{
    ProcessStats { name: name.clone(), wait, turnaround, response }
}

} // verus!
