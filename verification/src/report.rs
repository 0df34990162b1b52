//! The text of the output file, and its name.

use vstd::prelude::*;
use crate::model::{ScheduleResult, Event, ProcessStats, events_view, stats_view};
use crate::text::{decimal, decimal3, push_decimal, push_decimal3, text_chars, string_of};

verus! {

/// The lines naming the policy (none for a policy number other than 0, 1, 2).
pub open spec fn policy_text(use_alg: int, quantum: int) -> Seq<char> {
    if use_alg == 0 {
        "Using First-Come First-Served\n"@
    } else if use_alg == 1 {
        "Using preemptive Shortest Job First\n"@
    } else if use_alg == 2 {
        "Using Round-Robin\n"@ + "Quantum "@ + decimal(quantum) + "\n"@
    } else {
        Seq::empty()
    }
}

/// One line of the event log.
pub open spec fn event_line(e: (int, Seq<char>)) -> Seq<char> {
    "Time "@ + decimal3(e.0) + " : "@ + e.1 + "\n"@
}

/// The event log, one line per event.
pub open spec fn event_lines(ev: Seq<(int, Seq<char>)>) -> Seq<char>
    decreases ev.len(),
{
    if ev.len() == 0 {
        Seq::empty()
    } else {
        event_lines(ev.drop_last()) + event_line(ev.last())
    }
}

/// One line of figures.
pub open spec fn stats_line(s: (Seq<char>, int, int, int)) -> Seq<char> {
    s.0 + " wait "@ + decimal3(s.1) + " turnaround "@ + decimal3(s.2) + " response "@ + decimal3(s.3)
        + "\n"@
}

/// The figures, one line per process.
pub open spec fn stats_lines(st: Seq<(Seq<char>, int, int, int)>) -> Seq<char>
    decreases st.len(),
{
    if st.len() == 0 {
        Seq::empty()
    } else {
        stats_lines(st.drop_last()) + stats_line(st.last())
    }
}

/// The whole output file.
pub open spec fn report_text(
    processcount: int,
    use_alg: int,
    quantum: int,
    events: Seq<(int, Seq<char>)>,
    finish_time: int,
    stats: Seq<(Seq<char>, int, int, int)>,
) -> Seq<char> {
    decimal3(processcount) + " processes\n"@ + policy_text(use_alg, quantum) + "\n"@ + event_lines(events)
        + "Finished at time "@ + decimal3(finish_time) + "\n"@ + "\n"@ + stats_lines(stats)
}

/// The part of a report before its figures.
pub open spec fn report_head(
    processcount: int,
    use_alg: int,
    quantum: int,
    events: Seq<(int, Seq<char>)>,
    finish_time: int,
) -> Seq<char> {
    decimal3(processcount) + " processes\n"@ + policy_text(use_alg, quantum) + "\n"@ + event_lines(events)
        + "Finished at time "@ + decimal3(finish_time) + "\n"@ + "\n"@
}

proof fn lemma_assoc(a: Seq<char>, b: Seq<char>, c: Seq<char>)
    ensures
        a + (b + c) == a + b + c,
{
    assert(a + (b + c) =~= a + b + c);
}

proof fn lemma_chain(r: Seq<char>, a: Seq<char>, b: Seq<char>, c: Seq<char>, d: Seq<char>, e: Seq<char>, f: Seq<char>, g: Seq<char>)
    ensures
        r + (a + b + c + d + e + f + g) == r + a + b + c + d + e + f + g,
{
    assert(r + (a + b + c + d + e + f + g) =~= r + a + b + c + d + e + f + g);
}

proof fn lemma_report_split(
    processcount: int,
    use_alg: int,
    quantum: int,
    events: Seq<(int, Seq<char>)>,
    finish_time: int,
    stats: Seq<(Seq<char>, int, int, int)>,
)
    ensures
        report_text(processcount, use_alg, quantum, events, finish_time, stats)
            == report_head(processcount, use_alg, quantum, events, finish_time) + stats_lines(stats),
{
}

/// The figures of a report have one line per row, in order: adding a row
/// to the figures adds exactly that row's line at the end of the report,
/// whatever the row holds.
pub proof fn law_report_one_line_per_row(
    processcount: int,
    use_alg: int,
    quantum: int,
    events: Seq<(int, Seq<char>)>,
    finish_time: int,
    stats: Seq<(Seq<char>, int, int, int)>,
    row: (Seq<char>, int, int, int),
)
    ensures
        report_text(processcount, use_alg, quantum, events, finish_time, stats.push(row))
            == report_text(processcount, use_alg, quantum, events, finish_time, stats) + row.0 + " wait "@
            + decimal3(row.1) + " turnaround "@ + decimal3(row.2) + " response "@ + decimal3(row.3) + "\n"@,
{
    let h = report_head(processcount, use_alg, quantum, events, finish_time);
    lemma_report_split(processcount, use_alg, quantum, events, finish_time, stats.push(row));
    lemma_report_split(processcount, use_alg, quantum, events, finish_time, stats);
    assert(stats.push(row).drop_last() =~= stats);
    assert(stats_lines(stats.push(row)) == stats_lines(stats) + stats_line(row));
    lemma_assoc(h, stats_lines(stats), stats_line(row));
    lemma_chain(h + stats_lines(stats), row.0, " wait "@, decimal3(row.1), " turnaround "@, decimal3(row.2), " response "@,
        decimal3(row.3) + "\n"@);
    assert(h + stats_lines(stats) + row.0 + " wait "@ + decimal3(row.1) + " turnaround "@ + decimal3(row.2) + " response "@
        + (decimal3(row.3) + "\n"@) =~= h + stats_lines(stats) + row.0 + " wait "@ + decimal3(row.1) + " turnaround "@
        + decimal3(row.2) + " response "@ + decimal3(row.3) + "\n"@);
}

/// Without figures, a report ends with the line giving the finishing tick
/// and a blank line.
pub proof fn law_report_ends_with_finish_line(
    processcount: int,
    use_alg: int,
    quantum: int,
    events: Seq<(int, Seq<char>)>,
    finish_time: int,
)
    ensures
        ({
            let r = report_text(processcount, use_alg, quantum, events, finish_time, Seq::empty());
            let tail = "Finished at time "@ + decimal3(finish_time) + "\n"@ + "\n"@;
            &&& tail.len() <= r.len()
            &&& r.skip(r.len() - tail.len()) == tail
        }),
{
    let r = report_text(processcount, use_alg, quantum, events, finish_time, Seq::empty());
    let tail = "Finished at time "@ + decimal3(finish_time) + "\n"@ + "\n"@;
    let head = decimal3(processcount) + " processes\n"@ + policy_text(use_alg, quantum) + "\n"@ + event_lines(events);
    assert(r =~= head + tail);
    assert(r.skip(r.len() - tail.len()) =~= tail);
}

/// The log of a report has one line per event, in order, just before the
/// line giving the finishing tick: adding an event to the log adds exactly
/// its line there, and leaves the rest of the report as it was.
pub proof fn law_report_one_line_per_event(
    processcount: int,
    use_alg: int,
    quantum: int,
    events: Seq<(int, Seq<char>)>,
    finish_time: int,
    stats: Seq<(Seq<char>, int, int, int)>,
    e: (int, Seq<char>),
)
    ensures
        ({
            let r = report_text(processcount, use_alg, quantum, events, finish_time, stats);
            let m = report_text(processcount, use_alg, quantum, events, finish_time, Seq::empty()).len()
                - ("Finished at time "@ + decimal3(finish_time) + "\n"@ + "\n"@).len();
            &&& 0 <= m <= r.len()
            &&& report_text(processcount, use_alg, quantum, events.push(e), finish_time, stats)
                == r.take(m) + ("Time "@ + decimal3(e.0) + " : "@ + e.1 + "\n"@) + r.skip(m)
        }),
{
    let a = decimal3(processcount) + " processes\n"@ + policy_text(use_alg, quantum) + "\n"@;
    let f = "Finished at time "@ + decimal3(finish_time) + "\n"@ + "\n"@;
    let line = "Time "@ + decimal3(e.0) + " : "@ + e.1 + "\n"@;
    let el = event_lines(events);
    let sl = stats_lines(stats);
    assert(events.push(e).drop_last() =~= events);
    assert(event_lines(events.push(e)) == el + event_line(e));
    assert(event_line(e) =~= line);
    lemma_report_split(processcount, use_alg, quantum, events, finish_time, stats);
    lemma_report_split(processcount, use_alg, quantum, events, finish_time, Seq::empty());
    lemma_report_split(processcount, use_alg, quantum, events.push(e), finish_time, stats);
    lemma_head_parts(processcount, use_alg, quantum, events, finish_time);
    lemma_head_parts(processcount, use_alg, quantum, events.push(e), finish_time);
    assert(stats_lines(Seq::<(Seq<char>, int, int, int)>::empty()) =~= Seq::<char>::empty());
    let r = a + el + f + sl;
    assert(report_text(processcount, use_alg, quantum, events, finish_time, Seq::empty()) =~= a + el + f);
    assert(r.take((a + el).len() as int) =~= a + el);
    assert(r.skip((a + el).len() as int) =~= f + sl);
    assert(a + (el + line) + f + sl =~= (a + el) + line + (f + sl));
}

/// The part of a report before its figures: the heading, the log, and the
/// line giving the finishing tick.
proof fn lemma_head_parts(
    processcount: int,
    use_alg: int,
    quantum: int,
    events: Seq<(int, Seq<char>)>,
    finish_time: int,
)
    ensures
        report_head(processcount, use_alg, quantum, events, finish_time)
            == (decimal3(processcount) + " processes\n"@ + policy_text(use_alg, quantum) + "\n"@) + event_lines(events)
                + ("Finished at time "@ + decimal3(finish_time) + "\n"@ + "\n"@),
{
    let a = decimal3(processcount) + " processes\n"@ + policy_text(use_alg, quantum) + "\n"@;
    let f1 = "Finished at time "@;
    let f2 = decimal3(finish_time);
    assert((a + event_lines(events)) + (f1 + f2 + "\n"@ + "\n"@) =~= a + event_lines(events) + f1 + f2 + "\n"@ + "\n"@);
}

fn event_line_text(e: &Event) -> (line: String)
    ensures
        line@ == event_line((e.time as int, e.message@)),
{
    let mut line = String::new();
    line.append("Time ");
    push_decimal3(&mut line, e.time as i64);
    line.append(" : ");
    line.append(e.message.as_str());
    line.append("\n");
    assert(line@ =~= event_line((e.time as int, e.message@)));
    line
}

fn stats_line_text(s: &ProcessStats) -> (line: String)
    ensures
        line@ == stats_line((s.name@, s.wait as int, s.turnaround as int, s.response as int)),
{
    let mut line = String::new();
    line.append(s.name.as_str());
    line.append(" wait ");
    push_decimal3(&mut line, s.wait);
    line.append(" turnaround ");
    push_decimal3(&mut line, s.turnaround);
    line.append(" response ");
    push_decimal3(&mut line, s.response);
    line.append("\n");
    assert(line@ =~= stats_line((s.name@, s.wait as int, s.turnaround as int, s.response as int)));
    line
}

/// The text of the output file for a schedule.
pub fn render_report(processcount: i32, use_alg: i32, quantum: i32, result: &ScheduleResult) -> (out: String)
    ensures
        out@ == report_text(
            processcount as int,
            use_alg as int,
            quantum as int,
            events_view(result.events@),
            result.finish_time as int,
            stats_view(result.stats@),
        ),
{
    let mut out = String::new();
    push_decimal3(&mut out, processcount as i64);
    out.append(" processes\n");
    if use_alg == 0 {
        out.append("Using First-Come First-Served\n");
    } else if use_alg == 1 {
        out.append("Using preemptive Shortest Job First\n");
    } else if use_alg == 2 {
        out.append("Using Round-Robin\n");
        out.append("Quantum ");
        push_decimal(&mut out, quantum as i64);
        out.append("\n");
    }
    out.append("\n");
    let ghost head = out@;
    assert(head =~= decimal3(processcount as int) + " processes\n"@ + policy_text(use_alg as int, quantum as int) + "\n"@);
    let ghost ev = events_view(result.events@);
    let mut i: usize = 0;
    assert(ev.take(0) =~= Seq::<(int, Seq<char>)>::empty());
    while i < result.events.len()
        invariant
            0 <= i <= result.events@.len(),
            ev == events_view(result.events@),
            out@ == head + event_lines(ev.take(i as int)),
        decreases result.events@.len() - i,
    {
        let e = &result.events[i];
        let line = event_line_text(e);
        out.append(line.as_str());
        assert(ev.take(i + 1).drop_last() =~= ev.take(i as int));
        assert(ev.take(i + 1).last() == (e.time as int, e.message@));
        assert(out@ =~= head + event_lines(ev.take(i + 1)));
        i = i + 1;
    }
    assert(ev.take(ev.len() as int) =~= ev);
    out.append("Finished at time ");
    push_decimal3(&mut out, result.finish_time as i64);
    out.append("\n");
    out.append("\n");
    let ghost mid = out@;
    let ghost st = stats_view(result.stats@);
    let mut j: usize = 0;
    assert(st.take(0) =~= Seq::<(Seq<char>, int, int, int)>::empty());
    assert(mid =~= mid + stats_lines(st.take(0)));
    while j < result.stats.len()
        invariant
            0 <= j <= result.stats@.len(),
            st == stats_view(result.stats@),
            out@ == mid + stats_lines(st.take(j as int)),
        decreases result.stats@.len() - j,
    {
        let s = &result.stats[j];
        let line = stats_line_text(s);
        out.append(line.as_str());
        assert(st.take(j + 1).drop_last() =~= st.take(j as int));
        assert(st.take(j + 1).last() == (s.name@, s.wait as int, s.turnaround as int, s.response as int));
        assert(out@ =~= mid + stats_lines(st.take(j + 1)));
        j = j + 1;
    }
    assert(st.take(st.len() as int) =~= st);
    assert(out@ =~= report_text(
        processcount as int,
        use_alg as int,
        quantum as int,
        ev,
        result.finish_time as int,
        st,
    ));
    out
}

/// `s` with every trailing `.in` removed, as `trim_end_matches(".in")` does.
pub open spec fn strip_in(s: Seq<char>) -> Seq<char>
    decreases s.len(),
{
    if s.len() >= 3 && s[s.len() - 3] == '.' && s[s.len() - 2] == 'i' && s[s.len() - 1] == 'n' {
        strip_in(s.take(s.len() - 3))
    } else {
        s
    }
}

/// The output file for an input file: trailing `.in` removed, `.out` added.
pub fn output_file_name(input: &str) -> (out: String)
    ensures
        out@ == strip_in(input@) + ".out"@,
{
    let chars = text_chars(input);
    let mut end: usize = chars.len();
    assert(chars@.take(end as int) =~= input@);
    while end >= 3 && chars[end - 3] == '.' && chars[end - 2] == 'i' && chars[end - 1] == 'n'
        invariant
            end <= chars@.len(),
            strip_in(chars@.take(end as int)) == strip_in(input@),
            chars@ == input@,
        decreases end,
    {
        assert(chars@.take(end as int).take(end - 3) =~= chars@.take(end - 3));
        end = end - 3;
    }
    let mut kept: Vec<char> = Vec::new();
    let mut i: usize = 0;
    while i < end
        invariant
            0 <= i <= end <= chars@.len(),
            kept@ == chars@.take(i as int),
        decreases end - i,
    {
        kept.push(chars[i]);
        assert(chars@.take(i + 1) =~= chars@.take(i as int).push(chars@[i as int]));
        i = i + 1;
    }
    assert(chars@.take(end as int) =~= input@.take(end as int));
    assert(strip_in(kept@) == kept@);
    let mut out = string_of(&kept);
    out.append(".out");
    out
}

} // verus!
