//! The data behind the terminal view of a schedule: which process holds the
//! CPU at each tick, as read back from the log messages, and the colour
//! slot of each process name.

use vstd::prelude::*;
use crate::model::{Process, ScheduleResult, events_view};
use crate::text::{
    split_white, lemma_split_white, is_white, occurs, text_contains, text_chars, split_words, chars_eq,
    };

verus! {

/// The number of colours the view cycles through.
pub const COLOR_COUNT: usize = 5;

/// The last position `< k` of a process with the given name.
pub open spec fn name_owner(ps: Seq<Process>, name: Seq<char>, k: nat) -> Option<int>
    decreases k,
{
    if k == 0 {
        None
    } else if ps[k - 1].name@ == name {
        Some(k - 1)
    } else {
        name_owner(ps, name, (k - 1) as nat)
    }
}

/// The colour slot of a name: that of the last process bearing it.
pub open spec fn color_slot_of(ps: Seq<Process>, name: Seq<char>) -> Option<int> {
    match name_owner(ps, name, ps.len()) {
        Some(i) => Some(i % (COLOR_COUNT as int)),
        None => None,
    }
}

/// The colour slot of a name (`None` for a name no process bears).
pub fn color_slot(processes: &Vec<Process>, name: &Vec<char>) -> (r: Option<usize>)
    ensures
        match color_slot_of(processes@, name@) {
            Some(c) => r == Some(c as usize),
            None => r is None,
        },
{
    let mut i: usize = processes.len();
    while i > 0
        invariant
            i <= processes@.len(),
            name_owner(processes@, name@, processes@.len()) == name_owner(processes@, name@, i as nat),
        decreases i,
    {
        let own = text_chars(processes[i - 1].name.as_str());
        if chars_eq(&own, name) {
            return Some((i - 1) % COLOR_COUNT);
        }
        i = i - 1;
    }
    None
}

/// How a message moves the CPU holder: a message containing `selected`
/// hands it to its first word; one containing `finished`, or `Idle`,
/// frees it; others leave it.
pub open spec fn after_message(cur: Option<Seq<char>>, m: Seq<char>) -> Option<Seq<char>> {
    if occurs(m, "selected"@) {
        Some(split_white(m)[0])
    } else if occurs(m, "finished"@) || m == "Idle"@ {
        None
    } else {
        cur
    }
}

/// The holder after reading the first `k` log entries of tick `t`.
pub open spec fn scan_tick(cur: Option<Seq<char>>, ev: Seq<(int, Seq<char>)>, t: int, k: nat) -> Option<Seq<char>>
    decreases k,
{
    if k == 0 {
        cur
    } else {
        let prev = scan_tick(cur, ev, t, (k - 1) as nat);
        if ev[k - 1].0 == t {
            after_message(prev, ev[k - 1].1)
        } else {
            prev
        }
    }
}

/// The holder of the CPU at tick `t`.
pub open spec fn holder_at(ev: Seq<(int, Seq<char>)>, t: nat) -> Option<Seq<char>>
    decreases t,
{
    let before = if t == 0 { None } else { holder_at(ev, (t - 1) as nat) };
    scan_tick(before, ev, t as int, ev.len())
}

/// What the view shows at one tick: the colour slot of the holder and the
/// first character of its name.
pub struct Cell {
    pub color: Option<usize>,
    pub initial: char,
}

pub open spec fn cell_holds(c: Option<Cell>, ps: Seq<Process>, holder: Option<Seq<char>>) -> bool {
    match holder {
        None => c is None,
        Some(name) => c matches Some(cell) && cell.initial == name[0] && match color_slot_of(ps, name) {
            Some(k) => cell.color == Some(k as usize),
            None => cell.color is None,
        },
    }
}

proof fn lemma_selected_word(m: Seq<char>)
    requires
        occurs(m, "selected"@),
    ensures
        split_white(m).len() > 0,
        split_white(m)[0].len() > 0,
{
    reveal_strlit("selected");
    let k = choose|k: int| crate::text::occurs_at(m, "selected"@, k);
    assert(m.subrange(k, k + 8)[0] == 's');
    assert(!is_white(m[k]));
    lemma_split_white(m);
}

/// What each log entry does to the holder: whether it hands the CPU over
/// (and to which word), or frees it.
struct Actions {
    selects: Vec<bool>,
    clears: Vec<bool>,
    firsts: Vec<Vec<char>>,
}

spec fn firsts_ok(selects: Seq<bool>, firsts: Seq<Vec<char>>, ev: Seq<(int, Seq<char>)>, k: int) -> bool {
    forall|j: int| 0 <= j < k && #[trigger] selects[j] ==> split_white(ev[j].1).len() > 0 && firsts[j]@ == split_white(ev[j].1)[0] && firsts[j]@.len() > 0
}

spec fn actions_hold(a: Actions, ev: Seq<(int, Seq<char>)>) -> bool {
    &&& a.selects@.len() == ev.len()
    &&& a.clears@.len() == ev.len()
    &&& a.firsts@.len() == ev.len()
    &&& forall|j: int| 0 <= j < ev.len() ==> #[trigger] a.selects@[j] == occurs(ev[j].1, "selected"@)
    &&& forall|j: int| 0 <= j < ev.len() ==> #[trigger] a.clears@[j] == (occurs(ev[j].1, "finished"@) || ev[j].1 == "Idle"@)
    &&& firsts_ok(a.selects@, a.firsts@, ev, ev.len() as int)
}

fn entry_actions(result: &ScheduleResult) -> (a: Actions)
    ensures
        actions_hold(a, events_view(result.events@)),
{
    let ghost ev = events_view(result.events@);
    let n_ev = result.events.len();
    let sel_word = text_chars("selected");
    let fin_word = text_chars("finished");
    let idle_word = text_chars("Idle");
    let mut selects: Vec<bool> = Vec::new();
    let mut clears: Vec<bool> = Vec::new();
    let mut firsts: Vec<Vec<char>> = Vec::new();
    let mut k: usize = 0;
    while k < n_ev
        invariant
            0 <= k <= n_ev,
            n_ev == result.events@.len(),
            ev == events_view(result.events@),
            sel_word@ == "selected"@,
            fin_word@ == "finished"@,
            idle_word@ == "Idle"@,
            selects@.len() == k,
            clears@.len() == k,
            firsts@.len() == k,
            forall|j: int| 0 <= j < k ==> #[trigger] selects@[j] == occurs(ev[j].1, "selected"@),
            forall|j: int| 0 <= j < k ==> #[trigger] clears@[j] == (occurs(ev[j].1, "finished"@) || ev[j].1 == "Idle"@),
            firsts_ok(selects@, firsts@, ev, k as int),
        decreases n_ev - k,
    {
        let m = text_chars(result.events[k].message.as_str());
        assert(ev[k as int].1 == m@);
        let s = text_contains(&m, &sel_word);
        let c = text_contains(&m, &fin_word) || chars_eq(&m, &idle_word);
        let ghost old_f = firsts@;
        if s {
            proof {
                lemma_selected_word(m@);
            }
            let mut words = split_words(&m);
            assert(words@[0]@ == split_white(m@)[0]);
            let w = words.remove(0);
            firsts.push(w);
            assert(firsts@[k as int]@ == split_white(ev[k as int].1)[0]);
        } else {
            firsts.push(Vec::new());
        }
        let ghost old_sel = selects@;
        let ghost old_clr = clears@;
        selects.push(s);
        clears.push(c);
        assert forall|j: int| 0 <= j < k + 1 && #[trigger] selects@[j] implies split_white(ev[j].1).len() > 0
            && firsts@[j]@ == split_white(ev[j].1)[0] && firsts@[j]@.len() > 0 by {
            if j < k {
                assert(selects@[j] == old_sel[j]);
                assert(firsts@[j] == old_f[j]);
                assert(old_f[j]@ == firsts@[j]@);
                assert(old_sel[j] ==> old_f[j]@ == split_white(ev[j].1)[0]);
            }
        }
        assert forall|j: int| 0 <= j < k + 1 implies #[trigger] selects@[j] == occurs(ev[j].1, "selected"@) by {
            if j < k {
                assert(selects@[j] == old_sel[j]);
            }
        }
        assert forall|j: int| 0 <= j < k + 1 implies #[trigger] clears@[j] == (occurs(ev[j].1, "finished"@) || ev[j].1 == "Idle"@) by {
            if j < k {
                assert(clears@[j] == old_clr[j]);
            }
        }
        k = k + 1;
    }
    Actions { selects, clears, firsts }
}

fn cell_for(processes: &Vec<Process>, word: &Vec<char>) -> (c: Option<Cell>)
    requires
        word@.len() > 0,
    ensures
        cell_holds(c, processes@, Some(word@)),
{
    let color = color_slot(processes, word);
    Some(Cell { color, initial: word[0] })
}

/// Which process the log shows holding the CPU at each tick `0..run_for`.
pub fn graph_timeline(result: &ScheduleResult, processes: &Vec<Process>, run_for: i32) -> (cells: Vec<Option<Cell>>)
    requires
        run_for >= 0,
    ensures
        cells@.len() == run_for,
        forall|t: int| 0 <= t < run_for ==> cell_holds(#[trigger] cells@[t], processes@, holder_at(events_view(result.events@), t as nat)),
{
    let ghost ev = events_view(result.events@);
    let n_ev = result.events.len();
    let acts = entry_actions(result);
    let mut cells: Vec<Option<Cell>> = Vec::new();
    let mut holder: Option<usize> = None;
    let mut t: i32 = 0;
    while t < run_for
        invariant
            0 <= t <= run_for,
            n_ev == result.events@.len(),
            ev == events_view(result.events@),
            actions_hold(acts, ev),
            cells@.len() == t,
            forall|u: int| 0 <= u < t ==> cell_holds(#[trigger] cells@[u], processes@, holder_at(ev, u as nat)),
            match holder {
                Some(h) => h < n_ev && acts.selects@[h as int] && t > 0 && holder_at(ev, (t - 1) as nat) == Some(acts.firsts@[h as int]@),
                None => t > 0 ==> holder_at(ev, (t - 1) as nat) is None,
            },
        decreases run_for - t,
    {
        let ghost before: Option<Seq<char>> = if t == 0 { None } else { holder_at(ev, (t - 1) as nat) };
        let mut j: usize = 0;
        while j < n_ev
            invariant
                0 <= j <= n_ev,
                n_ev == result.events@.len(),
                ev == events_view(result.events@),
                actions_hold(acts, ev),
                match holder {
                    Some(h) => h < n_ev && acts.selects@[h as int] && scan_tick(before, ev, t as int, j as nat) == Some(acts.firsts@[h as int]@),
                    None => scan_tick(before, ev, t as int, j as nat) is None,
                },
            decreases n_ev - j,
        {
            assert(ev[j as int].0 == result.events@[j as int].time);
            if result.events[j].time == t {
                if acts.selects[j] {
                    holder = Some(j);
                } else if acts.clears[j] {
                    holder = None;
                }
            }
            j = j + 1;
        }
        let cell = match holder {
            Some(h) => cell_for(processes, &acts.firsts[h]),
            None => None,
        };
        assert(scan_tick(before, ev, t as int, n_ev as nat) == holder_at(ev, t as nat));
        cells.push(cell);
        t = t + 1;
    }
    cells
}

} // verus!
