use scheduler::fcfs::first_in_first_out;
use scheduler::graph::{color_slot, graph_timeline, Cell};
use scheduler::model::{Event, Process, ScheduleResult};
use scheduler::text::text_contains;

fn proc_(name: &str, arrival: i32, burst: i32) -> Process {
    Process { name: name.to_string(), arrival, burst }
}

fn view(cells: &Vec<Option<Cell>>) -> Vec<Option<(Option<usize>, char)>> {
    cells.iter().map(|c| c.as_ref().map(|c| (c.color, c.initial))).collect()
}

fn chars(s: &str) -> Vec<char> {
    s.chars().collect()
}

#[test]
fn graph_fcfs_timeline() {
    let ps = vec![proc_("A", 0, 3), proc_("B", 1, 2)];
    let r = first_in_first_out([2, 7, 0, 0], &ps);
    let cells = graph_timeline(&r, &ps, 7);
    assert_eq!(
        view(&cells),
        vec![
            Some((Some(0), 'A')),
            Some((Some(0), 'A')),
            Some((Some(0), 'A')),
            Some((Some(1), 'B')),
            Some((Some(1), 'B')),
            None,
            None,
        ]
    );
}

#[test]
fn graph_reads_messages_literally() {
    let ps = vec![proc_("unselected", 0, 1)];
    let r = ScheduleResult {
        events: vec![
            Event { time: 0, message: "unselected arrived".to_string() },
            Event { time: 2, message: "ghost selected (burst 1)".to_string() },
            Event { time: 3, message: "Idle".to_string() },
        ],
        stats: Vec::new(),
        finish_time: 4,
    };
    let cells = graph_timeline(&r, &ps, 4);
    assert_eq!(view(&cells), vec![Some((Some(0), 'u')), Some((Some(0), 'u')), Some((None, 'g')), None]);
}

#[test]
fn graph_zero_ticks() {
    let ps = vec![proc_("A", 0, 1)];
    let r = first_in_first_out([1, 0, 0, 0], &ps);
    assert!(graph_timeline(&r, &ps, 0).is_empty());
}

#[test]
fn graph_color_of_last_bearer() {
    let ps: Vec<Process> = ["a", "b", "c", "d", "e", "f", "g", "a"].iter().map(|n| proc_(n, 0, 1)).collect();
    assert_eq!(color_slot(&ps, &chars("g")), Some(1));
    assert_eq!(color_slot(&ps, &chars("a")), Some(2));
    assert_eq!(color_slot(&ps, &chars("b")), Some(1));
    assert_eq!(color_slot(&ps, &chars("z")), None);
}

#[test]
fn graph_substring_search() {
    assert!(text_contains(&chars("P1 did not finish"), &chars("did not finish")));
    assert!(!text_contains(&chars("P1 finished"), &chars("did not finish")));
    assert!(text_contains(&chars("abc"), &chars("")));
    assert!(!text_contains(&chars("ab"), &chars("abc")));
    assert!(text_contains(&chars("aab"), &chars("ab")));
}
