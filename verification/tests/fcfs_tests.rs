use scheduler::fcfs::first_in_first_out;
use scheduler::model::{Process, ScheduleResult};

fn proc_(name: &str, arrival: i32, burst: i32) -> Process {
    Process { name: name.to_string(), arrival, burst }
}

fn lines(r: &ScheduleResult) -> Vec<(i32, String)> {
    r.events.iter().map(|e| (e.time, e.message.clone())).collect()
}

fn figures(r: &ScheduleResult) -> Vec<(String, i64, i64, i64)> {
    r.stats.iter().map(|s| (s.name.clone(), s.wait, s.turnaround, s.response)).collect()
}

fn ev(t: i32, m: &str) -> (i32, String) {
    (t, m.to_string())
}

#[test]
fn fcfs_two_processes() {
    let ps = vec![proc_("A", 0, 3), proc_("B", 1, 2)];
    let r = first_in_first_out([2, 7, 0, 0], &ps);
    assert_eq!(
        lines(&r),
        vec![
            ev(0, "A arrived"),
            ev(0, "A selected (burst   3)"),
            ev(1, "B arrived"),
            ev(3, "A finished"),
            ev(3, "B selected (burst   2)"),
            ev(5, "B finished"),
            ev(5, "Idle"),
            ev(6, "Idle"),
        ]
    );
    assert_eq!(r.finish_time, 7);
    assert_eq!(figures(&r), vec![("A".to_string(), 0, 3, 0), ("B".to_string(), 2, 4, 2)]);
}

#[test]
fn fcfs_completion_on_last_tick_is_logged_at_runfor() {
    let ps = vec![proc_("A", 0, 2)];
    let r = first_in_first_out([1, 2, 0, 0], &ps);
    assert_eq!(lines(&r), vec![ev(0, "A arrived"), ev(0, "A selected (burst   2)"), ev(2, "A finished")]);
    assert_eq!(figures(&r), vec![("A".to_string(), 0, 2, 0)]);
}

#[test]
fn fcfs_unfinished_processes_have_no_figures() {
    let ps = vec![proc_("A", 0, 4), proc_("B", 0, 1), proc_("C", 9, 1)];
    let r = first_in_first_out([3, 3, 0, 0], &ps);
    assert_eq!(
        lines(&r),
        vec![ev(0, "A arrived"), ev(0, "B arrived"), ev(0, "A selected (burst   4)")]
    );
    assert!(r.stats.is_empty());
}

#[test]
fn fcfs_negative_runfor_does_nothing() {
    let ps = vec![proc_("A", 0, 2)];
    let r = first_in_first_out([1, -4, 0, 0], &ps);
    assert!(r.events.is_empty());
    assert!(r.stats.is_empty());
    assert_eq!(r.finish_time, -4);
}

#[test]
fn fcfs_nonpositive_burst_keeps_the_cpu() {
    let ps = vec![proc_("Z", 0, -1), proc_("B", 0, 1)];
    let r = first_in_first_out([2, 3, 0, 0], &ps);
    assert_eq!(
        lines(&r),
        vec![ev(0, "Z arrived"), ev(0, "B arrived"), ev(0, "Z selected (burst  -1)")]
    );
    assert!(r.stats.is_empty());
}

#[test]
fn fcfs_wide_numbers_are_not_padded() {
    let ps = vec![proc_("L", 0, 1234)];
    let r = first_in_first_out([1, 1, 0, 0], &ps);
    assert_eq!(lines(&r)[1], ev(0, "L selected (burst 1234)"));
}

#[test]
fn fcfs_response_equals_wait_for_finished() {
    let ps = vec![proc_("A", 0, 2), proc_("B", 0, 3), proc_("C", 1, 1)];
    let r = first_in_first_out([3, 10, 0, 0], &ps);
    assert_eq!(r.stats.len(), 3);
    for s in &r.stats {
        assert_eq!(s.response, s.wait);
    }
    assert_eq!(
        figures(&r),
        vec![("A".to_string(), 0, 2, 0), ("B".to_string(), 2, 5, 2), ("C".to_string(), 4, 5, 4)]
    );
}

#[test]
fn fcfs_log_is_in_time_order() {
    let ps = vec![proc_("A", 3, 2), proc_("B", 0, 3), proc_("C", 1, 1)];
    let r = first_in_first_out([3, 9, 0, 0], &ps);
    for w in r.events.windows(2) {
        assert!(w[0].time <= w[1].time);
    }
}
