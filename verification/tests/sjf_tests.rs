use scheduler::sjf::shortest_job_first;
use scheduler::model::{Process, ScheduleResult};

fn proc_(name: &str, arrival: i32, burst: i32) -> Process {
    Process { name: name.to_string(), arrival, burst }
}

fn lines(r: &ScheduleResult) -> Vec<(i32, String)> {
    r.events.iter().map(|e| (e.time, e.message.clone())).collect()
}

fn figures(r: &ScheduleResult) -> Vec<(String, i64, i64, i64)> {
    r.stats.iter().map(|s| (s.name.clone(), s.wait, s.turnaround, s.response)).collect()
}

fn ev(t: i32, m: &str) -> (i32, String) {
    (t, m.to_string())
}

#[test]
fn sjf_preempts_for_shorter_job() {
    let ps = vec![proc_("A", 0, 5), proc_("B", 1, 2)];
    let r = shortest_job_first([2, 10, 1, 0], &ps);
    assert_eq!(
        lines(&r),
        vec![
            ev(0, "A arrived"),
            ev(0, "A selected (burst   5)"),
            ev(1, "B arrived"),
            ev(1, "B selected (burst   2)"),
            ev(3, "B finished"),
            ev(3, "A selected (burst   4)"),
            ev(7, "A finished"),
            ev(7, "Idle"),
            ev(8, "Idle"),
            ev(9, "Idle"),
        ]
    );
    assert_eq!(figures(&r), vec![("A".to_string(), 2, 7, 0), ("B".to_string(), 0, 2, 0)]);
    assert_eq!(r.finish_time, 10);
    for s in &r.stats {
        assert!(s.response <= s.wait);
    }
}

#[test]
fn sjf_unfinished_figures_are_minus_one() {
    let ps = vec![proc_("A", 0, 5), proc_("C", 5, 1)];
    let r = shortest_job_first([2, 3, 1, 0], &ps);
    assert_eq!(lines(&r), vec![ev(0, "A arrived"), ev(0, "A selected (burst   5)")]);
    assert_eq!(figures(&r), vec![("A".to_string(), -1, -1, 0), ("C".to_string(), -1, -1, -1)]);
}

#[test]
fn sjf_tie_goes_to_earlier_arrival() {
    let ps = vec![proc_("X", 1, 2), proc_("Y", 0, 3)];
    let r = shortest_job_first([2, 2, 1, 0], &ps);
    assert_eq!(lines(&r), vec![ev(0, "Y arrived"), ev(0, "Y selected (burst   3)"), ev(1, "X arrived")]);
    assert_eq!(figures(&r), vec![("X".to_string(), -1, -1, -1), ("Y".to_string(), -1, -1, 0)]);
}

#[test]
fn sjf_tie_goes_to_input_order() {
    let ps = vec![proc_("P", 0, 2), proc_("Q", 0, 2)];
    let r = shortest_job_first([2, 5, 1, 0], &ps);
    assert_eq!(
        lines(&r),
        vec![
            ev(0, "P arrived"),
            ev(0, "Q arrived"),
            ev(0, "P selected (burst   2)"),
            ev(2, "P finished"),
            ev(2, "Q selected (burst   2)"),
            ev(4, "Q finished"),
            ev(4, "Idle"),
        ]
    );
}

#[test]
fn sjf_completion_at_runfor() {
    let ps = vec![proc_("A", 0, 2)];
    let r = shortest_job_first([1, 2, 1, 0], &ps);
    assert_eq!(lines(&r), vec![ev(0, "A arrived"), ev(0, "A selected (burst   2)"), ev(2, "A finished")]);
    assert_eq!(figures(&r), vec![("A".to_string(), 0, 2, 0)]);
}

#[test]
fn sjf_negative_arrival_is_ready_without_being_announced() {
    let ps = vec![proc_("N", -2, 1)];
    let r = shortest_job_first([1, 3, 1, 0], &ps);
    assert_eq!(lines(&r), vec![ev(0, "N selected (burst   1)"), ev(1, "N finished"), ev(1, "Idle"), ev(2, "Idle")]);
    assert_eq!(figures(&r), vec![("N".to_string(), 2, 3, 2)]);
}

#[test]
fn sjf_runs_least_remaining_among_ready() {
    let ps = vec![proc_("L", 0, 9), proc_("M", 0, 4), proc_("S", 0, 1)];
    let r = shortest_job_first([3, 1, 1, 0], &ps);
    assert_eq!(lines(&r)[3], ev(0, "S selected (burst   1)"));
}

#[test]
fn sjf_log_is_in_time_order() {
    let ps = vec![proc_("A", 2, 4), proc_("B", 0, 6), proc_("C", 1, 1)];
    let r = shortest_job_first([3, 14, 1, 0], &ps);
    for w in r.events.windows(2) {
        assert!(w[0].time <= w[1].time);
    }
}

#[test]
fn sjf_delaying_every_arrival_prepends_idle_ticks() {
    let ps = vec![proc_("A", 0, 5), proc_("B", 1, 2), proc_("C", 4, 1)];
    let d = 3;
    let later: Vec<Process> = ps.iter().map(|p| proc_(&p.name, p.arrival + d, p.burst)).collect();
    let r = shortest_job_first([3, 9, 1, 0], &ps);
    let r2 = shortest_job_first([3, 9 + d, 1, 0], &later);
    let mut expected: Vec<(i32, String)> = (0..d).map(|t| ev(t, "Idle")).collect();
    expected.extend(lines(&r).into_iter().map(|(t, m)| (t + d, m)));
    assert_eq!(lines(&r2), expected);
    assert_eq!(figures(&r2), figures(&r));
    assert_eq!(r2.finish_time, r.finish_time + d);
    assert_eq!(&lines(&r2)[..4], &[ev(0, "Idle"), ev(1, "Idle"), ev(2, "Idle"), ev(3, "A arrived")]);
}
