use scheduler::rr::round_robin;
use scheduler::model::{Process, ScheduleResult};

fn proc_(name: &str, arrival: i32, burst: i32) -> Process {
    Process { name: name.to_string(), arrival, burst }
}

fn lines(r: &ScheduleResult) -> Vec<(i32, String)> {
    r.events.iter().map(|e| (e.time, e.message.clone())).collect()
}

fn figures(r: &ScheduleResult) -> Vec<(String, i64, i64, i64)> {
    r.stats.iter().map(|s| (s.name.clone(), s.wait, s.turnaround, s.response)).collect()
}

fn ev(t: i32, m: &str) -> (i32, String) {
    (t, m.to_string())
}

#[test]
fn rr_quantum_one_alternates() {
    let ps = vec![proc_("A", 0, 3), proc_("B", 0, 2)];
    let r = round_robin([2, 7, 2, 1], &ps);
    assert_eq!(
        lines(&r),
        vec![
            ev(0, "A arrived"),
            ev(0, "B arrived"),
            ev(0, "A selected (burst 3)"),
            ev(1, "B selected (burst 2)"),
            ev(2, "A selected (burst 2)"),
            ev(3, "B selected (burst 1)"),
            ev(4, "B finished"),
            ev(4, "A selected (burst 1)"),
            ev(5, "A finished"),
            ev(5, "Idle"),
            ev(6, "Idle"),
        ]
    );
    assert_eq!(figures(&r), vec![("A".to_string(), 2, 5, 0), ("B".to_string(), 2, 4, 1)]);
    for (s, p) in r.stats.iter().zip(ps.iter()) {
        assert_eq!(s.turnaround, s.wait + p.burst as i64);
        assert!(s.response <= s.wait);
    }
}

#[test]
fn rr_reselects_alone_after_quantum() {
    let ps = vec![proc_("A", 0, 5), proc_("W", 10, 1)];
    let r = round_robin([2, 3, 2, 2], &ps);
    assert_eq!(
        lines(&r),
        vec![
            ev(0, "A arrived"),
            ev(0, "A selected (burst 5)"),
            ev(2, "A selected (burst 3)"),
            ev(3, "A did not finish"),
            ev(3, "W did not finish"),
        ]
    );
    assert_eq!(figures(&r), vec![("A".to_string(), 0, 0, 0), ("W".to_string(), 0, 0, -1)]);
}

#[test]
fn rr_completion_on_last_tick_is_logged_at_runfor() {
    let ps = vec![proc_("A", 0, 2)];
    let r = round_robin([1, 2, 2, 5], &ps);
    assert_eq!(lines(&r), vec![ev(0, "A arrived"), ev(0, "A selected (burst 2)"), ev(2, "A finished")]);
    assert_eq!(figures(&r), vec![("A".to_string(), 0, 2, 0)]);
    assert_eq!(r.finish_time, 2);
}

#[test]
fn rr_completion_when_quantum_and_run_end_together() {
    let ps = vec![proc_("A", 0, 2), proc_("B", 0, 3)];
    let r = round_robin([2, 5, 2, 2], &ps);
    assert_eq!(
        lines(&r),
        vec![
            ev(0, "A arrived"),
            ev(0, "B arrived"),
            ev(0, "A selected (burst 2)"),
            ev(2, "A finished"),
            ev(2, "B selected (burst 3)"),
            ev(4, "B selected (burst 1)"),
            ev(5, "B finished"),
        ]
    );
    assert_eq!(figures(&r), vec![("A".to_string(), 0, 2, 0), ("B".to_string(), 2, 5, 2)]);
}

#[test]
fn rr_zero_quantum_never_preempts() {
    let ps = vec![proc_("A", 0, 2), proc_("B", 0, 1)];
    let r = round_robin([2, 5, 2, 0], &ps);
    assert_eq!(
        lines(&r),
        vec![
            ev(0, "A arrived"),
            ev(0, "B arrived"),
            ev(0, "A selected (burst 2)"),
            ev(2, "A finished"),
            ev(2, "B selected (burst 1)"),
            ev(3, "B finished"),
            ev(3, "Idle"),
            ev(4, "Idle"),
        ]
    );
    assert_eq!(figures(&r), vec![("A".to_string(), 0, 2, 0), ("B".to_string(), 2, 3, 2)]);
}

#[test]
fn rr_log_is_in_time_order() {
    let ps = vec![proc_("A", 2, 4), proc_("B", 0, 6), proc_("C", 1, 1), proc_("D", 20, 1)];
    let r = round_robin([4, 9, 2, 2], &ps);
    for w in r.events.windows(2) {
        assert!(w[0].time <= w[1].time);
    }
    assert_eq!(r.events.last().map(|e| e.message.clone()), Some("D did not finish".to_string()));
}

#[test]
fn rr_longer_run_extends_the_log() {
    let ps = vec![proc_("A", 0, 3), proc_("B", 1, 4), proc_("C", 2, 2)];
    let short = round_robin([3, 4, 2, 2], &ps);
    let long = round_robin([3, 12, 2, 2], &ps);
    let ticks_short: Vec<(i32, String)> = lines(&short).into_iter().filter(|(t, _)| *t < 4).collect();
    assert_eq!(&lines(&long)[..ticks_short.len()], &ticks_short[..]);
}
