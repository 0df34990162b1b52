use scheduler::cfs::linux_cfs;
use scheduler::model::{Process, ScheduleResult};

fn proc_(name: &str, arrival: i32, burst: i32) -> Process {
    Process { name: name.to_string(), arrival, burst }
}

fn lines(r: &ScheduleResult) -> Vec<(i32, String)> {
    r.events.iter().map(|e| (e.time, e.message.clone())).collect()
}

fn figures(r: &ScheduleResult) -> Vec<(String, i64, i64, i64)> {
    r.stats.iter().map(|s| (s.name.clone(), s.wait, s.turnaround, s.response)).collect()
}

fn ev(t: i32, m: &str) -> (i32, String) {
    (t, m.to_string())
}

#[test]
fn cfs_newcomer_with_least_vruntime_preempts() {
    let ps = vec![proc_("A", 0, 2), proc_("B", 1, 2)];
    let r = linux_cfs([2, 6, 3, 0], &ps);
    assert_eq!(
        lines(&r),
        vec![
            ev(0, "A arrived"),
            ev(0, "A selected (burst 2, vruntime 0.00)"),
            ev(1, "B arrived"),
            ev(1, "B selected (burst 2, vruntime 0.00)"),
            ev(3, "B finished"),
            ev(3, "A selected (burst 1, vruntime 1.00)"),
            ev(4, "A finished"),
            ev(4, "Idle"),
            ev(5, "Idle"),
        ]
    );
    assert_eq!(figures(&r), vec![("A".to_string(), 2, 4, 0), ("B".to_string(), 0, 2, 0)]);
    for (s, p) in r.stats.iter().zip(ps.iter()) {
        assert_eq!(s.turnaround, s.wait + p.burst as i64);
        assert!(s.response <= s.wait);
    }
}

#[test]
fn cfs_unfinished_are_logged_at_runfor() {
    let ps = vec![proc_("A", 0, 4), proc_("B", 0, 4)];
    let r = linux_cfs([2, 2, 3, 0], &ps);
    assert_eq!(
        lines(&r),
        vec![
            ev(0, "A arrived"),
            ev(0, "B arrived"),
            ev(0, "A selected (burst 4, vruntime 0.00)"),
            ev(1, "B selected (burst 4, vruntime 0.00)"),
            ev(2, "A did not finish"),
            ev(2, "B did not finish"),
        ]
    );
    assert_eq!(figures(&r), vec![("A".to_string(), 1, 0, 0), ("B".to_string(), 1, 0, 1)]);
}

#[test]
fn cfs_equal_vruntime_does_not_preempt() {
    let ps = vec![proc_("A", 0, 3)];
    let r = linux_cfs([1, 5, 3, 0], &ps);
    assert_eq!(
        lines(&r),
        vec![
            ev(0, "A arrived"),
            ev(0, "A selected (burst 3, vruntime 0.00)"),
            ev(3, "A finished"),
            ev(3, "Idle"),
            ev(4, "Idle"),
        ]
    );
}

#[test]
fn cfs_log_is_in_time_order() {
    let ps = vec![proc_("A", 2, 4), proc_("B", 0, 6), proc_("C", 1, 1)];
    let r = linux_cfs([3, 12, 3, 0], &ps);
    for w in r.events.windows(2) {
        assert!(w[0].time <= w[1].time);
    }
}

#[test]
fn cfs_completion_on_last_tick_is_logged_at_runfor() {
    let ps = vec![proc_("A", 0, 2)];
    let r = linux_cfs([1, 2, 3, 0], &ps);
    assert_eq!(
        lines(&r),
        vec![ev(0, "A arrived"), ev(0, "A selected (burst 2, vruntime 0.00)"), ev(2, "A finished")]
    );
    assert_eq!(figures(&r), vec![("A".to_string(), 0, 2, 0)]);
}
