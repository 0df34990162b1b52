use scheduler::cfs::linux_cfs;
use scheduler::fcfs::first_in_first_out;
use scheduler::model::{Process, ScheduleResult};
use scheduler::rr::round_robin;
use scheduler::sjf::shortest_job_first;

fn proc_(name: &str, arrival: i32, burst: i32) -> Process {
    Process { name: name.to_string(), arrival, burst }
}

fn idle_ticks(r: &ScheduleResult) -> i64 {
    r.events.iter().filter(|e| e.message == "Idle").count() as i64
}

fn total_burst(ps: &[Process]) -> i64 {
    ps.iter().map(|p| p.burst as i64).sum()
}

#[test]
fn accounting_fcfs_idle_plus_work_is_runfor() {
    let ps = vec![proc_("A", 0, 3), proc_("B", 1, 2)];
    let r = first_in_first_out([2, 7, 0, 0], &ps);
    assert_eq!(idle_ticks(&r) + total_burst(&ps), 7);
}

#[test]
fn accounting_sjf_idle_plus_work_is_runfor() {
    let ps = vec![proc_("A", 0, 5), proc_("B", 1, 2)];
    let r = shortest_job_first([2, 10, 1, 0], &ps);
    assert_eq!(idle_ticks(&r) + total_burst(&ps), 10);
}

#[test]
fn accounting_rr_idle_plus_work_is_runfor() {
    let ps = vec![proc_("A", 0, 3), proc_("B", 0, 2), proc_("C", 8, 1)];
    let r = round_robin([3, 10, 2, 1], &ps);
    assert_eq!(idle_ticks(&r) + total_burst(&ps), 10);
}

#[test]
fn accounting_cfs_idle_plus_work_is_runfor() {
    let ps = vec![proc_("A", 0, 2), proc_("B", 1, 2)];
    let r = linux_cfs([2, 6, 3, 0], &ps);
    assert_eq!(idle_ticks(&r) + total_burst(&ps), 6);
}
