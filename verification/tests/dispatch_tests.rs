use scheduler::dispatch::run_scheduler;
use scheduler::model::Process;
use scheduler::skeleton;

fn proc_(name: &str, arrival: i32, burst: i32) -> Process {
    Process { name: name.to_string(), arrival, burst }
}

fn first_messages(alg: i32) -> Vec<String> {
    let ps = vec![proc_("A", 0, 2), proc_("B", 0, 1)];
    let r = run_scheduler([2, 3, alg, 1], &ps).expect("known policy");
    r.events.iter().map(|e| e.message.clone()).collect()
}

#[test]
fn dispatch_by_number() {
    assert_eq!(first_messages(0)[2], "A selected (burst   2)");
    assert_eq!(first_messages(1)[2], "B selected (burst   1)");
    assert_eq!(first_messages(2)[2], "A selected (burst 2)");
    assert_eq!(first_messages(3)[2], "A selected (burst 2, vruntime 0.00)");
}

#[test]
fn dispatch_unknown_number() {
    let ps = vec![proc_("A", 0, 2)];
    assert!(run_scheduler([1, 3, 4, 0], &ps).is_none());
    assert!(run_scheduler([1, 3, -1, 0], &ps).is_none());
}

#[test]
fn skeleton_schedules_nothing() {
    let ps = vec![proc_("A", 0, 2)];
    for r in [
        skeleton::first_in_first_out([1, 5, 0, 0], &ps),
        skeleton::shortest_job_first([1, 5, 1, 0], &ps),
        skeleton::round_robin([1, 5, 2, 1], &ps),
    ] {
        assert!(r.events.is_empty() && r.stats.is_empty());
        assert_eq!(r.finish_time, 0);
    }
}
