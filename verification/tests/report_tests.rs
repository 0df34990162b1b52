use scheduler::fcfs::first_in_first_out;
use scheduler::rr::round_robin;
use scheduler::model::Process;
use scheduler::report::{output_file_name, render_report};

fn proc_(name: &str, arrival: i32, burst: i32) -> Process {
    Process { name: name.to_string(), arrival, burst }
}

#[test]
fn report_fcfs_text() {
    let ps = vec![proc_("A", 0, 3), proc_("B", 1, 2)];
    let r = first_in_first_out([2, 7, 0, 0], &ps);
    let text = render_report(2, 0, 0, &r);
    let expected = "  2 processes\n\
Using First-Come First-Served\n\
\n\
Time   0 : A arrived\n\
Time   0 : A selected (burst   3)\n\
Time   1 : B arrived\n\
Time   3 : A finished\n\
Time   3 : B selected (burst   2)\n\
Time   5 : B finished\n\
Time   5 : Idle\n\
Time   6 : Idle\n\
Finished at time   7\n\
\n\
A wait   0 turnaround   3 response   0\n\
B wait   2 turnaround   4 response   2\n";
    assert_eq!(text, expected);
}

#[test]
fn report_rr_header_has_quantum() {
    let ps = vec![proc_("A", 0, 1)];
    let r = round_robin([1, 2, 2, 4], &ps);
    let text = render_report(1, 2, 4, &r);
    assert!(text.starts_with("  1 processes\nUsing Round-Robin\nQuantum 4\n\nTime   0 : A arrived\n"));
    assert!(text.ends_with("Finished at time   2\n\nA wait   0 turnaround   1 response   0\n"));
}

#[test]
fn report_headers_for_other_policies() {
    let ps: Vec<Process> = Vec::new();
    let r = first_in_first_out([0, 0, 1, 0], &ps);
    assert_eq!(render_report(0, 1, 0, &r), "  0 processes\nUsing preemptive Shortest Job First\n\nFinished at time   0\n\n");
    assert_eq!(render_report(1000, 3, 0, &r), "1000 processes\n\nFinished at time   0\n\n");
    assert_eq!(render_report(-5, 3, 0, &r), " -5 processes\n\nFinished at time   0\n\n");
}

#[test]
fn report_output_names() {
    assert_eq!(output_file_name("case.in"), "case.out");
    assert_eq!(output_file_name("dir/a.in.in"), "dir/a.out");
    assert_eq!(output_file_name("notes.txt"), "notes.txt.out");
    assert_eq!(output_file_name(".in"), ".out");
    assert_eq!(output_file_name("x.inn"), "x.inn.out");
}
