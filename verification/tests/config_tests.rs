use scheduler::config::{parse_config, parse_int_chars, Config, ConfigError};

fn ok(text: &str) -> Config {
    match parse_config(text) {
        Ok(c) => c,
        Err(e) => panic!("unexpected error {:?}", e),
    }
}

fn err(text: &str) -> ConfigError {
    match parse_config(text) {
        Ok(_) => panic!("expected an error"),
        Err(e) => e,
    }
}

fn read_int(s: &str) -> Option<i32> {
    parse_int_chars(&s.chars().collect())
}

#[test]
fn config_full_description() {
    let c = ok("processcount 2\nrunfor 20\nuse rr\nquantum 2\nprocess name A arrival 0 burst 5\nprocess name B arrival 1 burst 4\nend\n");
    assert_eq!((c.processcount, c.runfor, c.use_alg, c.quantum), (2, 20, 2, 2));
    assert_eq!(c.processes.len(), 2);
    assert_eq!((c.processes[0].name.as_str(), c.processes[0].arrival, c.processes[0].burst), ("A", 0, 5));
    assert_eq!((c.processes[1].name.as_str(), c.processes[1].arrival, c.processes[1].burst), ("B", 1, 4));
}

#[test]
fn config_algorithms_and_default_quantum() {
    assert_eq!(ok("processcount 0\nrunfor 1\nuse fcfs\n").use_alg, 0);
    let c = ok("processcount 0\nrunfor 1\nuse sjf\n");
    assert_eq!((c.use_alg, c.quantum), (1, 0));
}

#[test]
fn config_whitespace_and_crlf_and_unknown_lines() {
    let c = ok("# comment line\r\n\r\n  processcount\t3 extra\r\nrunfor   +7\r\nuse fcfs\r\nprocess   name  X  arrival -1 burst 2 trailing\r\n");
    assert_eq!((c.processcount, c.runfor, c.use_alg), (3, 7, 0));
    assert_eq!((c.processes[0].name.as_str(), c.processes[0].arrival, c.processes[0].burst), ("X", -1, 2));
}

#[test]
fn config_end_stops_reading() {
    let c = ok("processcount 1\nrunfor 4\nuse fcfs\nend\nprocess bad\nuse nothing\n");
    assert!(c.processes.is_empty());
}

#[test]
fn config_later_lines_override() {
    let c = ok("runfor 4\nrunfor 9\nprocesscount 1\nuse rr\nuse fcfs\n");
    assert_eq!((c.runfor, c.use_alg), (9, 0));
}

#[test]
fn config_error_missing_processcount() {
    assert_eq!(err("processcount\nrunfor 1\nuse fcfs\n"), ConfigError::MissingProcesscount);
    assert_eq!(err("runfor 1\nuse fcfs\n"), ConfigError::MissingProcesscount);
}

#[test]
fn config_error_bad_processcount() {
    assert_eq!(err("processcount two\n"), ConfigError::BadProcesscount);
}

#[test]
fn config_error_runfor() {
    assert_eq!(err("processcount 1\nrunfor\n"), ConfigError::MissingRunfor);
    assert_eq!(err("processcount 1\nuse fcfs\n"), ConfigError::MissingRunfor);
    assert_eq!(err("processcount 1\nrunfor 2147483648\n"), ConfigError::BadRunfor);
}

#[test]
fn config_error_use() {
    assert_eq!(err("processcount 1\nrunfor 3\nuse\n"), ConfigError::MissingUse);
    assert_eq!(err("processcount 1\nrunfor 3\n"), ConfigError::MissingUse);
    assert_eq!(err("processcount 1\nrunfor 3\nuse cfs\n"), ConfigError::InvalidAlgorithm);
}

#[test]
fn config_error_quantum() {
    assert_eq!(err("quantum\n"), ConfigError::MissingQuantum);
    assert_eq!(err("quantum 1.5\n"), ConfigError::BadQuantum);
    assert_eq!(err("processcount 1\nrunfor 3\nuse rr\n"), ConfigError::QuantumRequired);
}

#[test]
fn config_error_process_lines() {
    assert_eq!(err("process name A arrival 0 burst\n"), ConfigError::MissingProcessField);
    assert_eq!(err("process name A arrival x burst 1\n"), ConfigError::BadArrival);
    assert_eq!(err("process name A arrival 0 burst --1\n"), ConfigError::BadBurst);
}

#[test]
fn config_first_faulty_line_decides() {
    assert_eq!(err("runfor x\nprocesscount y\n"), ConfigError::BadRunfor);
}

#[test]
fn config_error_messages() {
    assert_eq!(ConfigError::MissingProcesscount.message(), "Error: Missing parameter processcount");
    assert_eq!(ConfigError::BadBurst.message(), "Error: Bad data type for burst");
    assert_eq!(ConfigError::InvalidAlgorithm.message(), "Error: invalid scheduling algorithm");
    assert_eq!(ConfigError::QuantumRequired.message(), "Error: Missing quantum parameter when use is rr");
}

#[test]
fn config_integers_read_like_std() {
    assert_eq!(read_int("0"), Some(0));
    assert_eq!(read_int("+12"), Some(12));
    assert_eq!(read_int("-2147483648"), Some(i32::MIN));
    assert_eq!(read_int("2147483647"), Some(i32::MAX));
    assert_eq!(read_int("-2147483649"), None);
    assert_eq!(read_int("99999999999999999999"), None);
    assert_eq!(read_int("-"), None);
    assert_eq!(read_int("+"), None);
    assert_eq!(read_int(""), None);
    assert_eq!(read_int("1a"), None);
    assert_eq!(read_int("٣"), None);
    for s in ["7", "-45", "0012", "+0"] {
        assert_eq!(read_int(s), s.parse::<i32>().ok());
    }
}

#[test]
fn config_reads_back_rendered_numbers() {
    for v in [0i32, 1, -1, 42, -907, i32::MAX, i32::MIN] {
        assert_eq!(read_int(&v.to_string()), Some(v));
    }
}
