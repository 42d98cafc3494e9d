use std::collections::BTreeMap;

use pidnest::{parse_status, pid_of_entry, report_from_statuses, Process};

#[test]
fn parses_linux_status_fields() {
    let contents = "\
Name:\tbash
Umask:\t0022
State:\tS (sleeping)
Pid:\t1234
PPid:\t1000
Uid:\t1000\t1000\t1000\t1000
";

    let process = parse_status(contents).expect("status should parse");

    assert_eq!(
        process,
        Process {
            name: "bash".to_string(),
            pid: 1234,
            ppid: 1000,
            uid: 1000,
        }
    );
}

#[test]
fn rejects_status_without_required_fields() {
    let error = parse_status("Name:\tbash\nPid:\t1234\n").expect_err("status should fail");

    assert_eq!(error, "missing PPid");
}

#[test]
fn reports_each_missing_field_in_order() {
    assert_eq!(parse_status("").unwrap_err(), "missing Name");
    assert_eq!(parse_status("Pid:\t1\n").unwrap_err(), "missing Name");
    assert_eq!(parse_status("Name:\tx\n").unwrap_err(), "missing Pid");
    assert_eq!(
        parse_status("Name:\tx\nPid:\t1\nPPid:\t0\n").unwrap_err(),
        "missing Uid"
    );
}

#[test]
fn reports_malformed_numbers_at_their_line() {
    assert_eq!(
        parse_status("Pid:\tabc\nName:\tx\n").unwrap_err(),
        "invalid Pid"
    );
    assert_eq!(
        parse_status("Name:\tx\nPid:\t1\nPPid:\t-1\n").unwrap_err(),
        "invalid PPid"
    );
    assert_eq!(
        parse_status("Name:\tx\nPid:\t1\nPPid:\t0\nUid:\t\t\n").unwrap_err(),
        "missing real UID"
    );
    assert_eq!(
        parse_status("Name:\tx\nPid:\t1\nPPid:\t0\nUid:\tx1 2\n").unwrap_err(),
        "invalid real UID"
    );
    assert_eq!(
        parse_status("Name:\tx\nPid:\t4294967296\nPPid:\t0\nUid:\t0\n").unwrap_err(),
        "invalid Pid"
    );
}

#[test]
fn later_lines_replace_earlier_ones_and_values_are_trimmed() {
    let contents = "Name:\t  first  \r\nPid:\t+7\r\nPPid:\t 3 \nUid: 42 43\nName:\tsecond name \nPid:\t8";
    let process = parse_status(contents).expect("status should parse");

    assert_eq!(
        process,
        Process {
            name: "second name".to_string(),
            pid: 8,
            ppid: 3,
            uid: 42,
        }
    );
}

#[test]
fn keeps_unicode_names() {
    let process = parse_status("Name:\tkwin_wayland\u{3000}ä\nPid:\t5\nPPid:\t1\nUid:\t1000\n")
        .expect("status should parse");

    assert_eq!(process.name, "kwin_wayland\u{3000}ä");
}

fn status(name: &str, pid: u32, ppid: u32, uid: u32) -> Option<String> {
    Some(format!(
        "Name:\t{name}\nPid:\t{pid}\nPPid:\t{ppid}\nUid:\t{uid}\t{uid}\t{uid}\t{uid}\n"
    ))
}

#[test]
fn report_keeps_the_processes_of_one_user_in_pid_order() {
    let mut statuses = BTreeMap::new();
    statuses.insert(30, status("python3", 30, 20, 1000));
    statuses.insert(20, status("bash", 20, 1, 1000));
    statuses.insert(25, status("root-shell", 25, 1, 0));
    statuses.insert(26, None);
    statuses.insert(27, Some("garbage".to_string()));
    statuses.insert(28, status("renamed", 99, 1, 1000));
    statuses.insert(29, None);

    let report = report_from_statuses(&statuses, 1000);

    let pids: Vec<u32> = report.processes.iter().map(|p| p.pid).collect();
    assert_eq!(pids, vec![20, 30]);
    assert_eq!(report.processes[0].name, "bash");
    assert_eq!(report.unreadable_statuses, 2);
}

#[test]
fn process_entries_are_named_by_their_pid() {
    assert_eq!(pid_of_entry("1234"), Some(1234));
    assert_eq!(pid_of_entry("4294967295"), Some(u32::MAX));
    assert_eq!(pid_of_entry("4294967296"), None);
    assert_eq!(pid_of_entry("self"), None);
    assert_eq!(pid_of_entry(""), None);
    assert_eq!(pid_of_entry("12a"), None);
    for name in ["1", "+7", "007", "-1", "+", " 3", "acpi", "99999999999"] {
        assert_eq!(pid_of_entry(name), name.parse::<u32>().ok());
    }
}
