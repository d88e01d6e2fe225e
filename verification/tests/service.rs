use hocus_focus::service::{find_pid_line, is_root_output};

#[test]
fn root_uid_output() {
    assert!(is_root_output("0\n"));
    assert!(is_root_output("  0 "));
    assert!(!is_root_output("501\n"));
    assert!(!is_root_output("00"));
    assert!(!is_root_output(""));
}

#[test]
fn pid_line_from_launchctl_output() {
    let out = "system/com.hocusfocus.daemon = {\n\tactive count = 1\n\tpid = 123\n\tstate = running\n\tpid = 9\n}\n";
    assert_eq!(find_pid_line(out), Some("pid = 123".to_string()));
    assert_eq!(find_pid_line("state = waiting\n"), None);
    assert_eq!(find_pid_line("pid = 7"), Some("pid = 7".to_string()));
}
