use pm3::protocol::{default_log_lines, frame_line, unframe_line, ProcessStatus};

#[test]
fn test_process_status_display() {
    assert_eq!(ProcessStatus::Starting.to_string(), "starting");
    assert_eq!(ProcessStatus::Online.to_string(), "online");
    assert_eq!(ProcessStatus::Unhealthy.to_string(), "unhealthy");
    assert_eq!(ProcessStatus::Stopped.to_string(), "stopped");
    assert_eq!(ProcessStatus::Errored.to_string(), "errored");
}

#[test]
fn framing_round_trip() {
    let framed = frame_line(r#"{"type":"list"}"#.to_string());
    assert_eq!(framed, "{\"type\":\"list\"}\n");
    assert_eq!(unframe_line(&framed), r#"{"type":"list"}"#);
    assert_eq!(unframe_line("{}\r\n  \t"), "{}");
    assert_eq!(default_log_lines(), 15);
}
