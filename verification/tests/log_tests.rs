use pm3::log::{needs_rotation, rotation_plan, scan_for_tail, tail_lines, timestamped_line, LOG_ROTATION_KEEP, LOG_ROTATION_SIZE};

#[test]
fn rotation_threshold() {
    assert!(!needs_rotation(0, LOG_ROTATION_SIZE));
    assert!(needs_rotation(1, LOG_ROTATION_SIZE));
    assert!(needs_rotation(0, u64::MAX));
    assert!(needs_rotation(u64::MAX, 1));
}

#[test]
fn rotation_renames_oldest_first() {
    let (oldest, moves) = rotation_plan("/l/a.log", LOG_ROTATION_KEEP);
    assert_eq!(oldest, "/l/a.log.3");
    let moves: Vec<(&str, &str)> = moves.iter().map(|(a, b)| (a.as_str(), b.as_str())).collect();
    assert_eq!(moves, vec![("/l/a.log.2", "/l/a.log.3"), ("/l/a.log.1", "/l/a.log.2"), ("/l/a.log", "/l/a.log.1")]);
}

#[test]
fn timestamp_prefix() {
    assert_eq!(timestamped_line("2024-01-01", "hello\n"), "2024-01-01 | hello\n");
}

#[test]
fn tail_lines_split_like_str_lines() {
    assert_eq!(tail_lines("a\nb\r\nc", 5), vec!["a", "b", "c"]);
    assert_eq!(tail_lines("a\nb\n", 5), vec!["a", "b"]);
    assert_eq!(tail_lines("a\n\nb\r", 5), vec!["a", "", "b\r"]);
    assert_eq!(tail_lines("x\ny\nz\n", 2), vec!["x", "y"]);
    assert!(tail_lines("", 3).is_empty());
    assert!(tail_lines("a\nb", 0).is_empty());
}

#[test]
fn scanning_for_the_last_lines() {
    // "a\nb\nc\n": the third line feed from the end is beyond this block.
    assert_eq!(scan_for_tail(b"a\nb\nc\n", 0, 2), Ok(2));
    assert_eq!(scan_for_tail(b"a\nb\nc\n", 0, 3), Err(3));
    assert_eq!(scan_for_tail(b"b\n", 1, 1), Ok(2));
    assert_eq!(scan_for_tail(b"xyz", 0, 4), Err(0));
}

#[test]
fn tail_steps() {
    use_tail_step();
}

fn use_tail_step() {
    assert_eq!(pm3::log::tail_step(100, b"a\nb\nc\n", 0, 2), pm3::log::TailStep::Start(102));
    assert_eq!(pm3::log::tail_step(100, b"a\nb\nc\n", 0, 3), pm3::log::TailStep::ReadEarlier(3));
    assert_eq!(pm3::log::tail_step(0, b"a\nb\nc\n", 0, 3), pm3::log::TailStep::Start(0));
}
