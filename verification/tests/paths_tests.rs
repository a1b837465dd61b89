use pm3::paths::{join, rotated_log_path, rotated_path, Paths};
use std::path::PathBuf;

fn paths() -> Paths {
    Paths::with_base("/tmp/pm3-test".to_string())
}

#[test]
fn test_pid_file_under_data_dir() {
    let paths = paths();
    let pid = PathBuf::from(paths.pid_file());
    assert!(pid.starts_with(paths.data_dir()));
    assert!(pid.ends_with("pm3.pid"));
}

#[test]
fn test_socket_file_under_data_dir() {
    let paths = paths();
    let sock = PathBuf::from(paths.socket_file());
    assert!(sock.starts_with(paths.data_dir()));
    assert!(sock.ends_with("pm3.sock"));
}

#[test]
fn test_dump_file_under_data_dir() {
    let paths = paths();
    let dump = PathBuf::from(paths.dump_file());
    assert!(dump.starts_with(paths.data_dir()));
    assert!(dump.ends_with("dump.json"));
}

#[test]
fn test_log_dir_under_data_dir() {
    let paths = paths();
    let log_dir = PathBuf::from(paths.log_dir());
    assert!(log_dir.starts_with(paths.data_dir()));
    assert!(log_dir.ends_with("logs"));
}

#[test]
fn test_stdout_log_includes_name() {
    let paths = paths();
    let log = PathBuf::from(paths.stdout_log("web"));
    assert!(log.ends_with("logs/web-out.log"));
}

#[test]
fn test_stderr_log_includes_name() {
    let paths = paths();
    let log = PathBuf::from(paths.stderr_log("web"));
    assert!(log.ends_with("logs/web-err.log"));
}

#[test]
fn test_rotated_stdout_log_format() {
    let paths = paths();
    assert!(PathBuf::from(paths.rotated_stdout_log("web", 1)).ends_with("logs/web-out.log.1"));
    assert!(PathBuf::from(paths.rotated_stdout_log("web", 2)).ends_with("logs/web-out.log.2"));
    assert!(PathBuf::from(paths.rotated_stdout_log("web", 3)).ends_with("logs/web-out.log.3"));
}

#[test]
fn test_rotated_stderr_log_format() {
    let paths = paths();
    assert!(PathBuf::from(paths.rotated_stderr_log("web", 1)).ends_with("logs/web-err.log.1"));
    assert!(PathBuf::from(paths.rotated_stderr_log("web", 2)).ends_with("logs/web-err.log.2"));
    assert!(PathBuf::from(paths.rotated_stderr_log("web", 3)).ends_with("logs/web-err.log.3"));
}

#[test]
fn test_resolve_log_path_absolute() {
    let paths = paths();
    let resolved = paths.resolve_log_path("/var/log/app.log", None);
    assert_eq!(PathBuf::from(resolved), PathBuf::from("/var/log/app.log"));
}

#[test]
fn test_resolve_log_path_relative_with_cwd() {
    let paths = paths();
    let resolved = paths.resolve_log_path("logs/app.log", Some("/app"));
    assert_eq!(PathBuf::from(resolved), PathBuf::from("/app/logs/app.log"));
}

#[test]
fn test_resolve_log_path_relative_without_cwd() {
    let paths = paths();
    let resolved = paths.resolve_log_path("logs/app.log", None);
    assert_eq!(PathBuf::from(resolved), PathBuf::from("logs/app.log"));
}

#[test]
fn test_get_stdout_log_custom_path() {
    let paths = paths();
    let log_path = paths.get_stdout_log("web", Some("./logs/custom.log"), Some("/app"));
    assert_eq!(PathBuf::from(log_path), PathBuf::from("/app/./logs/custom.log"));
}

#[test]
fn test_get_stdout_log_default_path() {
    let paths = paths();
    let log_path = paths.get_stdout_log("web", None, None);
    assert!(PathBuf::from(log_path).ends_with("logs/web-out.log"));
}

#[test]
fn test_get_stderr_log_custom_path() {
    let paths = paths();
    let log_path = paths.get_stderr_log("worker", Some("/var/log/worker-err.log"), None);
    assert_eq!(PathBuf::from(log_path), PathBuf::from("/var/log/worker-err.log"));
}

#[test]
fn test_get_stderr_log_default_path() {
    let paths = paths();
    let log_path = paths.get_stderr_log("worker", None, None);
    assert!(PathBuf::from(log_path).ends_with("logs/worker-err.log"));
}

#[test]
fn test_get_rotated_stdout_log_custom_path() {
    let paths = paths();
    let log_path = paths.get_rotated_stdout_log("app", 1, Some("logs/app.log"), None);
    assert!(PathBuf::from(log_path).ends_with("logs/app.log.1"));
}

#[test]
fn test_get_rotated_stdout_log_default_path() {
    let paths = paths();
    let log_path = paths.get_rotated_stdout_log("app", 1, None, None);
    assert!(PathBuf::from(log_path).ends_with("logs/app-out.log.1"));
}

#[test]
fn test_get_rotated_stderr_log_custom_path() {
    let paths = paths();
    let log_path = paths.get_rotated_stderr_log("svc", 2, Some("/var/log/svc.err"), None);
    assert_eq!(PathBuf::from(log_path), PathBuf::from("/var/log/svc.err.2"));
}

#[test]
fn test_get_rotated_stderr_log_default_path() {
    let paths = paths();
    let log_path = paths.get_rotated_stderr_log("svc", 3, None, None);
    assert!(PathBuf::from(log_path).ends_with("logs/svc-err.log.3"));
}

#[test]
fn exact_paths() {
    let paths = paths();
    assert_eq!(paths.pid_file(), "/tmp/pm3-test/pm3.pid");
    assert_eq!(paths.stdout_log("web"), "/tmp/pm3-test/logs/web-out.log");
    assert_eq!(paths.rotated_stderr_log("web", 12), "/tmp/pm3-test/logs/web-err.log.12");
    assert_eq!(Paths::with_base("/data/".to_string()).port_file(), "/data/pm3.port");
}

#[test]
fn join_follows_pathbuf() {
    for (base, p) in [("/a", "b"), ("/a/", "b"), ("", "b"), ("/a", "/c"), ("a", ""), ("a/b", "c/d")] {
        let expected = PathBuf::from(base).join(p);
        assert_eq!(PathBuf::from(join(base, p)), expected, "joining {:?} and {:?}", base, p);
        assert_eq!(join(base, p), expected.to_string_lossy());
    }
}

#[test]
fn rotated_paths() {
    assert_eq!(rotated_path("/x/y.log", 2), "/x/y.log.2");
    assert_eq!(rotated_log_path("/x/y.log", Some("/x".to_string()), Some("y.log".to_string()), 3), "/x/y.log.3");
    assert_eq!(rotated_log_path("/", None, None, 1), "/.1");
}

#[test]
fn data_dir_selection() {
    let p = Paths::select(Some("/custom".to_string()), Some("/home/u/.local/share".to_string())).unwrap();
    assert_eq!(p.data_dir(), "/custom");
    let p = Paths::select(None, Some("/home/u/.local/share".to_string())).unwrap();
    assert_eq!(p.data_dir(), "/home/u/.local/share/pm3");
    assert!(Paths::select(None, None).is_none());
}

#[test]
fn rotated_custom_logs_sit_beside_their_logs() {
    let paths = Paths::with_base("/data".to_string());
    assert_eq!(paths.get_rotated_stdout_log("app", 1, Some("logs/app.log"), None), "logs/app.log.1");
    assert_eq!(paths.get_rotated_stdout_log("app", 2, Some("/var/log/x.log"), None), "/var/log/x.log.2");
    assert_eq!(paths.get_rotated_stderr_log("app", 3, Some("x.log"), Some("/srv")), "/srv/x.log.3");
    assert_eq!(paths.get_rotated_stderr_log("app", 1, Some("e.log"), None), "e.log.1");
}
