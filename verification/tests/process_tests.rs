use pm3::config::{ProcessConfig, RestartPolicy};
use pm3::process::windows;
use pm3::process::{UnixSignal, compute_backoff, decide_child_exit, evaluate_restart_policy, parse_command, parse_signal,
    status_after_spawn, stop_signal_name, stop_timeout_ms, ExitAction, ProcessError, BACKOFF_CAP_MS,
    DEFAULT_MIN_UPTIME_MS};
use pm3::protocol::ProcessStatus;
use pm3::strmap::StrMap;
use std::time::Duration;

fn test_config(restart: Option<RestartPolicy>) -> ProcessConfig {
    ProcessConfig {
        command: "echo test".to_string(),
        cwd: None,
        env: None,
        env_file: None,
        health_check: None,
        kill_timeout: None,
        kill_signal: None,
        max_restarts: None,
        max_memory: None,
        min_uptime: None,
        stop_exit_codes: None,
        watch: None,
        watch_ignore: None,
        watch_debounce: None,
        depends_on: None,
        restart,
        group: None,
        pre_start: None,
        post_stop: None,
        cron_restart: None,
        log_date_format: None,
        instances: None,
        environments: StrMap::new(),
    }
}

#[test]
fn test_parse_simple_command() {
    let (prog, args) = parse_command("node server.js").unwrap();
    assert_eq!(prog, "node");
    assert_eq!(args, vec!["server.js"]);
}

#[test]
fn test_parse_command_no_args() {
    let (prog, args) = parse_command("sleep").unwrap();
    assert_eq!(prog, "sleep");
    assert!(args.is_empty());
}

#[test]
fn test_parse_command_multiple_args() {
    let (prog, args) = parse_command("echo hello world").unwrap();
    assert_eq!(prog, "echo");
    assert_eq!(args, vec!["hello", "world"]);
}

#[test]
fn test_parse_command_quoted_args() {
    let (prog, args) = parse_command(r#"bash -c "echo hello""#).unwrap();
    assert_eq!(prog, "bash");
    assert_eq!(args, vec!["-c", "echo hello"]);
}

#[test]
fn test_parse_command_single_quotes() {
    let (prog, args) = parse_command("echo 'hello world'").unwrap();
    assert_eq!(prog, "echo");
    assert_eq!(args, vec!["hello world"]);
}

#[test]
fn test_parse_command_windows_backslash_path() {
    let (prog, args) = windows::parse_command(r"C:\Users\alpha\nvs\default\node.exe server.js").unwrap();
    assert_eq!(prog, r"C:\Users\alpha\nvs\default\node.exe");
    assert_eq!(args, vec!["server.js"]);
}

#[test]
fn test_parse_command_windows_quoted_path_with_spaces() {
    let (prog, args) = windows::parse_command(r#""C:\Program Files\nodejs\node.exe" server.js"#).unwrap();
    assert_eq!(prog, r"C:\Program Files\nodejs\node.exe");
    assert_eq!(args, vec!["server.js"]);
}

#[test]
fn test_parse_empty_command() {
    let result = parse_command("");
    assert!(result.is_err());
    assert!(matches!(result.unwrap_err(), ProcessError::InvalidCommand(_)));
}

#[test]
fn test_parse_whitespace_only() {
    let result = parse_command("   ");
    assert!(result.is_err());
    assert!(matches!(result.unwrap_err(), ProcessError::InvalidCommand(_)));
}

#[test]
fn test_parse_signal_sigterm() {
    let sig = parse_signal("SIGTERM").unwrap();
    assert_eq!(sig, UnixSignal::SIGTERM);
}

#[test]
fn test_parse_signal_sigint() {
    let sig = parse_signal("SIGINT").unwrap();
    assert_eq!(sig, UnixSignal::SIGINT);
}

#[test]
fn test_parse_signal_sighup() {
    let sig = parse_signal("SIGHUP").unwrap();
    assert_eq!(sig, UnixSignal::SIGHUP);
}

#[test]
fn test_parse_signal_sigusr1() {
    let sig = parse_signal("SIGUSR1").unwrap();
    assert_eq!(sig, UnixSignal::SIGUSR1);
}

#[test]
fn test_parse_signal_sigusr2() {
    let sig = parse_signal("SIGUSR2").unwrap();
    assert_eq!(sig, UnixSignal::SIGUSR2);
}

#[test]
fn test_parse_signal_without_sig_prefix() {
    let sig = parse_signal("TERM").unwrap();
    assert_eq!(sig, UnixSignal::SIGTERM);
}

#[test]
fn test_parse_signal_invalid() {
    let result = parse_signal("BOGUS");
    assert!(result.is_err());
    assert!(matches!(result.unwrap_err(), ProcessError::InvalidSignal(_)));
}

#[test]
fn test_parse_signal_empty() {
    let result = parse_signal("");
    assert!(result.is_err());
    assert!(matches!(result.unwrap_err(), ProcessError::InvalidSignal(_)));
}

#[test]
fn test_restart_never() {
    let config = test_config(Some(RestartPolicy::Never));
    assert!(!evaluate_restart_policy(&config, Some(1), Duration::from_secs(0), 0));
    assert!(!evaluate_restart_policy(&config, Some(0), Duration::from_secs(0), 0));
}

#[test]
fn test_restart_always() {
    let config = test_config(Some(RestartPolicy::Always));
    assert!(evaluate_restart_policy(&config, Some(0), Duration::from_secs(0), 0));
    assert!(evaluate_restart_policy(&config, Some(1), Duration::from_secs(0), 0));
}

#[test]
fn test_restart_on_failure_exit_zero() {
    let config = test_config(Some(RestartPolicy::OnFailure));
    assert!(!evaluate_restart_policy(&config, Some(0), Duration::from_secs(0), 0));
}

#[test]
fn test_restart_on_failure_exit_nonzero() {
    let config = test_config(Some(RestartPolicy::OnFailure));
    assert!(evaluate_restart_policy(&config, Some(1), Duration::from_secs(0), 0));
}

#[test]
fn test_restart_default_is_on_failure() {
    let config = test_config(None);
    assert!(!evaluate_restart_policy(&config, Some(0), Duration::from_secs(0), 0));
    assert!(evaluate_restart_policy(&config, Some(1), Duration::from_secs(0), 0));
}

#[test]
fn test_restart_stop_exit_codes() {
    let mut config = test_config(Some(RestartPolicy::OnFailure));
    config.stop_exit_codes = Some(vec![42, 143]);
    assert!(!evaluate_restart_policy(&config, Some(42), Duration::from_secs(0), 0));
    assert!(!evaluate_restart_policy(&config, Some(143), Duration::from_secs(0), 0));
    assert!(evaluate_restart_policy(&config, Some(1), Duration::from_secs(0), 0));
}

#[test]
fn test_restart_max_restarts_exceeded() {
    let mut config = test_config(Some(RestartPolicy::Always));
    config.max_restarts = Some(3);
    assert!(evaluate_restart_policy(&config, Some(1), Duration::from_secs(0), 2));
    assert!(!evaluate_restart_policy(&config, Some(1), Duration::from_secs(0), 3));
    assert!(!evaluate_restart_policy(&config, Some(1), Duration::from_secs(0), 4));
}

#[test]
fn test_restart_signal_killed_no_exit_code() {
    let config = test_config(Some(RestartPolicy::OnFailure));
    assert!(evaluate_restart_policy(&config, None, Duration::from_secs(0), 0));
}

#[test]
fn test_backoff_sequence() {
    assert_eq!(Duration::from_millis(compute_backoff(0)), Duration::from_millis(100));
    assert_eq!(Duration::from_millis(compute_backoff(1)), Duration::from_millis(200));
    assert_eq!(Duration::from_millis(compute_backoff(2)), Duration::from_millis(400));
    assert_eq!(Duration::from_millis(compute_backoff(3)), Duration::from_millis(800));
    assert_eq!(Duration::from_millis(compute_backoff(4)), Duration::from_millis(1600));
}

#[test]
fn test_backoff_cap() {
    assert_eq!(Duration::from_millis(compute_backoff(20)), Duration::from_millis(BACKOFF_CAP_MS));
    assert_eq!(Duration::from_millis(compute_backoff(30)), Duration::from_millis(BACKOFF_CAP_MS));
}

#[test]
fn test_min_uptime_resets_counter_before_policy_check() {
    let mut config = test_config(Some(RestartPolicy::OnFailure));
    config.max_restarts = Some(3);
    config.min_uptime = Some(500);

    let mut restarts: u32 = 3;
    let uptime = Duration::from_millis(600);
    let min_uptime_ms = config.min_uptime.unwrap_or(DEFAULT_MIN_UPTIME_MS);
    if uptime >= Duration::from_millis(min_uptime_ms) {
        restarts = 0;
    }
    assert!(evaluate_restart_policy(&config, Some(1), uptime, restarts));

    let mut restarts: u32 = 3;
    let uptime = Duration::from_millis(100);
    if uptime >= Duration::from_millis(min_uptime_ms) {
        restarts = 0;
    }
    assert!(!evaluate_restart_policy(&config, Some(1), uptime, restarts));
}

#[test]
fn backoff_reaches_the_cap_between_nine_and_ten() {
    assert_eq!(compute_backoff(8), 25_600);
    assert_eq!(compute_backoff(9), 30_000);
    assert_eq!(compute_backoff(u32::MAX), 30_000);
}

#[test]
fn command_with_open_quote_is_refused() {
    match parse_command("echo 'unterminated") {
        Err(ProcessError::InvalidCommand(msg)) => assert_eq!(msg, "failed to parse: missing closing quote"),
        other => panic!("unexpected {:?}", other),
    }
    match parse_command("") {
        Err(e) => assert_eq!(e.message(), "invalid command: command is empty"),
        other => panic!("unexpected {:?}", other),
    }
}

#[test]
fn error_messages() {
    assert_eq!(ProcessError::ImmediateExit { exit_code: Some(-3) }.message(), "process exited immediately (exit code: Some(-3))");
    assert_eq!(ProcessError::ImmediateExit { exit_code: None }.message(), "process exited immediately (exit code: None)");
    assert_eq!(ProcessError::InvalidSignal("X".to_string()).message(), "invalid signal: X");
    assert_eq!(pm3::process::hook_failure("./setup.sh", None).message(), "hook failed: pre_start './setup.sh' exited with code -1");
}

#[test]
fn windows_signals() {
    assert_eq!(windows::parse_signal("term").unwrap(), windows::WinSignal::Term);
    assert_eq!(windows::parse_signal("SIGKILL").unwrap(), windows::WinSignal::Kill);
    assert_eq!(windows::parse_signal("Int").unwrap(), windows::WinSignal::Int);
    assert!(matches!(windows::parse_signal("HUP"), Err(ProcessError::InvalidSignal(s)) if s == "HUP"));
    assert_eq!(windows::WinSignal::Term.name(), "SIGTERM");
}

#[test]
fn windows_command_trims_and_needs_a_word() {
    assert!(windows::parse_command("  \"\"  ").is_err());
    let (p, a) = windows::parse_command("  a\tb  ").unwrap();
    assert_eq!(p, "a");
    assert_eq!(a, vec!["b"]);
}

#[test]
fn stop_defaults() {
    let mut config = test_config(None);
    assert_eq!(stop_signal_name(&config), "SIGTERM");
    assert_eq!(stop_timeout_ms(&config), 5000);
    config.kill_signal = Some("SIGINT".to_string());
    config.kill_timeout = Some(10);
    assert_eq!(stop_signal_name(&config), "SIGINT");
    assert_eq!(stop_timeout_ms(&config), 10);
}

#[test]
fn spawn_status() {
    assert_eq!(status_after_spawn(Some(Some(0)), false), ProcessStatus::Stopped);
    assert_eq!(status_after_spawn(Some(Some(2)), true), ProcessStatus::Errored);
    assert_eq!(status_after_spawn(Some(None), false), ProcessStatus::Errored);
    assert_eq!(status_after_spawn(None, true), ProcessStatus::Starting);
    assert_eq!(status_after_spawn(None, false), ProcessStatus::Online);
}

#[test]
fn child_exit_decisions() {
    let config = test_config(None);
    assert_eq!(decide_child_exit(Some(2), Some(1), false, 0, &config, 0, Some(1)), ExitAction::Ignore);
    assert_eq!(
        decide_child_exit(Some(1), Some(1), true, 0, &config, 4, Some(1)),
        ExitAction::Settle { status: ProcessStatus::Stopped, restarts: 4 }
    );
    assert_eq!(
        decide_child_exit(Some(1), Some(1), false, 10, &config, 2, Some(1)),
        ExitAction::Restart { restarts: 2, backoff_ms: 400, next_restarts: 3 }
    );
    assert_eq!(
        decide_child_exit(Some(1), Some(1), false, 5000, &config, 7, Some(1)),
        ExitAction::Restart { restarts: 0, backoff_ms: 100, next_restarts: 1 }
    );
    assert_eq!(
        decide_child_exit(Some(1), Some(1), false, 10, &config, 15, Some(1)),
        ExitAction::Settle { status: ProcessStatus::Errored, restarts: 15 }
    );
    assert_eq!(
        decide_child_exit(Some(1), Some(1), false, 10, &config, 0, Some(0)),
        ExitAction::Settle { status: ProcessStatus::Stopped, restarts: 0 }
    );
}

#[test]
fn parsed_signals_carry_their_names() {
    assert_eq!(parse_signal("KILL").unwrap().name(), "SIGKILL");
    assert_eq!(parse_signal("SIGCHLD").unwrap(), UnixSignal::SIGCHLD);
    let sig = parse_signal("USR1").unwrap();
    assert_eq!(sig.name().parse::<nix::sys::signal::Signal>().unwrap(), nix::sys::signal::Signal::SIGUSR1);
    assert!(parse_signal("SIGFOO").is_err());
}
