use pm3::cli::Command;
use pm3::console::{command_to_request, format_uptime, should_auto_list};
use pm3::protocol::Request;
use pm3::strmap::StrMap;

#[test]
fn test_format_uptime_none() {
    assert_eq!(format_uptime(None), "-");
}

#[test]
fn test_format_uptime_seconds() {
    assert_eq!(format_uptime(Some(0)), "0s");
    assert_eq!(format_uptime(Some(30)), "30s");
    assert_eq!(format_uptime(Some(59)), "59s");
}

#[test]
fn test_format_uptime_minutes() {
    assert_eq!(format_uptime(Some(60)), "1m 0s");
    assert_eq!(format_uptime(Some(90)), "1m 30s");
    assert_eq!(format_uptime(Some(3599)), "59m 59s");
}

#[test]
fn test_format_uptime_hours() {
    assert_eq!(format_uptime(Some(3600)), "1h 0m");
    assert_eq!(format_uptime(Some(7260)), "2h 1m");
    assert_eq!(format_uptime(Some(86399)), "23h 59m");
}

#[test]
fn test_format_uptime_days() {
    assert_eq!(format_uptime(Some(86400)), "1d 0h");
    assert_eq!(format_uptime(Some(90000)), "1d 1h");
    assert_eq!(format_uptime(Some(172800)), "2d 0h");
}

#[test]
fn auto_list_after_changes_only() {
    assert!(should_auto_list(&Request::Stop { names: None }));
    assert!(should_auto_list(&Request::Reload { names: None, path: None }));
    assert!(!should_auto_list(&Request::List));
    assert!(!should_auto_list(&Request::Info { name: "web".to_string() }));
}

#[test]
fn requests_for_commands() {
    let r = command_to_request(Command::Stop { names: vec![] }, StrMap::new(), None);
    assert_eq!(r, Request::Stop { names: None });
    let r = command_to_request(Command::Restart { names: vec!["web".to_string()] }, StrMap::new(), None);
    assert_eq!(r, Request::Restart { names: Some(vec!["web".to_string()]) });
    let r = command_to_request(Command::Resurrect, StrMap::new(), Some("/bin".to_string()));
    assert_eq!(r, Request::Resurrect { path: Some("/bin".to_string()) });
    let r = command_to_request(
        Command::Log { name: None, lines: 15, follow: true, err: false },
        StrMap::new(),
        None,
    );
    assert_eq!(r, Request::Log { name: None, lines: 15, follow: true, err: false });
}

#[test]
fn response_texts() {
    assert_eq!(pm3::console::success_text(&None), "ok");
    assert_eq!(pm3::console::success_text(&Some("started: web".to_string())), "started: web");
    assert_eq!(pm3::console::cell_text(&None), "-");
    assert_eq!(pm3::console::cell_text(&Some("api".to_string())), "api");
    assert_eq!(pm3::console::pid_text(Some(4242)), "4242");
    assert_eq!(pm3::console::pid_text(None), "-");
    assert_eq!(pm3::console::empty_list_notice(0), Some("no processes running".to_string()));
    assert_eq!(pm3::console::empty_list_notice(2), None);
}
