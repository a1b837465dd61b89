use pm3::cli::Command;

#[test]
fn test_optional_names() {
    assert_eq!(Command::optional_names(vec![]), None);
    assert_eq!(
        Command::optional_names(vec!["web".to_string()]),
        Some(vec!["web".to_string()])
    );
}

#[test]
fn local_subcommands() {
    assert!(Command::Tui.runs_locally());
    assert!(Command::Init.runs_locally());
    assert!(Command::Startup.runs_locally());
    assert!(Command::Unstartup.runs_locally());
    assert!(!Command::List.runs_locally());
    assert!(!Command::Stop { names: vec![] }.runs_locally());
}
