use pm3::envfile::parse_env_text;

#[test]
fn env_text_is_read_line_by_line() {
    let vars = parse_env_text("# settings\nA=1\n\n  B = two words  \nC=\"quoted\"\nD='single'\nA=3\nE=x=y\r\n").unwrap();
    assert_eq!(vars.len(), 5);
    assert_eq!(vars.get("A").unwrap(), "3");
    assert_eq!(vars.get("B").unwrap(), "two words");
    assert_eq!(vars.get("C").unwrap(), "quoted");
    assert_eq!(vars.get("D").unwrap(), "single");
    assert_eq!(vars.get("E").unwrap(), "x=y");
}

#[test]
fn env_text_errors() {
    assert_eq!(parse_env_text("A=1\nbroken line\nB=2").unwrap_err(), "malformed line: broken line");
    assert!(parse_env_text("").unwrap().len() == 0);
    assert_eq!(parse_env_text("Q=\"").unwrap().get("Q").unwrap(), "\"");
}
