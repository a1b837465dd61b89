use pm3::config::{build_configs, is_valid_process_name, ConfigError, EnvFile, ProcessConfig, RawEntry, RawFields, Watch};
use pm3::strmap::StrMap;

fn base_config() -> ProcessConfig {
    ProcessConfig {
        command: "node server.js".to_string(),
        cwd: None,
        env: None,
        env_file: None,
        health_check: None,
        kill_timeout: None,
        kill_signal: None,
        max_restarts: None,
        max_memory: None,
        min_uptime: None,
        stop_exit_codes: None,
        watch: None,
        watch_ignore: None,
        watch_debounce: None,
        depends_on: None,
        restart: None,
        group: None,
        pre_start: None,
        post_stop: None,
        cron_restart: None,
        log_date_format: None,
        instances: None,
        environments: StrMap::new(),
    }
}

fn vars(pairs: &[(&str, &str)]) -> StrMap<String> {
    let mut m = StrMap::new();
    for (k, v) in pairs {
        m.insert(k.to_string(), v.to_string());
    }
    m
}

fn entry(name: &str, extras: Vec<(String, Result<StrMap<String>, String>)>) -> RawEntry {
    RawEntry { name: name.to_string(), fields: Ok(RawFields { config: base_config(), extras }) }
}

#[test]
fn test_apply_environment_merges() {
    let mut web = base_config();
    web.env = Some(vars(&[("A", "1")]));
    web.environments.insert("prod".to_string(), vars(&[("A", "2"), ("B", "3")]));
    assert!(web.apply_environment("prod"));
    let env = web.env.as_ref().unwrap();
    assert_eq!(env.get("A").unwrap(), "2");
    assert_eq!(env.get("B").unwrap(), "3");
    assert!(!web.apply_environment("missing"));
}

#[test]
fn process_names() {
    assert!(is_valid_process_name("web-1"));
    assert!(!is_valid_process_name("../../etc/foo"));
    assert!(!is_valid_process_name("foo/bar"));
    assert!(!is_valid_process_name("foo\\bar"));
    assert!(!is_valid_process_name("web:0"));
}

#[test]
fn building_configs() {
    assert_eq!(build_configs(vec![]).unwrap_err(), ConfigError::Empty);
    let err = build_configs(vec![entry("web", vec![("bogus_field".to_string(), Err("x".to_string()))])]).unwrap_err();
    assert_eq!(err, ConfigError::UnknownField { process: "web".to_string(), field: "bogus_field".to_string() });
    assert_eq!(err.message(), "unknown field `bogus_field` in process `web`");
    let err = build_configs(vec![entry("foo/bar", vec![])]).unwrap_err();
    assert_eq!(err, ConfigError::InvalidProcessName("foo/bar".to_string()));
    let err = build_configs(vec![RawEntry { name: "web".to_string(), fields: Err("missing field `command`".to_string()) }]).unwrap_err();
    assert_eq!(err.message(), "TOML parse error: missing field `command`");

    let configs = build_configs(vec![
        entry("web", vec![("env_prod".to_string(), Ok(vars(&[("A", "2")])))]),
        entry("db", vec![]),
    ])
    .unwrap();
    assert_eq!(configs.len(), 2);
    let web = configs.get("web").unwrap();
    assert_eq!(web.environments.get("prod").unwrap().get("A").unwrap(), "2");
}

#[test]
fn config_equality_ignores_map_order() {
    let mut a = base_config();
    let mut b = base_config();
    a.env = Some(vars(&[("A", "1"), ("B", "2")]));
    b.env = Some(vars(&[("B", "2"), ("A", "1")]));
    assert!(a.same_as(&b));
    b.watch = Some(Watch::Enabled(true));
    assert!(!a.same_as(&b));
}

#[test]
fn env_files_resolved_and_merged() {
    let mut c = base_config();
    c.cwd = Some("/app".to_string());
    c.env_file = Some(EnvFile::Multiple(vec![".env".to_string(), "/etc/app.env".to_string()]));
    assert_eq!(c.env_file_paths(), vec!["/app/.env", "/etc/app.env"]);
    let merged = c.load_env_files(vec![Ok(vars(&[("A", "1"), ("B", "1")])), Ok(vars(&[("B", "2")]))]).unwrap();
    assert_eq!(merged.get("A").unwrap(), "1");
    assert_eq!(merged.get("B").unwrap(), "2");
    assert_eq!(c.load_env_files(vec![Ok(vars(&[])), Err("unreadable".to_string())]).unwrap_err(), "unreadable");
}

fn with_command(name: &str, command: &str) -> RawEntry {
    let mut c = base_config();
    c.command = command.to_string();
    RawEntry { name: name.to_string(), fields: Ok(RawFields { config: c, extras: vec![] }) }
}

#[test]
fn test_missing_command_errors() {
    let result = build_configs(vec![RawEntry {
        name: "web".to_string(),
        fields: Err("missing field `command`".to_string()),
    }]);
    assert!(result.is_err());
    assert!(matches!(result.unwrap_err(), ConfigError::TomlParse(_)));
}

#[test]
fn test_unknown_field_errors() {
    let result = build_configs(vec![entry("web", vec![("bogus_field".to_string(), Err("x".to_string()))])]);
    assert!(result.is_err());
    assert_eq!(
        result.unwrap_err(),
        ConfigError::UnknownField { process: "web".to_string(), field: "bogus_field".to_string() }
    );
}

#[test]
fn test_empty_file_errors() {
    let result = build_configs(vec![]);
    assert!(result.is_err());
    assert_eq!(result.unwrap_err(), ConfigError::Empty);
}

#[test]
fn test_multiple_sections() {
    let configs = build_configs(vec![
        with_command("web", "node server.js"),
        with_command("api", "cargo run"),
        with_command("worker", "python worker.py"),
    ])
    .unwrap();
    assert_eq!(configs.len(), 3);
    assert!(configs.get("web").is_some());
    assert!(configs.get("api").is_some());
    assert!(configs.get("worker").is_some());
    assert_eq!(configs.get("web").unwrap().command, "node server.js");
    assert_eq!(configs.get("api").unwrap().command, "cargo run");
    assert_eq!(configs.get("worker").unwrap().command, "python worker.py");
}

#[test]
fn test_env_environment_sections() {
    let configs = build_configs(vec![entry(
        "web",
        vec![
            ("env_production".to_string(), Ok(vars(&[("DATABASE_URL", "postgres://prod/db"), ("API_KEY", "prod-key")]))),
            ("env_staging".to_string(), Ok(vars(&[("DATABASE_URL", "postgres://staging/db")]))),
        ],
    )])
    .unwrap();
    let web = configs.get("web").unwrap();
    assert_eq!(web.environments.len(), 2);
    let prod = web.environments.get("production").unwrap();
    assert_eq!(prod.get("DATABASE_URL").unwrap(), "postgres://prod/db");
    assert_eq!(prod.get("API_KEY").unwrap(), "prod-key");
    let staging = web.environments.get("staging").unwrap();
    assert_eq!(staging.get("DATABASE_URL").unwrap(), "postgres://staging/db");
}

#[test]
fn test_path_traversal_rejected() {
    let result = build_configs(vec![with_command("../../etc/foo", "evil")]);
    assert_eq!(result.unwrap_err(), ConfigError::InvalidProcessName("../../etc/foo".to_string()));
}

#[test]
fn test_forward_slash_in_name_rejected() {
    let result = build_configs(vec![with_command("foo/bar", "evil")]);
    assert_eq!(result.unwrap_err(), ConfigError::InvalidProcessName("foo/bar".to_string()));
}

#[test]
fn test_backslash_in_name_rejected() {
    let result = build_configs(vec![with_command("foo\\bar", "evil")]);
    assert_eq!(result.unwrap_err(), ConfigError::InvalidProcessName("foo\\bar".to_string()));
}

#[test]
fn test_valid_process_name_accepted() {
    let configs = build_configs(vec![with_command("valid-name_123", "echo hi")]).unwrap();
    assert!(configs.get("valid-name_123").is_some());
}

#[test]
fn test_colon_in_name_rejected() {
    let result = build_configs(vec![with_command("web:0", "echo hi")]);
    assert_eq!(result.unwrap_err(), ConfigError::InvalidProcessName("web:0".to_string()));
}
