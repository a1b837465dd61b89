use pm3::config::ProcessConfig;
use pm3::manager::{expand_instances, inject_path, plan_start, resolve_config_names, resolve_table_names,
    select_configs, ProcessRecord};
use pm3::protocol::ProcessStatus;
use pm3::strmap::StrMap;

fn cfg(command: &str) -> ProcessConfig {
    ProcessConfig {
        command: command.to_string(),
        cwd: None,
        env: None,
        env_file: None,
        health_check: None,
        kill_timeout: None,
        kill_signal: None,
        max_restarts: None,
        max_memory: None,
        min_uptime: None,
        stop_exit_codes: None,
        watch: None,
        watch_ignore: None,
        watch_debounce: None,
        depends_on: None,
        restart: None,
        group: None,
        pre_start: None,
        post_stop: None,
        cron_restart: None,
        log_date_format: None,
        instances: None,
        environments: StrMap::new(),
    }
}

#[test]
fn test_expand_instances_no_clusters() {
    let mut configs = StrMap::new();
    configs.insert("web".to_string(), cfg("node server.js"));
    configs.insert("db".to_string(), cfg("postgres"));
    let result = expand_instances(configs);
    assert_eq!(result.len(), 2);
    assert!(result.contains_key("web"));
    assert!(result.contains_key("db"));
}

#[test]
fn test_expand_instances_basic() {
    let mut configs = StrMap::new();
    let mut web = cfg("node server.js");
    web.instances = Some(3);
    configs.insert("web".to_string(), web);

    let result = expand_instances(configs);
    assert_eq!(result.len(), 3);
    for i in 0..3 {
        let name = format!("web:{}", i);
        let c = result.get(&name).unwrap();
        assert_eq!(c.command, "node server.js");
        assert_eq!(c.instances, Some(1));
        assert_eq!(c.group.as_deref(), Some("web"));
        let env = c.env.as_ref().unwrap();
        assert_eq!(env.get("PM3_INSTANCE_ID").unwrap(), &i.to_string());
        assert_eq!(env.get("PM3_INSTANCE_COUNT").unwrap(), "3");
    }
}

#[test]
fn test_expand_instances_preserves_custom_group() {
    let mut configs = StrMap::new();
    let mut web = cfg("node server.js");
    web.instances = Some(2);
    web.group = Some("backend".to_string());
    configs.insert("web".to_string(), web);

    let result = expand_instances(configs);
    for i in 0..2 {
        let c = result.get(&format!("web:{}", i)).unwrap();
        assert_eq!(c.group.as_deref(), Some("backend"));
    }
}

#[test]
fn test_expand_instances_rewrites_deps() {
    let mut configs = StrMap::new();

    let mut db = cfg("postgres");
    db.instances = Some(2);
    configs.insert("db".to_string(), db);

    let mut web = cfg("node server.js");
    web.depends_on = Some(vec!["db".to_string()]);
    configs.insert("web".to_string(), web);

    let result = expand_instances(configs);
    let web_cfg = result.get("web").unwrap();
    let deps = web_cfg.depends_on.as_ref().unwrap();
    assert!(deps.contains(&"db:0".to_string()));
    assert!(deps.contains(&"db:1".to_string()));
    assert_eq!(deps.len(), 2);
}

#[test]
fn test_expand_instances_clustered_depends_on_clustered() {
    let mut configs = StrMap::new();

    let mut db = cfg("postgres");
    db.instances = Some(2);
    configs.insert("db".to_string(), db);

    let mut web = cfg("node server.js");
    web.instances = Some(3);
    web.depends_on = Some(vec!["db".to_string()]);
    configs.insert("web".to_string(), web);

    let result = expand_instances(configs);
    assert_eq!(result.len(), 5);

    for i in 0..3 {
        let c = result.get(&format!("web:{}", i)).unwrap();
        let deps = c.depends_on.as_ref().unwrap();
        assert!(deps.contains(&"db:0".to_string()));
        assert!(deps.contains(&"db:1".to_string()));
        assert_eq!(deps.len(), 2);
    }
}

#[test]
fn test_expand_instances_single_passthrough() {
    let mut configs = StrMap::new();
    let mut web = cfg("node server.js");
    web.instances = Some(1);
    configs.insert("web".to_string(), web);

    let result = expand_instances(configs);
    assert_eq!(result.len(), 1);
    assert!(result.contains_key("web"));
}

#[test]
fn test_resolve_config_names_cluster_prefix() {
    let mut configs = StrMap::new();
    configs.insert("web:0".to_string(), cfg("node server.js"));
    configs.insert("web:1".to_string(), cfg("node server.js"));
    configs.insert("web:2".to_string(), cfg("node server.js"));
    configs.insert("db".to_string(), cfg("postgres"));

    let result = resolve_config_names(&["web".to_string()], &configs).unwrap();
    assert_eq!(result.len(), 3);
    assert!(result.contains(&"web:0".to_string()));
    assert!(result.contains(&"web:1".to_string()));
    assert!(result.contains(&"web:2".to_string()));
}

#[test]
fn test_resolve_config_names_exact_match_preferred() {
    let mut configs = StrMap::new();
    configs.insert("web".to_string(), cfg("node server.js"));
    configs.insert("web:0".to_string(), cfg("node server.js"));

    let result = resolve_config_names(&["web".to_string()], &configs).unwrap();
    assert_eq!(result, vec!["web".to_string()]);
}

#[test]
fn test_resolve_config_names_group_fallback() {
    let mut configs = StrMap::new();
    let mut web = cfg("node server.js");
    web.group = Some("backend".to_string());
    configs.insert("web".to_string(), web);

    let result = resolve_config_names(&["backend".to_string()], &configs).unwrap();
    assert_eq!(result, vec!["web".to_string()]);
}

#[test]
fn resolve_config_names_reports_unknown_name() {
    let mut configs = StrMap::new();
    configs.insert("web".to_string(), cfg("node server.js"));
    let err = resolve_config_names(&["web".to_string(), "nope".to_string()], &configs).unwrap_err();
    assert_eq!(err, "process or group 'nope' not found in configs");
}

#[test]
fn resolve_table_names_reports_unknown_name() {
    let mut table = StrMap::new();
    table.insert("web".to_string(), ProcessRecord { config: cfg("x"), pid: Some(1), status: ProcessStatus::Online, restarts: 0 });
    assert_eq!(resolve_table_names(&["web".to_string()], &table).unwrap(), vec!["web".to_string()]);
    assert_eq!(resolve_table_names(&["api".to_string()], &table).unwrap_err(), "process or group not found: api");
}

#[test]
fn inject_path_keeps_explicit_path() {
    let mut with_path = cfg("a");
    let mut env = StrMap::new();
    env.insert("PATH".to_string(), "/custom".to_string());
    with_path.env = Some(env);
    let mut list = vec![("a".to_string(), with_path), ("b".to_string(), cfg("b"))];
    inject_path(&mut list, "/usr/bin");
    assert_eq!(list[0].1.env.as_ref().unwrap().get("PATH").unwrap(), "/custom");
    assert_eq!(list[1].1.env.as_ref().unwrap().get("PATH").unwrap(), "/usr/bin");
}

#[test]
fn select_all_configs_when_no_names() {
    let mut configs = StrMap::new();
    configs.insert("a".to_string(), cfg("a"));
    configs.insert("b".to_string(), cfg("b"));
    let list = select_configs(&configs, &None).unwrap();
    let names: Vec<&str> = list.iter().map(|(n, _)| n.as_str()).collect();
    assert_eq!(names, vec!["a", "b"]);
}

#[test]
fn plan_start_orders_levels_and_applies_environment() {
    let mut configs = StrMap::new();
    let mut web = cfg("node server.js");
    web.depends_on = Some(vec!["db".to_string()]);
    let mut prod = StrMap::new();
    prod.insert("MODE".to_string(), "prod".to_string());
    web.environments.insert("prod".to_string(), prod);
    configs.insert("web".to_string(), web);
    configs.insert("db".to_string(), cfg("postgres"));
    let plan = plan_start(configs, None, Some("prod".to_string()), Some("/bin".to_string())).unwrap();
    assert_eq!(plan.levels, vec![vec!["db"], vec!["web"]]);
    let web = plan.configs.get("web").unwrap();
    assert_eq!(web.env.as_ref().unwrap().get("MODE").unwrap(), "prod");
    assert_eq!(web.env.as_ref().unwrap().get("PATH").unwrap(), "/bin");
    let db = plan.configs.get("db").unwrap();
    assert_eq!(db.env.as_ref().unwrap().get("PATH").unwrap(), "/bin");
    assert!(db.env.as_ref().unwrap().get("MODE").is_none());
}

#[test]
fn plan_start_unknown_environment() {
    let mut configs = StrMap::new();
    configs.insert("web".to_string(), cfg("node server.js"));
    let err = plan_start(configs, None, Some("staging".to_string()), None).unwrap_err();
    assert_eq!(err, "unknown environment: 'staging'");
}

#[test]
fn plan_start_missing_dependency() {
    let mut configs = StrMap::new();
    let mut web = cfg("node server.js");
    web.depends_on = Some(vec!["db".to_string()]);
    configs.insert("web".to_string(), web);
    let err = plan_start(configs, None, None, None).unwrap_err();
    assert_eq!(err, "process 'web' depends on unknown process 'db'");
}

#[test]
fn plan_start_selects_cluster_by_name() {
    let mut configs = StrMap::new();
    let mut web = cfg("node server.js");
    web.instances = Some(2);
    configs.insert("web".to_string(), web);
    configs.insert("db".to_string(), cfg("postgres"));
    let plan = plan_start(configs, Some(vec!["web".to_string()]), None, None).unwrap();
    assert_eq!(plan.levels, vec![vec!["web:0", "web:1"]]);
    assert!(plan.configs.get("db").is_none());
}

#[test]
fn expansion_keeps_every_process_under_some_name() {
    let mut configs = StrMap::new();
    let mut web = cfg("node server.js");
    web.instances = Some(2);
    configs.insert("web".to_string(), web);
    configs.insert("db".to_string(), cfg("postgres"));
    let mut one = cfg("worker");
    one.instances = Some(1);
    configs.insert("worker".to_string(), one);

    let result = expand_instances(configs);
    assert_eq!(result.len(), 4);
    assert!(result.get(&"web:0".to_string()).is_some());
    assert!(result.get(&"web:1".to_string()).is_some());
    assert!(result.get(&"web".to_string()).is_none());
    assert!(result.get(&"db".to_string()).is_some());
    assert!(result.get(&"worker".to_string()).is_some());
}
