use pm3::config::ProcessConfig;
use pm3::deps::{expand_dependents, expand_deps, reverse_stop_order, topological_levels, validate_deps, DepsError};
use pm3::strmap::StrMap;

fn cfg(deps: Option<Vec<&str>>) -> ProcessConfig {
    ProcessConfig {
        command: "echo hi".to_string(),
        cwd: None,
        env: None,
        env_file: None,
        health_check: None,
        kill_timeout: None,
        kill_signal: None,
        max_restarts: None,
        max_memory: None,
        min_uptime: None,
        stop_exit_codes: None,
        watch: None,
        watch_ignore: None,
        watch_debounce: None,
        depends_on: deps.map(|v| v.into_iter().map(|s| s.to_string()).collect()),
        restart: None,
        group: None,
        pre_start: None,
        post_stop: None,
        cron_restart: None,
        log_date_format: None,
        instances: None,
        environments: StrMap::new(),
    }
}

#[test]
fn test_validate_missing_dep() {
    let mut configs = StrMap::new();
    configs.insert("web".to_string(), cfg(Some(vec!["db"])));
    let err = validate_deps(&configs).unwrap_err();
    assert_eq!(
        err,
        DepsError::Missing {
            from: "web".to_string(),
            to: "db".to_string(),
        }
    );
}

#[test]
fn test_validate_all_present() {
    let mut configs = StrMap::new();
    configs.insert("db".to_string(), cfg(None));
    configs.insert("web".to_string(), cfg(Some(vec!["db"])));
    assert!(validate_deps(&configs).is_ok());
}

#[test]
fn test_topo_no_deps() {
    let mut configs = StrMap::new();
    configs.insert("a".to_string(), cfg(None));
    configs.insert("b".to_string(), cfg(None));
    let levels = topological_levels(&configs).unwrap();
    assert_eq!(levels.len(), 1);
    assert_eq!(levels[0], vec!["a", "b"]);
}

#[test]
fn test_topo_linear_chain() {
    let mut configs = StrMap::new();
    configs.insert("a".to_string(), cfg(None));
    configs.insert("b".to_string(), cfg(Some(vec!["a"])));
    configs.insert("c".to_string(), cfg(Some(vec!["b"])));
    let levels = topological_levels(&configs).unwrap();
    assert_eq!(levels, vec![vec!["a"], vec!["b"], vec!["c"]]);
}

#[test]
fn test_topo_diamond() {
    let mut configs = StrMap::new();
    configs.insert("a".to_string(), cfg(None));
    configs.insert("b".to_string(), cfg(Some(vec!["a"])));
    configs.insert("c".to_string(), cfg(Some(vec!["a"])));
    configs.insert("d".to_string(), cfg(Some(vec!["b", "c"])));
    let levels = topological_levels(&configs).unwrap();
    assert_eq!(levels[0], vec!["a"]);
    assert_eq!(levels[1], vec!["b", "c"]);
    assert_eq!(levels[2], vec!["d"]);
}

#[test]
fn test_topo_parallel_roots() {
    let mut configs = StrMap::new();
    configs.insert("db".to_string(), cfg(None));
    configs.insert("cache".to_string(), cfg(None));
    configs.insert("web".to_string(), cfg(Some(vec!["db", "cache"])));
    let levels = topological_levels(&configs).unwrap();
    assert_eq!(levels[0], vec!["cache", "db"]);
    assert_eq!(levels[1], vec!["web"]);
}

#[test]
fn test_circular_two_nodes() {
    let mut configs = StrMap::new();
    configs.insert("a".to_string(), cfg(Some(vec!["b"])));
    configs.insert("b".to_string(), cfg(Some(vec!["a"])));
    let err = topological_levels(&configs).unwrap_err();
    assert!(matches!(err, DepsError::Circular { .. }));
}

#[test]
fn test_circular_three_nodes() {
    let mut configs = StrMap::new();
    configs.insert("a".to_string(), cfg(Some(vec!["c"])));
    configs.insert("b".to_string(), cfg(Some(vec!["a"])));
    configs.insert("c".to_string(), cfg(Some(vec!["b"])));
    let err = topological_levels(&configs).unwrap_err();
    assert!(matches!(err, DepsError::Circular { .. }));
}

#[test]
fn test_circular_self_dependency() {
    let mut configs = StrMap::new();
    configs.insert("a".to_string(), cfg(Some(vec!["a"])));
    let err = topological_levels(&configs).unwrap_err();
    assert!(matches!(err, DepsError::Circular { .. }));
}

#[test]
fn test_reverse_order() {
    let mut configs = StrMap::new();
    configs.insert("db".to_string(), cfg(None));
    configs.insert("web".to_string(), cfg(Some(vec!["db"])));
    let order = reverse_stop_order(&configs).unwrap();
    assert_eq!(order, vec!["web", "db"]);
}

#[test]
fn test_expand_deps() {
    let mut configs = StrMap::new();
    configs.insert("db".to_string(), cfg(None));
    configs.insert("cache".to_string(), cfg(None));
    configs.insert("web".to_string(), cfg(Some(vec!["db", "cache"])));
    let expanded = expand_deps(&["web".to_string()], &configs).unwrap();
    assert_eq!(expanded.len(), 3);
    let web_idx = expanded.iter().position(|n| n == "web").unwrap();
    let db_idx = expanded.iter().position(|n| n == "db").unwrap();
    let cache_idx = expanded.iter().position(|n| n == "cache").unwrap();
    assert!(db_idx < web_idx);
    assert!(cache_idx < web_idx);
}

#[test]
fn test_expand_dependents() {
    let mut configs = StrMap::new();
    configs.insert("db".to_string(), cfg(None));
    configs.insert("web".to_string(), cfg(Some(vec!["db"])));
    configs.insert("worker".to_string(), cfg(Some(vec!["db"])));
    let order = expand_dependents(&["db".to_string()], &configs).unwrap();
    assert_eq!(order.len(), 3);
    let db_idx = order.iter().position(|n| n == "db").unwrap();
    let web_idx = order.iter().position(|n| n == "web").unwrap();
    let worker_idx = order.iter().position(|n| n == "worker").unwrap();
    assert!(web_idx < db_idx);
    assert!(worker_idx < db_idx);
}

#[test]
fn levels_put_every_dependency_on_an_earlier_level() {
    let mut configs = StrMap::new();
    configs.insert("api".to_string(), cfg(Some(vec!["db", "cache"])));
    configs.insert("db".to_string(), cfg(None));
    configs.insert("cache".to_string(), cfg(Some(vec!["db"])));
    configs.insert("web".to_string(), cfg(Some(vec!["api"])));
    let levels = topological_levels(&configs).unwrap();
    assert_eq!(levels, vec![vec!["db"], vec!["cache"], vec!["api"], vec!["web"]]);
}

#[test]
fn unknown_dependency_is_never_ready() {
    let mut configs = StrMap::new();
    configs.insert("web".to_string(), cfg(Some(vec!["ghost"])));
    configs.insert("db".to_string(), cfg(None));
    assert!(matches!(topological_levels(&configs), Err(DepsError::Circular { .. })));
}

#[test]
fn circular_error_names_a_cycle() {
    let mut configs = StrMap::new();
    configs.insert("a".to_string(), cfg(Some(vec!["b"])));
    configs.insert("b".to_string(), cfg(Some(vec!["a"])));
    match topological_levels(&configs) {
        Err(DepsError::Circular { cycle }) => {
            assert!(cycle.len() >= 2);
            assert_eq!(cycle.first(), cycle.last());
        }
        other => panic!("expected a cycle, got {:?}", other),
    }
}

#[test]
fn deps_error_messages() {
    let missing = DepsError::Missing { from: "web".to_string(), to: "db".to_string() };
    assert_eq!(missing.message(), "process 'web' depends on unknown process 'db'");
    let circular = DepsError::Circular { cycle: vec!["a".to_string(), "b".to_string(), "a".to_string()] };
    assert_eq!(circular.message(), "circular dependency detected: a -> b -> a");
}

#[test]
fn expand_deps_keeps_unrelated_out() {
    let mut configs = StrMap::new();
    configs.insert("db".to_string(), cfg(None));
    configs.insert("web".to_string(), cfg(Some(vec!["db"])));
    configs.insert("other".to_string(), cfg(None));
    let order = expand_deps(&["web".to_string()], &configs).unwrap();
    assert_eq!(order, vec!["db", "web"]);
}

#[test]
fn dependents_ignore_dependencies_outside_the_set() {
    let mut configs = StrMap::new();
    configs.insert("db".to_string(), cfg(None));
    configs.insert("cache".to_string(), cfg(None));
    configs.insert("web".to_string(), cfg(Some(vec!["db", "cache"])));
    let order = expand_dependents(&["db".to_string()], &configs).unwrap();
    assert_eq!(order, vec!["web", "db"]);
}

#[test]
fn cycle_reports_are_closed() {
    let mut configs = StrMap::new();
    configs.insert("a".to_string(), cfg(Some(vec!["b"])));
    configs.insert("b".to_string(), cfg(Some(vec!["c"])));
    configs.insert("c".to_string(), cfg(Some(vec!["a"])));
    configs.insert("d".to_string(), cfg(Some(vec!["a"])));
    match topological_levels(&configs).unwrap_err() {
        DepsError::Circular { cycle } => {
            assert!(cycle.len() >= 2);
            assert_eq!(cycle.first(), cycle.last());
            assert_eq!(cycle.len(), 4);
        },
        other => panic!("unexpected error: {:?}", other),
    }
    let mut selfdep = StrMap::new();
    selfdep.insert("a".to_string(), cfg(Some(vec!["a"])));
    match reverse_stop_order(&selfdep).unwrap_err() {
        DepsError::Circular { cycle } => assert_eq!(cycle, vec!["a", "a"]),
        other => panic!("unexpected error: {:?}", other),
    }
}

#[test]
fn cycle_reported_beside_an_unknown_dependency() {
    let mut configs = StrMap::new();
    configs.insert("a".to_string(), cfg(Some(vec!["missing", "b"])));
    configs.insert("b".to_string(), cfg(Some(vec!["a"])));
    configs.insert("c".to_string(), cfg(Some(vec!["missing"])));
    match topological_levels(&configs).unwrap_err() {
        DepsError::Circular { cycle } => {
            assert!(cycle.len() >= 2);
            assert_eq!(cycle.first(), cycle.last());
            for w in cycle.windows(2) {
                let deps = configs.get(&w[0]).unwrap().depends_on.clone().unwrap();
                assert!(deps.contains(&w[1]));
            }
        },
        other => panic!("unexpected error: {:?}", other),
    }
}
