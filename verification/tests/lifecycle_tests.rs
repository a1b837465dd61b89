use pm3::lifecycle::{reload_decision, restart_stop_step, stop_failure, ReloadAction, ReloadEvent, RestartStopStep};
use pm3::config::ProcessConfig;
use pm3::lifecycle::{
    auto_restore_report, dump_entries, flush_targets, lag_message, log_line_limit, log_tag, log_targets,
    needs_stop, online_check, plan_restore, plan_stop, reload_outcome, reload_partition, reload_temp_name,
    restart_subset, restarted_count, restore_step, resurrect_message, save_message, should_wait_level,
    signal_sent_message, signal_target, spawn_failed_entry, start_outcome, start_step, failure_message,
    wait_timeout_message, DumpEntry, OnlineCheck, RestoreStep, StartStep,
};
use pm3::manager::{table_configs, ProcessRecord};
use pm3::protocol::ProcessStatus;
use pm3::strmap::StrMap;

fn cfg(command: &str, deps: &[&str]) -> ProcessConfig {
    ProcessConfig {
        command: command.to_string(),
        cwd: None,
        env: None,
        env_file: None,
        health_check: None,
        kill_timeout: None,
        kill_signal: None,
        max_restarts: None,
        max_memory: None,
        min_uptime: None,
        stop_exit_codes: None,
        watch: None,
        watch_ignore: None,
        watch_debounce: None,
        depends_on: if deps.is_empty() { None } else { Some(deps.iter().map(|s| s.to_string()).collect()) },
        restart: None,
        group: None,
        pre_start: None,
        post_stop: None,
        cron_restart: None,
        log_date_format: None,
        instances: None,
        environments: StrMap::new(),
    }
}

fn record(config: ProcessConfig, status: ProcessStatus) -> ProcessRecord {
    ProcessRecord { config, pid: Some(42), status, restarts: 1 }
}

fn strings(v: &[&str]) -> Vec<String> {
    v.iter().map(|s| s.to_string()).collect()
}

#[test]
fn start_steps() {
    let running = record(cfg("a", &[]), ProcessStatus::Online);
    assert_eq!(start_step(None, &cfg("a", &[])), StartStep::Spawn { keep_restarts: None });
    assert_eq!(start_step(Some(&running), &cfg("a", &[])), StartStep::Skip);
    assert_eq!(start_step(Some(&running), &cfg("b", &[])), StartStep::Replace);
    let errored = record(cfg("a", &[]), ProcessStatus::Errored);
    assert_eq!(start_step(Some(&errored), &cfg("b", &[])), StartStep::Spawn { keep_restarts: Some(1) });
}

#[test]
fn start_answers() {
    assert_eq!(start_outcome(&vec![], &vec![]).unwrap(), "everything is already running");
    assert_eq!(start_outcome(&strings(&["a", "b"]), &vec![]).unwrap(), "started: a, b");
    assert_eq!(
        start_outcome(&strings(&["a", "b"]), &strings(&["b"])).unwrap_err(),
        "failed to start 'b': process exited immediately"
    );
    assert_eq!(failure_message("restart", "web", "boom"), "failed to restart 'web': boom");
    assert!(should_wait_level(0, 2, false, true));
    assert!(!should_wait_level(1, 2, false, true));
    assert!(should_wait_level(1, 2, true, true));
    assert!(!should_wait_level(0, 2, true, false));
}

#[test]
fn waiting_for_dependencies() {
    let names = strings(&["db", "cache"]);
    assert_eq!(online_check(&names, &vec![Some(ProcessStatus::Online), Some(ProcessStatus::Online)]), OnlineCheck::Online);
    assert_eq!(online_check(&names, &vec![Some(ProcessStatus::Starting), Some(ProcessStatus::Online)]), OnlineCheck::Waiting);
    assert_eq!(
        online_check(&names, &vec![Some(ProcessStatus::Starting), Some(ProcessStatus::Errored)]),
        OnlineCheck::Failed("dependency 'cache' failed (status: errored)".to_string())
    );
    assert_eq!(
        online_check(&names, &vec![Some(ProcessStatus::Unhealthy), None]),
        OnlineCheck::Failed("dependency 'db' is unhealthy".to_string())
    );
    assert_eq!(
        online_check(&names, &vec![Some(ProcessStatus::Online), None]),
        OnlineCheck::Failed("dependency 'cache' not found in process table".to_string())
    );
    assert_eq!(wait_timeout_message(&names), "timeout waiting for dependencies to come online: db, cache");
}

fn table() -> StrMap<ProcessRecord> {
    let mut t = StrMap::new();
    t.insert("db".to_string(), record(cfg("postgres", &[]), ProcessStatus::Online));
    t.insert("web".to_string(), record(cfg("node", &["db"]), ProcessStatus::Online));
    t.insert("worker".to_string(), record(cfg("work", &["db"]), ProcessStatus::Stopped));
    t.insert("other".to_string(), record(cfg("x", &[]), ProcessStatus::Online));
    t
}

#[test]
fn stopping_takes_dependents_first() {
    let t = table();
    let order = plan_stop(&Some(strings(&["db"])), &t).unwrap();
    assert_eq!(order.len(), 3);
    assert_eq!(order.last().unwrap(), "db");
    assert!(!order.contains(&"other".to_string()));
    assert_eq!(plan_stop(&Some(strings(&["nope"])), &t).unwrap_err(), "process or group not found: nope");
    assert!(needs_stop(Some(ProcessStatus::Online)));
    assert!(!needs_stop(Some(ProcessStatus::Stopped)));
    assert!(!needs_stop(None));
}

#[test]
fn restarting_keeps_the_stopped_set() {
    let t = table();
    let configs = table_configs(&t);
    let order = plan_stop(&Some(strings(&["db"])), &t).unwrap();
    let subset = restart_subset(&configs, &order);
    assert_eq!(subset.len(), 3);
    assert!(subset.get("other").is_none());
    assert_eq!(restarted_count(Some(4)), 5);
    assert_eq!(restarted_count(None), 1);
}

#[test]
fn reload_decisions() {
    let mut t = table();
    let mut api = cfg("api", &[]);
    api.health_check = Some("http://localhost/health".to_string());
    t.insert("api".to_string(), record(api, ProcessStatus::Online));
    let (with_hc, without_hc) = reload_partition(&strings(&["api", "web", "ghost"]), &t);
    assert_eq!(with_hc, vec!["api"]);
    assert_eq!(without_hc, vec!["web"]);
    assert_eq!(reload_temp_name("api"), "__reload_api");
    assert_eq!(spawn_failed_entry("api", "nope"), "api (spawn failed: nope)");
    assert_eq!(reload_outcome(&vec![], &strings(&["api"])).unwrap_err(), "reload failed: api");
    assert_eq!(reload_outcome(&strings(&["web"]), &strings(&["api"])).unwrap(), "reloaded: web (failed: api)");
    assert_eq!(reload_outcome(&strings(&["web"]), &vec![]).unwrap(), "reloaded: web");
}

#[test]
fn flush_info_signal_logs() {
    let t = table();
    assert_eq!(flush_targets(&Some(strings(&["web", "nope", "x"])), &t).unwrap_err(), "process not found: nope");
    assert_eq!(flush_targets(&Some(strings(&["web"])), &t).unwrap(), vec!["web"]);
    assert_eq!(flush_targets(&None, &t).unwrap().len(), 4);
    assert_eq!(signal_target("web", t.get("web")).unwrap(), 42);
    assert_eq!(signal_target("nope", None).unwrap_err(), "process not found: nope");
    let stopped = ProcessRecord { config: cfg("a", &[]), pid: None, status: ProcessStatus::Stopped, restarts: 0 };
    assert_eq!(signal_target("a", Some(&stopped)).unwrap_err(), "process 'a' is not running");
    assert_eq!(signal_sent_message("SIGHUP", "web"), "sent SIGHUP to 'web'");
    assert_eq!(log_line_limit(20_000), 10_000);
    assert_eq!(log_line_limit(15), 15);
    assert_eq!(log_targets(&Some("nope".to_string()), &t).unwrap_err(), "process not found: nope");
    assert_eq!(log_targets(&Some("web".to_string()), &t).unwrap(), vec!["web"]);
    assert_eq!(log_tag(true, &"web".to_string()), Some("web".to_string()));
    assert_eq!(log_tag(false, &"web".to_string()), None);
    assert_eq!(lag_message(7), "[pm3: 7 log lines dropped due to lag]");
}

#[test]
fn saving_and_restoring() {
    let t = table();
    let entries = dump_entries(&t);
    assert_eq!(entries.len(), 4);
    assert_eq!(entries[1].name, "web");
    assert_eq!(save_message(entries.len()), "saved 4 process(es) to dump file");

    let running = strings(&["other"]);
    let plan = plan_restore(entries, Some("/bin".to_string()), &running).unwrap();
    assert_eq!(plan.entries.len(), 3);
    assert_eq!(plan.levels, vec![vec!["db"], vec!["web", "worker"]]);
    let web = plan.configs.get("web").unwrap();
    assert_eq!(web.env.as_ref().unwrap().get("PATH").unwrap(), "/bin");

    let entry = DumpEntry { name: "a".to_string(), config: cfg("a", &[]), pid: Some(1), restarts: 3 };
    assert_eq!(restore_step(true, true, &entry), RestoreStep::Skip);
    assert_eq!(restore_step(false, true, &entry), RestoreStep::Adopt { status: ProcessStatus::Online });
    assert_eq!(restore_step(false, false, &entry), RestoreStep::Spawn { restarts: 3 });

    let all = strings(&["db", "web", "worker", "other"]);
    let plan = plan_restore(dump_entries(&t), None, &all).unwrap();
    assert!(plan.entries.is_empty() && plan.levels.is_empty());

    assert_eq!(resurrect_message(&vec![]), "all processes already running");
    assert_eq!(resurrect_message(&strings(&["a", "b"])), "resurrected: a, b");
    assert_eq!(auto_restore_report(&Ok(vec![])), None);
    assert_eq!(auto_restore_report(&Ok(strings(&["a"]))), Some("auto-restored 1 process(es): a".to_string()));
    assert_eq!(auto_restore_report(&Err("no dump file found".to_string())), None);
    assert_eq!(auto_restore_report(&Err("bad".to_string())), Some("auto-restore failed: bad".to_string()));
}

#[test]
fn restoring_a_dump_gives_back_the_table() {
    let t = table();
    let plan = plan_restore(dump_entries(&t), None, &vec![]).unwrap();
    assert_eq!(plan.entries.len(), 4);
    assert_eq!(plan.configs.len(), 4);
    for name in ["db", "web", "worker", "other"] {
        assert_eq!(plan.configs.get(name).unwrap(), &t.get(name).unwrap().config);
    }
}

#[test]
fn stopping_ignores_dependencies_outside_the_stopped_set() {
    let mut t = StrMap::new();
    t.insert("db".to_string(), record(cfg("postgres", &[]), ProcessStatus::Online));
    t.insert("cache".to_string(), record(cfg("redis", &[]), ProcessStatus::Online));
    t.insert("web".to_string(), record(cfg("node", &["db", "cache"]), ProcessStatus::Online));
    assert_eq!(plan_stop(&Some(strings(&["db"])), &t).unwrap(), vec!["web", "db"]);
}

#[test]
fn restart_and_reload_steps() {
    assert_eq!(restart_stop_step(None), RestartStopStep::Skip);
    assert_eq!(restart_stop_step(Some(ProcessStatus::Stopped)), RestartStopStep::HookOnly);
    assert_eq!(restart_stop_step(Some(ProcessStatus::Online)), RestartStopStep::Stop);
    assert_eq!(stop_failure("web", "boom"), "failed to stop 'web': boom");
    let d = reload_decision("api", &ReloadEvent::Online);
    assert_eq!(d.action, ReloadAction::Swap);
    assert_eq!(d.reloaded, Some("api".to_string()));
    let d = reload_decision("api", &ReloadEvent::NotOnline);
    assert_eq!(d.action, ReloadAction::Discard);
    assert_eq!(d.failed, Some("api".to_string()));
    let d = reload_decision("api", &ReloadEvent::SpawnFailed("nope".to_string()));
    assert_eq!(d.action, ReloadAction::Nothing);
    assert_eq!(d.failed, Some("api (spawn failed: nope)".to_string()));
}

#[test]
fn restart_orders_what_it_stopped() {
    let mut t = StrMap::new();
    t.insert("db".to_string(), record(cfg("postgres", &[]), ProcessStatus::Online));
    t.insert("cache".to_string(), record(cfg("redis", &[]), ProcessStatus::Online));
    t.insert("web".to_string(), record(cfg("node", &["db", "cache"]), ProcessStatus::Online));
    let order = plan_stop(&Some(strings(&["db"])), &t).unwrap();
    let configs = table_configs(&t);
    let levels = pm3::lifecycle::restart_levels(&configs, &order).unwrap();
    assert_eq!(levels, vec![vec!["db"], vec!["web"]]);
    let subset = restart_subset(&configs, &order);
    assert_eq!(subset.get("web").unwrap().depends_on, Some(strings(&["db", "cache"])));
}
