//! The daemon's commands on running processes, as decisions and answers:
//! which processes each command touches and in what order, what happens to
//! each, and the text the daemon answers with.
use vstd::prelude::*;
use crate::config::{ProcessConfig, ProcessConfigView};
use crate::deps::{DepsError, levels_view, configs_wf, dep_graph, deps_error_text, dependents_closure, expand_dependents, is_start_order};
use crate::manager::{ProcessRecord, ProcessTable, configs_view, graph_of, resolve_all, resolve_table_names,
    table_configs, table_groups, table_wf, lemma_dep_graph_of};
use crate::protocol::{ProcessStatus, status_text};
use crate::strmap::StrMap;
use crate::text::{concat2, decimal, decimal_string, join_strings, join_with, owned, strs_view};

verus! {

/// "failed to `verb` '`name`': `detail`".
pub open spec fn failure_text(verb: Seq<char>, name: Seq<char>, detail: Seq<char>) -> Seq<char> {
    "failed to "@ + verb + " '"@ + name + "': "@ + detail
}

/// The answer when an action on one process failed.
pub fn failure_message(verb: &str, name: &str, detail: &str) -> (r: String)
    ensures
        r@ == failure_text(verb@, name@, detail@),
{
    let a = concat2("failed to ", verb);
    let b = concat2(a.as_str(), " '");
    let c = concat2(b.as_str(), name);
    let d = concat2(c.as_str(), "': ");
    let r = concat2(d.as_str(), detail);
    assert(r@ =~= "failed to "@ + verb@ + " '"@ + name@ + "': "@ + detail@);
    r
}

/// `prefix` followed by the names joined with `, `.
pub fn listed(prefix: &str, names: &Vec<String>) -> (r: String)
    ensures
        r@ == prefix@ + join_with(strs_view(names@), ", "@),
{
    let joined = join_strings(names, ", ");
    concat2(prefix, joined.as_str())
}

/// "process not found: `name`".
pub fn not_found_message(name: &str) -> (r: String)
    ensures
        r@ == "process not found: "@ + name@,
{
    concat2("process not found: ", name)
}

// ---------------------------------------------------------------- start

/// What to do with one process of a start level, given its entry in the
/// table (if any) and the configuration to start it with.
#[derive(Debug, PartialEq, Eq, Structural)]
pub enum StartStep {
    /// Spawn it, carrying over the restart count of a stopped or errored entry.
    Spawn { keep_restarts: Option<u32> },
    /// It runs with another configuration: stop it, then spawn it afresh.
    Replace,
    /// It already runs with this configuration: leave it.
    Skip,
}

/// The step for one process of a start level.
pub open spec fn start_step_for(existing: Option<(ProcessStatus, u32, ProcessConfigView)>, c: ProcessConfigView) -> StartStep {
    match existing {
        None => StartStep::Spawn { keep_restarts: None },
        Some((status, restarts, current)) =>
            if status == ProcessStatus::Stopped || status == ProcessStatus::Errored {
                StartStep::Spawn { keep_restarts: Some(restarts) }
            } else if current == c {
                StartStep::Skip
            } else {
                StartStep::Replace
            },
    }
}

/// Decides what starting a process does to its table entry.
pub fn start_step(existing: Option<&ProcessRecord>, config: &ProcessConfig) -> (s: StartStep)
    requires
        existing matches Some(e) ==> e.config.wf(),
        config.wf(),
    ensures
        s == start_step_for(match existing { Some(e) => Some((e.status, e.restarts, e.config@)), None => None }, config@),
{
    match existing {
        None => StartStep::Spawn { keep_restarts: None },
        Some(e) => match e.status {
            ProcessStatus::Stopped | ProcessStatus::Errored => StartStep::Spawn { keep_restarts: Some(e.restarts) },
            _ => if e.config.same_as(config) { StartStep::Skip } else { StartStep::Replace },
        },
    }
}

/// Whether the daemon waits for a level's processes to come online before
/// going on: after every level but the last, and after the last one only
/// when asked to; never when the level spawned nothing.
pub fn should_wait_level(level_idx: usize, n_levels: usize, wait: bool, spawned_any: bool) -> (r: bool)
    requires
        level_idx < n_levels,
    ensures
        r == ((level_idx + 1 < n_levels || wait) && spawned_any),
{
    let is_last_level = level_idx == n_levels - 1;
    (!is_last_level || wait) && spawned_any
}

/// The answer to a start: success with nothing started means everything
/// already ran; processes that exited at once make it fail; else the names
/// started.
pub fn start_outcome(started: &Vec<String>, exited: &Vec<String>) -> (r: Result<String, String>)
    ensures
        started@.len() == 0 ==> r == Ok::<String, String>(r->Ok_0) && r->Ok_0@ == "everything is already running"@,
        started@.len() > 0 && exited@.len() > 0 ==> r is Err && r->Err_0@ == "failed to start '"@
            + join_with(strs_view(exited@), ", "@) + "': process exited immediately"@,
        started@.len() > 0 && exited@.len() == 0 ==> r is Ok && r->Ok_0@ == "started: "@
            + join_with(strs_view(started@), ", "@),
{
    if started.len() == 0 {
        return Ok(owned("everything is already running"));
    }
    if exited.len() > 0 {
        let a = listed("failed to start '", exited);
        return Err(concat2(a.as_str(), "': process exited immediately"));
    }
    Ok(listed("started: ", started))
}

// ---------------------------------------------------------- waiting

/// What a poll of the processes awaited finds.
#[derive(Debug, PartialEq, Eq)]
pub enum OnlineCheck {
    /// All of them are online.
    Online,
    /// Some are still starting; poll again.
    Waiting,
    /// One failed; the text says which and how.
    Failed(String),
}

/// The problem with one awaited process, if any (`None` as status: it is
/// not in the table).
pub open spec fn status_problem(name: Seq<char>, status: Option<ProcessStatus>) -> Option<Seq<char>> {
    match status {
        None => Some("dependency '"@ + name + "' not found in process table"@),
        Some(ProcessStatus::Stopped) => Some("dependency '"@ + name + "' failed (status: "@ + status_text(ProcessStatus::Stopped) + ")"@),
        Some(ProcessStatus::Errored) => Some("dependency '"@ + name + "' failed (status: "@ + status_text(ProcessStatus::Errored) + ")"@),
        Some(ProcessStatus::Unhealthy) => Some("dependency '"@ + name + "' is unhealthy"@),
        _ => None,
    }
}

/// The first problem among the awaited processes, in order.
pub open spec fn first_problem(names: Seq<Seq<char>>, statuses: Seq<Option<ProcessStatus>>) -> Option<Seq<char>>
    decreases names.len(),
{
    if names.len() == 0 || statuses.len() != names.len() {
        None
    } else {
        match first_problem(names.drop_last(), statuses.drop_last()) {
            Some(p) => Some(p),
            None => status_problem(names.last(), statuses.last()),
        }
    }
}

fn problem_of(name: &String, status: Option<ProcessStatus>) -> (r: Option<String>)
    ensures
        match status_problem(name@, status) {
            Some(p) => r is Some && r->Some_0@ == p,
            None => r is None,
        },
{
    match status {
        None => {
            let a = concat2("dependency '", name.as_str());
            Some(concat2(a.as_str(), "' not found in process table"))
        },
        Some(s) => match s {
            ProcessStatus::Stopped | ProcessStatus::Errored => {
                let a = concat2("dependency '", name.as_str());
                let b = concat2(a.as_str(), "' failed (status: ");
                let t = s.to_string();
                let c = concat2(b.as_str(), t.as_str());
                Some(concat2(c.as_str(), ")"))
            },
            ProcessStatus::Unhealthy => {
                let a = concat2("dependency '", name.as_str());
                Some(concat2(a.as_str(), "' is unhealthy"))
            },
            _ => None,
        },
    }
}

/// Checks the awaited processes, given the status of each (`None`: not in
/// the table): the first problem in order fails the wait; otherwise any
/// process still starting means waiting on; otherwise all are online.
pub fn online_check(names: &Vec<String>, statuses: &Vec<Option<ProcessStatus>>) -> (r: OnlineCheck)
    requires
        names@.len() == statuses@.len(),
    ensures
        match first_problem(strs_view(names@), statuses@) {
            Some(p) => r is Failed && r->Failed_0@ == p,
            None => if statuses@.contains(Some(ProcessStatus::Starting)) {
                r is Waiting
            } else {
                r is Online
            },
        },
{
    let mut waiting = false;
    let mut i: usize = 0;
    while i < names.len()
        invariant
            names@.len() == statuses@.len(),
            i <= names@.len(),
            first_problem(strs_view(names@).subrange(0, i as int), statuses@.subrange(0, i as int)) is None,
            waiting == statuses@.subrange(0, i as int).contains(Some(ProcessStatus::Starting)),
        decreases names@.len() - i,
    {
        let ghost ns = strs_view(names@).subrange(0, i + 1);
        let ghost ss = statuses@.subrange(0, i + 1);
        proof {
            assert(ns.drop_last() =~= strs_view(names@).subrange(0, i as int));
            assert(ss.drop_last() =~= statuses@.subrange(0, i as int));
        }
        match problem_of(&names[i], statuses[i]) {
            Some(p) => {
                proof {
                    assert(first_problem(ns, ss) == Some(p@));
                    lemma_first_problem_extends(strs_view(names@), statuses@, i + 1);
                }
                return OnlineCheck::Failed(p);
            },
            None => {},
        }
        proof {
            let s0 = statuses@.subrange(0, i as int);
            assert(ss =~= s0.push(statuses@[i as int]));
            if ss.contains(Some(ProcessStatus::Starting)) {
                let k = choose|k: int| 0 <= k < ss.len() && ss[k] == Some(ProcessStatus::Starting);
                if k < i { assert(s0[k] == ss[k]); }
            }
            if s0.contains(Some(ProcessStatus::Starting)) {
                let k = choose|k: int| 0 <= k < s0.len() && s0[k] == Some(ProcessStatus::Starting);
                assert(ss[k] == s0[k]);
            }
        }
        if statuses[i] == Some(ProcessStatus::Starting) {
            waiting = true;
        }
        i = i + 1;
    }
    proof {
        assert(strs_view(names@).subrange(0, i as int) =~= strs_view(names@));
        assert(statuses@.subrange(0, i as int) =~= statuses@);
    }
    if waiting { OnlineCheck::Waiting } else { OnlineCheck::Online }
}

proof fn lemma_first_problem_extends(names: Seq<Seq<char>>, statuses: Seq<Option<ProcessStatus>>, k: int)
    requires
        names.len() == statuses.len(),
        0 <= k <= names.len(),
        first_problem(names.subrange(0, k), statuses.subrange(0, k)) is Some,
    ensures
        first_problem(names, statuses) == first_problem(names.subrange(0, k), statuses.subrange(0, k)),
    decreases names.len() - k,
{
    if k < names.len() {
        assert(names.subrange(0, k + 1).drop_last() =~= names.subrange(0, k));
        assert(statuses.subrange(0, k + 1).drop_last() =~= statuses.subrange(0, k));
        lemma_first_problem_extends(names, statuses, k + 1);
    } else {
        assert(names.subrange(0, k) =~= names);
        assert(statuses.subrange(0, k) =~= statuses);
    }
}

/// The answer when the awaited processes do not come online in time.
pub fn wait_timeout_message(names: &Vec<String>) -> (r: String)
    ensures
        r@ == "timeout waiting for dependencies to come online: "@ + join_with(strs_view(names@), ", "@),
{
    listed("timeout waiting for dependencies to come online: ", names)
}

// ---------------------------------------------------------- stop and restart

/// The names a command acts on: the resolution of the requested names, or
/// every process of the table when none are requested.
pub open spec fn table_targets(names: Option<Seq<Seq<char>>>, t: ProcessTable) -> Result<Seq<Seq<char>>, Seq<char>> {
    match names {
        None => Ok(t.key_seq()),
        Some(req) => match resolve_all(req, t.key_seq(), table_groups(t)) {
            Ok(s) => Ok(s),
            Err(n) => Err("process or group not found: "@ + n),
        },
    }
}

/// The names a command acts on (see `table_targets`).
pub fn targets_in_table(names: &Option<Vec<String>>, table: &ProcessTable) -> (r: Result<Vec<String>, String>)
    requires
        table.wf(),
    ensures
        match table_targets(crate::manager::opt_names_view(*names), *table) {
            Ok(s) => r is Ok && strs_view(r->Ok_0@) == s,
            Err(m) => r is Err && r->Err_0@ == m,
        },
{
    match names {
        Some(req) => resolve_table_names(req.as_slice(), table),
        None => {
            let keys = table.keys();
            proof { assert(strs_view(keys@) =~= table.key_seq()); }
            Ok(keys)
        },
    }
}

/// The order in which a stop (or the stopping half of a restart) goes:
/// the targets and every process that depends on them, dependents before
/// their dependencies (dependencies outside that set play no part). It
/// succeeds whenever the table's configurations can be ordered as a whole.
/// Errors come as the daemon's answer text.
pub fn plan_stop(names: &Option<Vec<String>>, table: &ProcessTable) -> (r: Result<Vec<String>, String>)
    requires
        table_wf(*table),
    ensures
        match table_targets(crate::manager::opt_names_view(*names), *table) {
            Err(m) => r is Err && r->Err_0@ == m,
            Ok(targets) => {
                let g = graph_of(table.as_map().map_values(|x: ProcessRecord| x.config@));
                let h = crate::deps::induced(g, dependents_closure(g, targets).intersect(g.dom()));
                &&& match r {
                    Ok(order) => is_start_order(h, strs_view(order@).reverse())
                        && strs_view(order@).to_set() == dependents_closure(g, targets).intersect(g.dom())
                        && (forall|i: int, j: int| 0 <= i < order@.len() && 0 <= j < order@.len()
                            && g[order@[i]@].contains(order@[j]@) ==> i < j),
                    Err(m) => exists|d: DepsError| m@ == #[trigger] deps_error_text(d) && d is Circular
                        && crate::deps::has_no_order(h),
                }
                &&& crate::deps::fully_ordered(g) ==> r is Ok
            },
        },
{
    let targets = targets_in_table(names, table)?;
    let running = table_configs(table);
    proof {
        lemma_dep_graph_of(running);
    }
    match expand_dependents(targets.as_slice(), &running) {
        Ok(order) => Ok(order),
        Err(e) => {
            let m = e.message();
            proof { assert(deps_error_text(e) == m@); }
            Err(m)
        },
    }
}

/// The start levels of a restart: the configurations of the stopped
/// processes `order`, ordered by the dependencies among them (one on a
/// process outside them plays no part, as in the stop order). Errors come
/// as the daemon's answer text.
pub fn restart_levels(configs: &StrMap<ProcessConfig>, order: &Vec<String>) -> (r: Result<Vec<Vec<String>>, String>)
    requires
        configs_wf(*configs),
    ensures
        ({
            let g = dep_graph(*configs);
            let h = crate::deps::induced(g, strs_view(order@).to_set().intersect(g.dom()));
            &&& match r {
                Ok(levels) => crate::deps::is_level_order(h, levels_view(levels@))
                    && crate::deps::done_after(h, levels@.len() as nat) == h.dom(),
                Err(m) => exists|d: DepsError| m@ == #[trigger] deps_error_text(d) && d is Circular
                    && crate::deps::has_no_order(h),
            }
            &&& (r is Ok <==> crate::deps::fully_ordered(h))
        }),
{
    let keep = crate::deps::names_set(order);
    let sub = crate::deps::restrict_within(configs, &keep);
    match crate::deps::topological_levels(&sub) {
        Ok(levels) => Ok(levels),
        Err(e) => {
            let m = e.message();
            proof { assert(deps_error_text(e) == m@); }
            Err(m)
        },
    }
}

/// A restart can always start again what it stopped: where the stop order
/// of a set of processes exists (what `plan_stop` returns), so do their
/// start levels (what `restart_levels` gives for the same set).
pub proof fn law_restart_restarts_what_it_stopped(g: crate::deps::DepGraph, stop: Seq<Seq<char>>)
    requires
        stop.to_set().subset_of(g.dom()),
        is_start_order(crate::deps::induced(g, stop.to_set()), stop.reverse()),
    ensures
        crate::deps::fully_ordered(crate::deps::induced(g, stop.to_set().intersect(g.dom()))),
{
    assert(stop.to_set().intersect(g.dom()) =~= stop.to_set());
}

/// Whether a stop acts on a process: it must be in the table and not
/// stopped already.
pub fn needs_stop(status: Option<ProcessStatus>) -> (r: bool)
    ensures
        r == (status is Some && status != Some(ProcessStatus::Stopped)),
{
    match status {
        Some(ProcessStatus::Stopped) => false,
        Some(_) => true,
        None => false,
    }
}

/// The configurations of the processes to restart: those of `order`, in
/// the iteration order of `configs`.
pub fn restart_subset(configs: &StrMap<ProcessConfig>, order: &Vec<String>) -> (r: StrMap<ProcessConfig>)
    requires
        configs_wf(*configs),
    ensures
        configs_wf(r),
        configs_view(r) == configs_view(*configs).restrict(strs_view(order@).to_set()),
{
    proof { configs.lemma_wf(); }
    let n = configs.len();
    let mut r: StrMap<ProcessConfig> = StrMap::new();
    proof { r.lemma_wf(); }
    let mut i: usize = 0;
    while i < n
        invariant
            configs_wf(*configs),
            n == configs.key_seq().len(),
            n == configs.val_seq().len(),
            configs.key_seq().no_duplicates(),
            i <= n,
            configs_wf(r),
            configs_view(r) == configs_view(*configs).restrict(
                configs.key_seq().subrange(0, i as int).to_set().intersect(strs_view(order@).to_set())),
        decreases n - i,
    {
        let k = configs.key_at(i);
        proof { configs.lemma_index(i as int); }
        let mut found = false;
        let mut j: usize = 0;
        while j < order.len()
            invariant
                j <= order@.len(),
                found == strs_view(order@).subrange(0, j as int).contains(k@),
            decreases order@.len() - j,
        {
            if crate::text::str_eq(order[j].as_str(), k.as_str()) {
                found = true;
            }
            proof {
                let s0 = strs_view(order@).subrange(0, j as int);
                let s1 = strs_view(order@).subrange(0, j + 1);
                assert(s1 =~= s0.push(order@[j as int]@));
                if order@[j as int]@ == k@ { assert(s1[j as int] == k@); }
                if s1.contains(k@) {
                    let t = choose|t: int| 0 <= t < s1.len() && s1[t] == k@;
                    if t < j { assert(s0[t] == k@); }
                }
                if s0.contains(k@) {
                    let t = choose|t: int| 0 <= t < s0.len() && s0[t] == k@;
                    assert(s1[t] == k@);
                }
            }
            j = j + 1;
        }
        proof { assert(strs_view(order@).subrange(0, j as int) =~= strs_view(order@)); }
        let ghost before = configs.key_seq().subrange(0, i as int).to_set();
        let ghost after = configs.key_seq().subrange(0, i + 1).to_set();
        proof {
            assert(configs.key_seq().subrange(0, i + 1) =~= configs.key_seq().subrange(0, i as int).push(k@));
            assert(after =~= before.insert(k@)) by {
                assert forall|q: Seq<char>| after.contains(q) <==> before.insert(k@).contains(q) by {
                    let a = configs.key_seq().subrange(0, i as int);
                    let b = configs.key_seq().subrange(0, i + 1);
                    if b.contains(q) {
                        let t = choose|t: int| 0 <= t < b.len() && b[t] == q;
                        if t < i { assert(a[t] == q); }
                    }
                    if a.contains(q) {
                        let t = choose|t: int| 0 <= t < a.len() && a[t] == q;
                        assert(b[t] == q);
                    }
                    if q == k@ { assert(b[i as int] == q); }
                }
            }
        }
        if found {
            proof { assert(configs.val_seq()[i as int].wf()); }
            let c = configs.value_at(i).duplicate();
            let ghost r0 = r;
            let ghost cv = c@;
            r.insert(k.clone(), c);
            proof {
                assert(configs_view(r) =~= configs_view(r0).insert(k@, cv));
                assert(configs_view(*configs)[k@] == cv);
                assert(strs_view(order@).to_set().contains(k@));
                r.lemma_wf();
                r0.lemma_wf();
                assert forall|x: int| 0 <= x < r.val_seq().len() implies (#[trigger] r.val_seq()[x]).wf() by {
                    r.lemma_index(x);
                    let key = r.key_seq()[x];
                    if key != k@ {
                        r0.lemma_key_index(key);
                        r0.lemma_index(r0.key_seq().index_of(key));
                    }
                }
                assert(configs_view(r) =~= configs_view(*configs).restrict(after.intersect(strs_view(order@).to_set())));
            }
        } else {
            proof {
                assert(configs_view(r) =~= configs_view(*configs).restrict(after.intersect(strs_view(order@).to_set())));
            }
        }
        i = i + 1;
    }
    proof {
        assert(configs.key_seq().subrange(0, i as int) =~= configs.key_seq());
        assert(configs_view(r) =~= configs_view(*configs).restrict(strs_view(order@).to_set()));
    }
    r
}

/// The restart count of a restarted process: one more than before (none
/// before counts as 0).
pub fn restarted_count(previous: Option<u32>) -> (n: u32)
    requires
        previous matches Some(p) ==> p < u32::MAX,
    ensures
        n == (match previous { Some(p) => p + 1, None => 1 }),
{
    match previous {
        Some(p) => p + 1,
        None => 1,
    }
}

// ---------------------------------------------------------- reload

/// The name under which a replacement runs while it comes up.
pub fn reload_temp_name(name: &str) -> (r: String)
    ensures
        r@ == "__reload_"@ + name@,
{
    concat2("__reload_", name)
}

/// The names of `ts` that are in the table and have a health check
/// (`want`) or have none (`!want`), in order.
pub open spec fn by_health_check(ts: Seq<Seq<char>>, t: ProcessTable, want: bool) -> Seq<Seq<char>>
    decreases ts.len(),
{
    if ts.len() == 0 {
        Seq::empty()
    } else {
        let rest = by_health_check(ts.drop_last(), t, want);
        let n = ts.last();
        if t.as_map().dom().contains(n) && (t.as_map()[n].config@.health_check is Some) == want {
            rest.push(n)
        } else {
            rest
        }
    }
}

/// The processes of `targets` in the table, split into those with a health
/// check (reloaded side by side) and those without (restarted).
pub fn reload_partition(targets: &Vec<String>, table: &ProcessTable) -> (r: (Vec<String>, Vec<String>))
    requires
        table.wf(),
    ensures
        strs_view(r.0@) == by_health_check(strs_view(targets@), *table, true),
        strs_view(r.1@) == by_health_check(strs_view(targets@), *table, false),
{
    let ghost ts = strs_view(targets@);
    let mut with_hc: Vec<String> = Vec::new();
    let mut without_hc: Vec<String> = Vec::new();
    let mut i: usize = 0;
    proof {
        assert(strs_view(with_hc@) =~= by_health_check(ts.subrange(0, 0), *table, true));
        assert(strs_view(without_hc@) =~= by_health_check(ts.subrange(0, 0), *table, false));
    }
    while i < targets.len()
        invariant
            table.wf(),
            ts == strs_view(targets@),
            i <= targets@.len(),
            strs_view(with_hc@) == by_health_check(ts.subrange(0, i as int), *table, true),
            strs_view(without_hc@) == by_health_check(ts.subrange(0, i as int), *table, false),
        decreases targets@.len() - i,
    {
        let name = &targets[i];
        let ghost s1 = ts.subrange(0, i + 1);
        proof {
            assert(s1.drop_last() =~= ts.subrange(0, i as int));
            assert(s1.last() == name@);
        }
        let ghost w0 = with_hc@;
        let ghost o0 = without_hc@;
        match table.get(name.as_str()) {
            Some(rec) => {
                if rec.config.health_check.is_some() {
                    with_hc.push(name.clone());
                    proof { assert(strs_view(with_hc@) =~= strs_view(w0).push(name@)); }
                } else {
                    without_hc.push(name.clone());
                    proof { assert(strs_view(without_hc@) =~= strs_view(o0).push(name@)); }
                }
            },
            None => {},
        }
        i = i + 1;
    }
    proof { assert(ts.subrange(0, i as int) =~= ts); }
    (with_hc, without_hc)
}

/// The entry of a reload that could not spawn its replacement.
pub fn spawn_failed_entry(name: &str, detail: &str) -> (r: String)
    ensures
        r@ == name@ + " (spawn failed: "@ + detail@ + ")"@,
{
    let a = concat2(name, " (spawn failed: ");
    let b = concat2(a.as_str(), detail);
    concat2(b.as_str(), ")")
}

/// What the stopping half of a restart does with one process of its stop
/// order, by its table status.
#[derive(Debug, PartialEq, Eq, Structural)]
pub enum RestartStopStep {
    /// Not in the table: nothing.
    Skip,
    /// Already stopped: only its `post_stop` hook runs.
    HookOnly,
    /// Stop it, then run its `post_stop` hook.
    Stop,
}

/// Decides the stopping of one process in a restart (`None` when it is not
/// in the table).
pub fn restart_stop_step(status: Option<ProcessStatus>) -> (s: RestartStopStep)
    ensures
        s == (match status {
            None => RestartStopStep::Skip,
            Some(ProcessStatus::Stopped) => RestartStopStep::HookOnly,
            Some(_) => RestartStopStep::Stop,
        }),
{
    match status {
        None => RestartStopStep::Skip,
        Some(ProcessStatus::Stopped) => RestartStopStep::HookOnly,
        Some(_) => RestartStopStep::Stop,
    }
}

/// The answer of a stop or restart when stopping `name` failed with
/// `detail`: the request ends there.
pub fn stop_failure(name: &str, detail: &str) -> (r: String)
    ensures
        r@ == failure_text("stop"@, name@, detail@),
{
    failure_message("stop", name, detail)
}

/// How a replacement started for a health-checked reload fared.
#[derive(Debug, PartialEq, Eq)]
pub enum ReloadEvent {
    /// It could not be spawned; the text says why.
    SpawnFailed(String),
    /// It came online.
    Online,
    /// It did not come online in time.
    NotOnline,
}

/// What a health-checked reload does once its replacement has fared as
/// the event says.
#[derive(Debug, PartialEq, Eq, Structural)]
pub enum ReloadAction {
    /// Nothing was started: nothing to undo.
    Nothing,
    /// Stop the old process and put the replacement in its place.
    Swap,
    /// Stop the replacement and drop it; the old process stays.
    Discard,
}

/// The decision for one health-checked reload: the action, and the entry
/// it adds to the reloaded names or to the failures.
#[derive(Debug, PartialEq, Eq)]
pub struct ReloadDecision {
    pub action: ReloadAction,
    pub reloaded: Option<String>,
    pub failed: Option<String>,
}

/// Decides a health-checked reload of `name` from how its replacement fared.
pub fn reload_decision(name: &str, event: &ReloadEvent) -> (d: ReloadDecision)
    ensures
        match event {
            ReloadEvent::SpawnFailed(m) => d.action == ReloadAction::Nothing && d.reloaded is None
                && (d.failed matches Some(f) && f@ == name@ + " (spawn failed: "@ + m@ + ")"@),
            ReloadEvent::Online => d.action == ReloadAction::Swap && d.failed is None
                && (d.reloaded matches Some(n) && n@ == name@),
            ReloadEvent::NotOnline => d.action == ReloadAction::Discard && d.reloaded is None
                && (d.failed matches Some(f) && f@ == name@),
        },
{
    match event {
        ReloadEvent::SpawnFailed(m) => ReloadDecision {
            action: ReloadAction::Nothing,
            reloaded: None,
            failed: Some(spawn_failed_entry(name, m.as_str())),
        },
        ReloadEvent::Online => ReloadDecision { action: ReloadAction::Swap, reloaded: Some(owned(name)), failed: None },
        ReloadEvent::NotOnline => ReloadDecision { action: ReloadAction::Discard, reloaded: None, failed: Some(owned(name)) },
    }
}

/// The answer to a reload: a failure when nothing was reloaded and
/// something failed; else the names reloaded, followed by the failures if
/// any.
pub fn reload_outcome(reloaded: &Vec<String>, failed: &Vec<String>) -> (r: Result<String, String>)
    ensures
        reloaded@.len() == 0 && failed@.len() > 0 ==> r is Err
            && r->Err_0@ == "reload failed: "@ + join_with(strs_view(failed@), ", "@),
        !(reloaded@.len() == 0 && failed@.len() > 0) ==> r is Ok
            && r->Ok_0@ == "reloaded: "@ + join_with(strs_view(reloaded@), ", "@) + (if failed@.len() > 0 {
                " (failed: "@ + join_with(strs_view(failed@), ", "@) + ")"@
            } else {
                Seq::<char>::empty()
            }),
{
    if reloaded.len() == 0 && failed.len() > 0 {
        return Err(listed("reload failed: ", failed));
    }
    let msg = listed("reloaded: ", reloaded);
    if failed.len() > 0 {
        let extra = listed(" (failed: ", failed);
        let tail = concat2(extra.as_str(), ")");
        let r = concat2(msg.as_str(), tail.as_str());
        assert(r@ =~= "reloaded: "@ + join_with(strs_view(reloaded@), ", "@)
            + (" (failed: "@ + join_with(strs_view(failed@), ", "@) + ")"@));
        Ok(r)
    } else {
        assert(msg@ =~= msg@ + Seq::<char>::empty());
        Ok(msg)
    }
}

// ---------------------------------------------------------- flush, info, signal, logs

/// The first name of `req` that is not in the table, if any.
fn first_missing(req: &Vec<String>, table: &ProcessTable) -> (r: Option<usize>)
    requires
        table.wf(),
    ensures
        match r {
            None => forall|i: int| 0 <= i < req@.len() ==> table.as_map().dom().contains(#[trigger] req@[i]@),
            Some(i) => i < req@.len() && !table.as_map().dom().contains(req@[i as int]@)
                && forall|j: int| 0 <= j < i ==> table.as_map().dom().contains(#[trigger] req@[j]@),
        },
{
    let mut i: usize = 0;
    while i < req.len()
        invariant
            table.wf(),
            i <= req@.len(),
            forall|j: int| 0 <= j < i ==> table.as_map().dom().contains(#[trigger] req@[j]@),
        decreases req@.len() - i,
    {
        if !table.contains_key(req[i].as_str()) {
            return Some(i);
        }
        i = i + 1;
    }
    None
}

/// The processes whose logs a flush clears: the requested names, each of
/// which must be in the table (the first one missing is the error), or all.
pub fn flush_targets(names: &Option<Vec<String>>, table: &ProcessTable) -> (r: Result<Vec<String>, String>)
    requires
        table.wf(),
    ensures
        match *names {
            None => r is Ok && strs_view(r->Ok_0@) == table.key_seq(),
            Some(req) => match r {
                Ok(v) => v@ == req@ && forall|i: int| 0 <= i < req@.len() ==> table.as_map().dom().contains(#[trigger] req@[i]@),
                Err(m) => exists|i: int| 0 <= i < req@.len() && !table.as_map().dom().contains(#[trigger] req@[i]@)
                    && (forall|j: int| 0 <= j < i ==> table.as_map().dom().contains(#[trigger] req@[j]@))
                    && m@ == "process not found: "@ + req@[i]@,
            },
        },
{
    match names {
        None => {
            let keys = table.keys();
            proof { assert(strs_view(keys@) =~= table.key_seq()); }
            Ok(keys)
        },
        Some(req) => match first_missing(req, table) {
            Some(i) => Err(not_found_message(req[i].as_str())),
            None => Ok(crate::strmap::clone_strings(req)),
        },
    }
}

/// The process a signal goes to: its pid, or the answer text when it is not
/// in the table or not running.
pub fn signal_target(name: &str, record: Option<&ProcessRecord>) -> (r: Result<u32, String>)
    ensures
        match record {
            None => r is Err && r->Err_0@ == "process not found: "@ + name@,
            Some(rec) => match rec.pid {
                Some(pid) => r == Ok::<u32, String>(pid),
                None => r is Err && r->Err_0@ == "process '"@ + name@ + "' is not running"@,
            },
        },
{
    match record {
        None => Err(not_found_message(name)),
        Some(rec) => match rec.pid {
            Some(pid) => Ok(pid),
            None => {
                let a = concat2("process '", name);
                Err(concat2(a.as_str(), "' is not running"))
            },
        },
    }
}

/// The answer after a signal was sent.
pub fn signal_sent_message(signal: &str, name: &str) -> (r: String)
    ensures
        r@ == "sent "@ + signal@ + " to '"@ + name@ + "'"@,
{
    let a = concat2("sent ", signal);
    let b = concat2(a.as_str(), " to '");
    let c = concat2(b.as_str(), name);
    concat2(c.as_str(), "'")
}

/// Most log lines sent back per stream.
pub const MAX_LOG_LINES: usize = 10_000;

/// The log lines sent per stream: as many as asked, at most 10000.
pub fn log_line_limit(lines: usize) -> (n: usize)
    ensures
        n == (if lines < MAX_LOG_LINES { lines } else { MAX_LOG_LINES }),
{
    if lines < MAX_LOG_LINES { lines } else { MAX_LOG_LINES }
}

/// The processes whose logs are shown: the named one (which must be in the
/// table) or all.
pub fn log_targets(name: &Option<String>, table: &ProcessTable) -> (r: Result<Vec<String>, String>)
    requires
        table.wf(),
    ensures
        match *name {
            None => r is Ok && strs_view(r->Ok_0@) == table.key_seq(),
            Some(n) => if table.as_map().dom().contains(n@) {
                r is Ok && strs_view(r->Ok_0@) == seq![n@]
            } else {
                r is Err && r->Err_0@ == "process not found: "@ + n@
            },
        },
{
    match name {
        None => {
            let keys = table.keys();
            proof { assert(strs_view(keys@) =~= table.key_seq()); }
            Ok(keys)
        },
        Some(n) => {
            if table.contains_key(n.as_str()) {
                let v = vec![n.clone()];
                proof { assert(strs_view(v@) =~= seq![n@]); }
                Ok(v)
            } else {
                Err(not_found_message(n.as_str()))
            }
        },
    }
}

/// The name a log line is tagged with: the process's, when several are shown.
pub fn log_tag(multi: bool, target: &String) -> (r: Option<String>)
    ensures
        multi ==> r is Some && r->Some_0@ == target@,
        !multi ==> r is None,
{
    if multi { Some(target.clone()) } else { None }
}

/// The line sent in place of log lines that were dropped.
pub fn lag_message(dropped: u64) -> (r: String)
    ensures
        r@ == "[pm3: "@ + decimal(dropped as nat) + " log lines dropped due to lag]"@,
{
    let d = decimal_string(dropped);
    let a = concat2("[pm3: ", d.as_str());
    concat2(a.as_str(), " log lines dropped due to lag]")
}

// ---------------------------------------------------------- save and restore

/// One process as saved to the dump file.
#[derive(Debug)]
pub struct DumpEntry {
    pub name: String,
    pub config: ProcessConfig,
    pub pid: Option<u32>,
    pub restarts: u32,
}

/// The answer after saving `count` processes.
pub fn save_message(count: usize) -> (r: String)
    ensures
        r@ == "saved "@ + decimal(count as nat) + " process(es) to dump file"@,
{
    let d = decimal_string(count as u64);
    let a = concat2("saved ", d.as_str());
    concat2(a.as_str(), " process(es) to dump file")
}

/// `es` is the dump of `t`: each process with its name, configuration, pid
/// and restart count, in table order.
pub open spec fn is_dump_of(es: Seq<DumpEntry>, t: ProcessTable) -> bool {
    &&& es.len() == t.key_seq().len()
    &&& forall|i: int| 0 <= i < es.len() ==> {
        &&& (#[trigger] es[i]).name@ == t.key_seq()[i]
        &&& es[i].config@ == t.val_seq()[i].config@
        &&& es[i].pid == t.val_seq()[i].pid
        &&& es[i].restarts == t.val_seq()[i].restarts
    }
}

/// The dump of a table: each process with its name, configuration, pid and
/// restart count, in table order.
pub fn dump_entries(table: &ProcessTable) -> (r: Vec<DumpEntry>)
    requires
        table_wf(*table),
    ensures
        is_dump_of(r@, *table),
        forall|i: int| 0 <= i < r@.len() ==> (#[trigger] r@[i]).config.wf(),
{
    proof { table.lemma_wf(); }
    let n = table.len();
    let mut r: Vec<DumpEntry> = Vec::new();
    let mut i: usize = 0;
    while i < n
        invariant
            table_wf(*table),
            n == table.key_seq().len(),
            n == table.val_seq().len(),
            i <= n,
            r@.len() == i,
            forall|j: int| 0 <= j < i ==> {
                &&& (#[trigger] r@[j]).name@ == table.key_seq()[j]
                &&& r@[j].config@ == table.val_seq()[j].config@
                &&& r@[j].config.wf()
                &&& r@[j].pid == table.val_seq()[j].pid
                &&& r@[j].restarts == table.val_seq()[j].restarts
            },
        decreases n - i,
    {
        let rec = table.value_at(i);
        proof { assert(table.val_seq()[i as int].config.wf()); }
        r.push(DumpEntry {
            name: table.key_at(i).clone(),
            config: rec.config.duplicate(),
            pid: rec.pid,
            restarts: rec.restarts,
        });
        i = i + 1;
    }
    r
}

/// What to do with one saved process when restoring.
#[derive(Debug, PartialEq, Eq, Structural)]
pub enum RestoreStep {
    /// It is in the table already: leave it.
    Skip,
    /// Its old process still runs: take it over with this status.
    Adopt { status: ProcessStatus },
    /// Spawn it again, keeping its restart count.
    Spawn { restarts: u32 },
}

/// Decides what restoring a saved process does: skip it if the table has
/// it; adopt its old process if that is still alive (starting when it has a
/// health check, else online); else spawn it anew.
pub fn restore_step(in_table: bool, old_pid_alive: bool, entry: &DumpEntry) -> (s: RestoreStep)
    ensures
        s == (if in_table {
            RestoreStep::Skip
        } else if old_pid_alive {
            RestoreStep::Adopt {
                status: if entry.config@.health_check is Some { ProcessStatus::Starting } else { ProcessStatus::Online },
            }
        } else {
            RestoreStep::Spawn { restarts: entry.restarts }
        }),
{
    if in_table {
        RestoreStep::Skip
    } else if old_pid_alive {
        let status = if entry.config.health_check.is_some() { ProcessStatus::Starting } else { ProcessStatus::Online };
        RestoreStep::Adopt { status }
    } else {
        RestoreStep::Spawn { restarts: entry.restarts }
    }
}

/// What a restore works on: the saved processes not already running (with
/// `PATH` forced when given), their configurations, and their start levels.
#[derive(Debug)]
pub struct RestorePlan {
    pub entries: Vec<DumpEntry>,
    pub configs: StrMap<ProcessConfig>,
    pub levels: Vec<Vec<String>>,
}

/// The saved entries to restore: those whose name is not running, in order.
pub open spec fn not_running(entries: Seq<DumpEntry>, running: Set<Seq<char>>) -> Seq<DumpEntry>
    decreases entries.len(),
{
    if entries.len() == 0 {
        Seq::empty()
    } else if running.contains(entries.last().name@) {
        not_running(entries.drop_last(), running)
    } else {
        not_running(entries.drop_last(), running).push(entries.last())
    }
}

/// The configurations a restore starts, by name: those of the entries not
/// running, with `PATH` forced to `path` when given.
pub open spec fn restore_configs(entries: Seq<DumpEntry>, running: Set<Seq<char>>, path: Option<Seq<char>>)
    -> Map<Seq<char>, ProcessConfigView>
{
    crate::manager::pairs_map(restored_pairs(not_running(entries, running), path))
}

/// Each entry by its name and configuration, with `PATH` forced to `path`
/// when given.
pub open spec fn restored_pairs(es: Seq<DumpEntry>, path: Option<Seq<char>>) -> Seq<(Seq<char>, ProcessConfigView)> {
    es.map_values(|e: DumpEntry| (e.name@, match path {
        Some(p) => crate::manager::with_path(e.config@, p),
        None => e.config@,
    }))
}

/// Plans a restore from saved entries: `PATH` is forced to `path` when
/// given; entries already running are left out; the rest are checked for
/// dependencies and ordered in start levels (nothing to do gives an empty
/// plan). Errors come as the daemon's answer text.
pub fn plan_restore(entries: Vec<DumpEntry>, path: Option<String>, running: &Vec<String>) -> (r: Result<RestorePlan, String>)
    requires
        forall|i: int| 0 <= i < entries@.len() ==> (#[trigger] entries@[i]).config.wf(),
    ensures
        match r {
            Ok(plan) => {
                &&& plan.entries@.len() == not_running(entries@, strs_view(running@).to_set()).len()
                &&& forall|i: int| 0 <= i < plan.entries@.len() ==> {
                    let e = not_running(entries@, strs_view(running@).to_set())[i];
                    &&& (#[trigger] plan.entries@[i]).name@ == e.name@
                    &&& plan.entries@[i].pid == e.pid
                    &&& plan.entries@[i].restarts == e.restarts
                    &&& plan.entries@[i].config@ == (match path {
                        Some(p) => crate::manager::with_path(e.config@, p@),
                        None => e.config@,
                    })
                }
                &&& configs_wf(plan.configs)
                &&& configs_view(plan.configs) == restore_configs(entries@, strs_view(running@).to_set(), crate::manager::opt_view(path))
                &&& crate::manager::levels_outcome(configs_view(plan.configs), Ok(plan.levels))
            },
            Err(m) => not_running(entries@, strs_view(running@).to_set()).len() > 0
                && crate::manager::levels_outcome(
                    restore_configs(entries@, strs_view(running@).to_set(), crate::manager::opt_view(path)), Err(m)),
        },
{
    let ghost rs = strs_view(running@).to_set();
    let mut list: Vec<DumpEntry> = Vec::new();
    let mut pairs: Vec<(String, ProcessConfig)> = Vec::new();
    let mut i: usize = 0;
    while i < entries.len()
        invariant
            forall|j: int| 0 <= j < entries@.len() ==> (#[trigger] entries@[j]).config.wf(),
            rs == strs_view(running@).to_set(),
            i <= entries@.len(),
            list@.len() == not_running(entries@.subrange(0, i as int), rs).len(),
            pairs@.len() == list@.len(),
            crate::manager::pairs_wf(pairs@),
            forall|k: int| 0 <= k < list@.len() ==> {
                let e = not_running(entries@.subrange(0, i as int), rs)[k];
                &&& (#[trigger] list@[k]).name@ == e.name@
                &&& list@[k].pid == e.pid
                &&& list@[k].restarts == e.restarts
                &&& list@[k].config.wf()
                &&& list@[k].config@ == (match path {
                    Some(p) => crate::manager::with_path(e.config@, p@),
                    None => e.config@,
                })
                &&& pairs@[k].0@ == list@[k].name@
                &&& pairs@[k].1@ == list@[k].config@
            },
        decreases entries@.len() - i,
    {
        let e = &entries[i];
        let ghost s0 = entries@.subrange(0, i as int);
        let ghost s1 = entries@.subrange(0, i + 1);
        proof {
            assert(s1.drop_last() =~= s0);
            assert(s1.last() == entries@[i as int]);
        }
        let mut is_running = false;
        let mut j: usize = 0;
        while j < running.len()
            invariant
                j <= running@.len(),
                is_running == strs_view(running@).subrange(0, j as int).contains(e.name@),
            decreases running@.len() - j,
        {
            if crate::text::str_eq(running[j].as_str(), e.name.as_str()) {
                is_running = true;
            }
            proof {
                let a = strs_view(running@).subrange(0, j as int);
                let b = strs_view(running@).subrange(0, j + 1);
                assert(b =~= a.push(running@[j as int]@));
                if running@[j as int]@ == e.name@ { assert(b[j as int] == e.name@); }
                if b.contains(e.name@) {
                    let t = choose|t: int| 0 <= t < b.len() && b[t] == e.name@;
                    if t < j { assert(a[t] == e.name@); }
                }
                if a.contains(e.name@) {
                    let t = choose|t: int| 0 <= t < a.len() && a[t] == e.name@;
                    assert(b[t] == e.name@);
                }
            }
            j = j + 1;
        }
        proof {
            assert(strs_view(running@).subrange(0, j as int) =~= strs_view(running@));
            assert(is_running == strs_view(running@).to_set().contains(e.name@));
        }
        if !is_running {
            proof { assert(entries@[i as int].config.wf()); }
            let mut config = e.config.duplicate();
            match &path {
                Some(p) => config.set_path(p.as_str(), true),
                None => {},
            }
            let c2 = config.duplicate();
            list.push(DumpEntry { name: e.name.clone(), config, pid: e.pid, restarts: e.restarts });
            pairs.push((e.name.clone(), c2));
            proof {
                assert(not_running(s1, rs) == not_running(s0, rs).push(entries@[i as int]));
                assert forall|k: int| 0 <= k < pairs@.len() implies (#[trigger] pairs@[k]).1.wf() by {
                    if k < pairs@.len() - 1 { assert(list@[k].config.wf()); }
                }
            }
        } else {
            proof { assert(not_running(s1, rs) == not_running(s0, rs)); }
        }
        i = i + 1;
    }
    proof {
        assert(entries@.subrange(0, i as int) =~= entries@);
        let kept = not_running(entries@, rs);
        assert(not_running(entries@.subrange(0, i as int), rs) == kept);
        assert(list@.len() == kept.len());
        assert forall|k: int| 0 <= k < list@.len() implies {
            let e = kept[k];
            &&& (#[trigger] list@[k]).name@ == e.name@
            &&& list@[k].pid == e.pid
            &&& list@[k].restarts == e.restarts
            &&& list@[k].config@ == (match path {
                Some(p) => crate::manager::with_path(e.config@, p@),
                None => e.config@,
            })
        } by {
            assert(not_running(entries@.subrange(0, i as int), rs)[k] == kept[k]);
        }
        assert(pairs_view_of(pairs@) =~= list@.map_values(|e: DumpEntry| (e.name@, e.config@)));
    }
    if list.len() == 0 {
        let empty_configs: StrMap<ProcessConfig> = StrMap::new();
        let no_levels: Vec<Vec<String>> = Vec::new();
        proof {
            empty_configs.lemma_wf();
            assert(configs_view(empty_configs) =~= crate::manager::pairs_map(list@.map_values(|e: DumpEntry| (e.name@, e.config@))));
            let g = graph_of(configs_view(empty_configs));
            assert(crate::deps::layer(g, 0) =~= Set::<Seq<char>>::empty());
            assert(crate::deps::done_after(g, 0) =~= configs_view(empty_configs).dom());
            assert(levels_view(no_levels@) =~= Seq::<Seq<Seq<char>>>::empty());
            assert(crate::deps::is_level_order(g, levels_view(no_levels@)));
            assert(crate::manager::levels_outcome(configs_view(empty_configs), Ok(no_levels)));
        }
        let plan = RestorePlan { entries: list, configs: empty_configs, levels: no_levels };
        return Ok(plan);
    }
    let ghost pv = pairs_view_of(pairs@);
    let configs = crate::manager::collect_configs(pairs);
    proof {
        let kept = not_running(entries@, rs);
        assert(pv =~= restored_pairs(kept, crate::manager::opt_view(path)));
        assert(configs_view(configs) == restore_configs(entries@, rs, crate::manager::opt_view(path)));
    }
    match crate::manager::validated_levels(&configs) {
        Ok(levels) => {
            let plan = RestorePlan { entries: list, configs, levels };
            Ok(plan)
        },
        Err(m) => {
            Err(m)
        },
    }
}

spec fn pairs_view_of(v: Seq<(String, ProcessConfig)>) -> Seq<(Seq<char>, ProcessConfigView)> {
    crate::manager::pairs_view(v)
}

/// The answer to a resurrect.
pub fn resurrect_message(restored: &Vec<String>) -> (r: String)
    ensures
        restored@.len() == 0 ==> r@ == "all processes already running"@,
        restored@.len() > 0 ==> r@ == "resurrected: "@ + join_with(strs_view(restored@), ", "@),
{
    if restored.len() == 0 {
        owned("all processes already running")
    } else {
        listed("resurrected: ", restored)
    }
}

/// What the daemon reports after restoring at start-up: nothing when
/// nothing was restored or there was no dump; else the count and names, or
/// the failure.
pub fn auto_restore_report(outcome: &Result<Vec<String>, String>) -> (r: Option<String>)
    ensures
        match *outcome {
            Ok(v) => if v@.len() == 0 {
                r is None
            } else {
                r is Some && r->Some_0@ == "auto-restored "@ + decimal(v@.len()) + " process(es): "@
                    + join_with(strs_view(v@), ", "@)
            },
            Err(m) => if m@ == "no dump file found"@ {
                r is None
            } else {
                r is Some && r->Some_0@ == "auto-restore failed: "@ + m@
            },
        },
{
    match outcome {
        Ok(v) => {
            if v.len() == 0 {
                None
            } else {
                let d = decimal_string(v.len() as u64);
                let a = concat2("auto-restored ", d.as_str());
                Some(listed(concat2(a.as_str(), " process(es): ").as_str(), v))
            }
        },
        Err(m) => {
            if crate::text::str_eq(m.as_str(), "no dump file found") {
                None
            } else {
                Some(concat2("auto-restore failed: ", m.as_str()))
            }
        },
    }
}


/// With nothing running, every saved entry is restored.
proof fn lemma_none_running(es: Seq<DumpEntry>)
    ensures
        not_running(es, Set::empty()) == es,
    decreases es.len(),
{
    if es.len() > 0 {
        lemma_none_running(es.drop_last());
        assert(es.drop_last().push(es.last()) =~= es);
    }
}

/// With every saved name running, nothing is restored.
proof fn lemma_all_running(es: Seq<DumpEntry>, running: Set<Seq<char>>)
    requires
        forall|i: int| 0 <= i < es.len() ==> running.contains(#[trigger] es[i].name@),
    ensures
        not_running(es, running).len() == 0,
    decreases es.len(),
{
    if es.len() > 0 {
        assert(running.contains(es[es.len() - 1].name@));
        assert forall|i: int| 0 <= i < es.drop_last().len() implies running.contains(#[trigger] es.drop_last()[i].name@) by {
            assert(es.drop_last()[i] == es[i]);
        }
        lemma_all_running(es.drop_last(), running);
    }
}

/// A list of named configurations with distinct names gives each name its
/// own configuration.
proof fn lemma_pairs_map_distinct(v: Seq<(Seq<char>, ProcessConfigView)>)
    requires
        forall|i: int, j: int| 0 <= i < j < v.len() ==> (#[trigger] v[i]).0 != (#[trigger] v[j]).0,
    ensures
        forall|k: Seq<char>| crate::manager::pairs_map(v).dom().contains(k)
            <==> (exists|i: int| 0 <= i < v.len() && (#[trigger] v[i]).0 == k),
        forall|i: int| 0 <= i < v.len() ==> crate::manager::pairs_map(v)[(#[trigger] v[i]).0] == v[i].1,
    decreases v.len(),
{
    if v.len() > 0 {
        let w = v.drop_last();
        assert forall|i: int, j: int| 0 <= i < j < w.len() implies (#[trigger] w[i]).0 != (#[trigger] w[j]).0 by {
            assert(w[i] == v[i] && w[j] == v[j]);
        }
        lemma_pairs_map_distinct(w);
        let n = v.len() - 1;
        assert forall|k: Seq<char>| crate::manager::pairs_map(v).dom().contains(k)
            <==> (exists|i: int| 0 <= i < v.len() && (#[trigger] v[i]).0 == k) by {
            assert(crate::manager::pairs_map(v) == crate::manager::pairs_map(w).insert(v[n].0, v[n].1));
            if crate::manager::pairs_map(v).dom().contains(k) {
                if k == v[n].0 {
                    assert(v[n].0 == k);
                } else {
                    assert(crate::manager::pairs_map(w).dom().contains(k));
                    let i = choose|i: int| 0 <= i < w.len() && (#[trigger] w[i]).0 == k;
                    assert(v[i] == w[i]);
                    assert(v[i].0 == k);
                }
            }
            if exists|i: int| 0 <= i < v.len() && (#[trigger] v[i]).0 == k {
                let i = choose|i: int| 0 <= i < v.len() && (#[trigger] v[i]).0 == k;
                if i < n {
                    assert(w[i] == v[i]);
                    assert(w[i].0 == k);
                }
            }
        }
        assert forall|i: int| 0 <= i < v.len() implies crate::manager::pairs_map(v)[(#[trigger] v[i]).0] == v[i].1 by {
            if i < n {
                assert(w[i] == v[i]);
                assert(v[i].0 != v[n].0);
            }
        }
    }
}

/// A restore reads back what a dump wrote: restoring the dump of a table,
/// with nothing running and no `PATH` to force, starts exactly the table's
/// processes, each with its configuration; with all of them still running,
/// it starts none.
pub proof fn law_restore_of_dump(t: ProcessTable, es: Seq<DumpEntry>)
    requires
        table_wf(t),
        is_dump_of(es, t),
    ensures
        restore_configs(es, Set::empty(), None) == t.as_map().map_values(|r: ProcessRecord| r.config@),
        not_running(es, t.key_seq().to_set()).len() == 0,
{
    t.lemma_wf();
    lemma_none_running(es);
    let v = restored_pairs(es, None);
    assert forall|i: int, j: int| 0 <= i < j < v.len() implies (#[trigger] v[i]).0 != (#[trigger] v[j]).0 by {
        assert(v[i].0 == t.key_seq()[i] && v[j].0 == t.key_seq()[j]);
    }
    lemma_pairs_map_distinct(v);
    let want = t.as_map().map_values(|r: ProcessRecord| r.config@);
    let got = restore_configs(es, Set::empty(), None);
    assert(got == crate::manager::pairs_map(v));
    assert forall|k: Seq<char>| got.dom().contains(k) <==> want.dom().contains(k) by {
        if got.dom().contains(k) {
            let i = choose|i: int| 0 <= i < v.len() && (#[trigger] v[i]).0 == k;
            t.lemma_index(i);
        }
        if want.dom().contains(k) {
            t.lemma_key_index(k);
            let i = t.key_seq().index_of(k);
            assert(v[i].0 == k);
        }
    }
    assert forall|k: Seq<char>| #[trigger] got.dom().contains(k) implies got[k] == want[k] by {
        let i = choose|i: int| 0 <= i < v.len() && (#[trigger] v[i]).0 == k;
        t.lemma_index(i);
        assert(got[v[i].0] == v[i].1);
    }
    assert(got =~= want);
    assert forall|i: int| 0 <= i < es.len() implies t.key_seq().to_set().contains(#[trigger] es[i].name@) by {
        assert(t.key_seq().contains(t.key_seq()[i]));
    }
    lemma_all_running(es, t.key_seq().to_set());
}


/// What a start does with each process: one not in the table, stopped or
/// errored is always spawned (a stopped or errored one keeping its restart
/// count), whatever its configuration; a running one is left alone exactly
/// when its configuration is unchanged, and replaced otherwise.
pub proof fn law_start_spawns_what_is_not_running(status: ProcessStatus, restarts: u32,
    current: ProcessConfigView, c: ProcessConfigView)
    ensures
        start_step_for(None, c) == (StartStep::Spawn { keep_restarts: None }),
        (status == ProcessStatus::Stopped || status == ProcessStatus::Errored)
            ==> start_step_for(Some((status, restarts, current)), c) == (StartStep::Spawn { keep_restarts: Some(restarts) }),
        (status != ProcessStatus::Stopped && status != ProcessStatus::Errored)
            ==> (start_step_for(Some((status, restarts, current)), c) == StartStep::Skip) == (current == c),
        (status != ProcessStatus::Stopped && status != ProcessStatus::Errored)
            ==> !(start_step_for(Some((status, restarts, current)), c) is Spawn),
{
}

} // verus!
