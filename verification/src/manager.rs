//! The decisions of the process manager: cluster expansion, name
//! resolution, environment injection, and the plans and answers of the
//! daemon's commands. The daemon carries them out on its running processes.
use vstd::prelude::*;
use crate::config::{ProcessConfig, ProcessConfigView, EnvVars, vars_or_empty, vars_view, opt_vars_view};
use crate::deps::{DepsError, configs_wf, dep_graph, deps_known, deps_error_text, done_after, is_level_order,
    levels_view, topological_levels, validate_deps, expand_dependents, dependents_closure, is_start_order};
use crate::protocol::{ProcessStatus, status_text};
use crate::strmap::{StrMap, key_views};
use crate::text::{concat2, decimal, decimal_string, digit_char, join_strings, join_with, owned, strs_view};

verus! {

/// The configurations as a mathematical map, each by its model.
pub open spec fn configs_view(m: StrMap<ProcessConfig>) -> Map<Seq<char>, ProcessConfigView> {
    m.as_map().map_values(|c: ProcessConfig| c@)
}

/// Number of instances a configuration asks for (one when unset).
pub open spec fn instances_of(c: ProcessConfigView) -> u32 {
    match c.instances {
        Some(n) => n,
        None => 1,
    }
}

/// Clustered names (more than one instance) and their instance counts.
pub open spec fn cluster_counts(m: Map<Seq<char>, ProcessConfigView>) -> Map<Seq<char>, u32> {
    Map::new(|k: Seq<char>| m.dom().contains(k) && instances_of(m[k]) > 1, |k: Seq<char>| instances_of(m[k]))
}

/// The name of instance `i` of a clustered process: `<name>:<i>`.
pub open spec fn instance_name(name: Seq<char>, i: nat) -> Seq<char> {
    name + ":"@ + decimal(i)
}

/// The names of instances `0..count`.
pub open spec fn instance_names(name: Seq<char>, count: nat) -> Seq<Seq<char>> {
    Seq::new(count, |i: int| instance_name(name, i as nat))
}

/// A dependency list with each clustered name replaced by its instance names.
pub open spec fn rewrite_deps(deps: Seq<Seq<char>>, cm: Map<Seq<char>, u32>) -> Seq<Seq<char>>
    decreases deps.len(),
{
    if deps.len() == 0 {
        Seq::empty()
    } else {
        rewrite_deps(deps.drop_last(), cm) + if cm.dom().contains(deps.last()) {
            instance_names(deps.last(), cm[deps.last()] as nat)
        } else {
            seq![deps.last()]
        }
    }
}

pub open spec fn rewrite_opt_deps(deps: Option<Seq<Seq<char>>>, cm: Map<Seq<char>, u32>) -> Option<Seq<Seq<char>>> {
    match deps {
        Some(d) => Some(rewrite_deps(d, cm)),
        None => None,
    }
}

/// An unclustered entry keeps its configuration, with dependencies rewritten.
pub open spec fn plain_entry(c: ProcessConfigView, cm: Map<Seq<char>, u32>) -> ProcessConfigView {
    ProcessConfigView { depends_on: rewrite_opt_deps(c.depends_on, cm), ..c }
}

/// The configuration of instance `i` of `n` of the clustered `name`.
pub open spec fn instance_entry(name: Seq<char>, c: ProcessConfigView, i: nat, n: nat, cm: Map<Seq<char>, u32>) -> ProcessConfigView {
    ProcessConfigView {
        instances: Some(1),
        depends_on: rewrite_opt_deps(c.depends_on, cm),
        group: match c.group {
            Some(g) => Some(g),
            None => Some(name),
        },
        env: Some(vars_or_empty(c.env).insert("PM3_INSTANCE_ID"@, decimal(i)).insert("PM3_INSTANCE_COUNT"@, decimal(n))),
        ..c
    }
}

/// `m` with instances `0..k` of the clustered `name` added.
pub open spec fn add_instances(m: Map<Seq<char>, ProcessConfigView>, name: Seq<char>, c: ProcessConfigView, n: nat,
    cm: Map<Seq<char>, u32>, k: nat) -> Map<Seq<char>, ProcessConfigView>
    decreases k,
{
    if k == 0 {
        m
    } else {
        add_instances(m, name, c, n, cm, (k - 1) as nat).insert(instance_name(name, (k - 1) as nat),
            instance_entry(name, c, (k - 1) as nat, n, cm))
    }
}

/// The expansion of the entries `ks`/`vs`, taken in order.
pub open spec fn expand_entries(ks: Seq<Seq<char>>, vs: Seq<ProcessConfigView>, cm: Map<Seq<char>, u32>)
    -> Map<Seq<char>, ProcessConfigView>
    decreases ks.len(),
{
    if ks.len() == 0 || vs.len() != ks.len() {
        Map::empty()
    } else {
        let m = expand_entries(ks.drop_last(), vs.drop_last(), cm);
        let c = vs.last();
        let n = instances_of(c);
        if n <= 1 {
            m.insert(ks.last(), plain_entry(c, cm))
        } else {
            add_instances(m, ks.last(), c, n as nat, cm, n as nat)
        }
    }
}

/// The models of the configurations, in iteration order.
pub open spec fn config_views(vs: Seq<ProcessConfig>) -> Seq<ProcessConfigView> {
    vs.map_values(|c: ProcessConfig| c@)
}

/// Every instance of a cluster keeps the cluster entry's environment: each
/// of its variables with its value, and besides them only
/// `PM3_INSTANCE_ID` (the instance's number) and `PM3_INSTANCE_COUNT` (the
/// number of instances). Its command and working directory are the entry's,
/// and it is one instance.
pub proof fn law_instances_keep_the_environment(name: Seq<char>, c: ProcessConfigView, i: nat, n: nat,
    cm: Map<Seq<char>, u32>, k: Seq<char>)
    ensures
        instance_entry(name, c, i, n, cm).env is Some,
        instance_entry(name, c, i, n, cm).env->0["PM3_INSTANCE_ID"@] == decimal(i),
        instance_entry(name, c, i, n, cm).env->0["PM3_INSTANCE_COUNT"@] == decimal(n),
        k != "PM3_INSTANCE_ID"@ && k != "PM3_INSTANCE_COUNT"@ ==> (
            instance_entry(name, c, i, n, cm).env->0.dom().contains(k) == vars_or_empty(c.env).dom().contains(k)
            && (vars_or_empty(c.env).dom().contains(k)
                ==> instance_entry(name, c, i, n, cm).env->0[k] == vars_or_empty(c.env)[k])),
        instance_entry(name, c, i, n, cm).env->0.dom()
            == vars_or_empty(c.env).dom().insert("PM3_INSTANCE_ID"@).insert("PM3_INSTANCE_COUNT"@),
        instance_entry(name, c, i, n, cm).command == c.command,
        instance_entry(name, c, i, n, cm).cwd == c.cwd,
        instance_entry(name, c, i, n, cm).instances == Some(1u32),
{
    reveal_strlit("PM3_INSTANCE_ID");
    reveal_strlit("PM3_INSTANCE_COUNT");
    assert("PM3_INSTANCE_ID"@ != "PM3_INSTANCE_COUNT"@) by {
        assert("PM3_INSTANCE_ID"@.len() != "PM3_INSTANCE_COUNT"@.len());
    }
    let e = instance_entry(name, c, i, n, cm).env->0;
    assert(e.dom() =~= vars_or_empty(c.env).dom().insert("PM3_INSTANCE_ID"@).insert("PM3_INSTANCE_COUNT"@));
}

/// `<name>:<i>` as a string.
pub fn make_instance_name(name: &String, i: u32) -> (r: String)
    ensures
        r@ == instance_name(name@, i as nat),
{
    let mut r = name.clone();
    r.append(":");
    let d = decimal_string(i as u64);
    r.append(d.as_str());
    r
}

/// The clustered names of `configs` and their instance counts.
fn collect_clusters(configs: &StrMap<ProcessConfig>) -> (r: StrMap<u32>)
    requires
        configs.wf(),
    ensures
        r.wf(),
        r.as_map() == cluster_counts(configs_view(*configs)),
{
    let mut r: StrMap<u32> = StrMap::new();
    let n = configs.len();
    let mut i: usize = 0;
    let ghost cm = cluster_counts(configs_view(*configs));
    proof { configs.lemma_wf(); }
    while i < n
        invariant
            configs.wf(),
            n == configs.key_seq().len(),
            n == configs.val_seq().len(),
            configs.key_seq().no_duplicates(),
            cm == cluster_counts(configs_view(*configs)),
            i <= n,
            r.wf(),
            r.as_map() == cm.restrict(configs.key_seq().subrange(0, i as int).to_set()),
        decreases n - i,
    {
        let c = configs.value_at(i);
        let k = configs.key_at(i);
        proof { configs.lemma_index(i as int); }
        let count: u32 = match c.instances {
            Some(x) => x,
            None => 1,
        };
        let ghost before = r.as_map();
        if count > 1 {
            r.insert(k.clone(), count);
        }
        proof {
            let s0 = configs.key_seq().subrange(0, i as int).to_set();
            let s1 = configs.key_seq().subrange(0, i + 1).to_set();
            assert forall|q: Seq<char>| s1.contains(q) <==> s0.insert(k@).contains(q) by {
                lemma_prefix_contains(configs.key_seq(), i as int, q);
            }
            assert(s1 =~= s0.insert(k@));
            assert(r.as_map() =~= cm.restrict(s1));
        }
        i = i + 1;
    }
    proof {
        assert(configs.key_seq().subrange(0, n as int) =~= configs.key_seq());
        assert(cm.dom().subset_of(configs.key_seq().to_set()));
        assert(cm.restrict(configs.key_seq().to_set()) =~= cm);
    }
    r
}

proof fn lemma_prefix_contains<A>(s: Seq<A>, i: int, q: A)
    requires
        0 <= i < s.len(),
    ensures
        s.subrange(0, i + 1).contains(q) <==> (s.subrange(0, i).contains(q) || q == s[i]),
{
    let s0 = s.subrange(0, i);
    let s1 = s.subrange(0, i + 1);
    if s1.contains(q) && q != s[i] {
        let t = choose|t: int| 0 <= t < s1.len() && s1[t] == q;
        assert(s0[t] == q);
    }
    if s0.contains(q) {
        let t = choose|t: int| 0 <= t < s0.len() && s0[t] == q;
        assert(s1[t] == q);
    }
    if q == s[i] {
        assert(s1[i] == q);
    }
}

} // verus!

verus! {

/// A dependency list with each clustered name replaced by its instance names.
fn rewrite_deps_exec(deps: &Option<Vec<String>>, cluster: &StrMap<u32>) -> (r: Option<Vec<String>>)
    requires
        cluster.wf(),
    ensures
        crate::config::opt_strs_view(r) == rewrite_opt_deps(crate::config::opt_strs_view(*deps), cluster.as_map()),
{
    match deps {
        None => None,
        Some(ds) => {
            let ghost cm = cluster.as_map();
            let mut out: Vec<String> = Vec::new();
            let mut i: usize = 0;
            while i < ds.len()
                invariant
                    cluster.wf(),
                    cm == cluster.as_map(),
                    i <= ds@.len(),
                    strs_view(out@) == rewrite_deps(key_views(ds@).subrange(0, i as int), cm),
                decreases ds@.len() - i,
            {
                let d = &ds[i];
                let ghost before = strs_view(out@);
                let ghost sub = key_views(ds@).subrange(0, i + 1);
                proof {
                    assert(sub.drop_last() =~= key_views(ds@).subrange(0, i as int));
                    assert(sub.last() == d@);
                }
                match cluster.get(d.as_str()) {
                    Some(count) => {
                        let count = *count;
                        let mut j: u32 = 0;
                        while j < count
                            invariant
                                j <= count,
                                strs_view(out@) == before + instance_names(d@, j as nat),
                            decreases count - j,
                        {
                            let nm = make_instance_name(d, j);
                            let ghost ob = out@;
                            out.push(nm);
                            proof {
                                assert(strs_view(out@) =~= strs_view(ob).push(nm@));
                                assert(instance_names(d@, (j + 1) as nat) =~= instance_names(d@, j as nat).push(instance_name(d@, j as nat)));
                                assert(strs_view(out@) =~= before + instance_names(d@, (j + 1) as nat));
                            }
                            j = j + 1;
                        }
                    },
                    None => {
                        out.push(d.clone());
                        proof {
                            assert(strs_view(out@) =~= before + seq![d@]);
                        }
                    },
                }
                i = i + 1;
            }
            proof {
                assert(key_views(ds@).subrange(0, i as int) =~= key_views(ds@));
            }
            Some(out)
        },
    }
}

/// Expands clustered processes: an entry with `instances > 1` is replaced by
/// entries `<name>:0` .. `<name>:<n-1>` (each with `instances = 1`, its group
/// defaulting to `<name>`, and `PM3_INSTANCE_ID` / `PM3_INSTANCE_COUNT` set in
/// its environment), and dependencies on a clustered name are rewritten to its
/// instances. Without clustered entries the configurations are returned as is.
pub fn expand_instances(configs: StrMap<ProcessConfig>) -> (r: StrMap<ProcessConfig>)
    requires
        crate::deps::configs_wf(configs),
    ensures
        crate::deps::configs_wf(r),
        cluster_counts(configs_view(configs)).dom().is_empty() ==> r == configs,
        !cluster_counts(configs_view(configs)).dom().is_empty() ==> configs_view(r) == expand_entries(
            configs.key_seq(), config_views(configs.val_seq()), cluster_counts(configs_view(configs))),
{
    let cluster = collect_clusters(&configs);
    if cluster.len() == 0 {
        proof {
            cluster.lemma_wf();
            assert(cluster.as_map().dom() =~= Set::<Seq<char>>::empty());
        }
        return configs;
    }
    let ghost cm = cluster.as_map();
    proof {
        cluster.lemma_wf();
        assert(cluster.key_seq().len() > 0);
        assert(cm.dom().contains(cluster.key_seq()[0]));
    }
    let mut result: StrMap<ProcessConfig> = StrMap::new();
    let n = configs.len();
    proof { configs.lemma_wf(); result.lemma_wf(); }
    let mut i: usize = 0;
    while i < n
        invariant
            crate::deps::configs_wf(configs),
            n == configs.key_seq().len(),
            n == configs.val_seq().len(),
            cluster.wf(),
            cm == cluster.as_map(),
            cm == cluster_counts(configs_view(configs)),
            i <= n,
            crate::deps::configs_wf(result),
            configs_view(result) == expand_entries(configs.key_seq().subrange(0, i as int),
                config_views(configs.val_seq()).subrange(0, i as int), cm),
        decreases n - i,
    {
        let name = configs.key_at(i);
        let config = configs.value_at(i);
        let count: u32 = match config.instances {
            Some(x) => x,
            None => 1,
        };
        let ghost before = configs_view(result);
        let ghost ks = configs.key_seq().subrange(0, i + 1);
        let ghost vs = config_views(configs.val_seq()).subrange(0, i + 1);
        proof {
            assert(ks.drop_last() =~= configs.key_seq().subrange(0, i as int));
            assert(vs.drop_last() =~= config_views(configs.val_seq()).subrange(0, i as int));
            assert(ks.last() == name@);
            assert(vs.last() == config@);
            assert(configs.val_seq()[i as int].wf());
        }
        if count <= 1 {
            let mut cfg = config.duplicate();
            cfg.depends_on = rewrite_deps_exec(&config.depends_on, &cluster);
            proof {
                assert(cfg@ == plain_entry(config@, cm));
            }
            let ghost rb = result;
            result.insert(name.clone(), cfg);
            proof {
                lemma_insert_configs_wf(rb, result, name@, cfg);
                assert(configs_view(result) =~= before.insert(name@, plain_entry(config@, cm)));
            }
        } else {
            let mut j: u32 = 0;
            while j < count
                invariant
                    crate::deps::configs_wf(result),
                    config.wf(),
                    cluster.wf(),
                    cm == cluster.as_map(),
                    count == instances_of(config@),
                    j <= count,
                    configs_view(result) == add_instances(before, name@, config@, count as nat, cm, j as nat),
                decreases count - j,
            {
                let mut cfg = config.duplicate();
                cfg.instances = Some(1);
                cfg.depends_on = rewrite_deps_exec(&config.depends_on, &cluster);
                if cfg.group.is_none() {
                    cfg.group = Some(name.clone());
                }
                let mut env: EnvVars = match cfg.env.take() {
                    Some(m) => m,
                    None => StrMap::new(),
                };
                let ghost env0 = vars_view(env);
                proof {
                    assert(env0 =~= vars_or_empty(config@.env));
                }
                env.insert("PM3_INSTANCE_ID".to_string(), decimal_string(j as u64));
                env.insert("PM3_INSTANCE_COUNT".to_string(), decimal_string(count as u64));
                proof {
                    assert(vars_view(env) =~= env0.insert("PM3_INSTANCE_ID"@, decimal(j as nat)).insert("PM3_INSTANCE_COUNT"@, decimal(count as nat)));
                }
                cfg.env = Some(env);
                let inst = make_instance_name(name, j);
                proof {
                    assert(cfg@ == instance_entry(name@, config@, j as nat, count as nat, cm));
                }
                let ghost rb = result;
                result.insert(inst, cfg);
                proof {
                    lemma_insert_configs_wf(rb, result, instance_name(name@, j as nat), cfg);
                    assert(configs_view(result) =~= configs_view(rb).insert(instance_name(name@, j as nat),
                        instance_entry(name@, config@, j as nat, count as nat, cm)));
                }
                j = j + 1;
            }
        }
        proof {
            assert(configs_view(result) == expand_entries(ks, vs, cm));
        }
        i = i + 1;
    }
    proof {
        assert(configs.key_seq().subrange(0, n as int) =~= configs.key_seq());
        assert(config_views(configs.val_seq()).subrange(0, n as int) =~= config_views(configs.val_seq()));
    }
    result
}

proof fn lemma_insert_configs_wf(before: StrMap<ProcessConfig>, after: StrMap<ProcessConfig>, k: Seq<char>, c: ProcessConfig)
    requires
        crate::deps::configs_wf(before),
        after.wf(),
        c.wf(),
        after.as_map() == before.as_map().insert(k, c),
        before.key_seq().contains(k) ==> after.key_seq() == before.key_seq(),
        !before.key_seq().contains(k) ==> after.key_seq() == before.key_seq().push(k),
    ensures
        crate::deps::configs_wf(after),
        configs_view(after) == configs_view(before).insert(k, c@),
{
    before.lemma_wf();
    after.lemma_wf();
    assert forall|j: int| 0 <= j < after.val_seq().len() implies (#[trigger] after.val_seq()[j]).wf() by {
        after.lemma_index(j);
        let q = after.key_seq()[j];
        if q == k {
        } else {
            assert(before.as_map().dom().contains(q));
            before.lemma_key_index(q);
            let t = before.key_seq().index_of(q);
            before.lemma_index(t);
        }
    }
    assert(configs_view(after) =~= configs_view(before).insert(k, c@));
}

} // verus!

verus! {

/// The names of `ks` that start with `p`, in order.
pub open spec fn names_with_prefix(ks: Seq<Seq<char>>, p: Seq<char>) -> Seq<Seq<char>>
    decreases ks.len(),
{
    if ks.len() == 0 {
        Seq::empty()
    } else {
        names_with_prefix(ks.drop_last(), p) + if crate::text::is_prefix(p, ks.last()) {
            seq![ks.last()]
        } else {
            Seq::empty()
        }
    }
}

/// The names of `ks` whose group (in `gs`, at the same index) is `group`, in order.
pub open spec fn names_in_group(ks: Seq<Seq<char>>, gs: Seq<Option<Seq<char>>>, group: Seq<char>) -> Seq<Seq<char>>
    decreases ks.len(),
{
    if ks.len() == 0 || gs.len() != ks.len() {
        Seq::empty()
    } else {
        names_in_group(ks.drop_last(), gs.drop_last(), group) + if gs.last() == Some(group) {
            seq![ks.last()]
        } else {
            Seq::empty()
        }
    }
}

/// What one requested name stands for: itself if it is a name; else the
/// instances `<name>:*` of a cluster; else the members of a group; else
/// nothing (`None`).
pub open spec fn resolve_one(req: Seq<char>, ks: Seq<Seq<char>>, gs: Seq<Option<Seq<char>>>) -> Option<Seq<Seq<char>>> {
    if ks.contains(req) {
        Some(seq![req])
    } else if names_with_prefix(ks, req + ":"@).len() > 0 {
        Some(names_with_prefix(ks, req + ":"@))
    } else if names_in_group(ks, gs, req).len() > 0 {
        Some(names_in_group(ks, gs, req))
    } else {
        None
    }
}

/// The resolution of the requested names, in order, or the first name that
/// resolves to nothing.
pub open spec fn resolve_all(reqs: Seq<Seq<char>>, ks: Seq<Seq<char>>, gs: Seq<Option<Seq<char>>>) -> Result<Seq<Seq<char>>, Seq<char>>
    decreases reqs.len(),
{
    if reqs.len() == 0 {
        Ok(Seq::empty())
    } else {
        match resolve_all(reqs.drop_last(), ks, gs) {
            Err(e) => Err(e),
            Ok(prev) => match resolve_one(reqs.last(), ks, gs) {
                Some(s) => Ok(prev + s),
                None => Err(reqs.last()),
            },
        }
    }
}

pub open spec fn opt_view(o: Option<String>) -> Option<Seq<char>> {
    match o {
        Some(s) => Some(s@),
        None => None,
    }
}

/// The groups of a list, by their characters.
pub open spec fn groups_view(gs: Seq<Option<String>>) -> Seq<Option<Seq<char>>> {
    gs.map_values(|g: Option<String>| opt_view(g))
}

proof fn lemma_resolve_err_extends(reqs: Seq<Seq<char>>, k: int, ks: Seq<Seq<char>>, gs: Seq<Option<Seq<char>>>)
    requires
        0 <= k <= reqs.len(),
        resolve_all(reqs.subrange(0, k), ks, gs) is Err,
    ensures
        resolve_all(reqs, ks, gs) == resolve_all(reqs.subrange(0, k), ks, gs),
    decreases reqs.len() - k,
{
    if k < reqs.len() {
        let s1 = reqs.subrange(0, k + 1);
        assert(s1.drop_last() =~= reqs.subrange(0, k));
        lemma_resolve_err_extends(reqs, k + 1, ks, gs);
    } else {
        assert(reqs.subrange(0, k) =~= reqs);
    }
}

/// Resolves requested names against the names `keys` (with groups `groups`):
/// returns the resolved names, or the first requested name that matches
/// nothing.
pub fn resolve_names(requested: &[String], keys: &Vec<String>, groups: &Vec<Option<String>>) -> (r: Result<Vec<String>, String>)
    requires
        keys@.len() == groups@.len(),
    ensures
        match r {
            Ok(v) => resolve_all(strs_view(requested@), strs_view(keys@), groups_view(groups@)) == Ok::<Seq<Seq<char>>, Seq<char>>(strs_view(v@)),
            Err(e) => resolve_all(strs_view(requested@), strs_view(keys@), groups_view(groups@)) == Err::<Seq<Seq<char>>, Seq<char>>(e@),
        },
{
    let ghost ks = strs_view(keys@);
    let ghost gs = groups_view(groups@);
    let mut result: Vec<String> = Vec::new();
    let mut i: usize = 0;
    proof {
        assert(strs_view(result@) =~= Seq::<Seq<char>>::empty());
        assert(strs_view(requested@).subrange(0, 0).len() == 0);
    }
    while i < requested.len()
        invariant
            keys@.len() == groups@.len(),
            ks == strs_view(keys@),
            gs == groups_view(groups@),
            i <= requested@.len(),
            resolve_all(strs_view(requested@).subrange(0, i as int), ks, gs) == Ok::<Seq<Seq<char>>, Seq<char>>(strs_view(result@)),
        decreases requested@.len() - i,
    {
        let name = &requested[i];
        let ghost sub = strs_view(requested@).subrange(0, i + 1);
        let ghost before = strs_view(result@);
        proof {
            assert(sub.drop_last() =~= strs_view(requested@).subrange(0, i as int));
            assert(sub.last() == name@);
        }
        // exact name
        let mut found = false;
        let mut k: usize = 0;
        while k < keys.len()
            invariant
                k <= keys@.len(),
                ks == strs_view(keys@),
                found == ks.subrange(0, k as int).contains(name@),
            decreases keys@.len() - k,
        {
            if keys[k] == *name {
                found = true;
            }
            proof { lemma_prefix_contains(ks, k as int, name@); }
            k = k + 1;
        }
        proof { assert(ks.subrange(0, k as int) =~= ks); }
        if found {
            result.push(name.clone());
            proof {
                assert(strs_view(result@) =~= before + seq![name@]);
            }
        } else {
            let prefix = crate::text::concat2(name.as_str(), ":");
            let mut cluster: Vec<String> = Vec::new();
            let mut k: usize = 0;
            while k < keys.len()
                invariant
                    k <= keys@.len(),
                    ks == strs_view(keys@),
                    strs_view(cluster@) == names_with_prefix(ks.subrange(0, k as int), prefix@),
                decreases keys@.len() - k,
            {
                let ghost sk = ks.subrange(0, k + 1);
                proof {
                    assert(sk.drop_last() =~= ks.subrange(0, k as int));
                }
                let ghost cb = cluster@;
                if crate::text::starts_with(keys[k].as_str(), prefix.as_str()) {
                    cluster.push(keys[k].clone());
                    proof { assert(strs_view(cluster@) =~= strs_view(cb).push(keys@[k as int]@)); }
                } else {
                    proof { assert(strs_view(cluster@) =~= strs_view(cb) + Seq::<Seq<char>>::empty()); }
                }
                k = k + 1;
            }
            proof { assert(ks.subrange(0, k as int) =~= ks); }
            if cluster.len() > 0 {
                let mut c: usize = 0;
                let ghost rb = strs_view(result@);
                while c < cluster.len()
                    invariant
                        c <= cluster@.len(),
                        strs_view(result@) == rb + strs_view(cluster@).subrange(0, c as int),
                    decreases cluster@.len() - c,
                {
                    let ghost ob = result@;
                    result.push(cluster[c].clone());
                    proof {
                        assert(strs_view(result@) =~= strs_view(ob).push(cluster@[c as int]@));
                        assert(strs_view(result@) =~= rb + strs_view(cluster@).subrange(0, c + 1));
                    }
                    c = c + 1;
                }
                proof { assert(strs_view(cluster@).subrange(0, c as int) =~= strs_view(cluster@)); }
            } else {
                let mut members: Vec<String> = Vec::new();
                let mut k: usize = 0;
                while k < keys.len()
                    invariant
                        k <= keys@.len(),
                        keys@.len() == groups@.len(),
                        ks == strs_view(keys@),
                        gs == groups_view(groups@),
                        strs_view(members@) == names_in_group(ks.subrange(0, k as int), gs.subrange(0, k as int), name@),
                    decreases keys@.len() - k,
                {
                    proof {
                        assert(ks.subrange(0, k + 1).drop_last() =~= ks.subrange(0, k as int));
                        assert(gs.subrange(0, k + 1).drop_last() =~= gs.subrange(0, k as int));
                        assert(gs[k as int] == opt_view(groups@[k as int]));
                    }
                    let ghost mb = members@;
                    let in_group = match &groups[k] {
                        Some(g) => *g == *name,
                        None => false,
                    };
                    if in_group {
                        members.push(keys[k].clone());
                        proof { assert(strs_view(members@) =~= strs_view(mb).push(keys@[k as int]@)); }
                    } else {
                        proof { assert(strs_view(members@) =~= strs_view(mb) + Seq::<Seq<char>>::empty()); }
                    }
                    k = k + 1;
                }
                proof {
                    assert(ks.subrange(0, k as int) =~= ks);
                    assert(gs.subrange(0, k as int) =~= gs);
                }
                if members.len() == 0 {
                    proof {
                        assert(resolve_one(name@, ks, gs) is None);
                        assert(resolve_all(sub, ks, gs) == Err::<Seq<Seq<char>>, Seq<char>>(name@));
                        lemma_resolve_err_extends(strs_view(requested@), (i + 1) as int, ks, gs);
                    }
                    return Err(name.clone());
                }
                let mut c: usize = 0;
                let ghost rb = strs_view(result@);
                while c < members.len()
                    invariant
                        c <= members@.len(),
                        strs_view(result@) == rb + strs_view(members@).subrange(0, c as int),
                    decreases members@.len() - c,
                {
                    let ghost ob = result@;
                    result.push(members[c].clone());
                    proof {
                        assert(strs_view(result@) =~= strs_view(ob).push(members@[c as int]@));
                        assert(strs_view(result@) =~= rb + strs_view(members@).subrange(0, c + 1));
                    }
                    c = c + 1;
                }
                proof { assert(strs_view(members@).subrange(0, c as int) =~= strs_view(members@)); }
            }
        }
        i = i + 1;
    }
    proof { assert(strs_view(requested@).subrange(0, i as int) =~= strs_view(requested@)); }
    Ok(result)
}

} // verus!

verus! {

/// The plain state of a managed process that the daemon's decisions read:
/// its configuration, pid, status and restart count.
#[derive(Debug)]
pub struct ProcessRecord {
    pub config: ProcessConfig,
    pub pid: Option<u32>,
    pub status: ProcessStatus,
    pub restarts: u32,
}

/// A table of managed processes, by name.
pub type ProcessTable = StrMap<ProcessRecord>;

/// The table is well formed and so is every configuration in it.
pub open spec fn table_wf(t: ProcessTable) -> bool {
    &&& t.wf()
    &&& forall|i: int| 0 <= i < t.val_seq().len() ==> (#[trigger] t.val_seq()[i]).config.wf()
}

/// The group of each configuration, in iteration order.
pub open spec fn config_groups(configs: StrMap<ProcessConfig>) -> Seq<Option<Seq<char>>> {
    configs.val_seq().map_values(|c: ProcessConfig| c@.group)
}

/// The group of each process of a table, in iteration order.
pub open spec fn table_groups(t: ProcessTable) -> Seq<Option<Seq<char>>> {
    t.val_seq().map_values(|r: ProcessRecord| r.config@.group)
}

fn groups_of_configs(configs: &StrMap<ProcessConfig>) -> (r: Vec<Option<String>>)
    requires
        configs.wf(),
    ensures
        groups_view(r@) == config_groups(*configs),
        r@.len() == configs.key_seq().len(),
{
    proof { configs.lemma_wf(); }
    let n = configs.len();
    let mut r: Vec<Option<String>> = Vec::new();
    let mut i: usize = 0;
    while i < n
        invariant
            configs.wf(),
            n == configs.val_seq().len(),
            n == configs.key_seq().len(),
            i <= n,
            groups_view(r@) == config_groups(*configs).subrange(0, i as int),
        decreases n - i,
    {
        let g = match &configs.value_at(i).group {
            Some(g) => Some(g.clone()),
            None => None,
        };
        let ghost r0 = r@;
        r.push(g);
        proof {
            assert(groups_view(r@) =~= groups_view(r0).push(opt_view(g)));
            assert(groups_view(r@) =~= config_groups(*configs).subrange(0, i + 1));
        }
        i = i + 1;
    }
    proof { assert(config_groups(*configs).subrange(0, i as int) =~= config_groups(*configs)); }
    r
}

fn groups_of_table(t: &ProcessTable) -> (r: Vec<Option<String>>)
    requires
        t.wf(),
    ensures
        groups_view(r@) == table_groups(*t),
        r@.len() == t.key_seq().len(),
{
    proof { t.lemma_wf(); }
    let n = t.len();
    let mut r: Vec<Option<String>> = Vec::new();
    let mut i: usize = 0;
    while i < n
        invariant
            t.wf(),
            n == t.val_seq().len(),
            n == t.key_seq().len(),
            i <= n,
            groups_view(r@) == table_groups(*t).subrange(0, i as int),
        decreases n - i,
    {
        let g = match &t.value_at(i).config.group {
            Some(g) => Some(g.clone()),
            None => None,
        };
        let ghost r0 = r@;
        r.push(g);
        proof {
            assert(groups_view(r@) =~= groups_view(r0).push(opt_view(g)));
            assert(groups_view(r@) =~= table_groups(*t).subrange(0, i + 1));
        }
        i = i + 1;
    }
    proof { assert(table_groups(*t).subrange(0, i as int) =~= table_groups(*t)); }
    r
}

/// Resolves requested names against configurations: a configured name
/// stands for itself, a cluster name for its instances, a group name for its
/// members; the error names the first request that matches nothing.
pub fn resolve_config_names(requested: &[String], configs: &StrMap<ProcessConfig>) -> (r: Result<Vec<String>, String>)
    requires
        configs.wf(),
    ensures
        match resolve_all(strs_view(requested@), configs.key_seq(), config_groups(*configs)) {
            Ok(s) => r is Ok && strs_view(r->Ok_0@) == s,
            Err(n) => r is Err && r->Err_0@ == "process or group '"@ + n + "' not found in configs"@,
        },
{
    let keys = configs.keys();
    let groups = groups_of_configs(configs);
    proof { assert(strs_view(keys@) =~= configs.key_seq()); }
    match resolve_names(requested, &keys, &groups) {
        Ok(v) => Ok(v),
        Err(name) => {
            let a = concat2("process or group '", name.as_str());
            Err(concat2(a.as_str(), "' not found in configs"))
        },
    }
}

/// Resolves requested names against the process table, as
/// `resolve_config_names` does against configurations.
pub fn resolve_table_names(requested: &[String], table: &ProcessTable) -> (r: Result<Vec<String>, String>)
    requires
        table.wf(),
    ensures
        match resolve_all(strs_view(requested@), table.key_seq(), table_groups(*table)) {
            Ok(s) => r is Ok && strs_view(r->Ok_0@) == s,
            Err(n) => r is Err && r->Err_0@ == "process or group not found: "@ + n,
        },
{
    let keys = table.keys();
    let groups = groups_of_table(table);
    proof { assert(strs_view(keys@) =~= table.key_seq()); }
    match resolve_names(requested, &keys, &groups) {
        Ok(v) => Ok(v),
        Err(name) => Err(concat2("process or group not found: ", name.as_str())),
    }
}

/// The configurations of the processes of a table, by name.
pub fn table_configs(t: &ProcessTable) -> (r: StrMap<ProcessConfig>)
    requires
        table_wf(*t),
    ensures
        configs_wf(r),
        r.key_seq() == t.key_seq(),
        forall|i: int| 0 <= i < r.val_seq().len() ==> (#[trigger] r.val_seq()[i])@ == t.val_seq()[i].config@,
        configs_view(r) == t.as_map().map_values(|x: ProcessRecord| x.config@),
{
    proof { t.lemma_wf(); }
    let n = t.len();
    let mut r: StrMap<ProcessConfig> = StrMap::new();
    proof { r.lemma_wf(); }
    let mut i: usize = 0;
    while i < n
        invariant
            table_wf(*t),
            n == t.val_seq().len(),
            n == t.key_seq().len(),
            t.key_seq().no_duplicates(),
            i <= n,
            configs_wf(r),
            r.key_seq() == t.key_seq().subrange(0, i as int),
            r.val_seq().len() == i,
            forall|j: int| 0 <= j < i ==> (#[trigger] r.val_seq()[j])@ == t.val_seq()[j].config@,
        decreases n - i,
    {
        let k = t.key_at(i).clone();
        let c = t.value_at(i).config.duplicate();
        proof {
            assert(t.val_seq()[i as int].config.wf());
            assert(!r.key_seq().contains(k@)) by {
                if r.key_seq().contains(k@) {
                    let j = choose|j: int| 0 <= j < r.key_seq().len() && r.key_seq()[j] == k@;
                    assert(t.key_seq()[j] == t.key_seq()[i as int]);
                }
            }
        }
        let ghost r0 = r;
        r.insert(k, c);
        proof {
            r.lemma_wf();
            r0.lemma_wf();
            assert(r.key_seq() =~= t.key_seq().subrange(0, i + 1));
            assert forall|j: int| 0 <= j < r.val_seq().len() implies (#[trigger] r.val_seq()[j]).wf() by {
                r.lemma_index(j);
                if j < i {
                    r0.lemma_index(j);
                } 
            }
            assert forall|j: int| 0 <= j < i + 1 implies (#[trigger] r.val_seq()[j])@ == t.val_seq()[j].config@ by {
                r.lemma_index(j);
                if j < i {
                    r0.lemma_index(j);
                }
            }
        }
        i = i + 1;
    }
    proof {
        assert(t.key_seq().subrange(0, i as int) =~= t.key_seq());
        r.lemma_wf();
        assert forall|k: Seq<char>| #[trigger] configs_view(r).dom().contains(k) <==> t.as_map().dom().contains(k) by {}
        assert forall|k: Seq<char>| configs_view(r).dom().contains(k) implies
            #[trigger] configs_view(r)[k] == t.as_map().map_values(|x: ProcessRecord| x.config@)[k] by {
            r.lemma_key_index(k);
            let idx = r.key_seq().index_of(k);
            r.lemma_index(idx);
            t.lemma_index(idx);
        }
        assert(configs_view(r) =~= t.as_map().map_values(|x: ProcessRecord| x.config@));
    }
    r
}

} // verus!

verus! {

/// Named configurations, each by its name and model.
pub open spec fn pairs_view(v: Seq<(String, ProcessConfig)>) -> Seq<(Seq<char>, ProcessConfigView)> {
    v.map_values(|p: (String, ProcessConfig)| (p.0@, p.1@))
}

/// Every configuration of the list is well formed.
pub open spec fn pairs_wf(v: Seq<(String, ProcessConfig)>) -> bool {
    forall|i: int| 0 <= i < v.len() ==> (#[trigger] v[i]).1.wf()
}

/// The map built from a list of named configurations, later entries
/// replacing earlier ones of the same name.
pub open spec fn pairs_map(v: Seq<(Seq<char>, ProcessConfigView)>) -> Map<Seq<char>, ProcessConfigView>
    decreases v.len(),
{
    if v.len() == 0 {
        Map::empty()
    } else {
        pairs_map(v.drop_last()).insert(v.last().0, v.last().1)
    }
}

/// The names given to select configurations, by their characters.
pub open spec fn opt_names_view(names: Option<Vec<String>>) -> Option<Seq<Seq<char>>> {
    match names {
        Some(v) => Some(strs_view(v@)),
        None => None,
    }
}

/// The names selected to start: all configured names (in iteration order)
/// when none are requested, else the resolution of the requested ones.
pub open spec fn start_selection(configs: StrMap<ProcessConfig>, names: Option<Seq<Seq<char>>>) -> Result<Seq<Seq<char>>, Seq<char>> {
    match names {
        None => Ok(configs.key_seq()),
        Some(req) => match resolve_all(req, configs.key_seq(), config_groups(configs)) {
            Ok(s) => Ok(s),
            Err(n) => Err("process or group '"@ + n + "' not found in configs"@),
        },
    }
}

proof fn lemma_with_prefix_members(ks: Seq<Seq<char>>, p: Seq<char>)
    ensures
        forall|i: int| 0 <= i < names_with_prefix(ks, p).len() ==> ks.contains(#[trigger] names_with_prefix(ks, p)[i]),
    decreases ks.len(),
{
    if ks.len() > 0 {
        lemma_with_prefix_members(ks.drop_last(), p);
        let a = names_with_prefix(ks.drop_last(), p);
        assert forall|i: int| 0 <= i < names_with_prefix(ks, p).len() implies ks.contains(#[trigger] names_with_prefix(ks, p)[i]) by {
            if i < a.len() {
                assert(names_with_prefix(ks, p)[i] == a[i]);
                let j = choose|j: int| 0 <= j < ks.drop_last().len() && ks.drop_last()[j] == a[i];
                assert(ks[j] == a[i]);
            } else {
                assert(names_with_prefix(ks, p)[i] == ks.last());
                assert(ks[ks.len() - 1] == ks.last());
            }
        }
    }
}

proof fn lemma_in_group_members(ks: Seq<Seq<char>>, gs: Seq<Option<Seq<char>>>, g: Seq<char>)
    ensures
        forall|i: int| 0 <= i < names_in_group(ks, gs, g).len() ==> ks.contains(#[trigger] names_in_group(ks, gs, g)[i]),
    decreases ks.len(),
{
    if ks.len() > 0 && gs.len() == ks.len() {
        lemma_in_group_members(ks.drop_last(), gs.drop_last(), g);
        let a = names_in_group(ks.drop_last(), gs.drop_last(), g);
        assert forall|i: int| 0 <= i < names_in_group(ks, gs, g).len() implies ks.contains(#[trigger] names_in_group(ks, gs, g)[i]) by {
            if i < a.len() {
                assert(names_in_group(ks, gs, g)[i] == a[i]);
                let j = choose|j: int| 0 <= j < ks.drop_last().len() && ks.drop_last()[j] == a[i];
                assert(ks[j] == a[i]);
            } else {
                assert(names_in_group(ks, gs, g)[i] == ks.last());
                assert(ks[ks.len() - 1] == ks.last());
            }
        }
    }
}

/// `x` stands before `y` in `ks`.
pub open spec fn comes_before(ks: Seq<Seq<char>>, x: Seq<char>, y: Seq<char>) -> bool {
    exists|i: int, j: int| 0 <= i < j < ks.len() && ks[i] == x && ks[j] == y
}

/// The members of a group: exactly the names of that group, each once
/// where names are distinct, in the order of the names.
proof fn lemma_group_members_exact(ks: Seq<Seq<char>>, gs: Seq<Option<Seq<char>>>, g: Seq<char>)
    requires
        ks.len() == gs.len(),
    ensures
        forall|x: Seq<char>| names_in_group(ks, gs, g).contains(x)
            <==> (exists|i: int| 0 <= i < ks.len() && ks[i] == x && gs[i] == Some(g)),
        ks.no_duplicates() ==> names_in_group(ks, gs, g).no_duplicates(),
        forall|a: int, b: int| 0 <= a < b < names_in_group(ks, gs, g).len()
            ==> comes_before(ks, #[trigger] names_in_group(ks, gs, g)[a], #[trigger] names_in_group(ks, gs, g)[b]),
    decreases ks.len(),
{
    if ks.len() > 0 {
        let k0 = ks.drop_last();
        let g0 = gs.drop_last();
        lemma_group_members_exact(k0, g0, g);
        let a0 = names_in_group(k0, g0, g);
        let l = names_in_group(ks, gs, g);
        let n = ks.len() - 1;
        if gs.last() == Some(g) {
            assert(l =~= a0.push(ks.last()));
        } else {
            assert(l =~= a0);
        }
        assert forall|x: Seq<char>| l.contains(x)
            <==> (exists|i: int| 0 <= i < ks.len() && ks[i] == x && gs[i] == Some(g)) by {
            if l.contains(x) {
                let t = choose|t: int| 0 <= t < l.len() && l[t] == x;
                if t < a0.len() {
                    assert(l[t] == a0[t]);
                    assert(a0.contains(x));
                    let i = choose|i: int| 0 <= i < k0.len() && k0[i] == x && g0[i] == Some(g);
                    assert(ks[i] == x && gs[i] == Some(g));
                } else {
                    assert(ks[n] == x && gs[n] == Some(g));
                }
            }
            if exists|i: int| 0 <= i < ks.len() && ks[i] == x && gs[i] == Some(g) {
                let i = choose|i: int| 0 <= i < ks.len() && ks[i] == x && gs[i] == Some(g);
                if i < n {
                    assert(k0[i] == x && g0[i] == Some(g));
                    assert(a0.contains(x));
                    let t = choose|t: int| 0 <= t < a0.len() && a0[t] == x;
                    assert(l[t] == x);
                } else {
                    assert(l[l.len() - 1] == x);
                }
            }
        }
        if ks.no_duplicates() {
            assert(k0.no_duplicates()) by {
                assert forall|a: int, b: int| 0 <= a < k0.len() && 0 <= b < k0.len() && a != b implies k0[a] != k0[b] by {
                    assert(k0[a] == ks[a] && k0[b] == ks[b]);
                }
            }
            if gs.last() == Some(g) {
                assert(!a0.contains(ks.last())) by {
                    if a0.contains(ks.last()) {
                        let i = choose|i: int| 0 <= i < k0.len() && k0[i] == ks.last() && g0[i] == Some(g);
                        assert(ks[i] == ks[n]);
                    }
                }
                assert forall|a: int, b: int| 0 <= a < l.len() && 0 <= b < l.len() && a != b implies l[a] != l[b] by {
                    if a < a0.len() && b < a0.len() {
                        assert(l[a] == a0[a] && l[b] == a0[b]);
                    } else if a < a0.len() {
                        assert(l[a] == a0[a] && l[b] == ks.last());
                        assert(a0.contains(a0[a]));
                    } else if b < a0.len() {
                        assert(l[b] == a0[b] && l[a] == ks.last());
                        assert(a0.contains(a0[b]));
                    }
                }
            } else {
                assert(l =~= a0);
            }
        }
        assert forall|a: int, b: int| 0 <= a < b < l.len() implies comes_before(ks, #[trigger] l[a], #[trigger] l[b]) by {
            if b < a0.len() {
                assert(l[a] == a0[a] && l[b] == a0[b]);
                assert(comes_before(k0, a0[a], a0[b]));
                let (i, j) = choose|i: int, j: int| 0 <= i < j < k0.len() && k0[i] == a0[a] && k0[j] == a0[b];
                assert(ks[i] == k0[i] && ks[j] == k0[j]);
            } else {
                assert(l[a] == a0[a]);
                assert(a0.contains(a0[a]));
                let i = choose|i: int| 0 <= i < k0.len() && k0[i] == a0[a] && g0[i] == Some(g);
                assert(ks[i] == k0[i]);
                assert(l[b] == ks[n]);
            }
        }
    }
}

/// No name has the prefix: nothing is found by it.
proof fn lemma_no_prefix_match(ks: Seq<Seq<char>>, p: Seq<char>)
    requires
        forall|j: int| 0 <= j < ks.len() ==> !crate::text::is_prefix(p, #[trigger] ks[j]),
    ensures
        names_with_prefix(ks, p).len() == 0,
    decreases ks.len(),
{
    if ks.len() > 0 {
        assert forall|j: int| 0 <= j < ks.drop_last().len() implies !crate::text::is_prefix(p, #[trigger] ks.drop_last()[j]) by {
            assert(ks.drop_last()[j] == ks[j]);
        }
        lemma_no_prefix_match(ks.drop_last(), p);
        assert(!crate::text::is_prefix(p, ks[ks.len() - 1]));
    }
}

/// A requested name that is neither a process nor the prefix `<name>:` of
/// one stands for its group: every process of that group, each once, in
/// table order, and nothing else; with no such process the name is not
/// found.
pub proof fn law_group_request_gives_every_member(req: Seq<char>, ks: Seq<Seq<char>>, gs: Seq<Option<Seq<char>>>)
    requires
        ks.len() == gs.len(),
        ks.no_duplicates(),
        !ks.contains(req),
        forall|j: int| 0 <= j < ks.len() ==> !crate::text::is_prefix(req + ":"@, #[trigger] ks[j]),
    ensures
        (exists|i: int| 0 <= i < ks.len() && gs[i] == Some(req)) <==> resolve_all(seq![req], ks, gs) is Ok,
        !(exists|i: int| 0 <= i < ks.len() && gs[i] == Some(req)) ==> resolve_all(seq![req], ks, gs) == Err::<Seq<Seq<char>>, Seq<char>>(req),
        resolve_all(seq![req], ks, gs) matches Ok(s) ==> {
            &&& s.no_duplicates()
            &&& forall|i: int| 0 <= i < ks.len() && gs[i] == Some(req) ==> s.contains(#[trigger] ks[i])
            &&& forall|x: Seq<char>| s.contains(x) ==> (exists|i: int| 0 <= i < ks.len() && ks[i] == x && gs[i] == Some(req))
            &&& forall|a: int, b: int| 0 <= a < b < s.len() ==> comes_before(ks, #[trigger] s[a], #[trigger] s[b])
        },
{
    lemma_no_prefix_match(ks, req + ":"@);
    lemma_group_members_exact(ks, gs, req);
    let reqs = seq![req];
    assert(reqs.drop_last() =~= Seq::<Seq<char>>::empty());
    assert(reqs.last() == req);
    assert(resolve_all(reqs.drop_last(), ks, gs) == Ok::<Seq<Seq<char>>, Seq<char>>(Seq::empty()));
    let m = names_in_group(ks, gs, req);
    if exists|i: int| 0 <= i < ks.len() && gs[i] == Some(req) {
        let i = choose|i: int| 0 <= i < ks.len() && gs[i] == Some(req);
        assert(m.contains(ks[i]));
        assert(m.len() > 0);
        assert(Seq::<Seq<char>>::empty() + m =~= m);
        assert(resolve_one(req, ks, gs) == Some(m));
        assert(resolve_all(reqs, ks, gs) == Ok::<Seq<Seq<char>>, Seq<char>>(m));
    } else {
        if m.len() > 0 {
            assert(m.contains(m[0]));
        }
    }
    assert forall|i: int| 0 <= i < ks.len() && gs[i] == Some(req) implies m.contains(#[trigger] ks[i]) by {}
}

/// Every resolved name is one of the names resolved against.
pub proof fn lemma_resolved_are_names(reqs: Seq<Seq<char>>, ks: Seq<Seq<char>>, gs: Seq<Option<Seq<char>>>)
    ensures
        resolve_all(reqs, ks, gs) matches Ok(s) ==> forall|i: int| 0 <= i < s.len() ==> ks.contains(#[trigger] s[i]),
    decreases reqs.len(),
{
    if reqs.len() > 0 {
        lemma_resolved_are_names(reqs.drop_last(), ks, gs);
        let q = reqs.last();
        lemma_with_prefix_members(ks, q + ":"@);
        lemma_in_group_members(ks, gs, q);
        if let Ok(s) = resolve_all(reqs, ks, gs) {
            let prev = resolve_all(reqs.drop_last(), ks, gs)->Ok_0;
            let add = resolve_one(q, ks, gs)->Some_0;
            assert(s == prev + add);
            assert forall|i: int| 0 <= i < s.len() implies ks.contains(#[trigger] s[i]) by {
                if i < prev.len() {
                    assert(s[i] == prev[i]);
                } else {
                    assert(s[i] == add[i - prev.len()]);
                    if ks.contains(q) {
                        assert(add =~= seq![q]);
                    }
                }
            }
        }
    }
}

/// Copies the configurations of `names` out of `configs`.
fn configs_named(configs: &StrMap<ProcessConfig>, names: &Vec<String>) -> (r: Vec<(String, ProcessConfig)>)
    requires
        configs_wf(*configs),
        forall|i: int| 0 <= i < names@.len() ==> configs.as_map().dom().contains(#[trigger] names@[i]@),
    ensures
        pairs_wf(r@),
        r@.len() == names@.len(),
        forall|i: int| 0 <= i < r@.len() ==> (#[trigger] r@[i]).0@ == names@[i]@
            && r@[i].1@ == configs_view(*configs)[names@[i]@],
{
    let mut r: Vec<(String, ProcessConfig)> = Vec::new();
    let mut i: usize = 0;
    while i < names.len()
        invariant
            configs_wf(*configs),
            forall|j: int| 0 <= j < names@.len() ==> configs.as_map().dom().contains(#[trigger] names@[j]@),
            i <= names@.len(),
            pairs_wf(r@),
            r@.len() == i,
            forall|j: int| 0 <= j < i ==> (#[trigger] r@[j]).0@ == names@[j]@
                && r@[j].1@ == configs_view(*configs)[names@[j]@],
        decreases names@.len() - i,
    {
        let name = &names[i];
        proof { assert(configs.as_map().dom().contains(names@[i as int]@)); }
        match configs.get(name.as_str()) {
            Some(c) => {
                proof {
                    configs.lemma_key_index(name@);
                    let idx = configs.key_seq().index_of(name@);
                    configs.lemma_index(idx);
                    configs.lemma_wf();
                    assert(configs.val_seq()[idx].wf());
                }
                let copy = c.duplicate();
                r.push((name.clone(), copy));
            },
            None => {
                proof { assert(false); }
            },
        }
        i = i + 1;
    }
    r
}

/// The configurations selected to start (see `start_selection`), each with
/// its name.
pub fn select_configs(configs: &StrMap<ProcessConfig>, names: &Option<Vec<String>>) -> (r: Result<Vec<(String, ProcessConfig)>, String>)
    requires
        configs_wf(*configs),
    ensures
        match start_selection(*configs, opt_names_view(*names)) {
            Ok(sel) => r is Ok && pairs_wf(r->Ok_0@) && r->Ok_0@.len() == sel.len()
                && forall|i: int| 0 <= i < sel.len() ==> (#[trigger] r->Ok_0@[i]).0@ == sel[i]
                    && r->Ok_0@[i].1@ == configs_view(*configs)[sel[i]],
            Err(m) => r is Err && r->Err_0@ == m,
        },
{
    proof { configs.lemma_wf(); }
    match names {
        None => {
            let keys = configs.keys();
            proof {
                assert forall|i: int| 0 <= i < keys@.len() implies configs.as_map().dom().contains(#[trigger] keys@[i]@) by {
                    assert(keys@[i]@ == configs.key_seq()[i]);
                }
            }
            Ok(configs_named(configs, &keys))
        },
        Some(req) => {
            let resolved = resolve_config_names(req.as_slice(), configs)?;
            proof {
                lemma_resolved_are_names(strs_view(req@), configs.key_seq(), config_groups(*configs));
                assert forall|i: int| 0 <= i < resolved@.len() implies configs.as_map().dom().contains(#[trigger] resolved@[i]@) by {
                    assert(strs_view(resolved@)[i] == resolved@[i]@);
                }
            }
            Ok(configs_named(configs, &resolved))
        },
    }
}

/// A configuration with a named environment merged into its `env`, when it
/// has that environment.
pub open spec fn with_environment(c: ProcessConfigView, env: Seq<char>) -> ProcessConfigView {
    if c.environments.dom().contains(env) {
        ProcessConfigView { env: Some(vars_or_empty(c.env).union_prefer_right(c.environments[env])), ..c }
    } else {
        c
    }
}

/// Whether some configuration of the list has environment `env`.
pub open spec fn some_has_environment(v: Seq<(Seq<char>, ProcessConfigView)>, env: Seq<char>) -> bool {
    exists|i: int| 0 <= i < v.len() && (#[trigger] v[i]).1.environments.dom().contains(env)
}

/// Merges environment `env` into every configuration of the list that has
/// it; returns whether any had it.
pub fn apply_environment_all(list: &mut Vec<(String, ProcessConfig)>, env: &str) -> (r: bool)
    requires
        pairs_wf(old(list)@),
    ensures
        pairs_wf(final(list)@),
        pairs_view(final(list)@) == pairs_view(old(list)@).map_values(
            |p: (Seq<char>, ProcessConfigView)| (p.0, with_environment(p.1, env@))),
        r == some_has_environment(pairs_view(old(list)@), env@),
{
    let ghost orig = pairs_view(list@);
    let mut any = false;
    let mut i: usize = 0;
    while i < list.len()
        invariant
            i <= list@.len(),
            orig.len() == list@.len(),
            pairs_wf(list@),
            forall|j: int| 0 <= j < i ==> (#[trigger] pairs_view(list@)[j]) == (orig[j].0, with_environment(orig[j].1, env@)),
            forall|j: int| i <= j < list@.len() ==> (#[trigger] pairs_view(list@)[j]) == orig[j],
            any == exists|j: int| 0 <= j < i && (#[trigger] orig[j]).1.environments.dom().contains(env@),
        decreases list@.len() - i,
    {
        let ghost before = list@;
        proof { assert(list@[i as int].1.wf()); }
        let mut config = list[i].1.duplicate();
        let name = list[i].0.clone();
        let applied = config.apply_environment(env);
        list.set(i, (name, config));
        proof {
            assert forall|j: int| 0 <= j < list@.len() implies (#[trigger] list@[j]).1.wf() by {
                if j != i { assert(list@[j] == before[j]); }
            }
            assert(pairs_view(before)[i as int] == orig[i as int]);
            assert(pairs_view(list@)[i as int] == (orig[i as int].0, with_environment(orig[i as int].1, env@)));
            assert forall|j: int| 0 <= j < list@.len() && j != i implies
                (#[trigger] pairs_view(list@)[j]) == pairs_view(before)[j] by {
                assert(list@[j] == before[j]);
            }
        }
        any = any || applied;
        i = i + 1;
    }
    proof {
        assert(pairs_view(list@) =~= orig.map_values(|p: (Seq<char>, ProcessConfigView)| (p.0, with_environment(p.1, env@))));
    }
    any
}

} // verus!

verus! {

/// A configuration whose `env` has `PATH` set to `path` unless it already
/// sets `PATH` (an `env` is created if missing).
pub open spec fn with_default_path(c: ProcessConfigView, path: Seq<char>) -> ProcessConfigView {
    let vars = vars_or_empty(c.env);
    ProcessConfigView {
        env: Some(if vars.dom().contains("PATH"@) { vars } else { vars.insert("PATH"@, path) }),
        ..c
    }
}

/// A configuration whose `env` has `PATH` set to `path`, replacing any
/// value it had (an `env` is created if missing).
pub open spec fn with_path(c: ProcessConfigView, path: Seq<char>) -> ProcessConfigView {
    ProcessConfigView { env: Some(vars_or_empty(c.env).insert("PATH"@, path)), ..c }
}

impl ProcessConfig {
    /// Sets `PATH` in the configuration's `env` to `path`; when `replace`
    /// is false a `PATH` the configuration already sets is kept.
    pub fn set_path(&mut self, path: &str, replace: bool)
        requires
            old(self).wf(),
        ensures
            final(self).wf(),
            final(self)@ == (if replace { with_path(old(self)@, path@) } else { with_default_path(old(self)@, path@) }),
    {
        let ghost old_self = self@;
        let mut vars = match self.env.take() {
            Some(m) => m,
            None => StrMap::new(),
        };
        proof {
            vars.lemma_wf();
            assert(vars_view(vars) =~= vars_or_empty(old_self.env));
        }
        let present = vars.contains_key("PATH");
        if replace || !present {
            let ghost v0 = vars;
            vars.insert(owned("PATH"), owned(path));
            proof {
                assert(vars_view(vars) =~= vars_view(v0).insert("PATH"@, path@));
            }
        }
        self.env = Some(vars);
        proof {
            if !replace && present {
                assert(vars_view(vars) == vars_or_empty(old_self.env));
            }
        }
    }
}

/// Gives every configuration of the list a `PATH` of `path` in its `env`,
/// unless it sets `PATH` itself.
pub fn inject_path(list: &mut Vec<(String, ProcessConfig)>, path: &str)
    requires
        pairs_wf(old(list)@),
    ensures
        pairs_wf(final(list)@),
        pairs_view(final(list)@) == pairs_view(old(list)@).map_values(
            |p: (Seq<char>, ProcessConfigView)| (p.0, with_default_path(p.1, path@))),
{
    let ghost orig = pairs_view(list@);
    let mut i: usize = 0;
    while i < list.len()
        invariant
            i <= list@.len(),
            orig.len() == list@.len(),
            pairs_wf(list@),
            forall|j: int| 0 <= j < i ==> (#[trigger] pairs_view(list@)[j]) == (orig[j].0, with_default_path(orig[j].1, path@)),
            forall|j: int| i <= j < list@.len() ==> (#[trigger] pairs_view(list@)[j]) == orig[j],
        decreases list@.len() - i,
    {
        let ghost before = list@;
        proof { assert(list@[i as int].1.wf()); }
        let mut config = list[i].1.duplicate();
        let name = list[i].0.clone();
        config.set_path(path, false);
        list.set(i, (name, config));
        proof {
            assert forall|j: int| 0 <= j < list@.len() implies (#[trigger] list@[j]).1.wf() by {
                if j != i { assert(list@[j] == before[j]); }
            }
            assert(pairs_view(before)[i as int] == orig[i as int]);
            assert forall|j: int| 0 <= j < list@.len() && j != i implies
                (#[trigger] pairs_view(list@)[j]) == pairs_view(before)[j] by {
                assert(list@[j] == before[j]);
            }
        }
        i = i + 1;
    }
    proof {
        assert(pairs_view(list@) =~= orig.map_values(|p: (Seq<char>, ProcessConfigView)| (p.0, with_default_path(p.1, path@))));
    }
}

/// The map of a list of named configurations; a later entry replaces an
/// earlier one of the same name.
pub fn collect_configs(list: Vec<(String, ProcessConfig)>) -> (r: StrMap<ProcessConfig>)
    requires
        pairs_wf(list@),
    ensures
        configs_wf(r),
        configs_view(r) == pairs_map(pairs_view(list@)),
        r.key_seq().to_set() == pairs_map(pairs_view(list@)).dom(),
{
    let mut r: StrMap<ProcessConfig> = StrMap::new();
    proof {
        r.lemma_wf();
        assert(configs_view(r) =~= pairs_map(pairs_view(list@).subrange(0, 0)));
    }
    let mut i: usize = 0;
    while i < list.len()
        invariant
            i <= list@.len(),
            pairs_wf(list@),
            configs_wf(r),
            configs_view(r) == pairs_map(pairs_view(list@).subrange(0, i as int)),
        decreases list@.len() - i,
    {
        proof { assert(list@[i as int].1.wf()); }
        let c = list[i].1.duplicate();
        let k = list[i].0.clone();
        let ghost r0 = r;
        r.insert(k, c);
        proof {
            r.lemma_wf();
            r0.lemma_wf();
            assert forall|j: int| 0 <= j < r.val_seq().len() implies (#[trigger] r.val_seq()[j]).wf() by {
                r.lemma_index(j);
                let key = r.key_seq()[j];
                if key != k@ {
                    r0.lemma_key_index(key);
                    r0.lemma_index(r0.key_seq().index_of(key));
                }
            }
            let sub = pairs_view(list@).subrange(0, i + 1);
            assert(sub.drop_last() =~= pairs_view(list@).subrange(0, i as int));
            assert(configs_view(r) =~= configs_view(r0).insert(k@, c@));
        }
        i = i + 1;
    }
    proof {
        assert(pairs_view(list@).subrange(0, i as int) =~= pairs_view(list@));
        r.lemma_wf();
        assert(r.key_seq().to_set() =~= configs_view(r).dom());
    }
    r
}

} // verus!

verus! {

/// The dependency graph of configurations given as a map.
pub open spec fn graph_of(m: Map<Seq<char>, ProcessConfigView>) -> crate::deps::DepGraph {
    m.map_values(|c: ProcessConfigView| crate::config::deps_of(c))
}

pub proof fn lemma_dep_graph_of(c: StrMap<ProcessConfig>)
    ensures
        dep_graph(c) == graph_of(configs_view(c)),
{
    assert(dep_graph(c) =~= graph_of(configs_view(c)));
}

/// What checking the dependencies of `s` and ordering them in levels gives:
/// the levels when every dependency is configured and the graph is acyclic,
/// else an error text.
pub open spec fn levels_outcome(s: Map<Seq<char>, ProcessConfigView>, r: Result<Vec<Vec<String>>, String>) -> bool {
    match r {
        Ok(levels) => deps_known(graph_of(s))
            && is_level_order(graph_of(s), levels_view(levels@))
            && done_after(graph_of(s), levels@.len() as nat) == s.dom(),
        Err(m) => exists|d: DepsError| m@ == #[trigger] deps_error_text(d) && (
            (d is Missing && !deps_known(graph_of(s)))
            || (d is Circular && deps_known(graph_of(s)) && crate::deps::has_no_order(graph_of(s)))),
    }
}

/// Checks that every dependency is configured, then orders the
/// configurations in levels (each level depends only on earlier ones); an
/// error gives its message.
pub fn validated_levels(configs: &StrMap<ProcessConfig>) -> (r: Result<Vec<Vec<String>>, String>)
    requires
        configs.wf(),
    ensures
        levels_outcome(configs_view(*configs), r),
{
    proof {
        lemma_dep_graph_of(*configs);
        configs.lemma_wf();
        assert(configs_view(*configs).dom() == configs.as_map().dom());
    }
    match validate_deps(configs) {
        Err(e) => {
            let m = e.message();
            proof { assert(deps_error_text(e) == m@); }
            return Err(m);
        },
        Ok(()) => {},
    }
    match topological_levels(configs) {
        Ok(levels) => Ok(levels),
        Err(e) => {
            let m = e.message();
            proof { assert(deps_error_text(e) == m@); }
            Err(m)
        },
    }
}

/// Orders configurations in levels without checking first that every
/// dependency is configured (unknown ones are never ready); an error gives
/// its message.
pub fn ordered_levels(configs: &StrMap<ProcessConfig>) -> (r: Result<Vec<Vec<String>>, String>)
    requires
        configs.wf(),
    ensures
        match r {
            Ok(levels) => is_level_order(graph_of(configs_view(*configs)), levels_view(levels@))
                && done_after(graph_of(configs_view(*configs)), levels@.len() as nat) == configs_view(*configs).dom(),
            Err(m) => exists|d: DepsError| m@ == #[trigger] deps_error_text(d) && d is Circular
                && crate::deps::has_no_order(graph_of(configs_view(*configs))),
        },
{
    proof {
        lemma_dep_graph_of(*configs);
        assert(configs_view(*configs).dom() == configs.as_map().dom());
    }
    match topological_levels(configs) {
        Ok(levels) => Ok(levels),
        Err(e) => {
            let m = e.message();
            proof { assert(deps_error_text(e) == m@); }
            Err(m)
        },
    }
}

/// The configurations of a start request after cluster expansion, as a map.
pub open spec fn expanded_view(configs: StrMap<ProcessConfig>) -> Map<Seq<char>, ProcessConfigView> {
    if cluster_counts(configs_view(configs)).dom().is_empty() {
        configs_view(configs)
    } else {
        expand_entries(configs.key_seq(), config_views(configs.val_seq()), cluster_counts(configs_view(configs)))
    }
}

/// The configurations to start, from the (expanded) configurations `e`:
/// the selected ones (see `start_selection`), with environment `env` merged
/// in when given (an error if none of them has it) and `PATH` defaulted to
/// `path` when given.
pub open spec fn start_subset(e: StrMap<ProcessConfig>, names: Option<Seq<Seq<char>>>, env: Option<Seq<char>>,
    path: Option<Seq<char>>) -> Result<Map<Seq<char>, ProcessConfigView>, Seq<char>>
{
    match start_selection(e, names) {
        Err(m) => Err(m),
        Ok(sel) => {
            let v0 = sel.map_values(|n: Seq<char>| (n, configs_view(e)[n]));
            if env is Some && !some_has_environment(v0, env->0) {
                Err("unknown environment: '"@ + env->0 + "'"@)
            } else {
                let v1 = match env {
                    Some(x) => v0.map_values(|p: (Seq<char>, ProcessConfigView)| (p.0, with_environment(p.1, x))),
                    None => v0,
                };
                let v2 = match path {
                    Some(p) => v1.map_values(|q: (Seq<char>, ProcessConfigView)| (q.0, with_default_path(q.1, p))),
                    None => v1,
                };
                Ok(pairs_map(v2))
            }
        },
    }
}

/// What the daemon starts: the configurations and their start levels.
#[derive(Debug)]
pub struct StartPlan {
    pub configs: StrMap<ProcessConfig>,
    pub levels: Vec<Vec<String>>,
}

/// Plans a start request: expands clusters, selects the requested
/// configurations, applies the environment and `PATH`, checks the
/// dependencies and orders the configurations in start levels. Errors come
/// as the text the daemon answers with.
pub fn plan_start(configs: StrMap<ProcessConfig>, names: Option<Vec<String>>, env: Option<String>, path: Option<String>)
    -> (r: Result<StartPlan, String>)
    requires
        configs_wf(configs),
    ensures
        exists|e: StrMap<ProcessConfig>| configs_wf(e) && configs_view(e) == expanded_view(configs) && ({
            let sub = #[trigger] start_subset(e, opt_names_view(names), opt_view(env), opt_view(path));
            match sub {
                Err(m) => r is Err && r->Err_0@ == m,
                Ok(s) => match r {
                    Ok(plan) => configs_wf(plan.configs) && configs_view(plan.configs) == s
                        && levels_outcome(s, Ok(plan.levels)),
                    Err(m) => levels_outcome(s, Err(m)),
                },
            }
        }),
{
    let e = expand_instances(configs);
    let ghost ge = e;
    proof {
        if cluster_counts(configs_view(configs)).dom().is_empty() {
            assert(configs_view(e) == expanded_view(configs));
        }
    }
    let mut list = match select_configs(&e, &names) {
        Ok(l) => l,
        Err(m) => {
            assert(start_subset(ge, opt_names_view(names), opt_view(env), opt_view(path)) is Err);
            return Err(m);
        },
    };
    let ghost sel = start_selection(ge, opt_names_view(names))->Ok_0;
    let ghost v0 = sel.map_values(|n: Seq<char>| (n, configs_view(ge)[n]));
    proof {
        assert(pairs_view(list@) =~= v0);
    }
    match &env {
        Some(x) => {
            let any = apply_environment_all(&mut list, x.as_str());
            if !any {
                proof { reveal_strlit("unknown environment: '"); reveal_strlit("'"); }
                let a = concat2("unknown environment: '", x.as_str());
                return Err(concat2(a.as_str(), "'"));
            }
        },
        None => {},
    }
    let ghost v1 = pairs_view(list@);
    match &path {
        Some(p) => inject_path(&mut list, p.as_str()),
        None => {},
    }
    let ghost v2 = pairs_view(list@);
    let subset = collect_configs(list);
    proof {
        configs_wf(subset);
    }
    match validated_levels(&subset) {
        Ok(levels) => Ok(StartPlan { configs: subset, levels }),
        Err(m) => Err(m),
    }
}

} // verus!

verus! {

/// Merging the same environment twice gives what merging it once gives.
pub proof fn law_environment_idempotent(c: ProcessConfigView, env: Seq<char>)
    ensures
        with_environment(with_environment(c, env), env) == with_environment(c, env),
{
    if c.environments.dom().contains(env) {
        let m = vars_or_empty(c.env).union_prefer_right(c.environments[env]);
        assert(m.union_prefer_right(c.environments[env]) =~= m);
    }
}

/// A default `PATH` never replaces one the configuration sets, and a
/// forced one always wins; neither touches any other field or variable.
pub proof fn law_path_defaults(c: ProcessConfigView, path: Seq<char>, name: Seq<char>)
    ensures
        vars_or_empty(c.env).dom().contains("PATH"@)
            ==> with_default_path(c, path).env == Some(vars_or_empty(c.env)),
        with_path(c, path).env->0["PATH"@] == path,
        name != "PATH"@ ==> (with_default_path(c, path).env->0.dom().contains(name) == vars_or_empty(c.env).dom().contains(name)),
        name != "PATH"@ && vars_or_empty(c.env).dom().contains(name) ==> with_path(c, path).env->0[name] == vars_or_empty(c.env)[name],
        with_path(c, path).command == c.command && with_default_path(c, path).depends_on == c.depends_on,
{
}


/// Adding instances keeps every name already present and adds the first `k`
/// instance names.
proof fn lemma_add_instances_dom(m: Map<Seq<char>, ProcessConfigView>, name: Seq<char>, c: ProcessConfigView, n: nat,
    cm: Map<Seq<char>, u32>, k: nat)
    ensures
        m.dom().subset_of(add_instances(m, name, c, n, cm, k).dom()),
        forall|i: nat| i < k ==> add_instances(m, name, c, n, cm, k).dom().contains(#[trigger] instance_name(name, i)),
    decreases k,
{
    if k > 0 {
        lemma_add_instances_dom(m, name, c, n, cm, (k - 1) as nat);
    }
}

/// Expanding more entries keeps what expanding fewer gave a name to.
proof fn lemma_expand_entries_grows(ks: Seq<Seq<char>>, vs: Seq<ProcessConfigView>, cm: Map<Seq<char>, u32>)
    requires
        ks.len() == vs.len(),
        ks.len() > 0,
    ensures
        expand_entries(ks.drop_last(), vs.drop_last(), cm).dom().subset_of(expand_entries(ks, vs, cm).dom()),
{
    let m = expand_entries(ks.drop_last(), vs.drop_last(), cm);
    let n = instances_of(vs.last());
    if n > 1 {
        lemma_add_instances_dom(m, ks.last(), vs.last(), n as nat, cm, n as nat);
    }
}

/// The entry at index `j` is named in the expansion: under its own name when
/// it is not clustered, under each of its instance names when it is.
proof fn lemma_expand_entries_names(ks: Seq<Seq<char>>, vs: Seq<ProcessConfigView>, cm: Map<Seq<char>, u32>, j: int)
    requires
        ks.len() == vs.len(),
        0 <= j < ks.len(),
    ensures
        instances_of(vs[j]) <= 1 ==> expand_entries(ks, vs, cm).dom().contains(ks[j]),
        forall|i: nat| i < instances_of(vs[j]) && instances_of(vs[j]) > 1
            ==> expand_entries(ks, vs, cm).dom().contains(#[trigger] instance_name(ks[j], i)),
    decreases ks.len(),
{
    let m = expand_entries(ks.drop_last(), vs.drop_last(), cm);
    let n = instances_of(vs.last());
    if n > 1 {
        lemma_add_instances_dom(m, ks.last(), vs.last(), n as nat, cm, n as nat);
    }
    if j < ks.len() - 1 {
        lemma_expand_entries_names(ks.drop_last(), vs.drop_last(), cm, j);
        lemma_expand_entries_grows(ks, vs, cm);
        assert(ks.drop_last()[j] == ks[j] && vs.drop_last()[j] == vs[j]);
    }
}

/// No process is lost to cluster expansion: after it, a configuration with
/// at most one instance is still there under its own name, and one with `n`
/// instances is there under each of `<name>:0` .. `<name>:<n-1>`.
pub proof fn law_expansion_names_every_instance(configs: StrMap<ProcessConfig>, name: Seq<char>)
    requires
        configs_wf(configs),
        configs_view(configs).dom().contains(name),
    ensures
        instances_of(configs_view(configs)[name]) <= 1 ==> expanded_view(configs).dom().contains(name),
        forall|i: nat| i < instances_of(configs_view(configs)[name]) && instances_of(configs_view(configs)[name]) > 1
            ==> expanded_view(configs).dom().contains(#[trigger] instance_name(name, i)),
{
    configs.lemma_wf();
    configs.lemma_key_index(name);
    let j = configs.key_seq().index_of(name);
    configs.lemma_index(j);
    let ks = configs.key_seq();
    let vs = config_views(configs.val_seq());
    assert(vs[j] == configs_view(configs)[name]);
    let cm = cluster_counts(configs_view(configs));
    if cm.dom().is_empty() {
        if instances_of(configs_view(configs)[name]) > 1 {
            assert(cm.dom().contains(name));
        }
    } else {
        lemma_expand_entries_names(ks, vs, cm, j);
    }
}


/// A decimal numeral is never empty and holds no `:`.
proof fn lemma_decimal_shape(n: nat)
    ensures
        decimal(n).len() >= 1,
        forall|j: int| 0 <= j < decimal(n).len() ==> #[trigger] decimal(n)[j] != ':',
    decreases n,
{
    if n >= 10 {
        lemma_decimal_shape(n / 10);
        let d = decimal(n / 10);
        assert forall|j: int| 0 <= j < decimal(n).len() implies #[trigger] decimal(n)[j] != ':' by {
            if j < d.len() { assert(decimal(n)[j] == d[j]); }
        }
    }
}

/// Distinct numbers have distinct numerals.
proof fn lemma_decimal_injective(a: nat, b: nat)
    requires
        decimal(a) == decimal(b),
    ensures
        a == b,
    decreases a,
{
    lemma_decimal_shape(a);
    lemma_decimal_shape(b);
    if a >= 10 && b >= 10 {
        lemma_decimal_shape(a / 10);
        lemma_decimal_shape(b / 10);
        assert(decimal(a).drop_last() =~= decimal(a / 10));
        assert(decimal(b).drop_last() =~= decimal(b / 10));
        lemma_decimal_injective(a / 10, b / 10);
        assert(decimal(a).last() == digit_char(a % 10));
        assert(decimal(b).last() == digit_char(b % 10));
    } else if a >= 10 {
        lemma_decimal_shape(a / 10);
        assert(decimal(a).len() >= 2);
    } else if b >= 10 {
        lemma_decimal_shape(b / 10);
        assert(decimal(b).len() >= 2);
    } else {
        assert(decimal(a)[0] == digit_char(a));
        assert(decimal(b)[0] == digit_char(b));
    }
}

/// A name without `:`.
pub open spec fn colon_free(k: Seq<char>) -> bool {
    forall|j: int| 0 <= j < k.len() ==> #[trigger] k[j] != ':'
}

/// Instance names of names without `:` are distinct, and none is such a name.
proof fn lemma_instance_names_distinct(k1: Seq<char>, i1: nat, k2: Seq<char>, i2: nat)
    requires
        colon_free(k1),
        colon_free(k2),
    ensures
        instance_name(k1, i1) == instance_name(k2, i2) ==> k1 == k2 && i1 == i2,
        !colon_free(instance_name(k1, i1)),
{
    reveal_strlit(":");
    let a = instance_name(k1, i1);
    let b = instance_name(k2, i2);
    assert(a[k1.len() as int] == ':');
    if a == b {
        if k1.len() < k2.len() {
            assert(b[k1.len() as int] == k2[k1.len() as int]);
        } else if k2.len() < k1.len() {
            assert(a[k2.len() as int] == k1[k2.len() as int]);
        }
        assert(k1 =~= a.take(k1.len() as int));
        assert(k2 =~= b.take(k2.len() as int));
        assert(decimal(i1) =~= a.skip(k1.len() as int + 1));
        assert(decimal(i2) =~= b.skip(k2.len() as int + 1));
        lemma_decimal_injective(i1, i2);
    }
}

/// Adding the instances of `name`: instance `i` (below `k`) gets its entry,
/// and every other name keeps what it had.
proof fn lemma_add_instances_lookup(m: Map<Seq<char>, ProcessConfigView>, name: Seq<char>, c: ProcessConfigView, n: nat,
    cm: Map<Seq<char>, u32>, k: nat, q: Seq<char>)
    requires
        colon_free(name),
    ensures
        forall|i: nat| i < k ==> #[trigger] add_instances(m, name, c, n, cm, k)[instance_name(name, i)]
            == instance_entry(name, c, i, n, cm),
        (forall|i: nat| i < k ==> q != #[trigger] instance_name(name, i)) ==> (
            add_instances(m, name, c, n, cm, k).dom().contains(q) == m.dom().contains(q)
            && add_instances(m, name, c, n, cm, k)[q] == m[q]),
    decreases k,
{
    if k > 0 {
        lemma_add_instances_lookup(m, name, c, n, cm, (k - 1) as nat, q);
        assert forall|i: nat| i < k implies #[trigger] add_instances(m, name, c, n, cm, k)[instance_name(name, i)]
            == instance_entry(name, c, i, n, cm) by {
            lemma_instance_names_distinct(name, i, name, (k - 1) as nat);
        }
    }
}

/// In the expansion of entries with distinct names without `:`, instance
/// `i` of a clustered entry gets that entry's instance configuration.
proof fn lemma_expand_entries_instance(ks: Seq<Seq<char>>, vs: Seq<ProcessConfigView>, cm: Map<Seq<char>, u32>, j: int, i: nat)
    requires
        ks.len() == vs.len(),
        ks.no_duplicates(),
        forall|t: int| 0 <= t < ks.len() ==> colon_free(#[trigger] ks[t]),
        0 <= j < ks.len(),
        instances_of(vs[j]) > 1,
        i < instances_of(vs[j]),
    ensures
        expand_entries(ks, vs, cm)[instance_name(ks[j], i)]
            == instance_entry(ks[j], vs[j], i, instances_of(vs[j]) as nat, cm),
    decreases ks.len(),
{
    let last = ks.len() - 1;
    let m = expand_entries(ks.drop_last(), vs.drop_last(), cm);
    let c = vs.last();
    let n = instances_of(c);
    assert(colon_free(ks[last]));
    if j == last {
        lemma_add_instances_lookup(m, ks.last(), c, n as nat, cm, n as nat, instance_name(ks[j], i));
    } else {
        assert(ks.drop_last()[j] == ks[j] && vs.drop_last()[j] == vs[j]);
        assert(ks.drop_last().no_duplicates()) by {
            assert forall|a: int, b: int| 0 <= a < ks.drop_last().len() && 0 <= b < ks.drop_last().len() && a != b
                implies ks.drop_last()[a] != ks.drop_last()[b] by {
                assert(ks.drop_last()[a] == ks[a] && ks.drop_last()[b] == ks[b]);
            }
        }
        assert forall|t: int| 0 <= t < ks.drop_last().len() implies colon_free(#[trigger] ks.drop_last()[t]) by {
            assert(ks.drop_last()[t] == ks[t]);
        }
        lemma_expand_entries_instance(ks.drop_last(), vs.drop_last(), cm, j, i);
        let q = instance_name(ks[j], i);
        assert(colon_free(ks[j]));
        lemma_instance_names_distinct(ks[j], i, ks[j], i);
        assert(ks[j] != ks[last]);
        if n <= 1 {
            assert(q != ks.last()) by {
                if q == ks.last() { assert(colon_free(q)); }
            }
        } else {
            assert forall|t: nat| t < n implies q != #[trigger] instance_name(ks.last(), t) by {
                lemma_instance_names_distinct(ks[j], i, ks.last(), t);
            }
            lemma_add_instances_lookup(m, ks.last(), c, n as nat, cm, n as nat, q);
        }
    }
}

/// What the expansion gives each instance: where process names hold no
/// `:` (as valid names never do), instance `i` of a clustered process is
/// that process's instance entry, so its environment is the process's
/// environment with `PM3_INSTANCE_ID` and `PM3_INSTANCE_COUNT` added (see
/// `law_instances_keep_the_environment`).
pub proof fn law_expansion_instance_entries(configs: StrMap<ProcessConfig>, name: Seq<char>, i: nat)
    requires
        configs_wf(configs),
        forall|k: Seq<char>| #[trigger] configs_view(configs).dom().contains(k) ==> colon_free(k),
        configs_view(configs).dom().contains(name),
        instances_of(configs_view(configs)[name]) > 1,
        i < instances_of(configs_view(configs)[name]),
    ensures
        expanded_view(configs).dom().contains(instance_name(name, i)),
        expanded_view(configs)[instance_name(name, i)] == instance_entry(name, configs_view(configs)[name], i,
            instances_of(configs_view(configs)[name]) as nat, cluster_counts(configs_view(configs))),
{
    configs.lemma_wf();
    configs.lemma_key_index(name);
    let j = configs.key_seq().index_of(name);
    configs.lemma_index(j);
    let ks = configs.key_seq();
    let vs = config_views(configs.val_seq());
    assert(vs[j] == configs_view(configs)[name]);
    let cm = cluster_counts(configs_view(configs));
    assert(cm.dom().contains(name));
    assert forall|t: int| 0 <= t < ks.len() implies colon_free(#[trigger] ks[t]) by {
        configs.lemma_index(t);
        assert(configs_view(configs).dom().contains(ks[t]));
    }
    lemma_expand_entries_instance(ks, vs, cm, j, i);
    law_expansion_names_every_instance(configs, name);
}

} // verus!
