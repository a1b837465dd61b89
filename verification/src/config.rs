//! The configuration of one managed process, and its mathematical model.
use vstd::prelude::*;
use crate::strmap::{StrMap, key_views};

verus! {

/// When a process that exits is started again.
#[derive(Debug, Clone, Copy, PartialEq, Eq)]
pub enum RestartPolicy {
    OnFailure,
    Always,
    Never,
}

/// One env file, or several.
#[derive(Debug, PartialEq)]
pub enum EnvFile {
    Single(String),
    Multiple(Vec<String>),
}

/// File watching: on/off, or a path to watch.
#[derive(Debug, PartialEq)]
pub enum Watch {
    Enabled(bool),
    Path(String),
}

/// Variables of an environment: name to value.
pub type EnvVars = StrMap<String>;

/// The configuration of one process.
#[derive(Debug, PartialEq)]
pub struct ProcessConfig {
    pub command: String,
    pub cwd: Option<String>,
    pub env: Option<EnvVars>,
    pub env_file: Option<EnvFile>,
    pub health_check: Option<String>,
    pub kill_timeout: Option<u64>,
    pub kill_signal: Option<String>,
    pub max_restarts: Option<u32>,
    pub max_memory: Option<String>,
    pub min_uptime: Option<u64>,
    pub stop_exit_codes: Option<Vec<i32>>,
    pub watch: Option<Watch>,
    pub watch_ignore: Option<Vec<String>>,
    pub watch_debounce: Option<u64>,
    pub depends_on: Option<Vec<String>>,
    pub restart: Option<RestartPolicy>,
    pub group: Option<String>,
    pub pre_start: Option<String>,
    pub post_stop: Option<String>,
    pub cron_restart: Option<String>,
    pub log_date_format: Option<String>,
    pub instances: Option<u32>,
    /// Named environments (`[name.env_<env>]` sections): environment name to variables.
    pub environments: StrMap<EnvVars>,
}

pub enum EnvFileView {
    Single(Seq<char>),
    Multiple(Seq<Seq<char>>),
}

pub enum WatchView {
    Enabled(bool),
    Path(Seq<char>),
}

/// The mathematical model of a `ProcessConfig`: strings by their characters,
/// lists by their sequences, maps by their mappings.
pub struct ProcessConfigView {
    pub command: Seq<char>,
    pub cwd: Option<Seq<char>>,
    pub env: Option<Map<Seq<char>, Seq<char>>>,
    pub env_file: Option<EnvFileView>,
    pub health_check: Option<Seq<char>>,
    pub kill_timeout: Option<u64>,
    pub kill_signal: Option<Seq<char>>,
    pub max_restarts: Option<u32>,
    pub max_memory: Option<Seq<char>>,
    pub min_uptime: Option<u64>,
    pub stop_exit_codes: Option<Seq<i32>>,
    pub watch: Option<WatchView>,
    pub watch_ignore: Option<Seq<Seq<char>>>,
    pub watch_debounce: Option<u64>,
    pub depends_on: Option<Seq<Seq<char>>>,
    pub restart: Option<RestartPolicy>,
    pub group: Option<Seq<char>>,
    pub pre_start: Option<Seq<char>>,
    pub post_stop: Option<Seq<char>>,
    pub cron_restart: Option<Seq<char>>,
    pub log_date_format: Option<Seq<char>>,
    pub instances: Option<u32>,
    pub environments: Map<Seq<char>, Map<Seq<char>, Seq<char>>>,
}

pub open spec fn opt_str_view(o: Option<String>) -> Option<Seq<char>> {
    match o {
        Some(s) => Some(s@),
        None => None,
    }
}

pub open spec fn opt_strs_view(o: Option<Vec<String>>) -> Option<Seq<Seq<char>>> {
    match o {
        Some(v) => Some(key_views(v@)),
        None => None,
    }
}

/// The mapping held by a map of strings to strings.
pub open spec fn vars_view(m: EnvVars) -> Map<Seq<char>, Seq<char>> {
    m.as_map().map_values(|v: String| v@)
}

pub open spec fn opt_vars_view(o: Option<EnvVars>) -> Option<Map<Seq<char>, Seq<char>>> {
    match o {
        Some(m) => Some(vars_view(m)),
        None => None,
    }
}

/// The mapping held by the named environments.
pub open spec fn environments_view(m: StrMap<EnvVars>) -> Map<Seq<char>, Map<Seq<char>, Seq<char>>> {
    m.as_map().map_values(|v: EnvVars| vars_view(v))
}

impl View for EnvFile {
    type V = EnvFileView;

    open spec fn view(&self) -> EnvFileView {
        match self {
            EnvFile::Single(s) => EnvFileView::Single(s@),
            EnvFile::Multiple(v) => EnvFileView::Multiple(key_views(v@)),
        }
    }
}

impl View for Watch {
    type V = WatchView;

    open spec fn view(&self) -> WatchView {
        match self {
            Watch::Enabled(b) => WatchView::Enabled(*b),
            Watch::Path(s) => WatchView::Path(s@),
        }
    }
}

impl View for ProcessConfig {
    type V = ProcessConfigView;

    open spec fn view(&self) -> ProcessConfigView {
        ProcessConfigView {
            command: self.command@,
            cwd: opt_str_view(self.cwd),
            env: opt_vars_view(self.env),
            env_file: match self.env_file { Some(e) => Some(e@), None => None },
            health_check: opt_str_view(self.health_check),
            kill_timeout: self.kill_timeout,
            kill_signal: opt_str_view(self.kill_signal),
            max_restarts: self.max_restarts,
            max_memory: opt_str_view(self.max_memory),
            min_uptime: self.min_uptime,
            stop_exit_codes: match self.stop_exit_codes { Some(v) => Some(v@), None => None },
            watch: match self.watch { Some(w) => Some(w@), None => None },
            watch_ignore: opt_strs_view(self.watch_ignore),
            watch_debounce: self.watch_debounce,
            depends_on: opt_strs_view(self.depends_on),
            restart: self.restart,
            group: opt_str_view(self.group),
            pre_start: opt_str_view(self.pre_start),
            post_stop: opt_str_view(self.post_stop),
            cron_restart: opt_str_view(self.cron_restart),
            log_date_format: opt_str_view(self.log_date_format),
            instances: self.instances,
            environments: environments_view(self.environments),
        }
    }
}

/// The dependency list of a configuration (empty when none is given).
pub open spec fn deps_of(c: ProcessConfigView) -> Seq<Seq<char>> {
    match c.depends_on {
        Some(d) => d,
        None => Seq::empty(),
    }
}

impl ProcessConfig {
    /// Well-formedness of the maps held by the configuration.
    pub open spec fn wf(&self) -> bool {
        &&& (self.env matches Some(m) ==> m.wf())
        &&& self.environments.wf()
        &&& forall|i: int| 0 <= i < self.environments.val_seq().len()
                ==> (#[trigger] self.environments.val_seq()[i]).wf()
    }
}

} // verus!

verus! {

fn clone_opt_string(o: &Option<String>) -> (r: Option<String>)
    ensures
        r == *o,
{
    match o {
        Some(s) => Some(s.clone()),
        None => None,
    }
}

fn clone_opt_strings(o: &Option<Vec<String>>) -> (r: Option<Vec<String>>)
    ensures
        opt_strs_view(r) == opt_strs_view(*o),
{
    match o {
        Some(v) => Some(crate::strmap::clone_strings(v)),
        None => None,
    }
}

fn clone_i32s(v: &Vec<i32>) -> (r: Vec<i32>)
    ensures
        r@ == v@,
{
    let mut r: Vec<i32> = Vec::new();
    let mut i: usize = 0;
    while i < v.len()
        invariant
            i <= v@.len(),
            r@ == v@.subrange(0, i as int),
        decreases v@.len() - i,
    {
        r.push(v[i]);
        proof { assert(r@ =~= v@.subrange(0, i + 1)); }
        i = i + 1;
    }
    proof { assert(v@.subrange(0, i as int) =~= v@); }
    r
}

impl EnvFile {
    /// A copy of the env file setting.
    pub fn duplicate(&self) -> (r: Self)
        ensures
            r@ == self@,
    {
        match self {
            EnvFile::Single(s) => EnvFile::Single(s.clone()),
            EnvFile::Multiple(v) => EnvFile::Multiple(crate::strmap::clone_strings(v)),
        }
    }

    /// The env file paths, in order.
    pub fn paths(&self) -> (r: Vec<&str>)
        ensures
            r@.map_values(|s: &str| s@) == match self@ {
                EnvFileView::Single(p) => seq![p],
                EnvFileView::Multiple(ps) => ps,
            },
    {
        match self {
            EnvFile::Single(p) => {
                let mut r: Vec<&str> = Vec::new();
                r.push(p.as_str());
                proof { assert(r@.map_values(|s: &str| s@) =~= seq![p@]); }
                r
            },
            EnvFile::Multiple(ps) => {
                let mut r: Vec<&str> = Vec::new();
                let mut i: usize = 0;
                while i < ps.len()
                    invariant
                        i <= ps@.len(),
                        r@.map_values(|s: &str| s@) == key_views(ps@).subrange(0, i as int),
                    decreases ps@.len() - i,
                {
                    let ghost before = r@;
                    r.push(ps[i].as_str());
                    proof {
                        assert(r@.map_values(|s: &str| s@) =~= before.map_values(|s: &str| s@).push(ps@[i as int]@));
                        assert(key_views(ps@).subrange(0, i + 1) =~= key_views(ps@).subrange(0, i as int).push(ps@[i as int]@));
                    }
                    i = i + 1;
                }
                proof { assert(key_views(ps@).subrange(0, i as int) =~= key_views(ps@)); }
                r
            },
        }
    }
}

impl Watch {
    /// A copy of the watch setting.
    pub fn duplicate(&self) -> (r: Self)
        ensures
            r@ == self@,
    {
        match self {
            Watch::Enabled(b) => Watch::Enabled(*b),
            Watch::Path(p) => Watch::Path(p.clone()),
        }
    }
}

/// Copy of the named environments.
pub fn clone_environments(m: &StrMap<EnvVars>) -> (r: StrMap<EnvVars>)
    requires
        m.wf(),
        forall|i: int| 0 <= i < m.val_seq().len() ==> (#[trigger] m.val_seq()[i]).wf(),
    ensures
        r.wf(),
        forall|i: int| 0 <= i < r.val_seq().len() ==> (#[trigger] r.val_seq()[i]).wf(),
        environments_view(r) == environments_view(*m),
        r.key_seq() == m.key_seq(),
{
    let r = m.duplicate_nested();
    proof {
        r.lemma_wf();
        m.lemma_wf();
        assert(r.as_map().dom() =~= m.as_map().dom());
        assert forall|k: Seq<char>| #[trigger] r.as_map().dom().contains(k) implies
            vars_view(r.as_map()[k]) == vars_view(m.as_map()[k]) by {
            r.lemma_key_index(k);
            let i = r.key_seq().index_of(k);
            r.lemma_index(i);
            m.lemma_index(i);
        }
        assert(environments_view(r) =~= environments_view(*m));
    }
    r
}

impl ProcessConfig {
    /// A copy of the configuration.
    pub fn duplicate(&self) -> (r: Self)
        requires
            self.wf(),
        ensures
            r.wf(),
            r@ == self@,
    {
        ProcessConfig {
            command: self.command.clone(),
            cwd: clone_opt_string(&self.cwd),
            env: match &self.env {
                Some(m) => Some(m.duplicate()),
                None => None,
            },
            env_file: match &self.env_file {
                Some(e) => Some(e.duplicate()),
                None => None,
            },
            health_check: clone_opt_string(&self.health_check),
            kill_timeout: self.kill_timeout,
            kill_signal: clone_opt_string(&self.kill_signal),
            max_restarts: self.max_restarts,
            max_memory: clone_opt_string(&self.max_memory),
            min_uptime: self.min_uptime,
            stop_exit_codes: match &self.stop_exit_codes {
                Some(v) => Some(clone_i32s(v)),
                None => None,
            },
            watch: match &self.watch {
                Some(w) => Some(w.duplicate()),
                None => None,
            },
            watch_ignore: clone_opt_strings(&self.watch_ignore),
            watch_debounce: self.watch_debounce,
            depends_on: clone_opt_strings(&self.depends_on),
            restart: self.restart,
            group: clone_opt_string(&self.group),
            pre_start: clone_opt_string(&self.pre_start),
            post_stop: clone_opt_string(&self.post_stop),
            cron_restart: clone_opt_string(&self.cron_restart),
            log_date_format: clone_opt_string(&self.log_date_format),
            instances: self.instances,
            environments: clone_environments(&self.environments),
        }
    }
}

} // verus!

verus! {

/// The variables of an optional environment (none: no variables).
pub open spec fn vars_or_empty(o: Option<Map<Seq<char>, Seq<char>>>) -> Map<Seq<char>, Seq<char>> {
    match o {
        Some(m) => m,
        None => Map::empty(),
    }
}

/// Sets every variable of `extra` in `base`, overriding existing values.
pub fn merge_vars(base: &mut EnvVars, extra: &EnvVars)
    requires
        old(base).wf(),
        extra.wf(),
    ensures
        final(base).wf(),
        vars_view(*final(base)) == vars_view(*old(base)).union_prefer_right(vars_view(*extra)),
{
    let ghost b0 = vars_view(*base);
    let n = extra.len();
    let mut i: usize = 0;
    proof { extra.lemma_wf(); }
    while i < n
        invariant
            extra.wf(),
            base.wf(),
            n == extra.key_seq().len(),
            n == extra.val_seq().len(),
            i <= n,
            vars_view(*base) == b0.union_prefer_right(
                vars_view(*extra).restrict(extra.key_seq().subrange(0, i as int).to_set())),
        decreases n - i,
    {
        let k = extra.key_at(i).clone();
        let v = extra.value_at(i).clone();
        let ghost before = vars_view(*base);
        proof {
            extra.lemma_index(i as int);
        }
        base.insert(k, v);
        proof {
            let s0 = extra.key_seq().subrange(0, i as int).to_set();
            let s1 = extra.key_seq().subrange(0, i + 1).to_set();
            assert(s1 =~= s0.insert(k@)) by {
                assert(extra.key_seq().subrange(0, i + 1) =~= extra.key_seq().subrange(0, i as int).push(k@));
                assert forall|q: Seq<char>| s1.contains(q) <==> s0.insert(k@).contains(q) by {
                    let a = extra.key_seq().subrange(0, i as int);
                    let b = extra.key_seq().subrange(0, i + 1);
                    if b.contains(q) {
                        let t = choose|t: int| 0 <= t < b.len() && b[t] == q;
                        if t < i { assert(a[t] == q); }
                    }
                    if a.contains(q) {
                        let t = choose|t: int| 0 <= t < a.len() && a[t] == q;
                        assert(b[t] == q);
                    }
                    if q == k@ { assert(b[i as int] == q); }
                }
            }
            assert(vars_view(*base) =~= before.insert(k@, v@));
            assert(vars_view(*base) =~= b0.union_prefer_right(vars_view(*extra).restrict(s1)));
        }
        i = i + 1;
    }
    proof {
        extra.lemma_wf();
        assert(extra.key_seq().subrange(0, n as int) =~= extra.key_seq());
        assert(vars_view(*extra).restrict(extra.key_seq().to_set()) =~= vars_view(*extra));
    }
}

impl ProcessConfig {
    /// Merges the named environment into `env` (creating `env` if absent).
    /// Returns whether the environment exists; if not, nothing changes.
    pub fn apply_environment(&mut self, env_name: &str) -> (r: bool)
        requires
            old(self).wf(),
        ensures
            final(self).wf(),
            r == old(self)@.environments.dom().contains(env_name@),
            r ==> final(self)@ == (ProcessConfigView {
                env: Some(vars_or_empty(old(self)@.env).union_prefer_right(old(self)@.environments[env_name@])),
                ..old(self)@
            }),
            !r ==> final(self)@ == old(self)@,
    {
        proof { self.environments.lemma_wf(); }
        let idx = self.environments.index_of(env_name);
        match idx {
            None => {
                false
            },
            Some(i) => {
                proof {
                    self.environments.lemma_index(i as int);
                }
                let ghost old_self = *self;
                let mut base = match self.env.take() {
                    Some(m) => m,
                    None => StrMap::new(),
                };
                proof {
                    assert(vars_view(base) =~= vars_or_empty(old_self@.env));
                }
                let extra = self.environments.value_at(i);
                merge_vars(&mut base, extra);
                self.env = Some(base);
                proof {
                    assert(self@.env == Some(vars_or_empty(old_self@.env).union_prefer_right(old_self@.environments[env_name@])));
                }
                true
            },
        }
    }
}

} // verus!

verus! {

fn opt_string_eq(a: &Option<String>, b: &Option<String>) -> (r: bool)
    ensures
        r == (opt_str_view(*a) == opt_str_view(*b)),
{
    match (a, b) {
        (Some(x), Some(y)) => crate::text::str_eq(x.as_str(), y.as_str()),
        (None, None) => true,
        _ => false,
    }
}

fn strings_eq(a: &Vec<String>, b: &Vec<String>) -> (r: bool)
    ensures
        r == (key_views(a@) == key_views(b@)),
{
    if a.len() != b.len() {
        proof { assert(key_views(a@).len() != key_views(b@).len()); }
        return false;
    }
    let mut i: usize = 0;
    while i < a.len()
        invariant
            a@.len() == b@.len(),
            i <= a@.len(),
            forall|j: int| 0 <= j < i ==> a@[j]@ == b@[j]@,
        decreases a@.len() - i,
    {
        if !crate::text::str_eq(a[i].as_str(), b[i].as_str()) {
            proof { assert(key_views(a@)[i as int] != key_views(b@)[i as int]); }
            return false;
        }
        i = i + 1;
    }
    proof { assert(key_views(a@) =~= key_views(b@)); }
    true
}

fn opt_strings_eq(a: &Option<Vec<String>>, b: &Option<Vec<String>>) -> (r: bool)
    ensures
        r == (opt_strs_view(*a) == opt_strs_view(*b)),
{
    match (a, b) {
        (Some(x), Some(y)) => strings_eq(x, y),
        (None, None) => true,
        _ => false,
    }
}

fn codes_eq(x: &Vec<i32>, y: &Vec<i32>) -> (r: bool)
    ensures
        r == (x@ == y@),
{
    if x.len() != y.len() {
        return false;
    }
    let mut i: usize = 0;
    while i < x.len()
        invariant
            x@.len() == y@.len(),
            i <= x@.len(),
            forall|j: int| 0 <= j < i ==> x@[j] == y@[j],
        decreases x@.len() - i,
    {
        if x[i] != y[i] {
            proof { assert(x@[i as int] != y@[i as int]); }
            return false;
        }
        i = i + 1;
    }
    proof { assert(x@ =~= y@); }
    true
}

fn opt_codes_eq(a: &Option<Vec<i32>>, b: &Option<Vec<i32>>) -> (r: bool)
    ensures
        r == ((match *a { Some(v) => Some(v@), None => None::<Seq<i32>> }) == (match *b { Some(v) => Some(v@), None => None::<Seq<i32>> })),
{
    match (a, b) {
        (Some(x), Some(y)) => codes_eq(x, y),
        (None, None) => true,
        _ => false,
    }
}

/// Whether two variable maps hold the same variables with the same values
/// (whatever their order).
pub fn vars_equal(a: &EnvVars, b: &EnvVars) -> (r: bool)
    requires
        a.wf(),
        b.wf(),
    ensures
        r == (vars_view(*a) == vars_view(*b)),
{
    proof {
        a.lemma_wf();
        b.lemma_wf();
        a.key_seq().unique_seq_to_set();
        b.key_seq().unique_seq_to_set();
    }
    if a.len() != b.len() {
        proof {
            if vars_view(*a) == vars_view(*b) {
                assert(a.as_map().dom() == vars_view(*a).dom());
                assert(b.as_map().dom() == vars_view(*b).dom());
            }
        }
        return false;
    }
    let n = a.len();
    let mut i: usize = 0;
    while i < n
        invariant
            a.wf(),
            b.wf(),
            n == a.key_seq().len(),
            n == a.val_seq().len(),
            i <= n,
            forall|j: int| 0 <= j < i ==> b.as_map().dom().contains(#[trigger] a.key_seq()[j])
                && b.as_map()[a.key_seq()[j]]@ == a.val_seq()[j]@,
        decreases n - i,
    {
        let k = a.key_at(i);
        proof { a.lemma_index(i as int); }
        match b.get(k.as_str()) {
            None => {
                proof {
                    assert(!vars_view(*b).dom().contains(k@));
                    assert(vars_view(*a).dom().contains(k@));
                }
                return false;
            },
            Some(v) => {
                if !crate::text::str_eq(v.as_str(), a.value_at(i).as_str()) {
                    proof {
                        assert(vars_view(*b)[k@] != vars_view(*a)[k@]);
                    }
                    return false;
                }
            },
        }
        i = i + 1;
    }
    proof {
        assert(a.as_map().dom().subset_of(b.as_map().dom())) by {
            assert forall|k: Seq<char>| a.as_map().dom().contains(k) implies b.as_map().dom().contains(k) by {
                a.lemma_key_index(k);
                let j = a.key_seq().index_of(k);
                assert(b.as_map().dom().contains(a.key_seq()[j]));
            }
        }
        vstd::set_lib::lemma_subset_equality(a.as_map().dom(), b.as_map().dom());
        assert forall|k: Seq<char>| vars_view(*a).dom().contains(k) implies #[trigger] vars_view(*a)[k] == vars_view(*b)[k] by {
            a.lemma_key_index(k);
            let j = a.key_seq().index_of(k);
            a.lemma_index(j);
        }
        assert(vars_view(*a) =~= vars_view(*b));
    }
    true
}

/// Whether two sets of named environments are the same.
pub fn environments_equal(a: &StrMap<EnvVars>, b: &StrMap<EnvVars>) -> (r: bool)
    requires
        a.wf(),
        b.wf(),
        forall|i: int| 0 <= i < a.val_seq().len() ==> (#[trigger] a.val_seq()[i]).wf(),
        forall|i: int| 0 <= i < b.val_seq().len() ==> (#[trigger] b.val_seq()[i]).wf(),
    ensures
        r == (environments_view(*a) == environments_view(*b)),
{
    proof {
        a.lemma_wf();
        b.lemma_wf();
        a.key_seq().unique_seq_to_set();
        b.key_seq().unique_seq_to_set();
    }
    if a.len() != b.len() {
        proof {
            if environments_view(*a) == environments_view(*b) {
                assert(a.as_map().dom() == environments_view(*a).dom());
                assert(b.as_map().dom() == environments_view(*b).dom());
            }
        }
        return false;
    }
    let n = a.len();
    let mut i: usize = 0;
    while i < n
        invariant
            a.wf(),
            b.wf(),
            forall|j: int| 0 <= j < a.val_seq().len() ==> (#[trigger] a.val_seq()[j]).wf(),
            forall|j: int| 0 <= j < b.val_seq().len() ==> (#[trigger] b.val_seq()[j]).wf(),
            n == a.key_seq().len(),
            n == a.val_seq().len(),
            i <= n,
            forall|j: int| 0 <= j < i ==> b.as_map().dom().contains(#[trigger] a.key_seq()[j])
                && vars_view(b.as_map()[a.key_seq()[j]]) == vars_view(a.val_seq()[j]),
        decreases n - i,
    {
        let k = a.key_at(i);
        proof { a.lemma_index(i as int); }
        match b.get(k.as_str()) {
            None => {
                proof {
                    assert(!environments_view(*b).dom().contains(k@));
                    assert(environments_view(*a).dom().contains(k@));
                }
                return false;
            },
            Some(v) => {
                proof {
                    b.lemma_wf();
                    b.lemma_key_index(k@);
                    b.lemma_index(b.key_seq().index_of(k@));
                    assert(b.val_seq()[b.key_seq().index_of(k@)].wf());
                    assert(a.val_seq()[i as int].wf());
                }
                if !vars_equal(v, a.value_at(i)) {
                    proof {
                        assert(environments_view(*b)[k@] != environments_view(*a)[k@]);
                    }
                    return false;
                }
            },
        }
        i = i + 1;
    }
    proof {
        assert(a.as_map().dom().subset_of(b.as_map().dom())) by {
            assert forall|k: Seq<char>| a.as_map().dom().contains(k) implies b.as_map().dom().contains(k) by {
                a.lemma_key_index(k);
                let j = a.key_seq().index_of(k);
                assert(b.as_map().dom().contains(a.key_seq()[j]));
            }
        }
        vstd::set_lib::lemma_subset_equality(a.as_map().dom(), b.as_map().dom());
        assert forall|k: Seq<char>| environments_view(*a).dom().contains(k) implies #[trigger] environments_view(*a)[k] == environments_view(*b)[k] by {
            a.lemma_key_index(k);
            let j = a.key_seq().index_of(k);
            a.lemma_index(j);
        }
        assert(environments_view(*a) =~= environments_view(*b));
    }
    true
}

impl ProcessConfig {
    /// Whether two configurations are the same, field by field (maps
    /// compared as maps, whatever their order).
    pub fn same_as(&self, other: &ProcessConfig) -> (r: bool)
        requires
            self.wf(),
            other.wf(),
        ensures
            r == (self@ == other@),
    {
        let env_eq = match (&self.env, &other.env) {
            (Some(a), Some(b)) => vars_equal(a, b),
            (None, None) => true,
            _ => false,
        };
        let env_file_eq = match (&self.env_file, &other.env_file) {
            (Some(EnvFile::Single(a)), Some(EnvFile::Single(b))) => crate::text::str_eq(a.as_str(), b.as_str()),
            (Some(EnvFile::Multiple(a)), Some(EnvFile::Multiple(b))) => strings_eq(a, b),
            (None, None) => true,
            _ => false,
        };
        let watch_eq = match (&self.watch, &other.watch) {
            (Some(Watch::Enabled(a)), Some(Watch::Enabled(b))) => *a == *b,
            (Some(Watch::Path(a)), Some(Watch::Path(b))) => crate::text::str_eq(a.as_str(), b.as_str()),
            (None, None) => true,
            _ => false,
        };
        let restart_eq = match (self.restart, other.restart) {
            (Some(RestartPolicy::OnFailure), Some(RestartPolicy::OnFailure)) => true,
            (Some(RestartPolicy::Always), Some(RestartPolicy::Always)) => true,
            (Some(RestartPolicy::Never), Some(RestartPolicy::Never)) => true,
            (None, None) => true,
            _ => false,
        };
        let r = crate::text::str_eq(self.command.as_str(), other.command.as_str())
            && opt_string_eq(&self.cwd, &other.cwd)
            && env_eq
            && env_file_eq
            && opt_string_eq(&self.health_check, &other.health_check)
            && self.kill_timeout == other.kill_timeout
            && opt_string_eq(&self.kill_signal, &other.kill_signal)
            && self.max_restarts == other.max_restarts
            && opt_string_eq(&self.max_memory, &other.max_memory)
            && self.min_uptime == other.min_uptime
            && opt_codes_eq(&self.stop_exit_codes, &other.stop_exit_codes)
            && watch_eq
            && opt_strings_eq(&self.watch_ignore, &other.watch_ignore)
            && self.watch_debounce == other.watch_debounce
            && opt_strings_eq(&self.depends_on, &other.depends_on)
            && restart_eq
            && opt_string_eq(&self.group, &other.group)
            && opt_string_eq(&self.pre_start, &other.pre_start)
            && opt_string_eq(&self.post_stop, &other.post_stop)
            && opt_string_eq(&self.cron_restart, &other.cron_restart)
            && opt_string_eq(&self.log_date_format, &other.log_date_format)
            && self.instances == other.instances
            && environments_equal(&self.environments, &other.environments);
        proof {
            if r {
                assert(self@ =~= other@);
            }
        }
        r
    }
}

} // verus!

verus! {

/// Why a configuration file was refused.
#[derive(Debug, PartialEq)]
pub enum ConfigError {
    Empty,
    TomlParse(String),
    UnknownField { process: String, field: String },
    InvalidProcessName(String),
    IoError(String),
}

/// A configuration error by its strings' characters.
pub enum ConfigErrorView {
    Empty,
    TomlParse(Seq<char>),
    UnknownField { process: Seq<char>, field: Seq<char> },
    InvalidProcessName(Seq<char>),
    IoError(Seq<char>),
}

impl View for ConfigError {
    type V = ConfigErrorView;

    open spec fn view(&self) -> ConfigErrorView {
        match self {
            ConfigError::Empty => ConfigErrorView::Empty,
            ConfigError::TomlParse(s) => ConfigErrorView::TomlParse(s@),
            ConfigError::UnknownField { process, field } => ConfigErrorView::UnknownField { process: process@, field: field@ },
            ConfigError::InvalidProcessName(s) => ConfigErrorView::InvalidProcessName(s@),
            ConfigError::IoError(s) => ConfigErrorView::IoError(s@),
        }
    }
}

/// The message of a configuration error.
pub open spec fn config_error_text(e: ConfigErrorView) -> Seq<char> {
    match e {
        ConfigErrorView::Empty => "config file is empty"@,
        ConfigErrorView::TomlParse(s) => "TOML parse error: "@ + s,
        ConfigErrorView::UnknownField { process, field } => "unknown field `"@ + field + "` in process `"@ + process + "`"@,
        ConfigErrorView::InvalidProcessName(s) => "invalid process name `"@ + s + "`: must not contain path separators or `..`"@,
        ConfigErrorView::IoError(s) => s,
    }
}

impl ConfigError {
    /// The message of the error.
    pub fn message(&self) -> (r: String)
        ensures
            r@ == config_error_text(self@),
    {
        match self {
            ConfigError::Empty => "config file is empty".to_string(),
            ConfigError::TomlParse(s) => crate::text::concat2("TOML parse error: ", s.as_str()),
            ConfigError::UnknownField { process, field } => {
                let a = crate::text::concat2("unknown field `", field.as_str());
                let b = crate::text::concat2(a.as_str(), "` in process `");
                let c = crate::text::concat2(b.as_str(), process.as_str());
                crate::text::concat2(c.as_str(), "`")
            },
            ConfigError::InvalidProcessName(s) => {
                let a = crate::text::concat2("invalid process name `", s.as_str());
                crate::text::concat2(a.as_str(), "`: must not contain path separators or `..`")
            },
            ConfigError::IoError(s) => s.clone(),
        }
    }
}

/// A process name may not hold `/`, `\`, `..` or `:`.
pub open spec fn valid_process_name(name: Seq<char>) -> bool {
    !name.contains('/') && !name.contains('\\') && !crate::text::contains_seq(name, ".."@) && !name.contains(':')
}

/// A process name is refused exactly when it holds a `/`, a `\\`, a `:` or
/// two dots in a row; any other name (letters, digits, `-`, `_`, single
/// dots, ...) is accepted.
pub proof fn law_process_name_refusals(name: Seq<char>)
    ensures
        valid_process_name(name) == (
            (forall|i: int| 0 <= i < name.len() ==> #[trigger] name[i] != '/' && name[i] != '\\' && name[i] != ':')
            && (forall|i: int| 0 <= i < name.len() - 1 ==> !(#[trigger] name[i] == '.' && name[i + 1] == '.'))),
{
    reveal_strlit("..");
    assert(".."@.len() == 2 && ".."@[0] == '.' && ".."@[1] == '.');
    if crate::text::contains_seq(name, ".."@) {
        let i = choose|i: int| crate::text::occurs_at(".."@, name, i);
        assert(name.subrange(i, i + 2)[0] == name[i]);
        assert(name.subrange(i, i + 2)[1] == name[i + 1]);
    }
    if exists|i: int| 0 <= i < name.len() - 1 && #[trigger] name[i] == '.' && name[i + 1] == '.' {
        let i = choose|i: int| 0 <= i < name.len() - 1 && #[trigger] name[i] == '.' && name[i + 1] == '.';
        assert(name.subrange(i, i + 2) =~= ".."@);
        assert(crate::text::occurs_at(".."@, name, i));
    }
    if name.contains('/') { let i = choose|i: int| 0 <= i < name.len() && name[i] == '/'; }
    if name.contains('\\') { let i = choose|i: int| 0 <= i < name.len() && name[i] == '\\'; }
    if name.contains(':') { let i = choose|i: int| 0 <= i < name.len() && name[i] == ':'; }
}

/// Whether a process name is acceptable (see `valid_process_name`).
pub fn is_valid_process_name(name: &str) -> (r: bool)
    ensures
        r == valid_process_name(name@),
{
    !crate::text::contains_char(name, '/') && !crate::text::contains_char(name, '\\')
        && !crate::text::contains_str(name, "..") && !crate::text::contains_char(name, ':')
}

/// The fields of one `[name]` table of the configuration file: the known
/// fields (with no environments yet), and every other key with its value
/// read as a table of strings (or the reading error).
#[derive(Debug)]
pub struct RawFields {
    pub config: ProcessConfig,
    pub extras: Vec<(String, Result<EnvVars, String>)>,
}

/// One `[name]` table of the configuration file: its name, and its fields
/// or the error met reading them.
#[derive(Debug)]
pub struct RawEntry {
    pub name: String,
    pub fields: Result<RawFields, String>,
}

/// One extra key of a table, by its model.
pub open spec fn extra_view(x: (String, Result<EnvVars, String>)) -> (Seq<char>, Result<Map<Seq<char>, Seq<char>>, Seq<char>>) {
    (x.0@, match x.1 { Ok(m) => Ok(vars_view(m)), Err(e) => Err(e@) })
}

/// The environments declared by the extra keys of table `process`: a key
/// `env_<name>` declares environment `<name>`; any other key is an unknown
/// field; the first error in order wins.
pub open spec fn environments_of(process: Seq<char>, extras: Seq<(Seq<char>, Result<Map<Seq<char>, Seq<char>>, Seq<char>>)>)
    -> Result<Map<Seq<char>, Map<Seq<char>, Seq<char>>>, ConfigErrorView>
    decreases extras.len(),
{
    if extras.len() == 0 {
        Ok(Map::empty())
    } else {
        match environments_of(process, extras.drop_last()) {
            Err(e) => Err(e),
            Ok(envs) => {
                let (key, value) = extras.last();
                if crate::text::is_prefix("env_"@, key) {
                    match value {
                        Ok(vars) => Ok(envs.insert(key.skip(4), vars)),
                        Err(t) => Err(ConfigErrorView::TomlParse(t)),
                    }
                } else {
                    Err(ConfigErrorView::UnknownField { process, field: key })
                }
            },
        }
    }
}

/// The configuration of one table, or its error.
pub open spec fn entry_config(e: RawEntry) -> Result<ProcessConfigView, ConfigErrorView> {
    if !valid_process_name(e.name@) {
        Err(ConfigErrorView::InvalidProcessName(e.name@))
    } else {
        match e.fields {
            Err(t) => Err(ConfigErrorView::TomlParse(t@)),
            Ok(f) => match environments_of(e.name@, f.extras@.map_values(|x: (String, Result<EnvVars, String>)| extra_view(x))) {
                Err(err) => Err(err),
                Ok(envs) => Ok(ProcessConfigView { environments: envs, ..f.config@ }),
            },
        }
    }
}

/// The configurations of all tables, in order (a later table of the same
/// name replaces an earlier one), or the first error.
pub open spec fn entries_configs(es: Seq<RawEntry>) -> Result<Map<Seq<char>, ProcessConfigView>, ConfigErrorView>
    decreases es.len(),
{
    if es.len() == 0 {
        Ok(Map::empty())
    } else {
        match entries_configs(es.drop_last()) {
            Err(e) => Err(e),
            Ok(m) => match entry_config(es.last()) {
                Err(e) => Err(e),
                Ok(c) => Ok(m.insert(es.last().name@, c)),
            },
        }
    }
}

/// The raw fields are well formed.
pub open spec fn raw_entries_wf(es: Seq<RawEntry>) -> bool {
    forall|i: int| 0 <= i < es.len() ==> ((#[trigger] es[i]).fields matches Ok(f) ==> {
        &&& f.config.wf()
        &&& forall|j: int| 0 <= j < f.extras@.len() ==> ((#[trigger] f.extras@[j]).1 matches Ok(m) ==> m.wf())
    })
}

/// Builds the environments of table `process` from its extra keys.
fn build_environments(process: &String, extras: &Vec<(String, Result<EnvVars, String>)>) -> (r: Result<StrMap<EnvVars>, ConfigError>)
    requires
        forall|j: int| 0 <= j < extras@.len() ==> ((#[trigger] extras@[j]).1 matches Ok(m) ==> m.wf()),
    ensures
        match environments_of(process@, extras@.map_values(|x: (String, Result<EnvVars, String>)| extra_view(x))) {
            Ok(envs) => r matches Ok(m) && m.wf()
                && (forall|i: int| 0 <= i < m.val_seq().len() ==> (#[trigger] m.val_seq()[i]).wf())
                && environments_view(m) == envs,
            Err(e) => r matches Err(x) && x@ == e,
        },
{
    let ghost xs = extras@.map_values(|x: (String, Result<EnvVars, String>)| extra_view(x));
    let mut envs: StrMap<EnvVars> = StrMap::new();
    proof {
        envs.lemma_wf();
        assert(environments_view(envs) =~= Map::<Seq<char>, Map<Seq<char>, Seq<char>>>::empty());
        assert(xs.subrange(0, 0).len() == 0);
    }
    let mut i: usize = 0;
    while i < extras.len()
        invariant
            forall|j: int| 0 <= j < extras@.len() ==> ((#[trigger] extras@[j]).1 matches Ok(m) ==> m.wf()),
            xs == extras@.map_values(|x: (String, Result<EnvVars, String>)| extra_view(x)),
            i <= extras@.len(),
            envs.wf(),
            forall|k: int| 0 <= k < envs.val_seq().len() ==> (#[trigger] envs.val_seq()[k]).wf(),
            environments_of(process@, xs.subrange(0, i as int)) == Ok::<Map<Seq<char>, Map<Seq<char>, Seq<char>>>, ConfigErrorView>(environments_view(envs)),
        decreases extras@.len() - i,
    {
        let ghost s1 = xs.subrange(0, i + 1);
        proof {
            assert(s1.drop_last() =~= xs.subrange(0, i as int));
            assert(s1.last() == extra_view(extras@[i as int]));
        }
        let key = &extras[i].0;
        proof { reveal_strlit("env_"); }
        if crate::text::starts_with(key.as_str(), "env_") {
            match &extras[i].1 {
                Ok(vars) => {
                    let v = chars_of_skip4(key);
                    proof { assert(vars.wf()); }
                    let copy = vars.duplicate();
                    let ghost e0 = envs;
                    envs.insert(v, copy);
                    proof {
                        envs.lemma_wf();
                        e0.lemma_wf();
                        assert forall|k: int| 0 <= k < envs.val_seq().len() implies (#[trigger] envs.val_seq()[k]).wf() by {
                            envs.lemma_index(k);
                            let kk = envs.key_seq()[k];
                            if kk != key@.skip(4) {
                                e0.lemma_key_index(kk);
                                e0.lemma_index(e0.key_seq().index_of(kk));
                            }
                        }
                        assert(environments_view(envs) =~= environments_view(e0).insert(key@.skip(4), vars_view(*vars)));
                    }
                },
                Err(t) => {
                    proof { lemma_env_error_extends(process@, xs, i + 1); }
                    return Err(ConfigError::TomlParse(t.clone()));
                },
            }
        } else {
            proof { lemma_env_error_extends(process@, xs, i + 1); }
            return Err(ConfigError::UnknownField { process: process.clone(), field: key.clone() });
        }
        i = i + 1;
    }
    proof { assert(xs.subrange(0, i as int) =~= xs); }
    Ok(envs)
}

proof fn lemma_env_error_extends(process: Seq<char>, xs: Seq<(Seq<char>, Result<Map<Seq<char>, Seq<char>>, Seq<char>>)>, k: int)
    requires
        0 <= k <= xs.len(),
        environments_of(process, xs.subrange(0, k)) is Err,
    ensures
        environments_of(process, xs) == environments_of(process, xs.subrange(0, k)),
    decreases xs.len() - k,
{
    if k < xs.len() {
        assert(xs.subrange(0, k + 1).drop_last() =~= xs.subrange(0, k));
        lemma_env_error_extends(process, xs, k + 1);
    } else {
        assert(xs.subrange(0, k) =~= xs);
    }
}

/// A string without its first four characters.
fn chars_of_skip4(s: &String) -> (r: String)
    requires
        s@.len() >= 4,
    ensures
        r@ == s@.skip(4),
{
    let v = crate::text::chars_of(s.as_str());
    let r = crate::text::string_from_chars(v.as_slice(), 4, v.len());
    assert(r@ =~= s@.skip(4));
    r
}

/// Builds the configurations from the tables of a configuration file:
/// refuses a file without tables, a table whose name holds `/`, `\`, `..`
/// or `:`, fields that could not be read, and keys that are neither fields
/// nor `env_<name>` environments. The first error in order is reported.
pub fn build_configs(entries: Vec<RawEntry>) -> (r: Result<StrMap<ProcessConfig>, ConfigError>)
    requires
        raw_entries_wf(entries@),
    ensures
        entries@.len() == 0 ==> (r matches Err(e) && e@ == ConfigErrorView::Empty),
        entries@.len() > 0 ==> match entries_configs(entries@) {
            Ok(m) => r matches Ok(c) && crate::deps::configs_wf(c) && crate::manager::configs_view(c) == m,
            Err(e) => r matches Err(x) && x@ == e,
        },
{
    if entries.len() == 0 {
        return Err(ConfigError::Empty);
    }
    let mut configs: StrMap<ProcessConfig> = StrMap::new();
    proof {
        configs.lemma_wf();
        assert(crate::manager::configs_view(configs) =~= Map::<Seq<char>, ProcessConfigView>::empty());
    }
    let mut i: usize = 0;
    while i < entries.len()
        invariant
            raw_entries_wf(entries@),
            i <= entries@.len(),
            crate::deps::configs_wf(configs),
            entries_configs(entries@.subrange(0, i as int))
                == Ok::<Map<Seq<char>, ProcessConfigView>, ConfigErrorView>(crate::manager::configs_view(configs)),
        decreases entries@.len() - i,
    {
        let ghost s1 = entries@.subrange(0, i + 1);
        proof {
            assert(s1.drop_last() =~= entries@.subrange(0, i as int));
            assert(s1.last() == entries@[i as int]);
        }
        let entry = &entries[i];
        if !is_valid_process_name(entry.name.as_str()) {
            proof { lemma_entries_error_extends(entries@, i + 1); }
            return Err(ConfigError::InvalidProcessName(entry.name.clone()));
        }
        match &entry.fields {
            Err(t) => {
                proof { lemma_entries_error_extends(entries@, i + 1); }
                return Err(ConfigError::TomlParse(t.clone()));
            },
            Ok(f) => {
                proof { assert(f.config.wf()); }
                match build_environments(&entry.name, &f.extras) {
                    Err(e) => {
                        proof { lemma_entries_error_extends(entries@, i + 1); }
                        return Err(e);
                    },
                    Ok(envs) => {
                        let mut c = f.config.duplicate();
                        c.environments = envs;
                        let ghost cv = c@;
                        proof {
                            assert(cv == (ProcessConfigView { environments: environments_view(c.environments), ..f.config@ }));
                            assert(entry_config(entries@[i as int]) == Ok::<ProcessConfigView, ConfigErrorView>(cv));
                        }
                        let ghost c0 = configs;
                        configs.insert(entry.name.clone(), c);
                        proof {
                            assert(crate::manager::configs_view(configs) =~= crate::manager::configs_view(c0).insert(entry.name@, cv));
                            configs.lemma_wf();
                            c0.lemma_wf();
                            assert forall|k: int| 0 <= k < configs.val_seq().len() implies (#[trigger] configs.val_seq()[k]).wf() by {
                                configs.lemma_index(k);
                                let kk = configs.key_seq()[k];
                                if kk != entry.name@ {
                                    c0.lemma_key_index(kk);
                                    c0.lemma_index(c0.key_seq().index_of(kk));
                                }
                            }
                        }
                    },
                }
            },
        }
        i = i + 1;
    }
    proof { assert(entries@.subrange(0, i as int) =~= entries@); }
    Ok(configs)
}

proof fn lemma_entries_error_extends(es: Seq<RawEntry>, k: int)
    requires
        0 <= k <= es.len(),
        entries_configs(es.subrange(0, k)) is Err,
    ensures
        entries_configs(es) == entries_configs(es.subrange(0, k)),
    decreases es.len() - k,
{
    if k < es.len() {
        assert(es.subrange(0, k + 1).drop_last() =~= es.subrange(0, k));
        lemma_entries_error_extends(es, k + 1);
    } else {
        assert(es.subrange(0, k) =~= es);
    }
}

} // verus!

verus! {

/// An env file path resolved against the working directory: a relative path
/// is joined onto `cwd` when one is set.
pub open spec fn env_path_resolved(p: Seq<char>, cwd: Option<Seq<char>>) -> Seq<char> {
    if !crate::paths::is_absolute(p) && cwd is Some {
        crate::paths::join_path(cwd->0, p)
    } else {
        p
    }
}

/// The env files of a configuration, resolved, in order.
pub open spec fn env_paths_of(c: ProcessConfigView) -> Seq<Seq<char>> {
    match c.env_file {
        None => Seq::empty(),
        Some(EnvFileView::Single(p)) => seq![env_path_resolved(p, c.cwd)],
        Some(EnvFileView::Multiple(ps)) => ps.map_values(|p: Seq<char>| env_path_resolved(p, c.cwd)),
    }
}

/// The variables of env files read in order, later files overriding
/// earlier ones; the first failure to read one is the result.
pub open spec fn merged_env_files(files: Seq<Result<Map<Seq<char>, Seq<char>>, Seq<char>>>) -> Result<Map<Seq<char>, Seq<char>>, Seq<char>>
    decreases files.len(),
{
    if files.len() == 0 {
        Ok(Map::empty())
    } else {
        match merged_env_files(files.drop_last()) {
            Err(e) => Err(e),
            Ok(m) => match files.last() {
                Err(e) => Err(e),
                Ok(vars) => Ok(m.union_prefer_right(vars)),
            },
        }
    }
}

/// A read env file, by its model.
pub open spec fn read_view(r: Result<EnvVars, String>) -> Result<Map<Seq<char>, Seq<char>>, Seq<char>> {
    match r {
        Ok(m) => Ok(vars_view(m)),
        Err(e) => Err(e@),
    }
}

impl ProcessConfig {
    /// The env files to load, in order: relative paths are resolved against
    /// `cwd` when it is set.
    pub fn env_file_paths(&self) -> (r: Vec<String>)
        ensures
            key_views(r@) == env_paths_of(self@),
    {
        let mut r: Vec<String> = Vec::new();
        match &self.env_file {
            None => {
                proof { assert(key_views(r@) =~= Seq::<Seq<char>>::empty()); }
                r
            },
            Some(ef) => {
                let ps = ef.paths();
                let ghost pv = ps@.map_values(|s: &str| s@);
                let mut i: usize = 0;
                while i < ps.len()
                    invariant
                        i <= ps@.len(),
                        pv == ps@.map_values(|s: &str| s@),
                        key_views(r@) == pv.subrange(0, i as int).map_values(|p: Seq<char>| env_path_resolved(p, opt_str_view(self.cwd))),
                    decreases ps@.len() - i,
                {
                    let p = ps[i];
                    let relative = !(p.unicode_len() > 0 && p.get_char(0) == '/');
                    let resolved = match &self.cwd {
                        Some(dir) => if relative { crate::paths::join(dir.as_str(), p) } else { crate::text::owned(p) },
                        None => crate::text::owned(p),
                    };
                    let ghost r0 = r@;
                    r.push(resolved);
                    proof {
                        assert(pv[i as int] == p@);
                        assert(key_views(r@) =~= key_views(r0).push(resolved@));
                        assert(key_views(r@) =~= pv.subrange(0, i + 1).map_values(|q: Seq<char>| env_path_resolved(q, opt_str_view(self.cwd))));
                    }
                    i = i + 1;
                }
                proof {
                    assert(pv.subrange(0, i as int) =~= pv);
                    match self@.env_file {
                        Some(EnvFileView::Single(q)) => {
                            assert(pv =~= seq![q]);
                            assert(key_views(r@) =~= seq![env_path_resolved(q, self@.cwd)]);
                        },
                        _ => {},
                    }
                }
                r
            },
        }
    }

    /// The variables of the configuration's env files, given what reading
    /// each file of `env_file_paths` gave, in order: later files override
    /// earlier ones, and the first failure is returned.
    pub fn load_env_files(&self, read: Vec<Result<EnvVars, String>>) -> (r: Result<EnvVars, String>)
        requires
            forall|i: int| 0 <= i < read@.len() ==> ((#[trigger] read@[i]) matches Ok(m) ==> m.wf()),
        ensures
            match merged_env_files(read@.map_values(|x: Result<EnvVars, String>| read_view(x))) {
                Ok(m) => r matches Ok(v) && v.wf() && vars_view(v) == m,
                Err(e) => r matches Err(t) && t@ == e,
            },
    {
        let ghost rv = read@.map_values(|x: Result<EnvVars, String>| read_view(x));
        let mut vars: EnvVars = StrMap::new();
        proof {
            vars.lemma_wf();
            assert(vars_view(vars) =~= Map::<Seq<char>, Seq<char>>::empty());
            assert(rv.subrange(0, 0).len() == 0);
        }
        let mut i: usize = 0;
        while i < read.len()
            invariant
                forall|j: int| 0 <= j < read@.len() ==> ((#[trigger] read@[j]) matches Ok(m) ==> m.wf()),
                rv == read@.map_values(|x: Result<EnvVars, String>| read_view(x)),
                i <= read@.len(),
                vars.wf(),
                merged_env_files(rv.subrange(0, i as int)) == Ok::<Map<Seq<char>, Seq<char>>, Seq<char>>(vars_view(vars)),
            decreases read@.len() - i,
        {
            proof {
                assert(rv.subrange(0, i + 1).drop_last() =~= rv.subrange(0, i as int));
                assert(rv.subrange(0, i + 1).last() == read_view(read@[i as int]));
            }
            match &read[i] {
                Err(e) => {
                    proof { lemma_merge_error_extends(rv, i + 1); }
                    return Err(e.clone());
                },
                Ok(m) => {
                    merge_vars(&mut vars, m);
                },
            }
            i = i + 1;
        }
        proof { assert(rv.subrange(0, i as int) =~= rv); }
        Ok(vars)
    }
}

proof fn lemma_merge_error_extends(files: Seq<Result<Map<Seq<char>, Seq<char>>, Seq<char>>>, k: int)
    requires
        0 <= k <= files.len(),
        merged_env_files(files.subrange(0, k)) is Err,
    ensures
        merged_env_files(files) == merged_env_files(files.subrange(0, k)),
    decreases files.len() - k,
{
    if k < files.len() {
        assert(files.subrange(0, k + 1).drop_last() =~= files.subrange(0, k));
        lemma_merge_error_extends(files, k + 1);
    } else {
        assert(files.subrange(0, k) =~= files);
    }
}

} // verus!
