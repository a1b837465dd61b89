//! Dependency ordering between processes.
use vstd::prelude::*;
use crate::config::{ProcessConfig, ProcessConfigView, deps_of};
use crate::strmap::{StrMap, key_views};
use crate::text::{strs_view, sorted_strict, sort_strings};

verus! {

/// Why a set of configurations cannot be ordered.
#[derive(Debug, PartialEq)]
pub enum DepsError {
    /// Some processes can never start because of a dependency cycle
    /// (or a dependency that is never satisfied); `cycle` is the path
    /// reported for it.
    Circular { cycle: Vec<String> },
    /// `from` depends on `to`, which is not configured.
    Missing { from: String, to: String },
}

/// Dependency graph: each configured name to the names it depends on.
pub type DepGraph = Map<Seq<char>, Seq<Seq<char>>>;

/// The dependency graph of a set of configurations.
pub open spec fn dep_graph(configs: StrMap<ProcessConfig>) -> DepGraph {
    configs.as_map().map_values(|c: ProcessConfig| deps_of(c@))
}

/// Every element of `deps` is in `s`.
pub open spec fn all_in(deps: Seq<Seq<char>>, s: Set<Seq<char>>) -> bool {
    forall|j: int| 0 <= j < deps.len() ==> s.contains(#[trigger] deps[j])
}

/// Names not yet started whose dependencies have all been started.
pub open spec fn ready(g: DepGraph, done: Set<Seq<char>>) -> Set<Seq<char>> {
    Set::new(|n: Seq<char>| g.dom().contains(n) && !done.contains(n) && all_in(g[n], done))
}

/// The names placed in the first `k` levels.
pub open spec fn done_after(g: DepGraph, k: nat) -> Set<Seq<char>>
    decreases k,
{
    if k == 0 {
        Set::empty()
    } else {
        done_after(g, (k - 1) as nat).union(ready(g, done_after(g, (k - 1) as nat)))
    }
}

/// Level `k`: the names that become ready once levels `0..k` are placed.
pub open spec fn layer(g: DepGraph, k: nat) -> Set<Seq<char>> {
    ready(g, done_after(g, k))
}

/// `levels` is the start order of `g` level by level: level `k` holds exactly
/// the names of `layer(g, k)`, sorted, every level is nonempty, and no name is
/// ready after the last level.
pub open spec fn is_level_order(g: DepGraph, levels: Seq<Seq<Seq<char>>>) -> bool {
    &&& forall|k: int| 0 <= k < levels.len() ==> (#[trigger] levels[k]).to_set() == layer(g, k as nat)
    &&& forall|k: int| 0 <= k < levels.len() ==> sorted_strict(#[trigger] levels[k])
    &&& forall|k: int| 0 <= k < levels.len() ==> (#[trigger] levels[k]).len() > 0
    &&& layer(g, levels.len()) == Set::<Seq<char>>::empty()
}

/// Levels stop growing at `m`: levels `0..m` are nonempty and level `m` is empty.
pub open spec fn levels_end_at(g: DepGraph, m: nat) -> bool {
    &&& layer(g, m) == Set::<Seq<char>>::empty()
    &&& forall|k: nat| k < m ==> layer(g, k) != Set::<Seq<char>>::empty()
}

/// The characters of the names in a list of levels.
pub open spec fn levels_view(levels: Seq<Vec<String>>) -> Seq<Seq<Seq<char>>> {
    levels.map_values(|l: Vec<String>| strs_view(l@))
}

/// Number of `false` entries.
pub open spec fn count_false(s: Seq<bool>) -> nat
    decreases s.len(),
{
    if s.len() == 0 {
        0
    } else {
        count_false(s.drop_last()) + if s.last() { 0nat } else { 1nat }
    }
}

proof fn lemma_count_false_update(s: Seq<bool>, i: int)
    requires
        0 <= i < s.len(),
        !s[i],
    ensures
        count_false(s.update(i, true)) + 1 == count_false(s),
    decreases s.len(),
{
    let t = s.update(i, true);
    if i < s.len() - 1 {
        assert(t.drop_last() =~= s.drop_last().update(i, true));
        lemma_count_false_update(s.drop_last(), i);
    } else {
        assert(t.drop_last() =~= s.drop_last());
    }
}

/// Names placed so far are configured names.
pub proof fn lemma_done_in_dom(g: DepGraph, k: nat)
    ensures
        done_after(g, k).subset_of(g.dom()),
    decreases k,
{
    if k > 0 {
        lemma_done_in_dom(g, (k - 1) as nat);
    }
}

/// The names placed in the first `k` levels are those of levels `0..k`.
pub proof fn lemma_done_is_union_of_layers(g: DepGraph, k: nat, n: Seq<char>)
    ensures
        done_after(g, k).contains(n) <==> exists|j: nat| j < k && #[trigger] layer(g, j).contains(n),
    decreases k,
{
    if k > 0 {
        lemma_done_is_union_of_layers(g, (k - 1) as nat, n);
        if done_after(g, k).contains(n) && !done_after(g, (k - 1) as nat).contains(n) {
            assert(layer(g, (k - 1) as nat).contains(n));
        }
        if exists|j: nat| j < k && #[trigger] layer(g, j).contains(n) {
            let j = choose|j: nat| j < k && #[trigger] layer(g, j).contains(n);
            if j < k - 1 {
                assert(exists|j2: nat| j2 < k - 1 && #[trigger] layer(g, j2).contains(n));
            }
        }
    }
}

/// Placed names stay placed.
pub proof fn lemma_done_monotone(g: DepGraph, j: nat, k: nat)
    requires
        j <= k,
    ensures
        done_after(g, j).subset_of(done_after(g, k)),
    decreases k - j,
{
    if j < k {
        lemma_done_monotone(g, j, (k - 1) as nat);
    }
}

/// Whether every dependency of configuration `i` has been placed, where
/// `done[j]` tells whether the `j`-th configured name is in `placed`.
fn deps_all_done(configs: &StrMap<ProcessConfig>, done: &Vec<bool>, i: usize, Ghost(placed): Ghost<Set<Seq<char>>>) -> (r: bool)
    requires
        configs.wf(),
        i < configs.key_seq().len(),
        done@.len() == configs.key_seq().len(),
        placed.subset_of(configs.as_map().dom()),
        forall|j: int| 0 <= j < done@.len() ==> (done@[j] <==> placed.contains(#[trigger] configs.key_seq()[j])),
    ensures
        r == all_in(deps_of(configs.val_seq()[i as int]@), placed),
{
    let c = configs.value_at(i);
    let ghost ds = deps_of(c@);
    match &c.depends_on {
        None => {
            true
        },
        Some(deps) => {
            let mut k: usize = 0;
            while k < deps.len()
                invariant
                    configs.wf(),
                    i < configs.key_seq().len(),
                    ds == key_views(deps@),
                    ds == deps_of(configs.val_seq()[i as int]@),
                    k <= deps@.len(),
                    done@.len() == configs.key_seq().len(),
                    placed.subset_of(configs.as_map().dom()),
                    forall|j: int| 0 <= j < done@.len() ==> (done@[j] <==> placed.contains(#[trigger] configs.key_seq()[j])),
                    forall|j: int| 0 <= j < k ==> placed.contains(#[trigger] ds[j]),
                decreases deps@.len() - k,
            {
                match configs.index_of(deps[k].as_str()) {
                    None => {
                        proof {
                            configs.lemma_wf();
                            assert(!configs.as_map().dom().contains(ds[k as int]));
                            assert(!placed.contains(ds[k as int]));
                        }
                        return false;
                    },
                    Some(j) => {
                        if !done[j] {
                            assert(!placed.contains(ds[k as int]));
                            return false;
                        }
                    },
                }
                k = k + 1;
            }
            true
        },
    }
}

} // verus!

verus! {

/// Level order of `configs`, and whether it places every configured name.
fn compute_levels(configs: &StrMap<ProcessConfig>) -> (r: (Vec<Vec<String>>, bool))
    requires
        configs.wf(),
    ensures
        is_level_order(dep_graph(*configs), levels_view(r.0@)),
        r.1 == (done_after(dep_graph(*configs), r.0@.len()) == dep_graph(*configs).dom()),
{
    let ghost g = dep_graph(*configs);
    let n = configs.len();
    proof {
        configs.lemma_wf();
        assert(g.dom() =~= configs.as_map().dom());
    }
    let mut done: Vec<bool> = Vec::new();
    while done.len() < n
        invariant
            done@.len() <= n,
            forall|j: int| 0 <= j < done@.len() ==> !done@[j],
        decreases n - done@.len(),
    {
        done.push(false);
    }
    let mut levels: Vec<Vec<String>> = Vec::new();
    proof {
        assert(levels_view(levels@) =~= Seq::<Seq<Seq<char>>>::empty());
    }
    loop
        invariant
            configs.wf(),
            n == configs.key_seq().len(),
            g == dep_graph(*configs),
            g.dom() == configs.as_map().dom(),
            done@.len() == n,
            forall|j: int| 0 <= j < n ==> (done@[j] <==> done_after(g, levels@.len() as nat).contains(#[trigger] configs.key_seq()[j])),
            forall|k: int| 0 <= k < levels@.len() ==> (#[trigger] levels_view(levels@)[k]).to_set() == layer(g, k as nat),
            forall|k: int| 0 <= k < levels@.len() ==> sorted_strict(#[trigger] levels_view(levels@)[k]),
            forall|k: int| 0 <= k < levels@.len() ==> (#[trigger] levels_view(levels@)[k]).len() > 0,
        ensures
            is_level_order(g, levels_view(levels@)),
            forall|j: int| 0 <= j < n ==> (done@[j] <==> done_after(g, levels@.len() as nat).contains(#[trigger] configs.key_seq()[j])),
            done@.len() == n,
        decreases count_false(done@),
    {
        let ghost round = levels@.len() as nat;
        let ghost placed = done_after(g, round);
        proof { lemma_done_in_dom(g, round); }
        let mut names: Vec<String> = Vec::new();
        let mut idxs: Vec<usize> = Vec::new();
        let mut i: usize = 0;
        while i < n
            invariant
                configs.wf(),
                n == configs.key_seq().len(),
                g == dep_graph(*configs),
                g.dom() == configs.as_map().dom(),
                placed == done_after(g, round),
                placed.subset_of(g.dom()),
                done@.len() == n,
                forall|j: int| 0 <= j < n ==> (done@[j] <==> placed.contains(#[trigger] configs.key_seq()[j])),
                i <= n,
                names@.len() == idxs@.len(),
                forall|t: int| 0 <= t < idxs@.len() ==> (#[trigger] idxs@[t]) < i,
                forall|t: int| 0 <= t < idxs@.len() ==> !done@[#[trigger] idxs@[t] as int],
                forall|t: int| 0 <= t < idxs@.len() ==> names@[t]@ == configs.key_seq()[#[trigger] idxs@[t] as int],
                forall|s: int, t: int| 0 <= s < t < idxs@.len() ==> idxs@[s] < idxs@[t],
                forall|j: int| 0 <= j < i ==> (layer(g, round).contains(#[trigger] configs.key_seq()[j])
                    <==> exists|t: int| 0 <= t < idxs@.len() && idxs@[t] == j),
            decreases n - i,
        {
            let ghost kj = configs.key_seq()[i as int];
            proof {
                configs.lemma_index(i as int);
                assert(g[kj] == deps_of(configs.val_seq()[i as int]@));
            }
            let ghost old_idxs = idxs@;
            if !done[i] && deps_all_done(configs, &done, i, Ghost(placed)) {
                idxs.push(i);
                names.push(configs.key_at(i).clone());
                proof {
                    assert(layer(g, round).contains(kj));
                    assert(idxs@ == old_idxs.push(i));
                }
            } else {
                proof {
                    assert(!layer(g, round).contains(kj));
                }
            }
            proof {
                assert forall|j: int| 0 <= j < i + 1 implies (layer(g, round).contains(#[trigger] configs.key_seq()[j])
                    <==> exists|t: int| 0 <= t < idxs@.len() && idxs@[t] == j) by {
                    if j < i {
                        if exists|t: int| 0 <= t < idxs@.len() && idxs@[t] == j {
                            let t = choose|t: int| 0 <= t < idxs@.len() && idxs@[t] == j;
                            if t < old_idxs.len() { assert(old_idxs[t] == j); }
                        }
                        if exists|t: int| 0 <= t < old_idxs.len() && old_idxs[t] == j {
                            let t = choose|t: int| 0 <= t < old_idxs.len() && old_idxs[t] == j;
                            assert(idxs@[t] == j);
                        }
                    } else {
                        if idxs@.len() > old_idxs.len() {
                            assert(idxs@[old_idxs.len() as int] == i);
                        } else {
                            if exists|t: int| 0 <= t < idxs@.len() && idxs@[t] == j {
                                let t = choose|t: int| 0 <= t < idxs@.len() && idxs@[t] == j;
                                assert(old_idxs[t] < i);
                            }
                        }
                    }
                }
            }
            i = i + 1;
        }
        if names.len() == 0 {
            proof {
                assert forall|q: Seq<char>| !layer(g, round).contains(q) by {
                    if layer(g, round).contains(q) {
                        configs.lemma_key_index(q);
                        let j = configs.key_seq().index_of(q);
                        assert(configs.key_seq()[j] == q);
                    }
                }
                assert(layer(g, round) =~= Set::<Seq<char>>::empty());
            }
            break;
        }
        let ghost old_done = done@;
        let mut t: usize = 0;
        while t < idxs.len()
            invariant
                n == configs.key_seq().len(),
                done@.len() == n,
                t <= idxs@.len(),
                forall|s: int| 0 <= s < idxs@.len() ==> (#[trigger] idxs@[s]) < n,
                forall|s: int| 0 <= s < idxs@.len() ==> !old_done[#[trigger] idxs@[s] as int],
                forall|s: int, u: int| 0 <= s < u < idxs@.len() ==> idxs@[s] < idxs@[u],
                forall|j: int| 0 <= j < n ==> (done@[j] <==> (old_done[j] || exists|s: int| 0 <= s < t && idxs@[s] == j)),
                t > 0 ==> count_false(done@) < count_false(old_done),
                t == 0 ==> done@ == old_done,
            decreases idxs@.len() - t,
        {
            let j = idxs[t];
            proof {
                assert(!done@[j as int]) by {
                    if done@[j as int] {
                        if !old_done[j as int] {
                            let s = choose|s: int| 0 <= s < t && idxs@[s] == j;
                            assert(idxs@[s] < idxs@[t as int]);
                        }
                    }
                }
                lemma_count_false_update(done@, j as int);
            }
            done.set(j, true);
            t = t + 1;
        }
        let ghost lv = strs_view(names@);
        proof {
            assert(lv.no_duplicates()) by {
                assert forall|a: int, b: int| 0 <= a < lv.len() && 0 <= b < lv.len() && a != b implies lv[a] != lv[b] by {
                    configs.lemma_wf();
                    if a < b { assert(idxs@[a] < idxs@[b]); } else { assert(idxs@[b] < idxs@[a]); }
                }
            }
            assert(lv.to_set() =~= layer(g, round)) by {
                assert forall|q: Seq<char>| lv.to_set().contains(q) <==> layer(g, round).contains(q) by {
                    if lv.contains(q) {
                        let a = choose|a: int| 0 <= a < lv.len() && lv[a] == q;
                        assert(names@[a]@ == configs.key_seq()[idxs@[a] as int]);
                    }
                    if layer(g, round).contains(q) {
                        configs.lemma_key_index(q);
                        let j = configs.key_seq().index_of(q);
                        let tt = choose|tt: int| 0 <= tt < idxs@.len() && idxs@[tt] == j;
                        assert(lv[tt] == q);
                    }
                }
            }
        }
        let sorted = sort_strings(names);
        let ghost sorted_v = strs_view(sorted@);
        let ghost old_levels = levels@;
        levels.push(sorted);
        proof {
            let nr = (round + 1) as nat;
            assert(done_after(g, nr) == placed.union(layer(g, round)));
            assert forall|j: int| 0 <= j < n implies (done@[j] <==> done_after(g, nr).contains(#[trigger] configs.key_seq()[j])) by {
                if exists|s: int| 0 <= s < idxs@.len() && idxs@[s] == j {
                    assert(layer(g, round).contains(configs.key_seq()[j]));
                }
                if layer(g, round).contains(configs.key_seq()[j]) {
                    assert(exists|s: int| 0 <= s < idxs@.len() && idxs@[s] == j);
                }
            }
            assert(levels_view(levels@) =~= levels_view(old_levels).push(sorted_v));
        }
    }
    let ghost m = levels@.len() as nat;
    let mut all = true;
    let mut j: usize = 0;
    while j < n
        invariant
            done@.len() == n,
            j <= n,
            all == forall|k: int| 0 <= k < j ==> done@[k],
        decreases n - j,
    {
        if !done[j] {
            all = false;
        }
        j = j + 1;
    }
    proof {
        lemma_done_in_dom(g, m);
        if all {
            assert forall|q: Seq<char>| g.dom().contains(q) implies done_after(g, m).contains(q) by {
                configs.lemma_key_index(q);
                let k = configs.key_seq().index_of(q);
                assert(done@[k]);
            }
            assert(done_after(g, m) =~= g.dom());
        } else {
            let k = choose|k: int| 0 <= k < n && !done@[k];
            assert(!done_after(g, m).contains(configs.key_seq()[k]));
            configs.lemma_index(k);
        }
    }
    (levels, all)
}

} // verus!

verus! {

/// All dependency lists of the configurations, one after another.
pub open spec fn flat_deps(vals: Seq<ProcessConfig>) -> Seq<Seq<char>>
    decreases vals.len(),
{
    if vals.len() == 0 {
        Seq::empty()
    } else {
        flat_deps(vals.drop_last()) + deps_of(vals.last()@)
    }
}

/// Every name that occurs in the configurations, as a key or as a dependency.
pub open spec fn all_names(configs: StrMap<ProcessConfig>) -> Set<Seq<char>> {
    (configs.key_seq() + flat_deps(configs.val_seq())).to_set()
}

proof fn lemma_flat_deps_contains(vals: Seq<ProcessConfig>, i: int, j: int)
    requires
        0 <= i < vals.len(),
        0 <= j < deps_of(vals[i]@).len(),
    ensures
        flat_deps(vals).contains(deps_of(vals[i]@)[j]),
    decreases vals.len(),
{
    let f = flat_deps(vals);
    let front = flat_deps(vals.drop_last());
    if i == vals.len() - 1 {
        assert(f[front.len() + j] == deps_of(vals[i]@)[j]);
    } else {
        lemma_flat_deps_contains(vals.drop_last(), i, j);
        let k = choose|k: int| 0 <= k < front.len() && front[k] == deps_of(vals[i]@)[j];
        assert(f[k] == front[k]);
    }
}

proof fn lemma_all_names(configs: StrMap<ProcessConfig>)
    requires
        configs.wf(),
    ensures
        all_names(configs).finite(),
        forall|i: int| 0 <= i < configs.key_seq().len() ==> all_names(configs).contains(#[trigger] configs.key_seq()[i]),
        forall|q: Seq<char>| configs.as_map().dom().contains(q) ==> #[trigger] all_names(configs).contains(q),
        forall|i: int, j: int| 0 <= i < configs.val_seq().len() && 0 <= j < deps_of(configs.val_seq()[i]@).len()
            ==> all_names(configs).contains(#[trigger] deps_of(configs.val_seq()[i]@)[j]),
{
    let s = configs.key_seq() + flat_deps(configs.val_seq());
    vstd::seq_lib::seq_to_set_is_finite(s);
    configs.lemma_wf();
    assert forall|i: int| 0 <= i < configs.key_seq().len() implies all_names(configs).contains(#[trigger] configs.key_seq()[i]) by {
        assert(s[i] == configs.key_seq()[i]);
    }
    assert forall|q: Seq<char>| configs.as_map().dom().contains(q) implies #[trigger] all_names(configs).contains(q) by {
        configs.lemma_key_index(q);
        let i = configs.key_seq().index_of(q);
        assert(s[i] == q);
    }
    assert forall|i: int, j: int| 0 <= i < configs.val_seq().len() && 0 <= j < deps_of(configs.val_seq()[i]@).len()
        implies all_names(configs).contains(#[trigger] deps_of(configs.val_seq()[i]@)[j]) by {
        lemma_flat_deps_contains(configs.val_seq(), i, j);
        let f = flat_deps(configs.val_seq());
        let k = choose|k: int| 0 <= k < f.len() && f[k] == deps_of(configs.val_seq()[i]@)[j];
        assert(s[configs.key_seq().len() + k] == f[k]);
    }
}

/// `p` follows dependency edges: every element but the last is configured
/// and lists the next one among its dependencies.
pub open spec fn is_dep_path(g: DepGraph, p: Seq<Seq<char>>) -> bool {
    forall|i: int| 0 <= i < p.len() - 1 ==> g.dom().contains(#[trigger] p[i]) && g[p[i]].contains(p[i + 1])
}

/// The report used when no cycle was found by the search.
pub open spec fn unknown_cycle() -> Seq<Seq<char>> {
    seq!["unknown cycle"@]
}

/// The parent map only records dependency edges: `parent[x] == y` means that
/// `y` is configured and depends on `x`.
pub open spec fn parent_edges(g: DepGraph, parent: StrMap<String>) -> bool {
    forall|x: Seq<char>| #[trigger] parent.as_map().dom().contains(x) ==>
        g.dom().contains(parent.as_map()[x]@) && g[parent.as_map()[x]@].contains(x)
}

/// Walks the parent links back from `node` and returns the path, last to
/// first, so that each name depends on the next one.
fn trace_back(configs: &StrMap<ProcessConfig>, parent: &StrMap<String>, node: &String) -> (r: Vec<String>)
    requires
        configs.wf(),
        parent.wf(),
        parent_edges(dep_graph(*configs), *parent),
    ensures
        r@.len() >= 1,
        is_dep_path(dep_graph(*configs), strs_view(r@)),
{
    let ghost g = dep_graph(*configs);
    let mut chain: Vec<String> = Vec::new();
    chain.push(node.clone());
    let mut cur: Option<String> = match parent.get(node.as_str()) {
        Some(p) => Some(p.clone()),
        None => None,
    };
    let mut fuel: usize = parent.len();
    loop
        invariant_except_break
            cur matches Some(p) ==> g.dom().contains(p@) && g[p@].contains(chain@[chain@.len() - 1]@),
        invariant
            parent.wf(),
            parent_edges(g, *parent),
            chain@.len() >= 1,
            forall|i: int| 0 <= i < chain@.len() - 1 ==> g.dom().contains(#[trigger] chain@[i + 1]@)
                && g[chain@[i + 1]@].contains(chain@[i]@),
        ensures
            chain@.len() >= 1,
            forall|i: int| 0 <= i < chain@.len() - 1 ==> g.dom().contains(#[trigger] chain@[i + 1]@)
                && g[chain@[i + 1]@].contains(chain@[i]@),
        decreases fuel,
    {
        match cur {
            None => break,
            Some(p) => {
                let done = p == *node;
                let next: Option<String> = match parent.get(p.as_str()) {
                    Some(q) => Some(q.clone()),
                    None => None,
                };
                chain.push(p);
                if done || fuel == 0 {
                    break;
                }
                fuel = fuel - 1;
                cur = next;
            },
        }
    }
    let mut r: Vec<String> = Vec::new();
    let mut k: usize = chain.len();
    while k > 0
        invariant
            k <= chain@.len(),
            r@.len() == chain@.len() - k,
            forall|i: int| 0 <= i < r@.len() ==> r@[i] == chain@[chain@.len() - 1 - i],
        decreases k,
    {
        k = k - 1;
        r.push(chain[k].clone());
    }
    proof {
        let rv = strs_view(r@);
        assert forall|i: int| 0 <= i < rv.len() - 1 implies g.dom().contains(#[trigger] rv[i]) && g[rv[i]].contains(rv[i + 1]) by {
            let j = chain@.len() - 2 - i;
            assert(rv[i] == chain@[j + 1]@);
            assert(rv[i + 1] == chain@[j]@);
        }
    }
    r
}

/// Depth-first search for a dependency cycle, used to explain why no order
/// exists. Names are tried in sorted order.
fn dfs_cycle(configs: &StrMap<ProcessConfig>) -> (r: Vec<String>)
    requires
        configs.wf(),
    ensures
        r@.len() >= 1,
        strs_view(r@) == unknown_cycle() || is_dep_path(dep_graph(*configs), strs_view(r@)),
{
    let ghost g = dep_graph(*configs);
    let ghost u = all_names(*configs);
    proof {
        lemma_all_names(*configs);
        configs.lemma_wf();
    }
    // Visited names; the value tells whether the name is on the current path.
    let mut state: StrMap<bool> = StrMap::new();
    let mut parent: StrMap<String> = StrMap::new();
    let keys = configs.keys();
    proof {
        assert(strs_view(keys@) == configs.key_seq());
    }
    let names = sort_strings(keys);
    let mut i: usize = 0;
    while i < names.len()
        invariant
            configs.wf(),
            g == dep_graph(*configs),
            u == all_names(*configs),
            u.finite(),
            forall|q: Seq<char>| configs.as_map().dom().contains(q) ==> #[trigger] u.contains(q),
            forall|a: int, b: int| 0 <= a < configs.val_seq().len() && 0 <= b < deps_of(configs.val_seq()[a]@).len()
                ==> u.contains(#[trigger] deps_of(configs.val_seq()[a]@)[b]),
            strs_view(names@).to_set() == configs.key_seq().to_set(),
            state.wf(),
            parent.wf(),
            state.as_map().dom().subset_of(u),
            parent_edges(g, parent),
        decreases names@.len() - i,
    {
        let start = &names[i];
        proof {
            assert(strs_view(names@).to_set().contains(start@)) by {
                assert(strs_view(names@)[i as int] == start@);
            }
            configs.lemma_wf();
        }
        if !state.contains_key(start.as_str()) {
            let mut stack: Vec<(String, bool)> = Vec::new();
            stack.push((start.clone(), false));
            while stack.len() > 0
                invariant
                    configs.wf(),
                    g == dep_graph(*configs),
                    u == all_names(*configs),
                    u.finite(),
                    forall|q: Seq<char>| configs.as_map().dom().contains(q) ==> #[trigger] u.contains(q),
                    forall|a: int, b: int| 0 <= a < configs.val_seq().len() && 0 <= b < deps_of(configs.val_seq()[a]@).len()
                        ==> u.contains(#[trigger] deps_of(configs.val_seq()[a]@)[b]),
                    state.wf(),
                    parent.wf(),
                    state.as_map().dom().subset_of(u),
                    parent_edges(g, parent),
                    forall|k: int| 0 <= k < stack@.len() ==> u.contains((#[trigger] stack@[k]).0@),
                    forall|k: int| 0 <= k < stack@.len() ==> (#[trigger] stack@[k]).1 ==> state.as_map().dom().contains(stack@[k].0@),
                decreases u.difference(state.as_map().dom()).len(), stack@.len(),
            {
                let (node, returning) = stack.pop().unwrap();
                if returning {
                    let ghost before = state.as_map().dom();
                    proof {
                        assert(stack@.push((node, returning))[stack@.len() as int] == (node, returning));
                    }
                    state.insert(node, false);
                    proof {
                        assert(state.as_map().dom() =~= before);
                    }
                    continue;
                }
                match state.get(node.as_str()) {
                    Some(on_stack) => {
                        if *on_stack {
                            return trace_back(configs, &parent, &node);
                        }
                        continue;
                    },
                    None => {},
                }
                let ghost before = state.as_map().dom();
                state.insert(node.clone(), true);
                proof {
                    u.lemma_set_insert_diff_decreases(before, node@);
                    assert(state.as_map().dom() == before.insert(node@));
                }
                stack.push((node.clone(), true));
                match configs.index_of(node.as_str()) {
                    None => {},
                    Some(ci) => {
                        let config = configs.value_at(ci);
                        proof {
                            configs.lemma_wf();
                            configs.lemma_index(ci as int);
                        }
                        match &config.depends_on {
                            None => {},
                            Some(deps) => {
                                let mut k: usize = 0;
                                while k < deps.len()
                                    invariant
                                        configs.wf(),
                                        g == dep_graph(*configs),
                                        u.finite(),
                                        ci < configs.val_seq().len(),
                                        *config == configs.val_seq()[ci as int],
                                        g.dom().contains(node@),
                                        g[node@] == key_views(deps@),
                                        deps_of(config@) == key_views(deps@),
                                        forall|a: int, b: int| 0 <= a < configs.val_seq().len() && 0 <= b < deps_of(configs.val_seq()[a]@).len()
                                            ==> u.contains(#[trigger] deps_of(configs.val_seq()[a]@)[b]),
                                        parent.wf(),
                                        parent_edges(g, parent),
                                        forall|t: int| 0 <= t < stack@.len() ==> u.contains((#[trigger] stack@[t]).0@),
                                        forall|t: int| 0 <= t < stack@.len() ==> (#[trigger] stack@[t]).1 ==> state.as_map().dom().contains(stack@[t].0@),
                                        k <= deps@.len(),
                                    decreases deps@.len() - k,
                                {
                                    let dep = &deps[k];
                                    proof {
                                        assert(key_views(deps@)[k as int] == dep@);
                                        assert(g[node@].contains(dep@));
                                        assert(u.contains(deps_of(configs.val_seq()[ci as int]@)[k as int]));
                                    }
                                    let ghost pold = parent;
                                    parent.insert(dep.clone(), node.clone());
                                    proof {
                                        assert forall|x: Seq<char>| #[trigger] parent.as_map().dom().contains(x) implies
                                            g.dom().contains(parent.as_map()[x]@) && g[parent.as_map()[x]@].contains(x) by {
                                            if x != dep@ {
                                                assert(pold.as_map().dom().contains(x));
                                            }
                                        }
                                    }
                                    stack.push((dep.clone(), false));
                                    k = k + 1;
                                }
                            },
                        }
                    },
                }
            }
        }
        i = i + 1;
    }
    let mut r: Vec<String> = Vec::new();
    r.push("unknown cycle".to_string());
    proof {
        assert(strs_view(r@) =~= unknown_cycle());
    }
    r
}

/// A closed dependency cycle: at least two names, the first equal to the
/// last, each depending on the next, and no name twice before the last.
pub open spec fn is_closed_cycle(g: DepGraph, c: Seq<Seq<char>>) -> bool {
    &&& c.len() >= 2
    &&& c[0] == c.last()
    &&& is_dep_path(g, c)
    &&& c.drop_last().no_duplicates()
}

/// Placing has got stuck short of `done`: some configured name is not
/// placed, and every such name has a dependency that is not placed.
pub open spec fn stuck(g: DepGraph, done: Set<Seq<char>>) -> bool {
    &&& exists|x: Seq<char>| g.dom().contains(x) && !done.contains(x)
    &&& forall|x: Seq<char>| g.dom().contains(x) && !done.contains(x) ==> !all_in(#[trigger] g[x], done)
}

/// Whether `name` is one of `v`, and where.
fn position_of(v: &Vec<String>, name: &String) -> (r: Option<usize>)
    ensures
        match r {
            Some(i) => i < v@.len() && v@[i as int]@ == name@,
            None => !strs_view(v@).contains(name@),
        },
{
    let mut i: usize = 0;
    while i < v.len()
        invariant
            i <= v@.len(),
            forall|j: int| 0 <= j < i ==> v@[j]@ != name@,
        decreases v@.len() - i,
    {
        if str_eq_owned(&v[i], name) {
            return Some(i);
        }
        i = i + 1;
    }
    proof {
        if strs_view(v@).contains(name@) {
            let j = choose|j: int| 0 <= j < strs_view(v@).len() && strs_view(v@)[j] == name@;
            assert(v@[j]@ == name@);
        }
    }
    None
}

/// Whether `c` is a closed dependency cycle.
fn check_closed_cycle(configs: &StrMap<ProcessConfig>, c: &Vec<String>) -> (r: bool)
    requires
        configs.wf(),
    ensures
        r == is_closed_cycle(dep_graph(*configs), strs_view(c@)),
{
    let ghost g = dep_graph(*configs);
    let ghost cv = strs_view(c@);
    let n = c.len();
    if n < 2 {
        return false;
    }
    if !str_eq_owned(&c[0], &c[n - 1]) {
        return false;
    }
    let mut i: usize = 0;
    while i < n - 1
        invariant
            configs.wf(),
            g == dep_graph(*configs),
            cv == strs_view(c@),
            n == c@.len(),
            n >= 2,
            i <= n - 1,
            forall|j: int| 0 <= j < i ==> g.dom().contains(#[trigger] cv[j]) && g[cv[j]].contains(cv[j + 1]),
            forall|a: int, b: int| 0 <= a < b < i ==> cv[a] != cv[b],
        decreases n - 1 - i,
    {
        match configs.get(c[i].as_str()) {
            None => {
                proof { assert(!g.dom().contains(cv[i as int])); }
                return false;
            },
            Some(config) => {
                let mut found = false;
                match &config.depends_on {
                    None => {
                        proof { assert(g[cv[i as int]] =~= Seq::<Seq<char>>::empty()); }
                    },
                    Some(deps) => {
                        proof {
                            assert(cv[i as int] == c@[i as int]@);
                            assert(cv[i + 1] == c@[i + 1]@);
                            assert(g[cv[i as int]] == key_views(deps@));
                            assert(key_views(deps@) =~= strs_view(deps@));
                        }
                        match position_of(deps, &c[i + 1]) {
                            Some(p) => {
                                proof { assert(key_views(deps@)[p as int] == cv[i + 1]); }
                                found = true;
                            },
                            None => {},
                        }
                    },
                }
                if !found {
                    return false;
                }
            },
        }
        proof {
            assert(g.dom().contains(cv[i as int]) && g[cv[i as int]].contains(cv[i + 1]));
        }
        let mut j: usize = 0;
        while j < i
            invariant
                j <= i < n - 1,
                n == c@.len(),
                cv == strs_view(c@),
                forall|a: int| 0 <= a < j ==> cv[a] != cv[i as int],
            decreases i - j,
        {
            if str_eq_owned(&c[j], &c[i]) {
                proof {
                    let d = cv.drop_last();
                    assert(d[j as int] == d[i as int]);
                }
                return false;
            }
            j = j + 1;
        }
        i = i + 1;
    }
    proof {
        assert forall|a: int, b: int| 0 <= a < cv.drop_last().len() && 0 <= b < cv.drop_last().len() && a != b
            implies cv.drop_last()[a] != cv.drop_last()[b] by {
            if a < b { assert(cv[a] != cv[b]); } else { assert(cv[b] != cv[a]); }
        }
    }
    true
}

/// A dependency of configured `x` that is not in `done`, if one is.
fn undone_dep(configs: &StrMap<ProcessConfig>, done: &StrMap<bool>, x: &String) -> (r: Option<String>)
    requires
        configs.wf(),
        done.wf(),
        dep_graph(*configs).dom().contains(x@),
    ensures
        match r {
            Some(d) => dep_graph(*configs)[x@].contains(d@) && !done.as_map().dom().contains(d@),
            None => all_in(dep_graph(*configs)[x@], done.as_map().dom()),
        },
{
    let ghost g = dep_graph(*configs);
    let config = configs.get(x.as_str()).unwrap();
    match &config.depends_on {
        None => {
            proof { assert(g[x@] =~= Seq::<Seq<char>>::empty()); }
            None
        },
        Some(deps) => {
            proof { assert(g[x@] == key_views(deps@)); }
            let mut k: usize = 0;
            while k < deps.len()
                invariant
                    done.wf(),
                    g == dep_graph(*configs),
                    k <= deps@.len(),
                    g[x@] == key_views(deps@),
                    forall|j: int| 0 <= j < k ==> done.as_map().dom().contains(#[trigger] key_views(deps@)[j]),
                decreases deps@.len() - k,
            {
                if !done.contains_key(deps[k].as_str()) {
                    let d = deps[k].clone();
                    proof { assert(key_views(deps@)[k as int] == d@); assert(key_views(deps@).contains(d@)); }
                    return Some(d);
                }
                k = k + 1;
            }
            None
        },
    }
}

/// Follows dependencies that are not in `done`, from a configured name
/// that is not in `done`, until a name comes round again: that part of
/// the walk is a closed cycle. `None` if the walk reaches a name that is
/// not configured.
fn stuck_cycle(configs: &StrMap<ProcessConfig>, done: &StrMap<bool>, start: &String) -> (r: Option<Vec<String>>)
    requires
        configs.wf(),
        done.wf(),
        dep_graph(*configs).dom().contains(start@),
        !done.as_map().dom().contains(start@),
        stuck(dep_graph(*configs), done.as_map().dom()),
    ensures
        r matches Some(c) ==> is_closed_cycle(dep_graph(*configs), strs_view(c@)),
        deps_known(dep_graph(*configs)) ==> r is Some,
{
    let ghost g = dep_graph(*configs);
    let ghost dd = done.as_map().dom();
    let mut path: Vec<String> = Vec::new();
    path.push(start.clone());
    proof {
        configs.lemma_wf();
        assert(g.dom() =~= configs.key_seq().to_set());
    }
    loop
        invariant
            configs.wf(),
            done.wf(),
            g == dep_graph(*configs),
            dd == done.as_map().dom(),
            stuck(g, dd),
            g.dom().finite(),
            path@.len() >= 1,
            forall|j: int| 0 <= j < path@.len() ==> g.dom().contains(#[trigger] strs_view(path@)[j]) && !dd.contains(strs_view(path@)[j]),
            is_dep_path(g, strs_view(path@)),
            strs_view(path@).no_duplicates(),
        decreases g.dom().len() - path@.len(),
    {
        let ghost pv = strs_view(path@);
        let cur = &path[path.len() - 1];
        proof {
            assert(pv[pv.len() - 1] == cur@);
            assert(!all_in(g[cur@], dd));
        }
        let d = match undone_dep(configs, done, cur) {
            Some(d) => d,
            None => {
                return None;
            },
        };
        if !configs.contains_key(d.as_str()) {
            proof {
                assert(g[cur@].contains(d@));
            }
            return None;
        }
        match position_of(&path, &d) {
            Some(i) => {
                let mut c: Vec<String> = Vec::new();
                let mut k: usize = i;
                while k < path.len()
                    invariant
                        i <= k <= path@.len(),
                        c@.len() == k - i,
                        forall|t: int| 0 <= t < c@.len() ==> c@[t] == path@[i + t],
                    decreases path@.len() - k,
                {
                    c.push(path[k].clone());
                    k = k + 1;
                }
                c.push(d);
                proof {
                    let cv = strs_view(c@);
                    let m = path@.len() - i;
                    assert(cv.len() == m + 1);
                    assert forall|t: int| 0 <= t < m implies #[trigger] cv[t] == pv[i + t] by {}
                    assert(cv[m] == d@);
                    assert(cv[0] == pv[i as int]);
                    assert forall|t: int| 0 <= t < cv.len() - 1 implies g.dom().contains(#[trigger] cv[t]) && g[cv[t]].contains(cv[t + 1]) by {
                        if t < m - 1 {
                            assert(cv[t + 1] == pv[i + t + 1]);
                        } else {
                            assert(cv[t] == pv[pv.len() - 1]);
                        }
                    }
                    assert forall|a: int, b: int| 0 <= a < cv.drop_last().len() && 0 <= b < cv.drop_last().len() && a != b
                        implies cv.drop_last()[a] != cv.drop_last()[b] by {
                        assert(cv.drop_last()[a] == pv[i + a]);
                        assert(cv.drop_last()[b] == pv[i + b]);
                    }
                }
                return Some(c);
            },
            None => {
                proof {
                    assert(g.dom().contains(d@));
                    let nv = pv.push(d@);
                    assert(pv.to_set().subset_of(g.dom())) by {
                        assert forall|q: Seq<char>| pv.to_set().contains(q) implies g.dom().contains(q) by {
                            let j = choose|j: int| 0 <= j < pv.len() && pv[j] == q;
                        }
                    }
                    pv.unique_seq_to_set();
                    vstd::set_lib::lemma_len_subset(pv.to_set(), g.dom());
                    assert(nv.to_set().subset_of(g.dom())) by {
                        assert forall|q: Seq<char>| nv.to_set().contains(q) implies g.dom().contains(q) by {
                            let j = choose|j: int| 0 <= j < nv.len() && nv[j] == q;
                            if j < pv.len() { assert(nv[j] == pv[j]); }
                        }
                    }
                    assert(nv.no_duplicates()) by {
                        assert forall|a: int, b: int| 0 <= a < nv.len() && 0 <= b < nv.len() && a != b implies nv[a] != nv[b] by {
                            if a == pv.len() { assert(pv.contains(pv[b])); }
                            else if b == pv.len() { assert(pv.contains(pv[a])); }
                        }
                    }
                    nv.unique_seq_to_set();
                    vstd::set_lib::lemma_len_subset(nv.to_set(), g.dom());
                }
                path.push(d);
                proof {
                    assert(strs_view(path@) =~= pv.push(d@));
                    assert forall|j: int| 0 <= j < strs_view(path@).len() - 1 implies g.dom().contains(#[trigger] strs_view(path@)[j])
                        && g[strs_view(path@)[j]].contains(strs_view(path@)[j + 1]) by {
                        if j < pv.len() - 1 { assert(strs_view(path@)[j + 1] == pv[j + 1]); }
                    }
                }
            },
        }
    }
}

/// A closed cycle found by walking the unplaced names from the first of
/// them; `None` if the walk reaches a name that is not configured.
fn walk_from_first_undone(configs: &StrMap<ProcessConfig>, done: &StrMap<bool>) -> (r: Option<Vec<String>>)
    requires
        configs.wf(),
        done.wf(),
        stuck(dep_graph(*configs), done.as_map().dom()),
    ensures
        r matches Some(c) ==> is_closed_cycle(dep_graph(*configs), strs_view(c@)),
        deps_known(dep_graph(*configs)) ==> r is Some,
{
    let ghost g = dep_graph(*configs);
    let n = configs.len();
    let mut i: usize = 0;
    proof { configs.lemma_wf(); }
    while i < n
        invariant
            configs.wf(),
            done.wf(),
            g == dep_graph(*configs),
            stuck(g, done.as_map().dom()),
            n == configs.key_seq().len(),
            i <= n,
            forall|j: int| 0 <= j < i ==> done.as_map().dom().contains(#[trigger] configs.key_seq()[j]),
        decreases n - i,
    {
        let k = configs.key_at(i);
        if !done.contains_key(k.as_str()) {
            proof { configs.lemma_index(i as int); }
            return stuck_cycle(configs, done, k);
        }
        i = i + 1;
    }
    proof {
        let x = choose|x: Seq<char>| g.dom().contains(x) && !done.as_map().dom().contains(x);
        configs.lemma_key_index(x);
        let j = configs.key_seq().index_of(x);
        assert(done.as_map().dom().contains(configs.key_seq()[j]));
    }
    None
}

/// A closed cycle of `g` is one of the graph it induces on its configured names.
proof fn lemma_cycle_in_induced(g: DepGraph, c: Seq<Seq<char>>)
    requires
        is_closed_cycle(g, c),
    ensures
        is_closed_cycle(induced(g, g.dom()), c),
{
    let h = induced(g, g.dom());
    assert forall|i: int| 0 <= i < c.len() - 1 implies h.dom().contains(#[trigger] c[i]) && h[c[i]].contains(c[i + 1]) by {
        assert(g.dom().contains(c[i]));
        if i + 1 < c.len() - 1 {
            assert(g.dom().contains(c[i + 1]));
        } else {
            assert(c[i + 1] == c[0]);
            assert(g.dom().contains(c[0]));
        }
        lemma_deps_within(g[c[i]], g.dom(), c[i + 1]);
    }
}

/// The cycle to report when placing got stuck short of `done`: the one the
/// depth-first search finds where that is a closed cycle, else one found
/// by walking the unplaced names (first through all dependencies, then
/// through the configured ones only).
fn find_cycle(configs: &StrMap<ProcessConfig>, done: &StrMap<bool>) -> (r: Vec<String>)
    requires
        configs.wf(),
        done.wf(),
        stuck(dep_graph(*configs), done.as_map().dom()),
    ensures
        r@.len() >= 1,
        strs_view(r@) == unknown_cycle() || is_dep_path(dep_graph(*configs), strs_view(r@)),
        deps_known(dep_graph(*configs)) ==> is_closed_cycle(dep_graph(*configs), strs_view(r@)),
        (exists|c: Seq<Seq<char>>| is_closed_cycle(dep_graph(*configs), c))
            ==> is_closed_cycle(dep_graph(*configs), strs_view(r@)),
{
    let ghost g = dep_graph(*configs);
    let c = dfs_cycle(configs);
    if check_closed_cycle(configs, &c) {
        return c;
    }
    match walk_from_first_undone(configs, done) {
        Some(w) => { return w; },
        None => {},
    }
    let keys = configs.keys();
    let all = names_set(&keys);
    let hc = restrict_within(configs, &all);
    let ghost h = induced(g, g.dom());
    proof {
        configs.lemma_wf();
        assert(strs_view(keys@) =~= key_views(keys@));
        assert(all.as_map().dom().intersect(g.dom()) =~= g.dom());
        assert(dep_graph(hc) == h);
        lemma_induced_known(g, g.dom());
    }
    let (levels, complete) = compute_levels(&hc);
    let ghost ls = levels_view(levels@);
    if complete {
        proof {
            if exists|cy: Seq<Seq<char>>| is_closed_cycle(g, cy) {
                let cy = choose|cy: Seq<Seq<char>>| is_closed_cycle(g, cy);
                lemma_cycle_in_induced(g, cy);
                law_cycle_has_no_level_order(h, ls, cy);
            }
        }
        return c;
    }
    let flat = flatten(&levels);
    let hd = names_set(&flat);
    proof {
        lemma_level_order_ends(h, ls);
        lemma_flatten_is_done(h, ls);
        lemma_stuck_when_no_order(h, ls.len() as nat);
    }
    match walk_from_first_undone(&hc, &hd) {
        Some(w) => {
            proof {
                lemma_induced_path(g, g.dom(), strs_view(w@));
            }
            w
        },
        None => c,
    }
}

} // verus!

verus! {

/// The levels one after another.
pub open spec fn flatten_levels(ls: Seq<Seq<Seq<char>>>) -> Seq<Seq<char>>
    decreases ls.len(),
{
    if ls.len() == 0 {
        Seq::empty()
    } else {
        flatten_levels(ls.drop_last()) + ls.last()
    }
}

/// A name lies on at most one level.
pub proof fn lemma_layers_disjoint(g: DepGraph, j: nat, k: nat, x: Seq<char>)
    requires
        layer(g, j).contains(x),
        layer(g, k).contains(x),
    ensures
        j == k,
{
    if j < k {
        lemma_done_monotone(g, j + 1, k);
        assert(done_after(g, j + 1).contains(x));
    } else if k < j {
        lemma_done_monotone(g, k + 1, j);
        assert(done_after(g, k + 1).contains(x));
    }
}

/// A name on level `k` has all its dependencies on earlier levels.
pub proof fn lemma_dep_on_earlier_layer(g: DepGraph, k: nat, x: Seq<char>, d: Seq<char>)
    requires
        layer(g, k).contains(x),
        g[x].contains(d),
    ensures
        exists|j: nat| j < k && #[trigger] layer(g, j).contains(d),
{
    let i = choose|i: int| 0 <= i < g[x].len() && g[x][i] == d;
    assert(done_after(g, k).contains(g[x][i]));
    lemma_done_is_union_of_layers(g, k, d);
}

/// In a level order, a name's dependencies come before it when the levels
/// are read one after another.
pub proof fn lemma_deps_first(g: DepGraph, ls: Seq<Seq<Seq<char>>>, i: int, j: int)
    requires
        forall|k: int| 0 <= k < ls.len() ==> (#[trigger] ls[k]).to_set() == layer(g, k as nat),
        0 <= i < flatten_levels(ls).len(),
        0 <= j < flatten_levels(ls).len(),
        g[flatten_levels(ls)[i]].contains(flatten_levels(ls)[j]),
    ensures
        j < i,
    decreases ls.len(),
{
    let f = flatten_levels(ls);
    let front = flatten_levels(ls.drop_last());
    let m = ls.len() - 1;
    assert(ls.len() > 0);
    assert(f == front + ls.last());
    lemma_flatten_levels_layers(g, ls);
    let x = f[i];
    let d = f[j];
    assert(on_some_layer(g, ls.len(), x));
    let kx = choose|k: nat| k < ls.len() && #[trigger] layer(g, k).contains(x);
    lemma_dep_on_earlier_layer(g, kx, x, d);
    let kd = choose|k: nat| k < kx && #[trigger] layer(g, k).contains(d);
    if i >= front.len() {
        assert(ls[m].to_set().contains(x)) by { assert(ls[m][i - front.len()] == x); }
        lemma_layers_disjoint(g, kx, m as nat, x);
        if j >= front.len() {
            assert(ls[m].to_set().contains(d)) by { assert(ls[m][j - front.len()] == d); }
            lemma_layers_disjoint(g, kd, m as nat, d);
        }
    } else {
        assert(front[i] == x);
        if j >= front.len() {
            assert(ls[m].to_set().contains(d)) by { assert(ls[m][j - front.len()] == d); }
            lemma_layers_disjoint(g, kd, m as nat, d);
            lemma_flatten_levels_layers(g, ls.drop_last());
            assert(flatten_levels(ls.drop_last())[i] == x);
            assert(on_some_layer(g, ls.drop_last().len(), x));
            let kx2 = choose|k: nat| k < ls.drop_last().len() && #[trigger] layer(g, k).contains(x);
            lemma_layers_disjoint(g, kx, kx2, x);
        } else {
            assert(front[j] == d);
            assert forall|k: int| 0 <= k < ls.drop_last().len() implies (#[trigger] ls.drop_last()[k]).to_set() == layer(g, k as nat) by {
                assert(ls.drop_last()[k] == ls[k]);
            }
            lemma_deps_first(g, ls.drop_last(), i, j);
        }
    }
}

/// `x` lies on one of the layers `0..n`.
pub open spec fn on_some_layer(g: DepGraph, n: nat, x: Seq<char>) -> bool {
    exists|k: nat| k < n && #[trigger] layer(g, k).contains(x)
}

/// Every name of the flattened levels sits on one of the layers.
pub proof fn lemma_flatten_levels_layers(g: DepGraph, ls: Seq<Seq<Seq<char>>>)
    requires
        forall|k: int| 0 <= k < ls.len() ==> (#[trigger] ls[k]).to_set() == layer(g, k as nat),
    ensures
        forall|p: int| 0 <= p < flatten_levels(ls).len() ==>
            on_some_layer(g, ls.len(), #[trigger] flatten_levels(ls)[p]),
    decreases ls.len(),
{
    if ls.len() == 0 {
        assert(flatten_levels(ls).len() == 0);
    }
    if ls.len() > 0 {
        let front = flatten_levels(ls.drop_last());
        let m = ls.len() - 1;
        assert forall|k: int| 0 <= k < ls.drop_last().len() implies (#[trigger] ls.drop_last()[k]).to_set() == layer(g, k as nat) by {
            assert(ls.drop_last()[k] == ls[k]);
        }
        lemma_flatten_levels_layers(g, ls.drop_last());
        assert forall|p: int| 0 <= p < flatten_levels(ls).len() implies
            on_some_layer(g, ls.len(), #[trigger] flatten_levels(ls)[p]) by {
            let f = flatten_levels(ls);
            assert(f == front + ls.last());
            if p < front.len() {
                assert(f[p] == front[p]);
                assert(on_some_layer(g, ls.drop_last().len(), front[p]));
                let k = choose|k: nat| k < ls.drop_last().len() && #[trigger] layer(g, k).contains(front[p]);
                assert(layer(g, k).contains(f[p]));
                assert(k < ls.len());
            } else {
                assert(f[p] == ls[m][p - front.len()]);
                assert(ls[m].to_set().contains(f[p]));
                let mn = m as nat;
                assert(layer(g, mn).contains(f[p]));
                assert(mn < ls.len());
            }
        }
    }
}

/// Orders the configured processes by dependency level: level 0 holds the
/// processes without dependencies, level `k + 1` those whose dependencies are
/// all on levels `0..=k` (at least one on level `k`); names within a level are
/// sorted. Fails with `Circular` when some process can never be placed.
pub fn topological_levels(configs: &StrMap<ProcessConfig>) -> (r: Result<Vec<Vec<String>>, DepsError>)
    requires
        configs.wf(),
    ensures
        match r {
            Ok(levels) => is_level_order(dep_graph(*configs), levels_view(levels@))
                && done_after(dep_graph(*configs), levels@.len() as nat) == dep_graph(*configs).dom(),
            Err(DepsError::Circular { cycle }) => (exists|m: nat| levels_end_at(dep_graph(*configs), m)
                    && done_after(dep_graph(*configs), m) != dep_graph(*configs).dom())
                && cycle@.len() >= 1
                && (strs_view(cycle@) == unknown_cycle() || is_dep_path(dep_graph(*configs), strs_view(cycle@)))
                && (deps_known(dep_graph(*configs)) ==> is_closed_cycle(dep_graph(*configs), strs_view(cycle@)))
                && ((exists|c: Seq<Seq<char>>| is_closed_cycle(dep_graph(*configs), c))
                    ==> is_closed_cycle(dep_graph(*configs), strs_view(cycle@))),
            Err(DepsError::Missing { .. }) => false,
        },
        r is Ok <==> fully_ordered(dep_graph(*configs)),
{
    let (levels, complete) = compute_levels(configs);
    if complete {
        Ok(levels)
    } else {
        let ghost g = dep_graph(*configs);
        let ghost ls = levels_view(levels@);
        let flat = flatten(&levels);
        let done = names_set(&flat);
        proof {
            lemma_level_order_ends(g, ls);
            lemma_no_order_not_ordered(g);
            lemma_flatten_is_done(g, ls);
            lemma_stuck_when_no_order(g, ls.len() as nat);
        }
        Err(DepsError::Circular { cycle: find_cycle(configs, &done) })
    }
}

/// The names of `v`, as a set.
pub(crate) fn names_set(v: &Vec<String>) -> (r: StrMap<bool>)
    ensures
        r.wf(),
        r.as_map().dom() == strs_view(v@).to_set(),
{
    let mut r: StrMap<bool> = StrMap::new();
    let mut i: usize = 0;
    proof { assert(r.as_map().dom() =~= strs_view(v@).subrange(0, 0).to_set()); }
    while i < v.len()
        invariant
            i <= v@.len(),
            r.wf(),
            r.as_map().dom() == strs_view(v@).subrange(0, i as int).to_set(),
        decreases v@.len() - i,
    {
        r.insert(v[i].clone(), true);
        proof {
            let a = strs_view(v@).subrange(0, i as int);
            let b = strs_view(v@).subrange(0, i + 1);
            assert(b =~= a.push(v@[i as int]@));
            assert forall|q: Seq<char>| b.to_set().contains(q) <==> a.to_set().insert(v@[i as int]@).contains(q) by {
                if b.contains(q) {
                    let j = choose|j: int| 0 <= j < b.len() && b[j] == q;
                    if j < i { assert(a[j] == q); }
                }
                if a.contains(q) {
                    let j = choose|j: int| 0 <= j < a.len() && a[j] == q;
                    assert(b[j] == q);
                }
                if q == v@[i as int]@ { assert(b[i as int] == q); }
            }
            assert(r.as_map().dom() =~= b.to_set());
        }
        i = i + 1;
    }
    proof { assert(strs_view(v@).subrange(0, i as int) =~= strs_view(v@)); }
    r
}

/// The names of a level order are those placed after its levels.
proof fn lemma_flatten_is_done(g: DepGraph, ls: Seq<Seq<Seq<char>>>)
    requires
        is_level_order(g, ls),
    ensures
        flatten_levels(ls).to_set() == done_after(g, ls.len() as nat),
{
    lemma_flatten_levels_layers(g, ls);
    assert forall|x: Seq<char>| flatten_levels(ls).to_set().contains(x) <==> done_after(g, ls.len() as nat).contains(x) by {
        lemma_done_is_union_of_layers(g, ls.len() as nat, x);
        if flatten_levels(ls).contains(x) {
            let p = choose|p: int| 0 <= p < flatten_levels(ls).len() && flatten_levels(ls)[p] == x;
            assert(on_some_layer(g, ls.len() as nat, flatten_levels(ls)[p]));
        }
        if done_after(g, ls.len() as nat).contains(x) {
            let j = choose|j: nat| j < ls.len() && #[trigger] layer(g, j).contains(x);
            assert(ls[j as int].to_set().contains(x));
            lemma_level_in_flatten(ls, j as int, x);
        }
    }
}

/// Where the levels run out before every name is placed, placing is stuck.
proof fn lemma_stuck_when_no_order(g: DepGraph, m: nat)
    requires
        levels_end_at(g, m),
        done_after(g, m) != g.dom(),
    ensures
        stuck(g, done_after(g, m)),
{
    let d = done_after(g, m);
    lemma_done_in_dom(g, m);
    assert(exists|x: Seq<char>| g.dom().contains(x) && !d.contains(x)) by {
        if forall|x: Seq<char>| g.dom().contains(x) ==> d.contains(x) {
            assert(d =~= g.dom());
        }
    }
    assert forall|x: Seq<char>| g.dom().contains(x) && !d.contains(x) implies !all_in(#[trigger] g[x], d) by {
        if all_in(g[x], d) {
            assert(ready(g, d).contains(x));
            assert(layer(g, m).contains(x));
        }
    }
}

/// A level order ends where the layers run out.
pub proof fn lemma_level_order_ends(g: DepGraph, ls: Seq<Seq<Seq<char>>>)
    requires
        is_level_order(g, ls),
    ensures
        levels_end_at(g, ls.len() as nat),
{
    assert forall|k: nat| k < ls.len() implies layer(g, k) != Set::<Seq<char>>::empty() by {
        assert(ls[k as int].len() > 0);
        assert(ls[k as int].to_set().contains(ls[k as int][0]));
    }
}

} // verus!

verus! {

/// The names of the levels, one level after another, as one list.
fn flatten(levels: &Vec<Vec<String>>) -> (r: Vec<String>)
    ensures
        strs_view(r@) == flatten_levels(levels_view(levels@)),
{
    let mut r: Vec<String> = Vec::new();
    let mut k: usize = 0;
    while k < levels.len()
        invariant
            k <= levels@.len(),
            strs_view(r@) == flatten_levels(levels_view(levels@).subrange(0, k as int)),
        decreases levels@.len() - k,
    {
        let level = &levels[k];
        let ghost before = strs_view(r@);
        let mut t: usize = 0;
        while t < level.len()
            invariant
                t <= level@.len(),
                r@.len() == before.len() + t,
                strs_view(r@) == before + strs_view(level@).subrange(0, t as int),
            decreases level@.len() - t,
        {
            let item = level[t].clone();
            let ghost old_r = r@;
            r.push(item);
            proof {
                assert(r@ == old_r.push(item));
                assert(strs_view(r@) =~= strs_view(old_r).push(item@));
                assert(item@ == strs_view(level@)[t as int]);
                assert(strs_view(r@) =~= before + strs_view(level@).subrange(0, t + 1));
            }
            t = t + 1;
        }
        proof {
            let lv = levels_view(levels@);
            assert(lv.subrange(0, k + 1).drop_last() =~= lv.subrange(0, k as int));
            assert(lv.subrange(0, k + 1).last() == strs_view(level@));
            assert(strs_view(level@).subrange(0, t as int) =~= strs_view(level@));
        }
        k = k + 1;
    }
    proof {
        assert(levels_view(levels@).subrange(0, k as int) =~= levels_view(levels@));
    }
    r
}

/// The list in reverse order.
fn reversed(v: Vec<String>) -> (r: Vec<String>)
    ensures
        strs_view(r@) == strs_view(v@).reverse(),
{
    let mut r: Vec<String> = Vec::new();
    let mut k: usize = v.len();
    while k > 0
        invariant
            k <= v@.len(),
            r@.len() == v@.len() - k,
            forall|i: int| 0 <= i < r@.len() ==> r@[i] == v@[v@.len() - 1 - i],
        decreases k,
    {
        k = k - 1;
        r.push(v[k].clone());
    }
    proof {
        assert(strs_view(r@) =~= strs_view(v@).reverse());
    }
    r
}

/// A complete level order of `g`, read level after level.
pub open spec fn is_start_order(g: DepGraph, order: Seq<Seq<char>>) -> bool {
    exists|ls: Seq<Seq<Seq<char>>>| is_level_order(g, ls) && done_after(g, ls.len() as nat) == g.dom()
        && order == flatten_levels(ls)
}

/// The levels of `g` run out before every name is placed.
pub open spec fn has_no_order(g: DepGraph) -> bool {
    exists|m: nat| levels_end_at(g, m) && done_after(g, m) != g.dom()
}

/// Some number of levels places every configured name: the configurations
/// can be ordered as a whole.
pub open spec fn fully_ordered(g: DepGraph) -> bool {
    exists|m: nat| done_after(g, m) == g.dom()
}

/// Once a level is empty, nothing more is ever placed.
proof fn lemma_done_stays(g: DepGraph, m: nat, k: nat)
    requires
        layer(g, m) == Set::<Seq<char>>::empty(),
        m <= k,
    ensures
        done_after(g, k) == done_after(g, m),
    decreases k - m,
{
    if k > m {
        lemma_done_stays(g, m, (k - 1) as nat);
        assert(done_after(g, k) =~= done_after(g, (k - 1) as nat));
    }
}

/// A graph whose levels run out early is not fully ordered.
pub proof fn lemma_no_order_not_ordered(g: DepGraph)
    ensures
        has_no_order(g) ==> !fully_ordered(g),
{
    if has_no_order(g) && fully_ordered(g) {
        let m = choose|m: nat| levels_end_at(g, m) && done_after(g, m) != g.dom();
        let k = choose|k: nat| done_after(g, k) == g.dom();
        lemma_done_in_dom(g, m);
        if k <= m {
            lemma_done_monotone(g, k, m);
            assert(done_after(g, m) =~= g.dom());
        } else {
            lemma_done_stays(g, m, k);
        }
    }
}

/// The dependencies in `deps` that lie in `s`, in their order.
pub open spec fn deps_within(deps: Seq<Seq<char>>, s: Set<Seq<char>>) -> Seq<Seq<char>>
    decreases deps.len(),
{
    if deps.len() == 0 {
        Seq::empty()
    } else if s.contains(deps.last()) {
        deps_within(deps.drop_last(), s).push(deps.last())
    } else {
        deps_within(deps.drop_last(), s)
    }
}

proof fn lemma_deps_within(deps: Seq<Seq<char>>, s: Set<Seq<char>>, d: Seq<char>)
    ensures
        deps_within(deps, s).contains(d) <==> (deps.contains(d) && s.contains(d)),
    decreases deps.len(),
{
    if deps.len() > 0 {
        lemma_deps_within(deps.drop_last(), s, d);
        let w = deps_within(deps.drop_last(), s);
        if deps.drop_last().contains(d) {
            let i = choose|i: int| 0 <= i < deps.drop_last().len() && deps.drop_last()[i] == d;
            assert(deps[i] == d);
        }
        if deps.contains(d) && d != deps.last() {
            let i = choose|i: int| 0 <= i < deps.len() && deps[i] == d;
            assert(deps.drop_last()[i] == d);
        }
        if s.contains(deps.last()) {
            assert(w.push(deps.last())[w.len() as int] == deps.last());
            if w.push(deps.last()).contains(d) && d != deps.last() {
                let i = choose|i: int| 0 <= i < w.len() + 1 && w.push(deps.last())[i] == d;
                assert(w[i] == d);
            }
            if w.contains(d) {
                let i = choose|i: int| 0 <= i < w.len() && w[i] == d;
                assert(w.push(deps.last())[i] == d);
            }
        }
    }
}

/// The graph on the names of `s` with only the dependencies inside `s`.
pub open spec fn induced(g: DepGraph, s: Set<Seq<char>>) -> DepGraph {
    Map::new(|n: Seq<char>| g.dom().contains(n) && s.contains(n), |n: Seq<char>| deps_within(g[n], s))
}

/// What `g` has placed of `s` after `k` levels, the graph it induces on `s`
/// has placed too.
proof fn lemma_induced_done(g: DepGraph, s: Set<Seq<char>>, k: nat)
    requires
        s.subset_of(g.dom()),
    ensures
        done_after(g, k).intersect(s).subset_of(done_after(induced(g, s), k)),
    decreases k,
{
    if k > 0 {
        let h = induced(g, s);
        let k1 = (k - 1) as nat;
        lemma_induced_done(g, s, k1);
        assert forall|x: Seq<char>| done_after(g, k).intersect(s).contains(x) implies #[trigger] done_after(h, k).contains(x) by {
            if !done_after(g, k1).contains(x) && !done_after(h, k1).contains(x) {
                assert(ready(g, done_after(g, k1)).contains(x));
                assert forall|j: int| 0 <= j < h[x].len() implies done_after(h, k1).contains(#[trigger] h[x][j]) by {
                    lemma_deps_within(g[x], s, h[x][j]);
                    assert(h[x].contains(h[x][j]));
                    let i = choose|i: int| 0 <= i < g[x].len() && g[x][i] == h[x][j];
                    assert(done_after(g, k1).contains(g[x][i]));
                }
                assert(ready(h, done_after(h, k1)).contains(x));
            }
        }
    }
}

/// The graph induced on a set of configured names depends only on names of the set.
proof fn lemma_induced_known(g: DepGraph, s: Set<Seq<char>>)
    requires
        s.subset_of(g.dom()),
    ensures
        deps_known(induced(g, s)),
{
    assert forall|x: Seq<char>, d: Seq<char>| induced(g, s).dom().contains(x) && #[trigger] induced(g, s)[x].contains(d)
        implies induced(g, s).dom().contains(d) by {
        lemma_deps_within(g[x], s, d);
    }
}

/// A path of the induced graph is a path of the graph.
proof fn lemma_induced_path(g: DepGraph, s: Set<Seq<char>>, p: Seq<Seq<char>>)
    requires
        is_dep_path(induced(g, s), p),
    ensures
        is_dep_path(g, p),
{
    assert forall|i: int| 0 <= i < p.len() - 1 implies g.dom().contains(#[trigger] p[i]) && g[p[i]].contains(p[i + 1]) by {
        assert(induced(g, s).dom().contains(p[i]));
        lemma_deps_within(g[p[i]], s, p[i + 1]);
    }
}

/// If `g` places every name, so does the graph it induces on any set of its names.
pub proof fn lemma_induced_ordered(g: DepGraph, s: Set<Seq<char>>)
    requires
        s.subset_of(g.dom()),
        fully_ordered(g),
    ensures
        fully_ordered(induced(g, s)),
{
    let h = induced(g, s);
    let m = choose|m: nat| done_after(g, m) == g.dom();
    lemma_induced_done(g, s, m);
    lemma_done_in_dom(h, m);
    assert(h.dom() =~= s);
    assert(done_after(h, m) =~= h.dom());
}

/// The order in which to stop the configured processes: the level order,
/// reversed, so that dependents come before their dependencies.
pub fn reverse_stop_order(configs: &StrMap<ProcessConfig>) -> (r: Result<Vec<String>, DepsError>)
    requires
        configs.wf(),
    ensures
        match r {
            Ok(order) => is_start_order(dep_graph(*configs), strs_view(order@).reverse())
                && (forall|i: int, j: int| 0 <= i < order@.len() && 0 <= j < order@.len()
                    && dep_graph(*configs)[order@[i]@].contains(order@[j]@) ==> i < j),
            Err(DepsError::Circular { cycle }) => has_no_order(dep_graph(*configs))
                && cycle@.len() >= 1
                && (strs_view(cycle@) == unknown_cycle() || is_dep_path(dep_graph(*configs), strs_view(cycle@)))
                && (deps_known(dep_graph(*configs)) ==> is_closed_cycle(dep_graph(*configs), strs_view(cycle@)))
                && ((exists|c: Seq<Seq<char>>| is_closed_cycle(dep_graph(*configs), c))
                    ==> is_closed_cycle(dep_graph(*configs), strs_view(cycle@))),
            Err(DepsError::Missing { .. }) => false,
        },
        r is Ok <==> fully_ordered(dep_graph(*configs)),
{
    let levels = match topological_levels(configs) {
        Ok(l) => l,
        Err(e) => {
            return Err(e);
        },
    };
    let flat = flatten(&levels);
    let order = reversed(flat);
    proof {
        let g = dep_graph(*configs);
        let f = strs_view(flat@);
        let o = strs_view(order@);
        assert(o.reverse() =~= f);
        assert forall|i: int, j: int| 0 <= i < order@.len() && 0 <= j < order@.len()
            && g[order@[i]@].contains(order@[j]@) implies i < j by {
            let n = order@.len() as int;
            assert(o[i] == f[n - 1 - i]);
            assert(o[j] == f[n - 1 - j]);
            lemma_deps_first(g, levels_view(levels@), n - 1 - i, n - 1 - j);
        }
    }
    Ok(order)
}

} // verus!

verus! {

/// The stop order is the start order reversed: where the configurations
/// have level order `ls` (what `topological_levels` returns), the stop
/// order (what `reverse_stop_order` returns) is `ls` read level after level,
/// backwards; and both fail on the same configurations (see their
/// `fully_ordered` clauses).
pub proof fn law_stop_order_reverses_levels(g: DepGraph, ls: Seq<Seq<Seq<char>>>, stop: Seq<Seq<char>>)
    requires
        is_level_order(g, ls),
        is_start_order(g, stop.reverse()),
    ensures
        stop == flatten_levels(ls).reverse(),
{
    let ls2 = choose|ls2: Seq<Seq<Seq<char>>>| is_level_order(g, ls2) && done_after(g, ls2.len() as nat) == g.dom()
        && stop.reverse() == flatten_levels(ls2);
    law_level_order_unique(g, ls, ls2);
    assert(stop.reverse().reverse() =~= stop);
}

/// Level 0 holds only processes without dependencies.
pub proof fn law_first_level_has_no_dependencies(g: DepGraph, ls: Seq<Seq<Seq<char>>>, x: Seq<char>)
    requires
        is_level_order(g, ls),
        ls.len() > 0,
        ls[0].contains(x),
    ensures
        g[x].len() == 0,
{
    assert(ls[0].to_set().contains(x));
    assert(layer(g, 0).contains(x));
    if g[x].len() > 0 {
        assert(done_after(g, 0).contains(g[x][0]));
    }
}

/// Every dependency of a process on level `k` is on a level before `k`.
pub proof fn law_dependencies_on_earlier_levels(g: DepGraph, ls: Seq<Seq<Seq<char>>>, k: int, x: Seq<char>, d: Seq<char>)
    requires
        is_level_order(g, ls),
        0 <= k < ls.len(),
        ls[k].contains(x),
        g[x].contains(d),
    ensures
        exists|j: int| 0 <= j < k && (#[trigger] ls[j]).contains(d),
{
    assert(ls[k].to_set().contains(x));
    lemma_dep_on_earlier_layer(g, k as nat, x, d);
    let j = choose|j: nat| j < k && #[trigger] layer(g, j).contains(d);
    assert(ls[j as int].to_set().contains(d));
}

/// A process on level `k > 0` has a dependency on level `k - 1`.
pub proof fn law_dependency_on_previous_level(g: DepGraph, ls: Seq<Seq<Seq<char>>>, k: int, x: Seq<char>)
    requires
        is_level_order(g, ls),
        0 < k < ls.len(),
        ls[k].contains(x),
    ensures
        exists|d: Seq<char>| g[x].contains(d) && ls[k - 1].contains(d),
{
    assert(ls[k].to_set().contains(x));
    let kk = k as nat;
    assert(layer(g, kk).contains(x));
    let prev = (k - 1) as nat;
    assert(done_after(g, kk) == done_after(g, prev).union(ready(g, done_after(g, prev))));
    // x was not ready one level earlier, so some dependency was placed only then.
    assert(!done_after(g, kk).contains(x));
    assert(!ready(g, done_after(g, prev)).contains(x));
    assert(!done_after(g, prev).contains(x));
    assert(!all_in(g[x], done_after(g, prev)));
    let i = choose|i: int| 0 <= i < g[x].len() && !done_after(g, prev).contains(#[trigger] g[x][i]);
    let d = g[x][i];
    assert(done_after(g, kk).contains(d));
    assert(layer(g, prev).contains(d));
    assert(ls[k - 1].to_set().contains(d));
    assert(g[x].contains(d));
}

/// In a complete level order every configured process is on exactly one level.
pub proof fn law_each_process_on_one_level(g: DepGraph, ls: Seq<Seq<Seq<char>>>, x: Seq<char>)
    requires
        is_level_order(g, ls),
        done_after(g, ls.len() as nat) == g.dom(),
        g.dom().contains(x),
    ensures
        exists|k: int| 0 <= k < ls.len() && (#[trigger] ls[k]).contains(x),
        forall|j: int, k: int| 0 <= j < ls.len() && 0 <= k < ls.len() && ls[j].contains(x) && ls[k].contains(x) ==> j == k,
{
    lemma_done_is_union_of_layers(g, ls.len() as nat, x);
    let k = choose|k: nat| k < ls.len() && #[trigger] layer(g, k).contains(x);
    assert(ls[k as int].to_set().contains(x));
    assert forall|a: int, b: int| 0 <= a < ls.len() && 0 <= b < ls.len() && ls[a].contains(x) && ls[b].contains(x) implies a == b by {
        assert(ls[a].to_set().contains(x));
        assert(ls[b].to_set().contains(x));
        lemma_layers_disjoint(g, a as nat, b as nat, x);
    }
}

proof fn lemma_path_descends(g: DepGraph, p: Seq<Seq<char>>, k: nat)
    requires
        is_dep_path(g, p),
        p.len() >= 2,
        layer(g, k).contains(p[0]),
    ensures
        exists|j: nat| j < k && #[trigger] layer(g, j).contains(p.last()),
    decreases p.len(),
{
    lemma_dep_on_earlier_layer(g, k, p[0], p[1]);
    let j = choose|j: nat| j < k && #[trigger] layer(g, j).contains(p[1]);
    if p.len() > 2 {
        let q = p.drop_first();
        assert(is_dep_path(g, q)) by {
            assert forall|i: int| 0 <= i < q.len() - 1 implies g.dom().contains(#[trigger] q[i]) && g[q[i]].contains(q[i + 1]) by {
                assert(q[i] == p[i + 1]);
                assert(q[i + 1] == p[i + 2]);
            }
        }
        lemma_path_descends(g, q, j);
        let j2 = choose|j2: nat| j2 < j && #[trigger] layer(g, j2).contains(q.last());
        assert(q.last() == p.last());
        assert(j2 < k && layer(g, j2).contains(p.last()));
    } else {
        assert(p.last() == p[1]);
        assert(j < k && layer(g, j).contains(p.last()));
    }
}

/// A dependency cycle rules out a complete level order: `topological_levels`
/// reports it as an error.
pub proof fn law_cycle_has_no_level_order(g: DepGraph, ls: Seq<Seq<Seq<char>>>, cycle: Seq<Seq<char>>)
    requires
        is_level_order(g, ls),
        cycle.len() >= 2,
        cycle[0] == cycle.last(),
        is_dep_path(g, cycle),
    ensures
        done_after(g, ls.len() as nat) != g.dom(),
{
    if done_after(g, ls.len() as nat) == g.dom() {
        assert(g.dom().contains(cycle[0]));
        lemma_done_is_union_of_layers(g, ls.len() as nat, cycle[0]);
        let k = choose|k: nat| k < ls.len() && #[trigger] layer(g, k).contains(cycle[0]);
        lemma_path_descends(g, cycle, k);
        let j = choose|j: nat| j < k && #[trigger] layer(g, j).contains(cycle.last());
        lemma_layers_disjoint(g, j, k, cycle[0]);
    }
}

/// The level order is unique: two level orders of one graph are equal.
pub proof fn law_level_order_unique(g: DepGraph, a: Seq<Seq<Seq<char>>>, b: Seq<Seq<Seq<char>>>)
    requires
        is_level_order(g, a),
        is_level_order(g, b),
    ensures
        a == b,
{
    lemma_level_order_ends(g, a);
    lemma_level_order_ends(g, b);
    if a.len() < b.len() {
        assert(b[a.len() as int].to_set().contains(b[a.len() as int][0]));
    } else if b.len() < a.len() {
        assert(a[b.len() as int].to_set().contains(a[b.len() as int][0]));
    }
    assert forall|k: int| 0 <= k < a.len() implies a[k] == b[k] by {
        lemma_sorted_same_set_equal(a[k], b[k]);
    }
    assert(a =~= b);
}

/// Two strictly sorted lists with the same elements are equal.
pub proof fn lemma_sorted_same_set_equal(a: Seq<Seq<char>>, b: Seq<Seq<char>>)
    requires
        sorted_strict(a),
        sorted_strict(b),
        a.to_set() == b.to_set(),
    ensures
        a == b,
    decreases a.len() + b.len(),
{
    if a.len() == 0 {
        if b.len() > 0 {
            assert(b.to_set().contains(b[0]));
        }
        assert(a =~= b);
    } else if b.len() == 0 {
        assert(a.to_set().contains(a[0]));
    } else {
        // the smallest elements agree
        assert(a.to_set().contains(a[0]));
        assert(b.to_set().contains(b[0]));
        let i = choose|i: int| 0 <= i < b.len() && b[i] == a[0];
        let j = choose|j: int| 0 <= j < a.len() && a[j] == b[0];
        if i > 0 {
            assert(crate::text::seq_lt(b[0], b[i]));
            if j > 0 {
                assert(crate::text::seq_lt(a[0], a[j]));
                crate::text::lemma_seq_lt_asymmetric(b[0], a[0]);
            } else {
                crate::text::lemma_seq_lt_irreflexive(b[0]);
            }
        }
        assert(a[0] == b[0]);
        let a1 = a.drop_first();
        let b1 = b.drop_first();
        assert(a1.to_set() =~= b1.to_set()) by {
            assert forall|q: Seq<char>| a1.to_set().contains(q) <==> b1.to_set().contains(q) by {
                if a1.contains(q) {
                    let s = choose|s: int| 0 <= s < a1.len() && a1[s] == q;
                    assert(a[s + 1] == q);
                    assert(crate::text::seq_lt(a[0], q));
                    crate::text::lemma_seq_lt_irreflexive(q);
                    assert(b.to_set().contains(q));
                    let t = choose|t: int| 0 <= t < b.len() && b[t] == q;
                    assert(t != 0);
                    assert(b1[t - 1] == q);
                }
                if b1.contains(q) {
                    let s = choose|s: int| 0 <= s < b1.len() && b1[s] == q;
                    assert(b[s + 1] == q);
                    assert(crate::text::seq_lt(b[0], q));
                    crate::text::lemma_seq_lt_irreflexive(q);
                    assert(a.to_set().contains(q));
                    let t = choose|t: int| 0 <= t < a.len() && a[t] == q;
                    assert(t != 0);
                    assert(a1[t - 1] == q);
                }
            }
        }
        lemma_sorted_same_set_equal(a1, b1);
        assert(a =~= seq![a[0]] + a1);
        assert(b =~= seq![b[0]] + b1);
    }
}

} // verus!

verus! {

/// Every dependency of every configured process is itself configured.
pub open spec fn deps_known(g: DepGraph) -> bool {
    forall|x: Seq<char>, d: Seq<char>| g.dom().contains(x) && #[trigger] g[x].contains(d) ==> g.dom().contains(d)
}

/// Checks that every name in a `depends_on` list is a configured process.
/// The first offender in iteration order is reported.
pub fn validate_deps(configs: &StrMap<ProcessConfig>) -> (r: Result<(), DepsError>)
    requires
        configs.wf(),
    ensures
        r is Ok <==> deps_known(dep_graph(*configs)),
        r matches Err(DepsError::Missing { from, to }) ==> exists|i: int, j: int|
            0 <= i < configs.key_seq().len()
            && configs.key_seq()[i] == from@
            && 0 <= j < deps_of(configs.val_seq()[i]@).len()
            && deps_of(configs.val_seq()[i]@)[j] == to@
            && !configs.as_map().dom().contains(to@)
            && (forall|a: int, b: int| 0 <= a < i && 0 <= b < deps_of(configs.val_seq()[a]@).len()
                ==> configs.as_map().dom().contains(#[trigger] deps_of(configs.val_seq()[a]@)[b]))
            && (forall|b: int| 0 <= b < j ==> configs.as_map().dom().contains(#[trigger] deps_of(configs.val_seq()[i]@)[b])),
        !(r matches Err(DepsError::Circular { .. })),
{
    let ghost g = dep_graph(*configs);
    proof {
        configs.lemma_wf();
    }
    let n = configs.len();
    let mut i: usize = 0;
    while i < n
        invariant
            configs.wf(),
            g == dep_graph(*configs),
            n == configs.key_seq().len(),
            n == configs.val_seq().len(),
            i <= n,
            forall|a: int, b: int| 0 <= a < i && 0 <= b < deps_of(configs.val_seq()[a]@).len()
                ==> configs.as_map().dom().contains(#[trigger] deps_of(configs.val_seq()[a]@)[b]),
        decreases n - i,
    {
        let config = configs.value_at(i);
        match &config.depends_on {
            None => {},
            Some(deps) => {
                let mut j: usize = 0;
                while j < deps.len()
                    invariant
                        configs.wf(),
                        g == dep_graph(*configs),
                        i < n,
                        n == configs.key_seq().len(),
                        n == configs.val_seq().len(),
                        forall|a: int, b: int| 0 <= a < i && 0 <= b < deps_of(configs.val_seq()[a]@).len()
                            ==> configs.as_map().dom().contains(#[trigger] deps_of(configs.val_seq()[a]@)[b]),
                        *config == configs.val_seq()[i as int],
                        deps_of(config@) == key_views(deps@),
                        j <= deps@.len(),
                        forall|b: int| 0 <= b < j ==> configs.as_map().dom().contains(#[trigger] deps_of(configs.val_seq()[i as int]@)[b]),
                    decreases deps@.len() - j,
                {
                    if !configs.contains_key(deps[j].as_str()) {
                        let from = configs.key_at(i).clone();
                        let to = deps[j].clone();
                        proof {
                            configs.lemma_index(i as int);
                            let x = configs.key_seq()[i as int];
                            assert(g[x] == deps_of(configs.val_seq()[i as int]@));
                            assert(g[x][j as int] == to@);
                            assert(g[x].contains(to@));
                            assert(!deps_known(g));
                            assert(deps_of(configs.val_seq()[i as int]@)[j as int] == to@);
                        }
                        return Err(DepsError::Missing { from, to });
                    }
                    j = j + 1;
                }
            },
        }
        i = i + 1;
    }
    proof {
        assert forall|x: Seq<char>, d: Seq<char>| g.dom().contains(x) && #[trigger] g[x].contains(d) implies g.dom().contains(d) by {
            configs.lemma_key_index(x);
            let a = configs.key_seq().index_of(x);
            configs.lemma_index(a);
            let b = choose|b: int| 0 <= b < g[x].len() && g[x][b] == d;
            assert(deps_of(configs.val_seq()[a]@)[b] == d);
        }
    }
    Ok(())
}

proof fn lemma_prefix_contains<A>(s: Seq<A>, i: int, q: A)
    requires
        0 <= i < s.len(),
    ensures
        s.subrange(0, i + 1).contains(q) <==> (s.subrange(0, i).contains(q) || q == s[i]),
{
    let s0 = s.subrange(0, i);
    let s1 = s.subrange(0, i + 1);
    if s1.contains(q) && q != s[i] {
        let t = choose|t: int| 0 <= t < s1.len() && s1[t] == q;
        assert(s0[t] == q);
    }
    if s0.contains(q) {
        let t = choose|t: int| 0 <= t < s0.len() && s0[t] == q;
        assert(s1[t] == q);
    }
    if q == s[i] {
        assert(s1[i] == q);
    }
}

/// The configurations whose names are in `keep`, in the order they had.
fn restrict_configs(configs: &StrMap<ProcessConfig>, keep: &StrMap<bool>) -> (r: StrMap<ProcessConfig>)
    requires
        configs.wf(),
        keep.wf(),
        forall|i: int| 0 <= i < configs.val_seq().len() ==> (#[trigger] configs.val_seq()[i]).wf(),
    ensures
        r.wf(),
        forall|i: int| 0 <= i < r.val_seq().len() ==> (#[trigger] r.val_seq()[i]).wf(),
        dep_graph(r) == dep_graph(*configs).restrict(keep.as_map().dom()),
{
    let mut r: StrMap<ProcessConfig> = StrMap::new();
    let n = configs.len();
    let mut i: usize = 0;
    proof { configs.lemma_wf(); r.lemma_wf(); }
    while i < n
        invariant
            configs.wf(),
            keep.wf(),
            forall|j: int| 0 <= j < configs.val_seq().len() ==> (#[trigger] configs.val_seq()[j]).wf(),
            n == configs.key_seq().len(),
            n == configs.val_seq().len(),
            configs.key_seq().no_duplicates(),
            i <= n,
            r.wf(),
            forall|j: int| 0 <= j < r.val_seq().len() ==> (#[trigger] r.val_seq()[j]).wf(),
            forall|q: Seq<char>| r.as_map().dom().contains(q) <==>
                (keep.as_map().dom().contains(q) && configs.key_seq().subrange(0, i as int).contains(q)),
            forall|q: Seq<char>| #[trigger] r.as_map().dom().contains(q) ==> r.as_map()[q]@ == configs.as_map()[q]@,
        decreases n - i,
    {
        let k = configs.key_at(i);
        proof {
            configs.lemma_index(i as int);
            assert(configs.key_seq().subrange(0, i + 1) =~= configs.key_seq().subrange(0, i as int).push(k@));
        }
        if keep.contains_key(k.as_str()) {
            let ghost before = r;
            proof {
                assert(!before.as_map().dom().contains(k@)) by {
                    if before.as_map().dom().contains(k@) {
                        let t = choose|t: int| 0 <= t < i && configs.key_seq().subrange(0, i as int)[t] == k@;
                        assert(configs.key_seq()[t] == configs.key_seq()[i as int]);
                    }
                }
                before.lemma_wf();
                assert(!before.key_seq().contains(k@));
            }
            let c = configs.value_at(i).duplicate();
            r.insert(k.clone(), c);
            proof {
                r.lemma_wf();
                assert forall|q: Seq<char>| r.as_map().dom().contains(q) <==>
                    (keep.as_map().dom().contains(q) && configs.key_seq().subrange(0, i + 1).contains(q)) by {
                    lemma_prefix_contains(configs.key_seq(), i as int, q);
                }
                assert forall|j: int| 0 <= j < r.val_seq().len() implies (#[trigger] r.val_seq()[j]).wf() by {
                    if j < before.val_seq().len() {
                        before.lemma_index(j);
                        r.lemma_index(j);
                        assert(r.key_seq()[j] == before.key_seq()[j]);
                    } else {
                        r.lemma_index(j);
                        assert(r.key_seq()[j] == k@);
                    }
                }
            }
        } else {
            proof {
                assert forall|q: Seq<char>| r.as_map().dom().contains(q) <==>
                    (keep.as_map().dom().contains(q) && configs.key_seq().subrange(0, i + 1).contains(q)) by {
                    lemma_prefix_contains(configs.key_seq(), i as int, q);
                }
            }
        }
        i = i + 1;
    }
    proof {
        let g = dep_graph(*configs);
        assert(configs.key_seq().subrange(0, n as int) =~= configs.key_seq());
        assert forall|q: Seq<char>| #[trigger] configs.key_seq().contains(q) <==> configs.as_map().dom().contains(q) by {}
        assert(dep_graph(r) =~= g.restrict(keep.as_map().dom()));
    }
    r
}

} // verus!

verus! {

/// Every map of the set of configurations is well formed.
pub open spec fn configs_wf(configs: StrMap<ProcessConfig>) -> bool {
    &&& configs.wf()
    &&& forall|i: int| 0 <= i < configs.val_seq().len() ==> (#[trigger] configs.val_seq()[i]).wf()
}

/// `x` can be reached from one of `names` by following dependencies.
pub open spec fn reaches(g: DepGraph, names: Seq<Seq<char>>, x: Seq<char>) -> bool {
    exists|p: Seq<Seq<char>>| p.len() >= 1 && names.contains(p[0]) && p.last() == x && is_dep_path(g, p)
}

/// The names of `names` together with all their transitive dependencies.
pub open spec fn dependency_closure(g: DepGraph, names: Seq<Seq<char>>) -> Set<Seq<char>> {
    Set::new(|x: Seq<char>| reaches(g, names, x))
}

/// `x` depends, directly or transitively, on one of `targets` (or is one).
pub open spec fn leads_to(g: DepGraph, x: Seq<char>, targets: Seq<Seq<char>>) -> bool {
    exists|p: Seq<Seq<char>>| p.len() >= 1 && p[0] == x && targets.contains(p.last()) && is_dep_path(g, p)
}

/// The names of `targets` together with everything that depends on them.
pub open spec fn dependents_closure(g: DepGraph, targets: Seq<Seq<char>>) -> Set<Seq<char>> {
    Set::new(|x: Seq<char>| leads_to(g, x, targets))
}

proof fn lemma_path_push(g: DepGraph, p: Seq<Seq<char>>, d: Seq<char>)
    requires
        p.len() >= 1,
        is_dep_path(g, p),
        g.dom().contains(p.last()),
        g[p.last()].contains(d),
    ensures
        is_dep_path(g, p.push(d)),
{
    let q = p.push(d);
    assert forall|i: int| 0 <= i < q.len() - 1 implies g.dom().contains(#[trigger] q[i]) && g[q[i]].contains(q[i + 1]) by {
        if i < p.len() - 1 {
            assert(q[i] == p[i] && q[i + 1] == p[i + 1]);
        } else {
            assert(q[i] == p.last());
        }
    }
}

proof fn lemma_path_prepend(g: DepGraph, x: Seq<char>, p: Seq<Seq<char>>)
    requires
        p.len() >= 1,
        is_dep_path(g, p),
        g.dom().contains(x),
        g[x].contains(p[0]),
    ensures
        is_dep_path(g, seq![x] + p),
{
    let q = seq![x] + p;
    assert forall|i: int| 0 <= i < q.len() - 1 implies g.dom().contains(#[trigger] q[i]) && g[q[i]].contains(q[i + 1]) by {
        if i > 0 {
            assert(q[i] == p[i - 1] && q[i + 1] == p[i]);
        } else {
            assert(q[0] == x && q[1] == p[0]);
        }
    }
}

/// A set that holds `names` and is closed under dependencies holds their closure.
proof fn lemma_closed_holds_closure(g: DepGraph, names: Seq<Seq<char>>, s: Set<Seq<char>>, p: Seq<Seq<char>>)
    requires
        forall|k: int| 0 <= k < names.len() ==> s.contains(#[trigger] names[k]),
        forall|x: Seq<char>, d: Seq<char>| s.contains(x) && g.dom().contains(x) && #[trigger] g[x].contains(d) ==> s.contains(d),
        p.len() >= 1,
        names.contains(p[0]),
        is_dep_path(g, p),
    ensures
        s.contains(p.last()),
    decreases p.len(),
{
    if p.len() > 1 {
        let q = p.drop_last();
        assert(is_dep_path(g, q)) by {
            assert forall|i: int| 0 <= i < q.len() - 1 implies g.dom().contains(#[trigger] q[i]) && g[q[i]].contains(q[i + 1]) by {
                assert(q[i] == p[i] && q[i + 1] == p[i + 1]);
            }
        }
        lemma_closed_holds_closure(g, names, s, q);
        assert(q.last() == p[p.len() - 2]);
        assert(g[p[p.len() - 2]].contains(p[p.len() - 1]));
    }
}

/// A set that holds `targets` and everything depending on its members holds
/// everything that leads to `targets`.
proof fn lemma_closed_holds_dependents(g: DepGraph, targets: Seq<Seq<char>>, s: Set<Seq<char>>, p: Seq<Seq<char>>)
    requires
        forall|k: int| 0 <= k < targets.len() ==> s.contains(#[trigger] targets[k]),
        forall|x: Seq<char>, d: Seq<char>| s.contains(d) && g.dom().contains(x) && #[trigger] g[x].contains(d) ==> s.contains(x),
        p.len() >= 1,
        targets.contains(p.last()),
        is_dep_path(g, p),
    ensures
        s.contains(p[0]),
    decreases p.len(),
{
    if p.len() > 1 {
        let q = p.drop_first();
        assert(is_dep_path(g, q)) by {
            assert forall|i: int| 0 <= i < q.len() - 1 implies g.dom().contains(#[trigger] q[i]) && g[q[i]].contains(q[i + 1]) by {
                assert(q[i] == p[i + 1] && q[i + 1] == p[i + 2]);
            }
        }
        assert(q.last() == p.last());
        lemma_closed_holds_dependents(g, targets, s, q);
        assert(q[0] == p[1]);
        assert(g[p[0]].contains(p[1]));
    }
}

/// A complete level order, read level after level, holds each configured
/// name exactly once.
pub proof fn lemma_start_order_names(g: DepGraph, ls: Seq<Seq<Seq<char>>>)
    requires
        is_level_order(g, ls),
        done_after(g, ls.len() as nat) == g.dom(),
    ensures
        flatten_levels(ls).to_set() == g.dom(),
{
    lemma_flatten_levels_layers(g, ls);
    lemma_done_in_dom(g, ls.len() as nat);
    assert forall|x: Seq<char>| flatten_levels(ls).to_set().contains(x) <==> g.dom().contains(x) by {
        if flatten_levels(ls).contains(x) {
            let p = choose|p: int| 0 <= p < flatten_levels(ls).len() && flatten_levels(ls)[p] == x;
            assert(on_some_layer(g, ls.len(), flatten_levels(ls)[p]));
            let k = choose|k: nat| k < ls.len() && #[trigger] layer(g, k).contains(x);
            lemma_done_monotone(g, k + 1, ls.len() as nat);
        }
        if g.dom().contains(x) {
            lemma_done_is_union_of_layers(g, ls.len() as nat, x);
            let k = choose|k: nat| k < ls.len() && #[trigger] layer(g, k).contains(x);
            assert(ls[k as int].to_set().contains(x));
            lemma_level_in_flatten(ls, k as int, x);
        }
    }
}

proof fn lemma_level_in_flatten(ls: Seq<Seq<Seq<char>>>, k: int, x: Seq<char>)
    requires
        0 <= k < ls.len(),
        ls[k].contains(x),
    ensures
        flatten_levels(ls).contains(x),
    decreases ls.len(),
{
    let front = flatten_levels(ls.drop_last());
    let f = flatten_levels(ls);
    assert(f == front + ls.last());
    if k == ls.len() - 1 {
        let t = choose|t: int| 0 <= t < ls[k].len() && ls[k][t] == x;
        assert(f[front.len() + t] == x);
    } else {
        assert(ls.drop_last()[k] == ls[k]);
        lemma_level_in_flatten(ls.drop_last(), k, x);
        let t = choose|t: int| 0 <= t < front.len() && front[t] == x;
        assert(f[t] == x);
    }
}

} // verus!

verus! {

/// The requested names and all their transitive dependencies, as a set.
fn collect_dependencies(names: &[String], configs: &StrMap<ProcessConfig>) -> (needed: StrMap<bool>)
    requires
        configs.wf(),
    ensures
        needed.wf(),
        needed.as_map().dom() == dependency_closure(dep_graph(*configs), strs_view(names@)),
{
    let ghost g = dep_graph(*configs);
    let ghost nv = strs_view(names@);
    let ghost u = all_names(*configs).union(nv.to_set());
    proof {
        lemma_all_names(*configs);
        configs.lemma_wf();
        vstd::seq_lib::seq_to_set_is_finite(nv);
    }
    let mut needed: StrMap<bool> = StrMap::new();
    let mut queue: Vec<String> = Vec::new();
    let mut i: usize = 0;
    while i < names.len()
        invariant
            configs.wf(),
            g == dep_graph(*configs),
            nv == strs_view(names@),
            i <= names@.len(),
            needed.wf(),
            forall|q: Seq<char>| #[trigger] needed.as_map().dom().contains(q) ==> reaches(g, nv, q),
            forall|q: Seq<char>| #[trigger] needed.as_map().dom().contains(q) ==> nv.contains(q),
            forall|t: int| 0 <= t < queue@.len() ==> needed.as_map().dom().contains(#[trigger] queue@[t]@),
            forall|q: Seq<char>| #[trigger] needed.as_map().dom().contains(q) ==> exists|t: int| 0 <= t < queue@.len() && queue@[t]@ == q,
            forall|k: int| 0 <= k < i ==> needed.as_map().dom().contains(#[trigger] nv[k]),
        decreases names@.len() - i,
    {
        let name = &names[i];
        proof {
            assert(nv[i as int] == name@);
            let p = seq![name@];
            assert(p.last() == name@);
            assert(nv.contains(p[0]));
            assert(is_dep_path(g, p));
        }
        if !needed.contains_key(name.as_str()) {
            let ghost before = needed;
            needed.insert(name.clone(), true);
            let ghost qb = queue@;
            queue.push(name.clone());
            proof {
                assert forall|q: Seq<char>| #[trigger] needed.as_map().dom().contains(q) implies exists|t: int| 0 <= t < queue@.len() && queue@[t]@ == q by {
                    if q == name@ {
                        assert(queue@[qb.len() as int]@ == q);
                    } else {
                        assert(before.as_map().dom().contains(q));
                        let t = choose|t: int| 0 <= t < qb.len() && qb[t]@ == q;
                        assert(queue@[t] == qb[t]);
                    }
                }
            }
        }
        i = i + 1;
    }
    let mut head: usize = 0;
    while head < queue.len()
        invariant
            configs.wf(),
            g == dep_graph(*configs),
            nv == strs_view(names@),
            u == all_names(*configs).union(nv.to_set()),
            u.finite(),
            forall|a: int, b: int| 0 <= a < configs.val_seq().len() && 0 <= b < deps_of(configs.val_seq()[a]@).len()
                ==> all_names(*configs).contains(#[trigger] deps_of(configs.val_seq()[a]@)[b]),
            needed.wf(),
            head <= queue@.len(),
            needed.as_map().dom().subset_of(u),
            forall|q: Seq<char>| #[trigger] needed.as_map().dom().contains(q) ==> reaches(g, nv, q),
            forall|t: int| 0 <= t < queue@.len() ==> needed.as_map().dom().contains(#[trigger] queue@[t]@),
            forall|q: Seq<char>| #[trigger] needed.as_map().dom().contains(q) ==> exists|t: int| 0 <= t < queue@.len() && queue@[t]@ == q,
            forall|k: int| 0 <= k < nv.len() ==> needed.as_map().dom().contains(#[trigger] nv[k]),
            forall|t: int, d: Seq<char>| 0 <= t < head && g.dom().contains(queue@[t]@) && #[trigger] g[queue@[t]@].contains(d)
                ==> needed.as_map().dom().contains(d),
        decreases u.difference(needed.as_map().dom()).len(), queue@.len() - head,
    {
        let name = queue[head].clone();
        let ghost dom0 = needed.as_map().dom();
        let ghost qlen0 = queue@.len();
        proof { configs.lemma_wf(); }
        match configs.index_of(name.as_str()) {
            None => {},
            Some(ci) => {
                let config = configs.value_at(ci);
                proof {
                    configs.lemma_wf();
                    configs.lemma_index(ci as int);
                }
                match &config.depends_on {
                    None => {
                        proof {
                            assert(g[name@] =~= Seq::<Seq<char>>::empty());
                        }
                    },
                    Some(deps) => {
                        let mut k: usize = 0;
                        while k < deps.len()
                            invariant
                                configs.wf(),
                                g == dep_graph(*configs),
                                nv == strs_view(names@),
                                u == all_names(*configs).union(nv.to_set()),
                                u.finite(),
                                forall|a: int, b: int| 0 <= a < configs.val_seq().len() && 0 <= b < deps_of(configs.val_seq()[a]@).len()
                                    ==> all_names(*configs).contains(#[trigger] deps_of(configs.val_seq()[a]@)[b]),
                                ci < configs.val_seq().len(),
                                *config == configs.val_seq()[ci as int],
                                deps_of(config@) == key_views(deps@),
                                g.dom().contains(name@),
                                g[name@] == key_views(deps@),
                                head < qlen0,
                                queue@[head as int]@ == name@,
                                needed.wf(),
                                needed.as_map().dom().subset_of(u),
                                dom0.subset_of(needed.as_map().dom()),
                                dom0.subset_of(u),
                                needed.as_map().dom().contains(name@),
                                queue@.len() >= qlen0,
                                queue@.len() > qlen0 ==> u.difference(needed.as_map().dom()).len() < u.difference(dom0).len(),
                                queue@.len() == qlen0 ==> needed.as_map().dom() == dom0,
                                forall|q: Seq<char>| #[trigger] needed.as_map().dom().contains(q) ==> reaches(g, nv, q),
                                forall|t: int| 0 <= t < queue@.len() ==> needed.as_map().dom().contains(#[trigger] queue@[t]@),
                                forall|q: Seq<char>| #[trigger] needed.as_map().dom().contains(q) ==> exists|t: int| 0 <= t < queue@.len() && queue@[t]@ == q,
                                forall|kk: int| 0 <= kk < nv.len() ==> needed.as_map().dom().contains(#[trigger] nv[kk]),
                                forall|t: int, d: Seq<char>| 0 <= t < head && g.dom().contains(queue@[t]@) && #[trigger] g[queue@[t]@].contains(d)
                                    ==> needed.as_map().dom().contains(d),
                                forall|b: int| 0 <= b < k ==> needed.as_map().dom().contains(#[trigger] key_views(deps@)[b]),
                                k <= deps@.len(),
                            decreases deps@.len() - k,
                        {
                            let dep = &deps[k];
                            proof {
                                assert(key_views(deps@)[k as int] == dep@);
                            }
                            if !needed.contains_key(dep.as_str()) {
                                let ghost before = needed;
                                let ghost qb = queue@;
                                proof {
                                    assert(all_names(*configs).contains(deps_of(configs.val_seq()[ci as int]@)[k as int]));
                                    assert(u.contains(dep@));
                                    u.lemma_set_insert_diff_decreases(before.as_map().dom(), dep@);
                                    if qb.len() > qlen0 {
                                        assert(u.difference(before.as_map().dom().insert(dep@)).len() <= u.difference(before.as_map().dom()).len());
                                    }
                                    let p = choose|p: Seq<Seq<char>>| p.len() >= 1 && nv.contains(p[0]) && p.last() == name@ && is_dep_path(g, p);
                                    assert(g[name@].contains(dep@));
                                    lemma_path_push(g, p, dep@);
                                    assert(p.push(dep@).last() == dep@);
                                    assert(p.push(dep@)[0] == p[0]);
                                }
                                needed.insert(dep.clone(), true);
                                queue.push(dep.clone());
                                proof {
                                    assert(needed.as_map().dom() =~= before.as_map().dom().insert(dep@));
                                    assert forall|q: Seq<char>| #[trigger] needed.as_map().dom().contains(q) implies exists|t: int| 0 <= t < queue@.len() && queue@[t]@ == q by {
                                        if q == dep@ {
                                            assert(queue@[qb.len() as int]@ == q);
                                        } else {
                                            let t = choose|t: int| 0 <= t < qb.len() && qb[t]@ == q;
                                            assert(queue@[t] == qb[t]);
                                        }
                                    }
                                    assert forall|t: int, d: Seq<char>| 0 <= t < head && g.dom().contains(queue@[t]@) && #[trigger] g[queue@[t]@].contains(d)
                                        implies needed.as_map().dom().contains(d) by {
                                        assert(queue@[t] == qb[t]);
                                    }
                                }
                            }
                            k = k + 1;
                        }
                        proof {
                            assert forall|d: Seq<char>| #[trigger] g[name@].contains(d) implies needed.as_map().dom().contains(d) by {
                                let b = choose|b: int| 0 <= b < g[name@].len() && g[name@][b] == d;
                            }
                        }
                    },
                }
            },
        }
        proof {
            assert forall|t: int, d: Seq<char>| 0 <= t < head + 1 && g.dom().contains(queue@[t]@) && #[trigger] g[queue@[t]@].contains(d)
                implies needed.as_map().dom().contains(d) by {
                if t == head {
                    assert(queue@[t]@ == name@);
                    if !configs.as_map().dom().contains(name@) {
                        assert(!g.dom().contains(name@));
                    }
                }
            }
        }
        head = head + 1;
    }
    proof {
        let s = needed.as_map().dom();
        assert forall|x: Seq<char>, d: Seq<char>| s.contains(x) && g.dom().contains(x) && #[trigger] g[x].contains(d) implies s.contains(d) by {
            let t = choose|t: int| 0 <= t < queue@.len() && queue@[t]@ == x;
        }
        assert forall|x: Seq<char>| s.contains(x) <==> dependency_closure(g, nv).contains(x) by {
            if reaches(g, nv, x) {
                let p = choose|p: Seq<Seq<char>>| p.len() >= 1 && nv.contains(p[0]) && p.last() == x && is_dep_path(g, p);
                lemma_closed_holds_closure(g, nv, s, p);
            }
        }
        assert(s =~= dependency_closure(g, nv));
    }
    needed
}

} // verus!

verus! {

/// Where every dependency is configured, so is every dependency within a
/// dependency closure, and it lies in the closure.
proof fn lemma_closure_known(g: DepGraph, names: Seq<Seq<char>>)
    requires
        deps_known(g),
    ensures
        deps_known(g.restrict(dependency_closure(g, names))),
{
    let c = dependency_closure(g, names);
    assert forall|x: Seq<char>, d: Seq<char>| g.restrict(c).dom().contains(x) && #[trigger] g.restrict(c)[x].contains(d)
        implies g.restrict(c).dom().contains(d) by {
        let p = choose|p: Seq<Seq<char>>| p.len() >= 1 && names.contains(p[0]) && p.last() == x && is_dep_path(g, p);
        lemma_path_push(g, p, d);
        let q = p.push(d);
        assert(q[0] == p[0]);
        assert(q.last() == d);
        assert(names.contains(q[0]) && q.len() >= 1 && is_dep_path(g, q));
        assert(reaches(g, names, d));
    }
}

/// Expands the requested names to include all their transitive dependencies
/// and returns the configured ones in start order (dependencies first).
pub fn expand_deps(names: &[String], configs: &StrMap<ProcessConfig>) -> (r: Result<Vec<String>, DepsError>)
    requires
        configs_wf(*configs),
    ensures
        match r {
            Ok(order) => is_start_order(
                    dep_graph(*configs).restrict(dependency_closure(dep_graph(*configs), strs_view(names@))),
                    strs_view(order@))
                && strs_view(order@).to_set() == dependency_closure(dep_graph(*configs), strs_view(names@)).intersect(dep_graph(*configs).dom())
                && (forall|i: int, j: int| 0 <= i < order@.len() && 0 <= j < order@.len()
                    && dep_graph(*configs)[order@[i]@].contains(order@[j]@) ==> j < i),
            Err(DepsError::Circular { cycle }) => has_no_order(
                    dep_graph(*configs).restrict(dependency_closure(dep_graph(*configs), strs_view(names@))))
                && cycle@.len() >= 1
                && (deps_known(dep_graph(*configs)) ==> is_closed_cycle(dep_graph(*configs), strs_view(cycle@))),
            Err(DepsError::Missing { .. }) => false,
        },
{
    let ghost g = dep_graph(*configs);
    let ghost c = dependency_closure(g, strs_view(names@));
    let needed = collect_dependencies(names, configs);
    let subset = restrict_configs(configs, &needed);
    let levels = match topological_levels(&subset) {
        Ok(l) => l,
        Err(e) => {
            proof {
                assert(dep_graph(subset) == g.restrict(c));
                if deps_known(g) {
                    lemma_closure_known(g, strs_view(names@));
                    if e is Circular {
                        let cv = strs_view(e->cycle@);
                        assert forall|i: int| 0 <= i < cv.len() - 1 implies g.dom().contains(#[trigger] cv[i]) && g[cv[i]].contains(cv[i + 1]) by {
                            assert(g.restrict(c).dom().contains(cv[i]));
                        }
                    }
                }
            }
            return Err(e);
        },
    };
    let order = flatten(&levels);
    proof {
        let g2 = g.restrict(c);
        assert(dep_graph(subset) == g2);
        let ls = levels_view(levels@);
        lemma_start_order_names(g2, ls);
        assert(g2.dom() =~= c.intersect(g.dom()));
        assert forall|i: int, j: int| 0 <= i < order@.len() && 0 <= j < order@.len()
            && g[order@[i]@].contains(order@[j]@) implies j < i by {
            let f = flatten_levels(ls);
            assert(f[i] == order@[i]@);
            assert(f[j] == order@[j]@);
            assert(f.to_set().contains(f[i]));
            assert(g2[f[i]] == g[f[i]]);
            lemma_deps_first(g2, ls, i, j);
        }
    }
    Ok(order)
}

/// The target names and everything that depends on them, transitively, as a set.
fn collect_dependents(targets: &[String], configs: &StrMap<ProcessConfig>) -> (needed: StrMap<bool>)
    requires
        configs.wf(),
    ensures
        needed.wf(),
        needed.as_map().dom() == dependents_closure(dep_graph(*configs), strs_view(targets@)),
{
    let ghost g = dep_graph(*configs);
    let ghost tv = strs_view(targets@);
    let ghost u = configs.key_seq().to_set().union(tv.to_set());
    proof {
        configs.lemma_wf();
        vstd::seq_lib::seq_to_set_is_finite(tv);
        vstd::seq_lib::seq_to_set_is_finite(configs.key_seq());
    }
    let mut needed: StrMap<bool> = StrMap::new();
    let mut queue: Vec<String> = Vec::new();
    let mut i: usize = 0;
    while i < targets.len()
        invariant
            configs.wf(),
            g == dep_graph(*configs),
            tv == strs_view(targets@),
            i <= targets@.len(),
            needed.wf(),
            forall|q: Seq<char>| #[trigger] needed.as_map().dom().contains(q) ==> leads_to(g, q, tv),
            forall|q: Seq<char>| #[trigger] needed.as_map().dom().contains(q) ==> tv.contains(q),
            forall|t: int| 0 <= t < queue@.len() ==> needed.as_map().dom().contains(#[trigger] queue@[t]@),
            forall|q: Seq<char>| #[trigger] needed.as_map().dom().contains(q) ==> exists|t: int| 0 <= t < queue@.len() && queue@[t]@ == q,
            forall|k: int| 0 <= k < i ==> needed.as_map().dom().contains(#[trigger] tv[k]),
        decreases targets@.len() - i,
    {
        let name = &targets[i];
        proof {
            assert(tv[i as int] == name@);
            let p = seq![name@];
            assert(p.last() == name@);
            assert(tv.contains(p.last()));
            assert(is_dep_path(g, p));
        }
        if !needed.contains_key(name.as_str()) {
            let ghost before = needed;
            needed.insert(name.clone(), true);
            let ghost qb = queue@;
            queue.push(name.clone());
            proof {
                assert forall|q: Seq<char>| #[trigger] needed.as_map().dom().contains(q) implies exists|t: int| 0 <= t < queue@.len() && queue@[t]@ == q by {
                    if q == name@ {
                        assert(queue@[qb.len() as int]@ == q);
                    } else {
                        assert(before.as_map().dom().contains(q));
                        let t = choose|t: int| 0 <= t < qb.len() && qb[t]@ == q;
                        assert(queue@[t] == qb[t]);
                    }
                }
            }
        }
        i = i + 1;
    }
    let n = configs.len();
    let mut head: usize = 0;
    while head < queue.len()
        invariant
            configs.wf(),
            n == configs.key_seq().len(),
            n == configs.val_seq().len(),
            g == dep_graph(*configs),
            g.dom() == configs.key_seq().to_set(),
            tv == strs_view(targets@),
            u == configs.key_seq().to_set().union(tv.to_set()),
            u.finite(),
            needed.wf(),
            head <= queue@.len(),
            needed.as_map().dom().subset_of(u),
            forall|q: Seq<char>| #[trigger] needed.as_map().dom().contains(q) ==> leads_to(g, q, tv),
            forall|t: int| 0 <= t < queue@.len() ==> needed.as_map().dom().contains(#[trigger] queue@[t]@),
            forall|q: Seq<char>| #[trigger] needed.as_map().dom().contains(q) ==> exists|t: int| 0 <= t < queue@.len() && queue@[t]@ == q,
            forall|k: int| 0 <= k < tv.len() ==> needed.as_map().dom().contains(#[trigger] tv[k]),
            forall|t: int, x: Seq<char>| 0 <= t < head && g.dom().contains(x) && #[trigger] g[x].contains(queue@[t]@)
                ==> needed.as_map().dom().contains(x),
        decreases u.difference(needed.as_map().dom()).len(), queue@.len() - head,
    {
        let name = queue[head].clone();
        let ghost dom0 = needed.as_map().dom();
        let ghost qlen0 = queue@.len();
        let mut ci: usize = 0;
        while ci < n
            invariant
                configs.wf(),
                n == configs.key_seq().len(),
                n == configs.val_seq().len(),
                g == dep_graph(*configs),
                g.dom() == configs.key_seq().to_set(),
                tv == strs_view(targets@),
                u == configs.key_seq().to_set().union(tv.to_set()),
                u.finite(),
                head < qlen0,
                queue@[head as int]@ == name@,
                ci <= n,
                needed.wf(),
                needed.as_map().dom().subset_of(u),
                dom0.subset_of(needed.as_map().dom()),
                dom0.subset_of(u),
                needed.as_map().dom().contains(name@),
                queue@.len() >= qlen0,
                queue@.len() > qlen0 ==> u.difference(needed.as_map().dom()).len() < u.difference(dom0).len(),
                queue@.len() == qlen0 ==> needed.as_map().dom() == dom0,
                forall|q: Seq<char>| #[trigger] needed.as_map().dom().contains(q) ==> leads_to(g, q, tv),
                forall|t: int| 0 <= t < queue@.len() ==> needed.as_map().dom().contains(#[trigger] queue@[t]@),
                forall|q: Seq<char>| #[trigger] needed.as_map().dom().contains(q) ==> exists|t: int| 0 <= t < queue@.len() && queue@[t]@ == q,
                forall|k: int| 0 <= k < tv.len() ==> needed.as_map().dom().contains(#[trigger] tv[k]),
                forall|t: int, x: Seq<char>| 0 <= t < head && g.dom().contains(x) && #[trigger] g[x].contains(queue@[t]@)
                    ==> needed.as_map().dom().contains(x),
                forall|a: int| 0 <= a < ci && #[trigger] g[configs.key_seq()[a]].contains(name@)
                    ==> needed.as_map().dom().contains(configs.key_seq()[a]),
            decreases n - ci,
        {
            let key = configs.key_at(ci);
            let config = configs.value_at(ci);
            proof {
                configs.lemma_index(ci as int);
                assert(g[key@] == deps_of(config@));
            }
            let mut depends = false;
            match &config.depends_on {
                None => {},
                Some(deps) => {
                    let mut k: usize = 0;
                    while k < deps.len()
                        invariant
                            k <= deps@.len(),
                            depends == exists|b: int| 0 <= b < k && key_views(deps@)[b] == name@,
                        decreases deps@.len() - k,
                    {
                        if str_eq_owned(&deps[k], &name) {
                            depends = true;
                        }
                        proof {
                            if key_views(deps@)[k as int] == name@ {
                                assert(0 <= k < k + 1 && key_views(deps@)[k as int] == name@);
                            }
                        }
                        k = k + 1;
                    }
                    proof {
                        assert(depends == g[key@].contains(name@)) by {
                            if g[key@].contains(name@) {
                                let b = choose|b: int| 0 <= b < g[key@].len() && g[key@][b] == name@;
                                assert(key_views(deps@)[b] == name@);
                            }
                        }
                    }
                },
            }
            proof {
                if config.depends_on is None {
                    assert(g[key@] =~= Seq::<Seq<char>>::empty());
                }
                assert(depends == g[key@].contains(name@));
            }
            if depends && !needed.contains_key(key.as_str()) {
                let ghost before = needed;
                let ghost qb = queue@;
                proof {
                    assert(configs.key_seq().to_set().contains(key@));
                    assert(u.contains(key@));
                    u.lemma_set_insert_diff_decreases(before.as_map().dom(), key@);
                    if qb.len() > qlen0 {
                        assert(u.difference(before.as_map().dom().insert(key@)).len() <= u.difference(before.as_map().dom()).len());
                    }
                    let p = choose|p: Seq<Seq<char>>| p.len() >= 1 && p[0] == name@ && tv.contains(p.last()) && is_dep_path(g, p);
                    assert(g.dom().contains(key@));
                    lemma_path_prepend(g, key@, p);
                    let p2 = seq![key@] + p;
                    assert(p2[0] == key@);
                    assert(p2.last() == p.last());
                    assert(leads_to(g, key@, tv));
                }
                needed.insert(key.clone(), true);
                queue.push(key.clone());
                proof {
                    assert(needed.as_map().dom() =~= before.as_map().dom().insert(key@));
                    assert forall|q: Seq<char>| #[trigger] needed.as_map().dom().contains(q) implies exists|t: int| 0 <= t < queue@.len() && queue@[t]@ == q by {
                        if q == key@ {
                            assert(queue@[qb.len() as int]@ == q);
                        } else {
                            let t = choose|t: int| 0 <= t < qb.len() && qb[t]@ == q;
                            assert(queue@[t] == qb[t]);
                        }
                    }
                    assert forall|t: int, x: Seq<char>| 0 <= t < head && g.dom().contains(x) && #[trigger] g[x].contains(queue@[t]@)
                        implies needed.as_map().dom().contains(x) by {
                        assert(queue@[t] == qb[t]);
                    }
                }
            }
            ci = ci + 1;
        }
        proof {
            assert forall|t: int, x: Seq<char>| 0 <= t < head + 1 && g.dom().contains(x) && #[trigger] g[x].contains(queue@[t]@)
                implies needed.as_map().dom().contains(x) by {
                if t == head {
                    assert(queue@[t]@ == name@);
                    let a = choose|a: int| 0 <= a < configs.key_seq().len() && configs.key_seq()[a] == x;
                    assert(g[configs.key_seq()[a]].contains(name@));
                }
            }
        }
        head = head + 1;
    }
    proof {
        let s = needed.as_map().dom();
        assert forall|x: Seq<char>, d: Seq<char>| s.contains(d) && g.dom().contains(x) && #[trigger] g[x].contains(d) implies s.contains(x) by {
            let t = choose|t: int| 0 <= t < queue@.len() && queue@[t]@ == d;
            assert(g[x].contains(queue@[t]@));
        }
        assert forall|x: Seq<char>| s.contains(x) <==> dependents_closure(g, tv).contains(x) by {
            if leads_to(g, x, tv) {
                let p = choose|p: Seq<Seq<char>>| p.len() >= 1 && p[0] == x && tv.contains(p.last()) && is_dep_path(g, p);
                lemma_closed_holds_dependents(g, tv, s, p);
            }
        }
        assert(s =~= dependents_closure(g, tv));
    }
    needed
}

fn str_eq_owned(a: &String, b: &String) -> (r: bool)
    ensures
        r == (a@ == b@),
{
    *a == *b
}

/// The dependencies of `c` that are keys of both `keep` and `configs`.
fn kept_deps(c: &ProcessConfig, keep: &StrMap<bool>, configs: &StrMap<ProcessConfig>) -> (r: Vec<String>)
    requires
        keep.wf(),
        configs.wf(),
    ensures
        strs_view(r@) == deps_within(deps_of(c@), keep.as_map().dom().intersect(configs.as_map().dom())),
{
    let ghost s = keep.as_map().dom().intersect(configs.as_map().dom());
    let mut r: Vec<String> = Vec::new();
    match &c.depends_on {
        None => {
            proof { assert(strs_view(r@) =~= Seq::<Seq<char>>::empty()); }
        },
        Some(v) => {
            let mut i: usize = 0;
            proof { assert(strs_view(r@) =~= deps_within(key_views(v@).subrange(0, 0), s)); }
            while i < v.len()
                invariant
                    keep.wf(),
                    configs.wf(),
                    s == keep.as_map().dom().intersect(configs.as_map().dom()),
                    i <= v@.len(),
                    strs_view(r@) == deps_within(key_views(v@).subrange(0, i as int), s),
                decreases v@.len() - i,
            {
                let d = &v[i];
                let ghost before = r@;
                proof {
                    let kv = key_views(v@);
                    assert(kv.subrange(0, i + 1).drop_last() =~= kv.subrange(0, i as int));
                    assert(kv.subrange(0, i + 1).last() == d@);
                }
                if keep.contains_key(d.as_str()) && configs.contains_key(d.as_str()) {
                    r.push(d.clone());
                    proof { assert(strs_view(r@) =~= strs_view(before).push(d@)); }
                }
                i = i + 1;
            }
            proof { assert(key_views(v@).subrange(0, i as int) =~= key_views(v@)); }
        },
    }
    r
}

/// A configuration that holds nothing but the dependencies `deps`.
fn deps_only(deps: Vec<String>) -> (c: ProcessConfig)
    ensures
        c.wf(),
        deps_of(c@) == strs_view(deps@),
{
    let c = ProcessConfig {
        command: String::new(),
        cwd: None,
        env: None,
        env_file: None,
        health_check: None,
        kill_timeout: None,
        kill_signal: None,
        max_restarts: None,
        max_memory: None,
        min_uptime: None,
        stop_exit_codes: None,
        watch: None,
        watch_ignore: None,
        watch_debounce: None,
        depends_on: Some(deps),
        restart: None,
        group: None,
        pre_start: None,
        post_stop: None,
        cron_restart: None,
        log_date_format: None,
        instances: None,
        environments: StrMap::new(),
    };
    proof {
        c.environments.lemma_wf();
        assert(key_views(deps@) =~= strs_view(deps@));
    }
    c
}

/// The dependency graph induced on the configured names in `keep`: a
/// configuration for each such name, holding only its dependencies that
/// are configured and kept too (nothing else of the configuration is
/// carried over).
pub(crate) fn restrict_within(configs: &StrMap<ProcessConfig>, keep: &StrMap<bool>) -> (r: StrMap<ProcessConfig>)
    requires
        configs.wf(),
        keep.wf(),
    ensures
        configs_wf(r),
        dep_graph(r) == induced(dep_graph(*configs), keep.as_map().dom().intersect(dep_graph(*configs).dom())),
{
    let ghost g = dep_graph(*configs);
    let ghost s = keep.as_map().dom().intersect(g.dom());
    let mut r: StrMap<ProcessConfig> = StrMap::new();
    let n = configs.len();
    let mut i: usize = 0;
    proof { configs.lemma_wf(); r.lemma_wf(); assert(g.dom() == configs.as_map().dom()); }
    while i < n
        invariant
            configs.wf(),
            keep.wf(),
            g == dep_graph(*configs),
            s == keep.as_map().dom().intersect(configs.as_map().dom()),
            n == configs.key_seq().len(),
            n == configs.val_seq().len(),
            configs.key_seq().no_duplicates(),
            i <= n,
            configs_wf(r),
            forall|q: Seq<char>| r.as_map().dom().contains(q) <==>
                (keep.as_map().dom().contains(q) && configs.key_seq().subrange(0, i as int).contains(q)),
            forall|q: Seq<char>| #[trigger] r.as_map().dom().contains(q)
                ==> deps_of(r.as_map()[q]@) == deps_within(deps_of(configs.as_map()[q]@), s),
        decreases n - i,
    {
        let k = configs.key_at(i);
        proof {
            configs.lemma_index(i as int);
            assert(configs.key_seq().subrange(0, i + 1) =~= configs.key_seq().subrange(0, i as int).push(k@));
        }
        if keep.contains_key(k.as_str()) {
            let ghost before = r;
            proof {
                assert(!before.as_map().dom().contains(k@)) by {
                    if before.as_map().dom().contains(k@) {
                        let t = choose|t: int| 0 <= t < i && configs.key_seq().subrange(0, i as int)[t] == k@;
                        assert(configs.key_seq()[t] == configs.key_seq()[i as int]);
                    }
                }
                before.lemma_wf();
            }
            let kd = kept_deps(configs.value_at(i), keep, configs);
            let c = deps_only(kd);
            r.insert(k.clone(), c);
            proof {
                r.lemma_wf();
                assert forall|q: Seq<char>| r.as_map().dom().contains(q) <==>
                    (keep.as_map().dom().contains(q) && configs.key_seq().subrange(0, i + 1).contains(q)) by {
                    lemma_prefix_contains(configs.key_seq(), i as int, q);
                }
                assert forall|j: int| 0 <= j < r.val_seq().len() implies (#[trigger] r.val_seq()[j]).wf() by {
                    r.lemma_index(j);
                    if r.key_seq()[j] != k@ {
                        before.lemma_key_index(r.key_seq()[j]);
                        let t = before.key_seq().index_of(r.key_seq()[j]);
                        before.lemma_index(t);
                    }
                }
            }
        } else {
            proof {
                assert forall|q: Seq<char>| r.as_map().dom().contains(q) <==>
                    (keep.as_map().dom().contains(q) && configs.key_seq().subrange(0, i + 1).contains(q)) by {
                    lemma_prefix_contains(configs.key_seq(), i as int, q);
                }
            }
        }
        i = i + 1;
    }
    proof {
        assert(configs.key_seq().subrange(0, n as int) =~= configs.key_seq());
        assert forall|q: Seq<char>| #[trigger] configs.key_seq().contains(q) <==> configs.as_map().dom().contains(q) by {}
        assert(dep_graph(r) =~= induced(g, s));
    }
    r
}

/// Expands the targets to include everything that depends on them,
/// transitively, and returns the configured ones in stop order: dependents
/// before their dependencies. The order is that of the gathered processes
/// with the dependencies among them; a dependency on a process outside them
/// plays no part. It succeeds whenever the configurations as a whole can be
/// ordered.
pub fn expand_dependents(targets: &[String], configs: &StrMap<ProcessConfig>) -> (r: Result<Vec<String>, DepsError>)
    requires
        configs_wf(*configs),
    ensures
        match r {
            Ok(order) => is_start_order(
                    induced(dep_graph(*configs), dependents_closure(dep_graph(*configs), strs_view(targets@)).intersect(dep_graph(*configs).dom())),
                    strs_view(order@).reverse())
                && strs_view(order@).to_set() == dependents_closure(dep_graph(*configs), strs_view(targets@)).intersect(dep_graph(*configs).dom())
                && (forall|i: int, j: int| 0 <= i < order@.len() && 0 <= j < order@.len()
                    && dep_graph(*configs)[order@[i]@].contains(order@[j]@) ==> i < j),
            Err(DepsError::Circular { cycle }) => has_no_order(
                    induced(dep_graph(*configs), dependents_closure(dep_graph(*configs), strs_view(targets@)).intersect(dep_graph(*configs).dom())))
                && is_closed_cycle(dep_graph(*configs), strs_view(cycle@)),
            Err(DepsError::Missing { .. }) => false,
        },
        fully_ordered(dep_graph(*configs)) ==> r is Ok,
{
    let ghost g = dep_graph(*configs);
    let ghost c = dependents_closure(g, strs_view(targets@));
    let ghost s = c.intersect(g.dom());
    let needed = collect_dependents(targets, configs);
    let subset = restrict_within(configs, &needed);
    proof {
        assert(needed.as_map().dom().intersect(g.dom()) == s);
        if fully_ordered(g) {
            lemma_induced_ordered(g, s);
        }
    }
    let levels = match topological_levels(&subset) {
        Ok(l) => l,
        Err(e) => {
            proof {
                lemma_induced_known(g, s);
                if e is Circular {
                    lemma_induced_path(g, s, strs_view(e->cycle@));
                }
            }
            return Err(e);
        },
    };
    let flat = flatten(&levels);
    let order = reversed(flat);
    proof {
        let g2 = induced(g, s);
        assert(dep_graph(subset) == g2);
        let ls = levels_view(levels@);
        lemma_start_order_names(g2, ls);
        let f = strs_view(flat@);
        let o = strs_view(order@);
        assert(o.reverse() =~= f);
        assert(g2.dom() =~= s);
        assert(o.to_set() =~= f.to_set()) by {
            assert forall|q: Seq<char>| o.to_set().contains(q) <==> f.to_set().contains(q) by {
                let n = o.len() as int;
                if o.contains(q) {
                    let i = choose|i: int| 0 <= i < n && o[i] == q;
                    assert(f[n - 1 - i] == q);
                }
                if f.contains(q) {
                    let i = choose|i: int| 0 <= i < n && f[i] == q;
                    assert(o[n - 1 - i] == q);
                }
            }
        }
        assert forall|i: int, j: int| 0 <= i < order@.len() && 0 <= j < order@.len()
            && g[order@[i]@].contains(order@[j]@) implies i < j by {
            let n = order@.len() as int;
            assert(o[i] == f[n - 1 - i]);
            assert(o[j] == f[n - 1 - j]);
            assert(f.to_set().contains(f[n - 1 - i]));
            assert(f.to_set().contains(f[n - 1 - j]));
            lemma_deps_within(g[f[n - 1 - i]], s, f[n - 1 - j]);
            lemma_deps_first(g2, ls, n - 1 - i, n - 1 - j);
        }
    }
    Ok(order)
}

} // verus!

verus! {

/// The text of a dependency error.
pub open spec fn deps_error_text(e: DepsError) -> Seq<char> {
    match e {
        DepsError::Circular { cycle } => "circular dependency detected: "@
            + crate::text::join_with(strs_view(cycle@), " -> "@),
        DepsError::Missing { from, to } => "process '"@ + from@ + "' depends on unknown process '"@ + to@ + "'"@,
    }
}

impl DepsError {
    /// The human-readable description of the error.
    pub fn message(&self) -> (r: String)
        ensures
            r@ == deps_error_text(*self),
    {
        match self {
            DepsError::Circular { cycle } => {
                let mut r = "circular dependency detected: ".to_string();
                let joined = crate::text::join_strings(cycle, " -> ");
                r.append(joined.as_str());
                r
            },
            DepsError::Missing { from, to } => {
                let mut r = "process '".to_string();
                r.append(from.as_str());
                r.append("' depends on unknown process '");
                r.append(to.as_str());
                r.append("'");
                r
            },
        }
    }
}

} // verus!
