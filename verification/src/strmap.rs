//! A map keyed by strings that keeps its keys in insertion order.
use vstd::prelude::*;

verus! {

/// The view of a key sequence: each key taken by its characters.
pub open spec fn key_views(keys: Seq<String>) -> Seq<Seq<char>> {
    keys.map_values(|k: String| k@)
}

/// A finite map from string keys to values. Keys are distinct; iteration
/// goes in insertion order.
#[derive(Debug, PartialEq)]
pub struct StrMap<V> {
    keys: Vec<String>,
    vals: Vec<V>,
}

impl<V> StrMap<V> {
    /// Well-formedness: one value per key, and no key twice.
    pub closed spec fn wf(self) -> bool {
        &&& self.keys@.len() == self.vals@.len()
        &&& key_views(self.keys@).no_duplicates()
    }

    /// The keys, in iteration order.
    pub closed spec fn key_seq(self) -> Seq<Seq<char>> {
        key_views(self.keys@)
    }

    /// The values, in iteration order (the `i`-th belongs to the `i`-th key).
    pub closed spec fn val_seq(self) -> Seq<V> {
        self.vals@
    }

    /// The entries as a mathematical map.
    pub closed spec fn as_map(self) -> Map<Seq<char>, V> {
        Map::new(
            |k: Seq<char>| self.key_seq().contains(k),
            |k: Seq<char>| self.vals@[self.key_seq().index_of(k)],
        )
    }

    /// Facts that hold of every map: the two sequences have one length and
    /// the keys are distinct.
    pub proof fn lemma_wf(&self)
        requires
            self.wf(),
        ensures
            self.key_seq().len() == self.val_seq().len(),
            self.key_seq().no_duplicates(),
            self.as_map().dom() == self.key_seq().to_set(),
            self.as_map().dom().finite(),
    {
        assert(self.as_map().dom() =~= self.key_seq().to_set());
        vstd::seq_lib::seq_to_set_is_finite(self.key_seq());
    }

    /// The `i`-th key maps to the `i`-th value.
    pub proof fn lemma_index(&self, i: int)
        requires
            self.wf(),
            0 <= i < self.key_seq().len(),
        ensures
            self.as_map().dom().contains(self.key_seq()[i]),
            self.as_map()[self.key_seq()[i]] == self.val_seq()[i],
            self.key_seq().index_of(self.key_seq()[i]) == i,
    {
        let ks = self.key_seq();
        assert(ks.contains(ks[i]));
        let j = ks.index_of(ks[i]);
        assert(ks[j] == ks[i]);
    }

    /// A key of the map sits at some index.
    pub proof fn lemma_key_index(&self, k: Seq<char>)
        requires
            self.wf(),
            self.as_map().dom().contains(k),
        ensures
            0 <= self.key_seq().index_of(k) < self.key_seq().len(),
            self.key_seq()[self.key_seq().index_of(k)] == k,
    {
    }

    /// The empty map.
    pub fn new() -> (m: Self)
        ensures
            m.wf(),
            m.key_seq() == Seq::<Seq<char>>::empty(),
            m.as_map() == Map::<Seq<char>, V>::empty(),
    {
        let m = StrMap { keys: Vec::new(), vals: Vec::new() };
        proof {
            assert(key_views(m.keys@) =~= Seq::<Seq<char>>::empty());
            assert(m.as_map() =~= Map::<Seq<char>, V>::empty());
        }
        m
    }

    /// Number of entries.
    pub fn len(&self) -> (n: usize)
        requires
            self.wf(),
        ensures
            n == self.key_seq().len(),
    {
        self.keys.len()
    }

    /// The `i`-th key.
    pub fn key_at(&self, i: usize) -> (k: &String)
        requires
            self.wf(),
            i < self.key_seq().len(),
        ensures
            k@ == self.key_seq()[i as int],
    {
        &self.keys[i]
    }

    /// The `i`-th value.
    pub fn value_at(&self, i: usize) -> (v: &V)
        requires
            self.wf(),
            i < self.key_seq().len(),
        ensures
            *v == self.val_seq()[i as int],
    {
        &self.vals[i]
    }

    /// The index of a key, if it is present.
    pub fn index_of(&self, k: &str) -> (r: Option<usize>)
        requires
            self.wf(),
        ensures
            match r {
                Some(i) => i < self.key_seq().len() && self.key_seq()[i as int] == k@
                    && self.key_seq().index_of(k@) == i,
                None => !self.key_seq().contains(k@),
            },
    {
        let target = k.to_owned();
        let mut i: usize = 0;
        while i < self.keys.len()
            invariant
                self.wf(),
                i <= self.keys@.len(),
                target@ == k@,
                forall|j: int| 0 <= j < i ==> self.key_seq()[j] != k@,
            decreases self.keys@.len() - i,
        {
            if self.keys[i] == target {
                proof { self.lemma_index(i as int); }
                return Some(i);
            }
            i = i + 1;
        }
        None
    }

    /// Whether `k` is a key of the map.
    pub fn contains_key(&self, k: &str) -> (r: bool)
        requires
            self.wf(),
        ensures
            r == self.as_map().dom().contains(k@),
    {
        self.index_of(k).is_some()
    }

    /// The value of `k`, if present.
    pub fn get(&self, k: &str) -> (r: Option<&V>)
        requires
            self.wf(),
        ensures
            match r {
                Some(v) => self.as_map().dom().contains(k@) && *v == self.as_map()[k@],
                None => !self.as_map().dom().contains(k@),
            },
    {
        match self.index_of(k) {
            Some(i) => {
                proof { self.lemma_index(i as int); }
                Some(&self.vals[i])
            },
            None => None,
        }
    }

    /// Sets `k` to `v`. An existing key keeps its place; a new key goes last.
    pub fn insert(&mut self, k: String, v: V)
        requires
            old(self).wf(),
        ensures
            final(self).wf(),
            final(self).as_map() == old(self).as_map().insert(k@, v),
            old(self).key_seq().contains(k@) ==> final(self).key_seq() == old(self).key_seq(),
            !old(self).key_seq().contains(k@) ==> final(self).key_seq() == old(self).key_seq().push(k@),
    {
        let ghost old_self = *self;
        match self.index_of(k.as_str()) {
            Some(i) => {
                self.vals.set(i, v);
                proof {
                    assert(self.key_seq() == old_self.key_seq());
                    assert forall|q: Seq<char>| #![auto] self.as_map().dom().contains(q)
                        implies self.as_map()[q] == old_self.as_map().insert(k@, v)[q] by {
                        let j = self.key_seq().index_of(q);
                        assert(self.key_seq()[j] == q);
                    }
                    assert(self.as_map() =~= old_self.as_map().insert(k@, v));
                }
            },
            None => {
                let ghost kv = k@;
                self.keys.push(k);
                self.vals.push(v);
                proof {
                    assert(key_views(self.keys@) =~= key_views(old_self.keys@).push(kv));
                    let ks = self.key_seq();
                    let n = old_self.key_seq().len() as int;
                    assert(ks.no_duplicates()) by {
                        assert forall|a: int, b: int| 0 <= a < ks.len() && 0 <= b < ks.len() && a != b
                            implies ks[a] != ks[b] by {
                            if a == n {
                                assert(old_self.key_seq().contains(ks[b]) || b == n);
                            } else if b == n {
                                assert(old_self.key_seq().contains(ks[a]));
                            }
                        }
                    }
                    assert forall|q: Seq<char>| #![auto] self.as_map().dom().contains(q)
                        implies self.as_map()[q] == old_self.as_map().insert(kv, v)[q] by {
                        let j = ks.index_of(q);
                        assert(ks[j] == q);
                        if q == kv {
                            assert(ks[n] == kv);
                            assert(j == n) by {
                                if j != n { assert(old_self.key_seq()[j] == kv); assert(old_self.key_seq().contains(kv)); }
                            }
                        } else {
                            assert(j < n);
                            assert(old_self.key_seq()[j] == q);
                            assert(old_self.key_seq().contains(q));
                            let j0 = old_self.key_seq().index_of(q);
                            assert(old_self.key_seq()[j0] == q);
                            assert(j0 == j) by {
                                if j0 != j { assert(ks[j0] == ks[j]); }
                            }
                        }
                    }
                    assert forall|q: Seq<char>| self.as_map().dom().contains(q)
                        <==> old_self.as_map().insert(kv, v).dom().contains(q) by {
                        if q != kv && ks.contains(q) {
                            let j = choose|j: int| 0 <= j < ks.len() && ks[j] == q;
                            assert(old_self.key_seq()[j] == q);
                        }
                        if old_self.key_seq().contains(q) {
                            let j = choose|j: int| 0 <= j < old_self.key_seq().len() && old_self.key_seq()[j] == q;
                            assert(ks[j] == q);
                        }
                        if q == kv { assert(ks[n] == kv); }
                    }
                    assert(self.as_map() =~= old_self.as_map().insert(kv, v));
                }
            },
        }
    }

    /// The keys, in iteration order.
    pub fn keys(&self) -> (r: Vec<String>)
        requires
            self.wf(),
        ensures
            key_views(r@) == self.key_seq(),
    {
        let mut r: Vec<String> = Vec::new();
        let mut i: usize = 0;
        while i < self.keys.len()
            invariant
                self.wf(),
                i <= self.keys@.len(),
                r@.len() == i,
                key_views(r@) == self.key_seq().subrange(0, i as int),
            decreases self.keys@.len() - i,
        {
            let kc = self.keys[i].clone();
            r.push(kc);
            proof {
                assert(r@[i as int]@ == self.key_seq()[i as int]);
                assert(key_views(r@) =~= self.key_seq().subrange(0, i + 1));
            }
            i = i + 1;
        }
        proof { assert(self.key_seq().subrange(0, i as int) =~= self.key_seq()); }
        r
    }
}

} // verus!

verus! {

/// Copy of a list of strings.
pub fn clone_strings(v: &Vec<String>) -> (r: Vec<String>)
    ensures
        r@ == v@,
{
    let mut r: Vec<String> = Vec::new();
    let mut i: usize = 0;
    while i < v.len()
        invariant
            i <= v@.len(),
            r@ == v@.subrange(0, i as int),
        decreases v@.len() - i,
    {
        r.push(v[i].clone());
        proof { assert(r@ =~= v@.subrange(0, i + 1)); }
        i = i + 1;
    }
    proof { assert(v@.subrange(0, i as int) =~= v@); }
    r
}

impl StrMap<String> {
    /// A copy of a map of strings.
    pub fn duplicate(&self) -> (r: Self)
        requires
            self.wf(),
        ensures
            r.wf(),
            r.key_seq() == self.key_seq(),
            r.val_seq() == self.val_seq(),
            r.as_map() == self.as_map(),
    {
        let keys = clone_strings(&self.keys);
        let vals = clone_strings(&self.vals);
        let r = StrMap { keys, vals };
        proof {
            assert(r.key_seq() =~= self.key_seq());
            assert(r.as_map() =~= self.as_map());
        }
        r
    }
}

impl StrMap<StrMap<String>> {
    /// A copy of a map of maps of strings; the inner maps are copied too.
    pub fn duplicate_nested(&self) -> (r: Self)
        requires
            self.wf(),
            forall|i: int| 0 <= i < self.val_seq().len() ==> (#[trigger] self.val_seq()[i]).wf(),
        ensures
            r.wf(),
            forall|i: int| 0 <= i < r.val_seq().len() ==> (#[trigger] r.val_seq()[i]).wf(),
            r.key_seq() == self.key_seq(),
            r.val_seq().len() == self.val_seq().len(),
            forall|i: int| 0 <= i < r.val_seq().len() ==> (#[trigger] r.val_seq()[i]).as_map() == self.val_seq()[i].as_map(),
    {
        let keys = clone_strings(&self.keys);
        let mut vals: Vec<StrMap<String>> = Vec::new();
        let mut i: usize = 0;
        while i < self.vals.len()
            invariant
                self.wf(),
                forall|j: int| 0 <= j < self.val_seq().len() ==> (#[trigger] self.val_seq()[j]).wf(),
                i <= self.vals@.len(),
                vals@.len() == i,
                forall|j: int| 0 <= j < i ==> (#[trigger] vals@[j]).wf() && vals@[j].as_map() == self.vals@[j].as_map(),
            decreases self.vals@.len() - i,
        {
            proof { assert(self.val_seq()[i as int] == self.vals@[i as int]); }
            let inner = self.vals[i].duplicate();
            vals.push(inner);
            i = i + 1;
        }
        let r = StrMap { keys, vals };
        proof {
            assert(r.key_seq() =~= self.key_seq());
        }
        r
    }
}

} // verus!

verus! {

/// After `insert(k, v)`, reading `k` gives `v`, and every other key keeps
/// its presence and its value.
pub proof fn law_read_after_insert<V>(before: StrMap<V>, after: StrMap<V>, k: Seq<char>, v: V, other: Seq<char>)
    requires
        before.wf(),
        after.as_map() == before.as_map().insert(k, v),
    ensures
        after.as_map().dom().contains(k),
        after.as_map()[k] == v,
        other != k ==> (after.as_map().dom().contains(other) == before.as_map().dom().contains(other)),
        other != k && before.as_map().dom().contains(other) ==> after.as_map()[other] == before.as_map()[other],
{
}

} // verus!
