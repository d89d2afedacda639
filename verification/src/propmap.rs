use vstd::prelude::*;
use crate::text::str_eq;

verus! {

broadcast use vstd::string::group_string_axioms;

/// The map a list of (key, value) pairs builds, later pairs winning.
pub open spec fn pairs_map<V>(p: Seq<(String, V)>) -> Map<Seq<char>, V>
    decreases p.len(),
{
    if p.len() == 0 {
        Map::empty()
    } else {
        pairs_map(p.drop_last()).insert(p.last().0@, p.last().1)
    }
}

/// No key occurs twice.
pub open spec fn distinct_keys<V>(p: Seq<(String, V)>) -> bool {
    forall|i: int, j: int| 0 <= i < j < p.len() ==> #[trigger] p[i].0@ != #[trigger] p[j].0@
}

pub proof fn lemma_pairs_map_dom<V>(p: Seq<(String, V)>, k: Seq<char>)
    ensures
        pairs_map(p).contains_key(k) <==> exists|j: int| 0 <= j < p.len() && #[trigger] p[j].0@ == k,
    decreases p.len(),
{
    if p.len() > 0 {
        lemma_pairs_map_dom(p.drop_last(), k);
        if pairs_map(p.drop_last()).contains_key(k) {
            let j = choose|j: int| 0 <= j < p.drop_last().len() && #[trigger] p.drop_last()[j].0@ == k;
            assert(p[j].0@ == k);
        }
        if exists|j: int| 0 <= j < p.len() && #[trigger] p[j].0@ == k {
            let j = choose|j: int| 0 <= j < p.len() && #[trigger] p[j].0@ == k;
            if j < p.len() - 1 {
                assert(p.drop_last()[j].0@ == k);
            }
        }
    }
}

/// With distinct keys, the value of the key at `j` is the value stored at `j`.
pub proof fn lemma_pairs_map_lookup<V>(p: Seq<(String, V)>, j: int)
    requires
        0 <= j < p.len(),
        distinct_keys(p),
    ensures
        pairs_map(p).contains_key(p[j].0@),
        pairs_map(p)[p[j].0@] == p[j].1,
    decreases p.len(),
{
    if j < p.len() - 1 {
        lemma_pairs_map_lookup(p.drop_last(), j);
        assert(p.drop_last()[j] == p[j]);
        assert(p.last().0@ != p[j].0@);
    }
}

pub proof fn lemma_pairs_map_update<V>(p: Seq<(String, V)>, j: int, x: (String, V))
    requires
        0 <= j < p.len(),
        x.0@ == p[j].0@,
        distinct_keys(p),
    ensures
        pairs_map(p.update(j, x)) == pairs_map(p).insert(x.0@, x.1),
    decreases p.len(),
{
    let u = p.update(j, x);
    if j == p.len() - 1 {
        assert(u.drop_last() =~= p.drop_last());
        assert(pairs_map(p).insert(x.0@, x.1) =~= pairs_map(p.drop_last()).insert(x.0@, x.1));
    } else {
        assert(u.drop_last() =~= p.drop_last().update(j, x));
        lemma_pairs_map_update(p.drop_last(), j, x);
        assert(p.last().0@ != x.0@);
        assert(pairs_map(u) =~= pairs_map(p).insert(x.0@, x.1));
    }
}

/// The number of keys is the number of pairs when no key repeats.
pub proof fn lemma_pairs_map_len<V>(p: Seq<(String, V)>)
    requires
        distinct_keys(p),
    ensures
        pairs_map(p).dom().finite(),
        pairs_map(p).len() == p.len(),
    decreases p.len(),
{
    if p.len() > 0 {
        let q = p.drop_last();
        assert(distinct_keys(q)) by {
            assert forall|i: int, j: int| 0 <= i < j < q.len() implies #[trigger] q[i].0@ != #[trigger] q[j].0@ by {
                assert(q[i] == p[i] && q[j] == p[j]);
            }
        }
        lemma_pairs_map_len(q);
        lemma_pairs_map_dom(q, p.last().0@);
        if pairs_map(q).contains_key(p.last().0@) {
            let j = choose|j: int| 0 <= j < q.len() && #[trigger] q[j].0@ == p.last().0@;
            assert(p[j].0@ != p[p.len() - 1].0@);
        }
    }
}

/// A map from strings to values that keeps its entries in the order their
/// keys were first inserted.
pub struct PropMap<V> {
    entries: Vec<(String, V)>,
}

impl<V> PropMap<V> {
    #[verifier::type_invariant]
    spec fn inv(self) -> bool {
        distinct_keys(self.entries@)
    }

    pub closed spec fn view(&self) -> Map<Seq<char>, V> {
        pairs_map(self.entries@)
    }

    /// The entries, each key once, in the order the keys were first inserted.
    pub closed spec fn pairs(&self) -> Seq<(String, V)> {
        self.entries@
    }

    /// An empty map.
    pub fn new() -> (m: Self)
        ensures
            m.view() == Map::<Seq<char>, V>::empty(),
            m.pairs().len() == 0,
    {
        PropMap { entries: Vec::new() }
    }

    /// The position of `key` among the entries.
    fn position(&self, key: &str) -> (r: Option<usize>)
        ensures
            r is None <==> !self.view().contains_key(key@),
            r matches Some(j) ==> j < self.entries@.len() && self.entries@[j as int].0@ == key@
                && self.view()[key@] == self.entries@[j as int].1,
    {
        proof {
            use_type_invariant(self);
            lemma_pairs_map_dom(self.entries@, key@);
        }
        let mut i: usize = 0;
        while i < self.entries.len()
            invariant
                i <= self.entries@.len(),
                forall|k: int| 0 <= k < i ==> self.entries@[k].0@ != key@,
            decreases self.entries.len() - i,
        {
            if str_eq(self.entries[i].0.as_str(), key) {
                proof {
                    use_type_invariant(self);
                    lemma_pairs_map_lookup(self.entries@, i as int);
                }
                return Some(i);
            }
            i = i + 1;
        }
        None
    }

    /// Sets `key` to `value`; a new key goes after the others.
    pub fn insert(&mut self, key: String, value: V)
        ensures
            final(self).view() == old(self).view().insert(key@, value),
            old(self).view().contains_key(key@) ==> final(self).pairs().len() == old(self).pairs().len(),
            !old(self).view().contains_key(key@) ==> final(self).pairs() == old(self).pairs().push((key, value)),
    {
        proof {
            use_type_invariant(&*self);
        }
        let ghost d0 = self.entries@;
        match self.position(key.as_str()) {
            Some(i) => {
                let ghost kv = key@;
                let ghost vv = value;
                let mut entries = Vec::new();
                std::mem::swap(&mut entries, &mut self.entries);
                entries.set(i, (key, value));
                proof {
                    assert(entries@ =~= d0.update(i as int, entries@[i as int]));
                    lemma_pairs_map_update(d0, i as int, entries@[i as int]);
                    assert forall|a: int, b: int| 0 <= a < b < entries@.len() implies
                        #[trigger] entries@[a].0@ != #[trigger] entries@[b].0@ by {
                        assert(d0[a].0@ != d0[b].0@);
                    }
                }
                self.entries = entries;
            },
            None => {
                let ghost kv = key@;
                let mut entries = Vec::new();
                std::mem::swap(&mut entries, &mut self.entries);
                entries.push((key, value));
                proof {
                    assert(entries@.drop_last() =~= d0);
                    lemma_pairs_map_dom(d0, kv);
                    assert forall|a: int, b: int| 0 <= a < b < entries@.len() implies
                        #[trigger] entries@[a].0@ != #[trigger] entries@[b].0@ by {
                        if b < d0.len() {
                            assert(d0[a].0@ != d0[b].0@);
                        } else {
                            assert(entries@[a] == d0[a]);
                        }
                    }
                }
                self.entries = entries;
            },
        }
    }

    /// The value of `key`, if any.
    pub fn get(&self, key: &str) -> (r: Option<&V>)
        ensures
            r is None <==> !self.view().contains_key(key@),
            r matches Some(v) ==> *v == self.view()[key@],
    {
        match self.position(key) {
            Some(i) => Some(&self.entries[i].1),
            None => None,
        }
    }

    /// Whether `key` has a value.
    pub fn contains_key(&self, key: &str) -> (b: bool)
        ensures
            b == self.view().contains_key(key@),
    {
        self.position(key).is_some()
    }

    /// The number of keys.
    pub fn len(&self) -> (n: usize)
        ensures
            n == self.view().len(),
    {
        proof {
            use_type_invariant(self);
            lemma_pairs_map_len(self.entries@);
        }
        self.entries.len()
    }

    /// The entries, each key once, in the order the keys were first inserted.
    pub fn entries(&self) -> (r: &Vec<(String, V)>)
        ensures
            r@ == self.pairs(),
            distinct_keys(r@),
            pairs_map(r@) == self.view(),
    {
        proof {
            use_type_invariant(self);
        }
        &self.entries
    }
}

} // verus!
