use vstd::prelude::*;
use vstd::std_specs::hash::spec_hash_map_iter;
use vstd::std_specs::iter::IteratorSpec;

verus! {

/// The map described by a list of key/value pairs, a later pair overriding
/// an earlier one with the same key.
pub open spec fn pairs_map(s: Seq<(&usize, &usize)>) -> Map<usize, usize>
    decreases s.len(),
{
    if s.len() == 0 {
        Map::empty()
    } else {
        pairs_map(s.drop_last()).insert(*s.last().0, *s.last().1)
    }
}

/// A list of pairs each of which is a binding of `m` gives bindings of `m`,
/// of exactly the keys it lists.
proof fn lemma_pairs_map_within(s: Seq<(&usize, &usize)>, m: Map<usize, usize>)
    requires
        forall|i: int| 0 <= i < s.len() ==> m.contains_key(*(#[trigger] s[i]).0) && m[*s[i].0] == *s[i].1,
    ensures
        forall|k: usize| #[trigger] pairs_map(s).contains_key(k) ==> m.contains_key(k) && pairs_map(s)[k] == m[k],
        forall|k: usize| #[trigger] pairs_map(s).contains_key(k) <==> exists|i: int| 0 <= i < s.len() && *s[i].0 == k,
    decreases s.len(),
{
    if s.len() > 0 {
        let t = s.drop_last();
        assert forall|i: int| 0 <= i < t.len() implies m.contains_key(*(#[trigger] t[i]).0) && m[*t[i].0] == *t[i].1 by {
            assert(t[i] == s[i]);
        }
        lemma_pairs_map_within(t, m);
        assert forall|k: usize| #[trigger] pairs_map(s).contains_key(k) <==> exists|i: int| 0 <= i < s.len() && *s[i].0 == k by {
            if pairs_map(s).contains_key(k) {
                if k == *s.last().0 {
                    assert(*s[s.len() - 1].0 == k);
                } else {
                    assert(pairs_map(t).contains_key(k));
                    let i = choose|i: int| 0 <= i < t.len() && *t[i].0 == k;
                    assert(s[i] == t[i]);
                    assert(*s[i].0 == k);
                }
            }
            if exists|i: int| 0 <= i < s.len() && *s[i].0 == k {
                let i = choose|i: int| 0 <= i < s.len() && *s[i].0 == k;
                if i < t.len() {
                    assert(s[i] == t[i]);
                    assert(exists|j: int| 0 <= j < t.len() && *t[j].0 == k);
                    assert(pairs_map(t).contains_key(k));
                }
            }
        }
    }
}

/// A finite map from `usize` to `usize`.
pub struct IdMap {
    map: std::collections::HashMap<usize, usize>,
}

impl View for IdMap {
    type V = Map<usize, usize>;

    closed spec fn view(&self) -> Map<usize, usize> {
        self.map@
    }
}

impl IdMap {
    /// The empty map.
    pub fn new() -> (m: IdMap)
        ensures
            m@ == Map::<usize, usize>::empty(),
    {
        IdMap { map: std::collections::HashMap::new() }
    }

    /// The value bound to `k`, if any.
    pub fn get(&self, k: usize) -> (r: Option<usize>)
        ensures
            r == (if self@.contains_key(k) {
                Some(self@[k])
            } else {
                None::<usize>
            }),
    {
        broadcast use vstd::std_specs::hash::group_hash_axioms;
        match self.map.get(&k) {
            Some(v) => Some(*v),
            None => None,
        }
    }

    /// Whether `k` is bound.
    pub fn contains_key(&self, k: usize) -> (r: bool)
        ensures
            r == self@.contains_key(k),
    {
        broadcast use vstd::std_specs::hash::group_hash_axioms;
        self.map.contains_key(&k)
    }

    /// Binds `k` to `v`, replacing an earlier binding of `k`.
    pub fn insert(&mut self, k: usize, v: usize)
        ensures
            final(self)@ == old(self)@.insert(k, v),
    {
        broadcast use vstd::std_specs::hash::group_hash_axioms;
        self.map.insert(k, v);
    }

    /// Removes the binding of `k`, if any.
    pub fn remove(&mut self, k: usize)
        ensures
            final(self)@ == old(self)@.remove(k),
    {
        broadcast use vstd::std_specs::hash::group_hash_axioms;
        self.map.remove(&k);
    }

    /// Adds every binding of `other`, its bindings taking precedence.
    pub fn extend(&mut self, other: &IdMap)
        ensures
            final(self)@ == old(self)@.union_prefer_right(other@),
    {
        broadcast use vstd::std_specs::hash::group_hash_axioms;
        let ghost m0 = self@;
        let ghost all = spec_hash_map_iter(&other.map).remaining();
        for pair in it: other.map.iter()
            invariant
                m0 == old(self)@,
                it.seq() == all,
                all == spec_hash_map_iter(&other.map).remaining(),
                self@ == m0.union_prefer_right(pairs_map(all.take(it.index()))),
        {
            let ghost before = self@;
            let ghost n = it.index();
            self.map.insert(*pair.0, *pair.1);
            proof {
                assert(all.take(n + 1).drop_last() =~= all.take(n));
                assert(self@ =~= m0.union_prefer_right(pairs_map(all.take(n + 1))));
            }
        }
        proof {
            assert(all.take(all.len() as int) =~= all);
            lemma_pairs_map_within(all, other@);
            assert(pairs_map(all) =~= other@);
        }
    }

    /// A copy of the map.
    pub fn copy(&self) -> (m: IdMap)
        ensures
            m@ == self@,
    {
        IdMap { map: self.map.clone() }
    }

    /// Whether the two maps bind the same keys to the same values.
    pub fn same_as(&self, other: &IdMap) -> (r: bool)
        ensures
            r == (self@ == other@),
    {
        broadcast use vstd::std_specs::hash::group_hash_axioms;
        if self.map.len() != other.map.len() {
            return false;
        }
        let ghost all = spec_hash_map_iter(&self.map).remaining();
        for pair in it: self.map.iter()
            invariant
                it.seq() == all,
                all == spec_hash_map_iter(&self.map).remaining(),
                self@.len() == other@.len(),
                forall|j: int|
                    0 <= j < it.index() ==> other@.contains_key(*(#[trigger] all[j]).0) && other@[*all[j].0] == *all[j].1,
        {
            match other.map.get(pair.0) {
                Some(v) => {
                    if *v != *pair.1 {
                        proof {
                            assert(self@.contains_key(*pair.0) && self@[*pair.0] == *pair.1);
                        }
                        return false;
                    }
                },
                None => {
                    proof {
                        assert(self@.contains_key(*pair.0));
                    }
                    return false;
                },
            }
        }
        proof {
            assert forall|k: usize| #[trigger] self@.contains_key(k) implies other@.contains_key(k) && other@[k] == self@[k] by {
                assert(all.contains((&k, &self@[k])));
                let j = choose|j: int| 0 <= j < all.len() && all[j] == (&k, &self@[k]);
                assert(*all[j].0 == k);
            }
            assert forall|k: usize| #[trigger] other@.contains_key(k) implies self@.contains_key(k) by {
                if !self@.contains_key(k) {
                    assert(self@.dom().subset_of(other@.dom().remove(k)));
                    vstd::set_lib::lemma_len_subset(self@.dom(), other@.dom().remove(k));
                }
            }
            assert(self@.dom() =~= other@.dom());
            assert(self@ =~= other@);
        }
        true
    }
}

} // verus!

verus! {

/// The map described by a list of name/value pairs, a later pair overriding
/// an earlier one with the same name.
pub open spec fn names_of(s: Seq<(String, usize)>) -> Map<Seq<char>, usize>
    decreases s.len(),
{
    if s.len() == 0 {
        Map::empty()
    } else {
        names_of(s.drop_last()).insert(s.last().0@, s.last().1)
    }
}

proof fn lemma_names_of_absent(s: Seq<(String, usize)>, k: Seq<char>)
    requires
        forall|j: int| 0 <= j < s.len() ==> #[trigger] s[j].0@ != k,
    ensures
        !names_of(s).contains_key(k),
    decreases s.len(),
{
    if s.len() > 0 {
        lemma_names_of_absent(s.drop_last(), k);
    }
}

proof fn lemma_names_of_last(s: Seq<(String, usize)>, k: Seq<char>, i: int)
    requires
        0 <= i < s.len(),
        s[i].0@ == k,
        forall|j: int| i < j < s.len() ==> #[trigger] s[j].0@ != k,
    ensures
        names_of(s).contains_key(k),
        names_of(s)[k] == s[i].1,
    decreases s.len(),
{
    if i < s.len() - 1 {
        lemma_names_of_last(s.drop_last(), k, i);
    }
}

/// A finite map from names to `usize` kept as an association list.
pub struct NameMap {
    entries: Vec<(String, usize)>,
}

impl View for NameMap {
    type V = Map<Seq<char>, usize>;

    closed spec fn view(&self) -> Map<Seq<char>, usize> {
        names_of(self.entries@)
    }
}

impl NameMap {
    /// The empty map.
    pub fn new() -> (m: NameMap)
        ensures
            m@ == Map::<Seq<char>, usize>::empty(),
    {
        NameMap { entries: Vec::new() }
    }

    /// The value bound to `name`, if any.
    pub fn get(&self, name: &String) -> (r: Option<usize>)
        ensures
            r == (if self@.contains_key(name@) {
                Some(self@[name@])
            } else {
                None::<usize>
            }),
    {
        let mut i = self.entries.len();
        while i > 0
            invariant
                i <= self.entries@.len(),
                forall|j: int| i <= j < self.entries@.len() ==> #[trigger] self.entries@[j].0@ != name@,
            decreases i,
        {
            i = i - 1;
            if self.entries[i].0 == *name {
                proof {
                    lemma_names_of_last(self.entries@, name@, i as int);
                }
                return Some(self.entries[i].1);
            }
        }
        proof {
            lemma_names_of_absent(self.entries@, name@);
        }
        None
    }

    /// Whether `name` is bound.
    pub fn contains_key(&self, name: &String) -> (r: bool)
        ensures
            r == self@.contains_key(name@),
    {
        self.get(name).is_some()
    }

    /// Binds `name` to `v`, replacing an earlier binding of `name`.
    pub fn insert(&mut self, name: String, v: usize)
        ensures
            final(self)@ == old(self)@.insert(name@, v),
    {
        let ghost s = self.entries@;
        self.entries.push((name, v));
        proof {
            assert(self.entries@.drop_last() =~= s);
        }
    }
}

} // verus!
