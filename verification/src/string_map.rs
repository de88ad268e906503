//! `StringMap`: a map from strings to strings, used for variable scopes,
//! request headers and the token cache.

use vstd::prelude::*;

verus! {

/// No two pairs of `s` have the same key.
pub open spec fn distinct_keys(s: Seq<(String, String)>) -> bool {
    forall|i: int, j: int| 0 <= i < j < s.len() ==> s[i].0@ != s[j].0@
}

/// The map that a list of pairs denotes; a later pair overrides an earlier one.
pub open spec fn pairs_to_map(s: Seq<(String, String)>) -> Map<Seq<char>, Seq<char>>
    decreases s.len(),
{
    if s.len() == 0 {
        Map::empty()
    } else {
        pairs_to_map(s.drop_last()).insert(s.last().0@, s.last().1@)
    }
}

/// A key is in the map of `s` exactly when some pair of `s` has it.
pub proof fn lemma_pairs_to_map_dom(s: Seq<(String, String)>, k: Seq<char>)
    ensures
        pairs_to_map(s).contains_key(k) <==> exists|i: int| 0 <= i < s.len() && #[trigger] s[i].0@ == k,
    decreases s.len(),
{
    if s.len() > 0 {
        lemma_pairs_to_map_dom(s.drop_last(), k);
        if pairs_to_map(s.drop_last()).contains_key(k) {
            let i = choose|i: int| 0 <= i < s.drop_last().len() && #[trigger] s.drop_last()[i].0@ == k;
            assert(s[i].0@ == k);
        }
        if exists|i: int| 0 <= i < s.len() && #[trigger] s[i].0@ == k {
            let i = choose|i: int| 0 <= i < s.len() && #[trigger] s[i].0@ == k;
            if i < s.len() - 1 {
                assert(s.drop_last()[i].0@ == k);
            }
        }
    }
}

/// With distinct keys, the map of `s` sends the key of each pair to its value.
pub proof fn lemma_pairs_to_map_value(s: Seq<(String, String)>, i: int)
    requires
        distinct_keys(s),
        0 <= i < s.len(),
    ensures
        pairs_to_map(s).contains_key(s[i].0@),
        pairs_to_map(s)[s[i].0@] == s[i].1@,
    decreases s.len(),
{
    if i < s.len() - 1 {
        lemma_pairs_to_map_value(s.drop_last(), i);
        assert(s.drop_last()[i] == s[i]);
    }
}

/// Replacing a pair by one with the same key updates the map at that key.
proof fn lemma_pairs_to_map_update(s: Seq<(String, String)>, i: int, p: (String, String))
    requires
        distinct_keys(s),
        0 <= i < s.len(),
        s[i].0@ == p.0@,
    ensures
        pairs_to_map(s.update(i, p)) == pairs_to_map(s).insert(p.0@, p.1@),
    decreases s.len(),
{
    let t = s.update(i, p);
    if i == s.len() - 1 {
        assert(t.drop_last() =~= s.drop_last());
        assert(!pairs_to_map(s.drop_last()).contains_key(p.0@)) by {
            lemma_pairs_to_map_dom(s.drop_last(), p.0@);
        }
        assert(pairs_to_map(t) =~= pairs_to_map(s).insert(p.0@, p.1@));
    } else {
        assert(t.drop_last() =~= s.drop_last().update(i, p));
        lemma_pairs_to_map_update(s.drop_last(), i, p);
        assert(s.last().0@ != p.0@);
        assert(pairs_to_map(t) =~= pairs_to_map(s).insert(p.0@, p.1@));
    }
}

/// A map from strings to strings. Its pairs can be walked (`pairs`), which
/// merging scopes and checking headers need and which vstd's `StringHashMap`
/// does not offer; and vstd specifies `std::collections::HashMap` only for key
/// types that obey its key model, which it does not state of `String`.
#[derive(Debug)]
pub struct StringMap {
    entries: Vec<(String, String)>,
}

impl View for StringMap {
    type V = Map<Seq<char>, Seq<char>>;

    closed spec fn view(&self) -> Map<Seq<char>, Seq<char>> {
        pairs_to_map(self.entries@)
    }
}

impl StringMap {
    #[verifier::type_invariant]
    spec fn keys_are_distinct(self) -> bool {
        distinct_keys(self.entries@)
    }

    /// The empty map.
    pub fn new() -> (m: StringMap)
        ensures
            m@ == Map::<Seq<char>, Seq<char>>::empty(),
    {
        StringMap { entries: Vec::new() }
    }

    /// Position of the pair with key `k`, if there is one.
    fn position(&self, k: &String) -> (r: Option<usize>)
        ensures
            match r {
                Some(i) => i < self.entries.len() && self.entries@[i as int].0@ == k@,
                None => forall|i: int| 0 <= i < self.entries.len() ==> #[trigger] self.entries@[i].0@ != k@,
            },
    {
        let mut i: usize = 0;
        while i < self.entries.len()
            invariant
                i <= self.entries.len(),
                forall|j: int| 0 <= j < i ==> #[trigger] self.entries@[j].0@ != k@,
            decreases self.entries.len() - i,
        {
            if self.entries[i].0 == *k {
                return Some(i);
            }
            i = i + 1;
        }
        None
    }

    /// Sets the value of key `k` to `v`, replacing any earlier value.
    pub fn insert(&mut self, k: String, v: String)
        ensures
            final(self)@ == old(self)@.insert(k@, v@),
    {
        proof {
            use_type_invariant(&*self);
        }
        let pos = self.position(&k);
        let mut es: Vec<(String, String)> = Vec::new();
        std::mem::swap(&mut es, &mut self.entries);
        let ghost s = es@;
        match pos {
            Some(i) => {
                proof {
                    lemma_pairs_to_map_update(s, i as int, (k, v));
                    assert forall|a: int, b: int| 0 <= a < b < s.len() implies s.update(
                        i as int,
                        (k, v),
                    )[a].0@ != s.update(i as int, (k, v))[b].0@ by {}
                }
                es.set(i, (k, v));
            },
            None => {
                proof {
                    assert forall|a: int, b: int| 0 <= a < b < s.len() + 1 implies s.push(
                        (k, v),
                    )[a].0@ != s.push((k, v))[b].0@ by {
                        if b == s.len() {
                            assert(s[a].0@ != k@);
                        }
                    }
                    assert(s.push((k, v)).drop_last() =~= s);
                }
                es.push((k, v));
            },
        }
        self.entries = es;
    }

    /// The value of key `k`, if `k` is in the map.
    pub fn get(&self, k: &str) -> (r: Option<&String>)
        ensures
            match r {
                Some(v) => self@.contains_key(k@) && v@ == self@[k@],
                None => !self@.contains_key(k@),
            },
    {
        proof {
            use_type_invariant(self);
        }
        let key = k.to_owned();
        match self.position(&key) {
            Some(i) => {
                proof {
                    lemma_pairs_to_map_value(self.entries@, i as int);
                }
                Some(&self.entries[i].1)
            },
            None => {
                proof {
                    lemma_pairs_to_map_dom(self.entries@, k@);
                }
                None
            },
        }
    }

    /// Whether `k` is in the map.
    pub fn contains_key(&self, k: &str) -> (r: bool)
        ensures
            r == self@.contains_key(k@),
    {
        self.get(k).is_some()
    }

    /// The pairs of the map, each key once, in the order of first insertion.
    pub fn pairs(&self) -> (r: &Vec<(String, String)>)
        ensures
            distinct_keys(r@),
            pairs_to_map(r@) == self@,
    {
        proof {
            use_type_invariant(self);
        }
        &self.entries
    }

    /// Sets every key of `other` to its value there, keeping the other keys
    /// of `self`.
    pub fn extend_from(&mut self, other: &StringMap)
        ensures
            final(self)@ == old(self)@.union_prefer_right(other@),
    {
        let ps = other.pairs();
        let ghost s = ps@;
        let mut i: usize = 0;
        assert(pairs_to_map(s.take(0)) =~= Map::<Seq<char>, Seq<char>>::empty());
        assert(old(self)@.union_prefer_right(Map::empty()) =~= old(self)@);
        while i < ps.len()
            invariant
                s == ps@,
                i <= ps.len(),
                self@ == old(self)@.union_prefer_right(pairs_to_map(s.take(i as int))),
            decreases ps.len() - i,
        {
            let k = ps[i].0.clone();
            let v = ps[i].1.clone();
            self.insert(k, v);
            assert(s.take(i + 1).drop_last() =~= s.take(i as int));
            assert(self@ =~= old(self)@.union_prefer_right(pairs_to_map(s.take(i + 1))));
            i = i + 1;
        }
        assert(s.take(ps.len() as int) =~= s);
    }
}

impl StringMap {
    /// Whether `self` and `other` map the same keys to the same values.
    fn same_entries(&self, other: &StringMap) -> (r: bool)
        ensures
            r == (self@ == other@),
    {
        let ps = self.pairs();
        let qs = other.pairs();
        let mut i: usize = 0;
        while i < ps.len()
            invariant
                distinct_keys(ps@),
                pairs_to_map(ps@) == self@,
                i <= ps.len(),
                forall|j: int|
                    0 <= j < i ==> other@.contains_key(#[trigger] ps@[j].0@) && other@[ps@[j].0@]
                        == ps@[j].1@,
            decreases ps.len() - i,
        {
            proof {
                lemma_pairs_to_map_value(ps@, i as int);
            }
            match other.get(ps[i].0.as_str()) {
                Some(v) => {
                    if !(*v == ps[i].1) {
                        return false;
                    }
                },
                None => {
                    return false;
                },
            }
            i = i + 1;
        }
        let mut j: usize = 0;
        while j < qs.len()
            invariant
                distinct_keys(qs@),
                pairs_to_map(qs@) == other@,
                j <= qs.len(),
                forall|l: int| 0 <= l < j ==> self@.contains_key(#[trigger] qs@[l].0@),
                distinct_keys(ps@),
                pairs_to_map(ps@) == self@,
                forall|a: int|
                    0 <= a < ps.len() ==> other@.contains_key(#[trigger] ps@[a].0@) && other@[ps@[a].0@]
                        == ps@[a].1@,
            decreases qs.len() - j,
        {
            proof {
                lemma_pairs_to_map_value(qs@, j as int);
            }
            if !self.contains_key(qs[j].0.as_str()) {
                return false;
            }
            j = j + 1;
        }
        assert forall|k: Seq<char>|
            #![trigger self@.dom().contains(k)]
            #![trigger other@.dom().contains(k)]
            self@.dom().contains(k) <==> other@.dom().contains(k) by {
            lemma_pairs_to_map_dom(ps@, k);
            lemma_pairs_to_map_dom(qs@, k);
            if self@.dom().contains(k) {
                let a = choose|a: int| 0 <= a < ps@.len() && #[trigger] ps@[a].0@ == k;
                assert(other@.contains_key(ps@[a].0@));
            }
            if other@.dom().contains(k) {
                let a = choose|a: int| 0 <= a < qs@.len() && #[trigger] qs@[a].0@ == k;
                assert(self@.contains_key(qs@[a].0@));
            }
        }
        assert forall|k: Seq<char>| #[trigger] self@.dom().contains(k) implies other@[k] == self@[k] by {
            lemma_pairs_to_map_dom(ps@, k);
            let a = choose|a: int| 0 <= a < ps@.len() && #[trigger] ps@[a].0@ == k;
            lemma_pairs_to_map_value(ps@, a);
            assert(other@.contains_key(ps@[a].0@));
        }
        assert(self@.dom() =~= other@.dom());
        assert(self@ =~= other@);
        true
    }
}

impl PartialEq for StringMap {
    fn eq(&self, other: &StringMap) -> (r: bool) {
        self.same_entries(other)
    }
}

impl vstd::std_specs::cmp::PartialEqSpecImpl for StringMap {
    open spec fn obeys_eq_spec() -> bool {
        true
    }

    open spec fn eq_spec(&self, other: &StringMap) -> bool {
        self@ == other@
    }
}

impl Clone for StringMap {
    fn clone(&self) -> (r: StringMap)
        ensures
            r@ == self@,
    {
        let mut r = StringMap::new();
        r.extend_from(self);
        assert(Map::<Seq<char>, Seq<char>>::empty().union_prefer_right(self@) =~= self@);
        r
    }
}

impl Default for StringMap {
    fn default() -> (r: StringMap)
        ensures
            r@ == Map::<Seq<char>, Seq<char>>::empty(),
    {
        StringMap::new()
    }
}

} // verus!
