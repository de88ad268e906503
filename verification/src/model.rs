//! The data model of `.rl` request files and collection configuration.

use vstd::prelude::*;

use crate::string_map::StringMap;

verus! {

/// A parsed `.rl` file.
#[derive(Debug, PartialEq)]
pub struct RelayFile {
    pub meta: Meta,
    pub request: Request,
    pub script: Script,
}

/// The `[meta]` table of a request file.
#[derive(Debug, PartialEq)]
pub struct Meta {
    pub name: String,
    /// The `type` key.
    pub req_type: String,
    pub notes: Option<Notes>,
}

/// The `[meta.notes]` table.
#[derive(Debug, PartialEq)]
pub struct Notes {
    pub text: String,
}

/// The `[request]` table: what is sent.
#[derive(Debug, PartialEq)]
pub struct Request {
    pub method: String,
    pub url: String,
    pub headers: StringMap,
    pub body: Option<RequestBody>,
    pub auth: Option<RequestAuth>,
}

/// The `[request.body]` table.
#[derive(Debug, PartialEq)]
pub struct RequestBody {
    /// The `type` key.
    pub body_type: String,
    pub content: String,
}

/// The `[request.auth]` table.
#[derive(Debug, Clone, PartialEq)]
pub struct RequestAuth {
    /// The `type` key.
    pub auth_type: String,
    pub token_url: Option<String>,
    pub client_id: Option<String>,
    pub client_secret: Option<String>,
}

/// The `[script]` table.
#[derive(Debug, Default, PartialEq)]
pub struct Script {
    pub post_response: Vec<PostResponseScript>,
}

/// One `[[script.post_response]]` entry.
#[derive(Debug, PartialEq)]
pub struct PostResponseScript {
    pub assert: String,
}

/// The configuration of a collection: its named environments.
#[derive(Debug, Default, PartialEq)]
pub struct CollectionConfig {
    pub environments: Environments,
}

/// The variables of one environment.
#[derive(Debug, Default)]
pub struct Environment {
    pub variables: StringMap,
}

impl PartialEq for Environment {
    fn eq(&self, other: &Environment) -> (r: bool) {
        self.variables == other.variables
    }
}

impl vstd::std_specs::cmp::PartialEqSpecImpl for Environment {
    open spec fn obeys_eq_spec() -> bool {
        true
    }

    open spec fn eq_spec(&self, other: &Environment) -> bool {
        self.variables@ == other.variables@
    }
}

/// No two pairs of `s` have the same name.
pub open spec fn distinct_names(s: Seq<(String, Environment)>) -> bool {
    forall|i: int, j: int| 0 <= i < j < s.len() ==> s[i].0@ != s[j].0@
}

/// The map that a list of named environments denotes; a later pair overrides
/// an earlier one.
pub open spec fn named_map(s: Seq<(String, Environment)>) -> Map<Seq<char>, Environment>
    decreases s.len(),
{
    if s.len() == 0 {
        Map::empty()
    } else {
        named_map(s.drop_last()).insert(s.last().0@, s.last().1)
    }
}

proof fn lemma_named_map_dom(s: Seq<(String, Environment)>, k: Seq<char>)
    ensures
        named_map(s).contains_key(k) <==> exists|i: int| 0 <= i < s.len() && #[trigger] s[i].0@ == k,
    decreases s.len(),
{
    if s.len() > 0 {
        lemma_named_map_dom(s.drop_last(), k);
        if named_map(s.drop_last()).contains_key(k) {
            let i = choose|i: int| 0 <= i < s.drop_last().len() && #[trigger] s.drop_last()[i].0@ == k;
            assert(s[i].0@ == k);
        }
        if exists|i: int| 0 <= i < s.len() && #[trigger] s[i].0@ == k {
            let i = choose|i: int| 0 <= i < s.len() && #[trigger] s[i].0@ == k;
            if i < s.len() - 1 {
                assert(s.drop_last()[i].0@ == k);
            }
        }
    }
}

proof fn lemma_named_map_value(s: Seq<(String, Environment)>, i: int)
    requires
        distinct_names(s),
        0 <= i < s.len(),
    ensures
        named_map(s).contains_key(s[i].0@),
        named_map(s)[s[i].0@] == s[i].1,
    decreases s.len(),
{
    if i < s.len() - 1 {
        lemma_named_map_value(s.drop_last(), i);
        assert(s.drop_last()[i] == s[i]);
    }
}

proof fn lemma_named_map_update(s: Seq<(String, Environment)>, i: int, p: (String, Environment))
    requires
        distinct_names(s),
        0 <= i < s.len(),
        s[i].0@ == p.0@,
    ensures
        named_map(s.update(i, p)) == named_map(s).insert(p.0@, p.1),
    decreases s.len(),
{
    let t = s.update(i, p);
    if i == s.len() - 1 {
        assert(t.drop_last() =~= s.drop_last());
        assert(!named_map(s.drop_last()).contains_key(p.0@)) by {
            lemma_named_map_dom(s.drop_last(), p.0@);
        }
        assert(named_map(t) =~= named_map(s).insert(p.0@, p.1));
    } else {
        assert(t.drop_last() =~= s.drop_last().update(i, p));
        lemma_named_map_update(s.drop_last(), i, p);
        assert(s.last().0@ != p.0@);
        assert(named_map(t) =~= named_map(s).insert(p.0@, p.1));
    }
}

/// The environments of a collection, each under its own name.
#[derive(Debug)]
pub struct Environments {
    entries: Vec<(String, Environment)>,
}

impl View for Environments {
    type V = Map<Seq<char>, Environment>;

    closed spec fn view(&self) -> Map<Seq<char>, Environment> {
        named_map(self.entries@)
    }
}

impl Environments {
    #[verifier::type_invariant]
    spec fn names_are_distinct(self) -> bool {
        distinct_names(self.entries@)
    }

    /// No environments.
    pub fn new() -> (m: Environments)
        ensures
            m@ == Map::<Seq<char>, Environment>::empty(),
    {
        Environments { entries: Vec::new() }
    }

    /// Position of the environment called `name`, if there is one.
    fn position(&self, name: &String) -> (r: Option<usize>)
        ensures
            match r {
                Some(i) => i < self.entries.len() && self.entries@[i as int].0@ == name@,
                None => forall|i: int|
                    0 <= i < self.entries.len() ==> #[trigger] self.entries@[i].0@ != name@,
            },
    {
        let mut i: usize = 0;
        while i < self.entries.len()
            invariant
                i <= self.entries.len(),
                forall|j: int| 0 <= j < i ==> #[trigger] self.entries@[j].0@ != name@,
            decreases self.entries.len() - i,
        {
            if self.entries[i].0 == *name {
                return Some(i);
            }
            i = i + 1;
        }
        None
    }

    /// Sets the environment called `name` to `env`, replacing any earlier one.
    pub fn insert(&mut self, name: String, env: Environment)
        ensures
            final(self)@ == old(self)@.insert(name@, env),
    {
        proof {
            use_type_invariant(&*self);
        }
        let pos = self.position(&name);
        let mut es: Vec<(String, Environment)> = Vec::new();
        std::mem::swap(&mut es, &mut self.entries);
        let ghost s = es@;
        match pos {
            Some(i) => {
                proof {
                    lemma_named_map_update(s, i as int, (name, env));
                    assert forall|a: int, b: int| 0 <= a < b < s.len() implies s.update(
                        i as int,
                        (name, env),
                    )[a].0@ != s.update(i as int, (name, env))[b].0@ by {}
                }
                es.set(i, (name, env));
            },
            None => {
                proof {
                    assert forall|a: int, b: int| 0 <= a < b < s.len() + 1 implies s.push(
                        (name, env),
                    )[a].0@ != s.push((name, env))[b].0@ by {
                        if b == s.len() {
                            assert(s[a].0@ != name@);
                        }
                    }
                    assert(s.push((name, env)).drop_last() =~= s);
                }
                es.push((name, env));
            },
        }
        self.entries = es;
    }

    /// The environment called `name`, if there is one.
    pub fn get(&self, name: &str) -> (r: Option<&Environment>)
        ensures
            match r {
                Some(e) => self@.contains_key(name@) && *e == self@[name@],
                None => !self@.contains_key(name@),
            },
    {
        proof {
            use_type_invariant(self);
        }
        let key = name.to_owned();
        match self.position(&key) {
            Some(i) => {
                proof {
                    lemma_named_map_value(self.entries@, i as int);
                }
                Some(&self.entries[i].1)
            },
            None => {
                proof {
                    lemma_named_map_dom(self.entries@, name@);
                }
                None
            },
        }
    }

    /// The environments with their names, each name once, in the order of
    /// first insertion.
    pub fn pairs(&self) -> (r: &Vec<(String, Environment)>)
        ensures
            distinct_names(r@),
            named_map(r@) == self@,
    {
        proof {
            use_type_invariant(self);
        }
        &self.entries
    }
}

impl Default for Environments {
    fn default() -> (r: Environments)
        ensures
            r@ == Map::<Seq<char>, Environment>::empty(),
    {
        Environments::new()
    }
}

impl PartialEq for Environments {
    fn eq(&self, other: &Environments) -> (r: bool) {
        self.same_environments(other)
    }
}

impl vstd::std_specs::cmp::PartialEqSpecImpl for Environments {
    open spec fn obeys_eq_spec() -> bool {
        true
    }

    open spec fn eq_spec(&self, other: &Environments) -> bool {
        same_variables(self@, other@)
    }
}

/// The two maps have the same names, with the same variables under each.
pub open spec fn same_variables(
    a: Map<Seq<char>, Environment>,
    b: Map<Seq<char>, Environment>,
) -> bool {
    &&& a.dom() == b.dom()
    &&& forall|k: Seq<char>| #[trigger] a.contains_key(k) ==> a[k].variables@ == b[k].variables@
}

impl Environments {
    /// Whether `self` and `other` have the same names with the same variables.
    fn same_environments(&self, other: &Environments) -> (r: bool)
        ensures
            r == same_variables(self@, other@),
    {
        let ps = self.pairs();
        let qs = other.pairs();
        let mut i: usize = 0;
        while i < ps.len()
            invariant
                distinct_names(ps@),
                named_map(ps@) == self@,
                i <= ps.len(),
                forall|j: int|
                    0 <= j < i ==> other@.contains_key(#[trigger] ps@[j].0@) && other@[ps@[j].0@].variables@
                        == ps@[j].1.variables@,
            decreases ps.len() - i,
        {
            proof {
                lemma_named_map_value(ps@, i as int);
            }
            match other.get(ps[i].0.as_str()) {
                Some(e) => {
                    if !(e.variables == ps[i].1.variables) {
                        return false;
                    }
                },
                None => {
                    return false;
                },
            }
            i = i + 1;
        }
        let mut j: usize = 0;
        while j < qs.len()
            invariant
                distinct_names(qs@),
                named_map(qs@) == other@,
                j <= qs.len(),
                forall|l: int| 0 <= l < j ==> self@.contains_key(#[trigger] qs@[l].0@),
                distinct_names(ps@),
                named_map(ps@) == self@,
                forall|a: int|
                    0 <= a < ps.len() ==> other@.contains_key(#[trigger] ps@[a].0@) && other@[ps@[a].0@].variables@
                        == ps@[a].1.variables@,
            decreases qs.len() - j,
        {
            proof {
                lemma_named_map_value(qs@, j as int);
            }
            if self.get(qs[j].0.as_str()).is_none() {
                return false;
            }
            j = j + 1;
        }
        assert forall|k: Seq<char>|
            #![trigger self@.dom().contains(k)]
            #![trigger other@.dom().contains(k)]
            self@.dom().contains(k) <==> other@.dom().contains(k) by {
            lemma_named_map_dom(ps@, k);
            lemma_named_map_dom(qs@, k);
            if self@.dom().contains(k) {
                let a = choose|a: int| 0 <= a < ps@.len() && #[trigger] ps@[a].0@ == k;
                assert(other@.contains_key(ps@[a].0@));
            }
            if other@.dom().contains(k) {
                let a = choose|a: int| 0 <= a < qs@.len() && #[trigger] qs@[a].0@ == k;
                assert(self@.contains_key(qs@[a].0@));
            }
        }
        assert forall|k: Seq<char>| #[trigger] self@.contains_key(k) implies self@[k].variables@
            == other@[k].variables@ by {
            lemma_named_map_dom(ps@, k);
            let a = choose|a: int| 0 <= a < ps@.len() && #[trigger] ps@[a].0@ == k;
            lemma_named_map_value(ps@, a);
            assert(other@.contains_key(ps@[a].0@));
        }
        assert(self@.dom() =~= other@.dom());
        true
    }
}

impl CollectionConfig {
    /// The environment called `name`, if there is one.
    pub fn environment(&self, name: &str) -> (r: Option<&Environment>)
        ensures
            match r {
                Some(e) => self.environments@.contains_key(name@) && *e
                    == self.environments@[name@],
                None => !self.environments@.contains_key(name@),
            },
    {
        self.environments.get(name)
    }
}

} // verus!
