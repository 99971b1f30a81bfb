//! Name-keyed tables: the response registry and the process environment.
//! Both keep every insertion; a later entry for a name hides earlier ones.

use vstd::prelude::*;
use crate::text::chars_of;
use crate::value::{Value, Tree};
use crate::value::str_eq_chars;

verus! {

/// The value of the last entry named `k`.
pub open spec fn last_lookup<V>(s: Seq<(Seq<char>, V)>, k: Seq<char>) -> Option<V>
    decreases s.len(),
{
    if s.len() == 0 {
        None
    } else if s.last().0 == k {
        Some(s.last().1)
    } else {
        last_lookup(s.drop_last(), k)
    }
}

/// The map that a list of entries stands for.
pub open spec fn map_of<V>(s: Seq<(Seq<char>, V)>) -> Map<Seq<char>, V> {
    Map::new(|k: Seq<char>| last_lookup(s, k) is Some, |k: Seq<char>| last_lookup(s, k)->0)
}

pub proof fn lemma_map_of_push<V>(s: Seq<(Seq<char>, V)>, k: Seq<char>, v: V)
    ensures
        map_of(s.push((k, v))) == map_of(s).insert(k, v),
{
    assert(s.push((k, v)).drop_last() =~= s);
    assert(map_of(s.push((k, v))) =~= map_of(s).insert(k, v));
}

/// What a registered response holds: the parsed body and the raw text.
#[derive(Debug)]
pub struct RegisteredResponse {
    pub json: Value,
    pub text: String,
}

/// The model of a registered response.
pub type ResponseModel = (Tree, Seq<char>);

pub open spec fn response_model(r: RegisteredResponse) -> ResponseModel {
    (r.json@, r.text@)
}

pub open spec fn registry_entries(s: Seq<(String, RegisteredResponse)>) -> Seq<(Seq<char>, ResponseModel)> {
    s.map_values(|e: (String, RegisteredResponse)| (e.0@, response_model(e.1)))
}

/// The responses captured so far in a run, by registration name.
#[derive(Debug)]
pub struct Registry {
    entries: Vec<(String, RegisteredResponse)>,
}

impl View for Registry {
    type V = Map<Seq<char>, ResponseModel>;

    closed spec fn view(&self) -> Map<Seq<char>, ResponseModel> {
        map_of(registry_entries(self.entries@))
    }
}

impl Registry {
    pub fn new() -> (r: Registry)
        ensures
            r@ == Map::<Seq<char>, ResponseModel>::empty(),
    {
        let r = Registry { entries: Vec::new() };
        assert(r@ =~= Map::<Seq<char>, ResponseModel>::empty());
        r
    }

    /// Stores `response` under `name`, replacing what was there.
    pub fn insert(&mut self, name: String, response: RegisteredResponse)
        ensures
            final(self)@ == old(self)@.insert(name@, response_model(response)),
    {
        let ghost s = registry_entries(self.entries@);
        let ghost k = name@;
        let ghost m = response_model(response);
        self.entries.push((name, response));
        proof {
            assert(registry_entries(self.entries@) =~= s.push((k, m)));
            lemma_map_of_push(s, k, m);
        }
    }

    /// The response registered under `name`.
    pub fn get(&self, name: &Vec<char>) -> (r: Option<&RegisteredResponse>)
        ensures
            match r {
                Some(x) => self@.contains_key(name@) && self@[name@] == response_model(*x),
                None => !self@.contains_key(name@),
            },
    {
        let ghost s = registry_entries(self.entries@);
        let mut j: usize = self.entries.len();
        assert(s.subrange(0, j as int) =~= s);
        while j > 0
            invariant
                j <= self.entries.len() == s.len(),
                s == registry_entries(self.entries@),
                last_lookup(s, name@) == last_lookup(s.subrange(0, j as int), name@),
            decreases j,
        {
            let ghost pre = s.subrange(0, j as int);
            assert(pre.drop_last() =~= s.subrange(0, j - 1));
            assert(pre.last() == (self.entries@[j - 1].0@, response_model(self.entries@[j - 1].1)));
            if str_eq_chars(self.entries[j - 1].0.as_str(), name) {
                return Some(&self.entries[j - 1].1);
            }
            j -= 1;
        }
        None
    }

    /// Whether a response is registered under `name`.
    pub fn contains(&self, name: &str) -> (r: bool)
        ensures
            r == self@.contains_key(name@),
    {
        let cs = chars_of(name);
        self.get(&cs).is_some()
    }

    /// Whether nothing is registered.
    pub fn is_empty(&self) -> (r: bool)
        ensures
            r == (self@ == Map::<Seq<char>, ResponseModel>::empty()),
    {
        proof {
            lemma_map_of_empty_iff(registry_entries(self.entries@));
        }
        self.entries.len() == 0
    }

    /// Each registered name with its current response, once, in order of
    /// first registration.
    pub fn current(&self) -> (r: Vec<(String, RegisteredResponse)>)
        ensures
            forall|i: int|
                0 <= i < r.len() ==> self@.contains_key(#[trigger] r@[i].0@) && self@[r@[i].0@]
                    == response_model(r@[i].1),
            forall|k: Seq<char>|
                self@.contains_key(k) ==> exists|i: int| 0 <= i < r.len() && #[trigger] r@[i].0@ == k,
            forall|i: int, j: int| 0 <= i < j < r.len() ==> r@[i].0@ != r@[j].0@,
    {
        let ghost s = registry_entries(self.entries@);
        let mut out: Vec<(String, RegisteredResponse)> = Vec::new();
        let mut i: usize = 0;
        while i < self.entries.len()
            invariant
                i <= self.entries.len() == s.len(),
                s == registry_entries(self.entries@),
                forall|j: int|
                    0 <= j < out.len() ==> self@.contains_key(#[trigger] out@[j].0@) && self@[out@[j].0@]
                        == response_model(out@[j].1),
                forall|j: int| 0 <= j < i ==> #[trigger] named(out@, s[j].0),
                forall|a: int, b: int| 0 <= a < b < out.len() ==> out@[a].0@ != out@[b].0@,
            decreases self.entries.len() - i,
        {
            let name = chars_of(self.entries[i].0.as_str());
            assert(name@ == s[i as int].0);
            let mut seen = false;
            let mut k: usize = 0;
            while k < out.len()
                invariant
                    k <= out.len(),
                    seen ==> named(out@, name@),
                    !seen ==> forall|m: int| 0 <= m < k ==> out@[m].0@ != name@,
                decreases out.len() - k,
            {
                if str_eq_chars(out[k].0.as_str(), &name) {
                    seen = true;
                }
                k += 1;
            }
            if !seen {
                proof {
                    lemma_last_lookup_some(s, i as int);
                }
                match self.get(&name) {
                    Some(resp) => {
                        let ghost before = out@;
                        let key = self.entries[i].0.clone();
                        out.push((key, RegisteredResponse { json: resp.json.copy(), text: resp.text.clone() }));
                        assert forall|j: int| 0 <= j <= i implies #[trigger] named(out@, s[j].0) by {
                            if j < i {
                                assert(named(before, s[j].0));
                                let m = choose|m: int| 0 <= m < before.len() && #[trigger] before[m].0@ == s[j].0;
                                assert(out@[m] == before[m]);
                            } else {
                                assert(out@[before.len() as int].0@ == s[j].0);
                            }
                        }
                    },
                    None => {},
                }
            }
            i += 1;
        }
        proof {
            assert forall|k: Seq<char>| self@.contains_key(k) implies exists|i: int|
                0 <= i < out.len() && #[trigger] out@[i].0@ == k by {
                let j = lemma_last_lookup_index(s, k);
                assert(named(out@, s[j].0));
            }
        }
        out
    }
}

/// Some entry of `out` carries the name `k`.
pub open spec fn named(out: Seq<(String, RegisteredResponse)>, k: Seq<char>) -> bool {
    exists|m: int| 0 <= m < out.len() && #[trigger] out[m].0@ == k
}

/// A name that some entry carries has a value.
proof fn lemma_last_lookup_some<V>(s: Seq<(Seq<char>, V)>, i: int)
    requires
        0 <= i < s.len(),
    ensures
        last_lookup(s, s[i].0) is Some,
    decreases s.len(),
{
    if s.last().0 != s[i].0 {
        assert(i < s.len() - 1);
        assert(s.drop_last()[i] == s[i]);
        lemma_last_lookup_some(s.drop_last(), i);
    }
}

/// A name with a value is carried by some entry.
proof fn lemma_last_lookup_index<V>(s: Seq<(Seq<char>, V)>, k: Seq<char>) -> (i: int)
    requires
        last_lookup(s, k) is Some,
    ensures
        0 <= i < s.len() && s[i].0 == k,
    decreases s.len(),
{
    if s.last().0 == k {
        s.len() - 1
    } else {
        let j = lemma_last_lookup_index(s.drop_last(), k);
        assert(s.drop_last()[j] == s[j]);
        j
    }
}

pub proof fn lemma_map_of_empty_iff<V>(s: Seq<(Seq<char>, V)>)
    ensures
        (map_of(s) == Map::<Seq<char>, V>::empty()) <==> (s.len() == 0),
{
    if s.len() == 0 {
        assert(map_of(s) =~= Map::<Seq<char>, V>::empty());
    } else {
        assert(map_of(s).contains_key(s.last().0));
    }
}

/// A fixed table of environment variables.
#[derive(Debug)]
pub struct Environment {
    vars: Vec<(String, String)>,
}

pub open spec fn env_entries(s: Seq<(String, String)>) -> Seq<(Seq<char>, Seq<char>)> {
    s.map_values(|e: (String, String)| (e.0@, e.1@))
}

impl View for Environment {
    type V = Map<Seq<char>, Seq<char>>;

    closed spec fn view(&self) -> Map<Seq<char>, Seq<char>> {
        map_of(env_entries(self.vars@))
    }
}

/// The value of variable `name`, or the empty text when it is not set.
pub open spec fn env_value(env: Map<Seq<char>, Seq<char>>, name: Seq<char>) -> Seq<char> {
    if env.contains_key(name) {
        env[name]
    } else {
        Seq::empty()
    }
}

impl Environment {
    /// An environment with no variable set.
    pub fn new() -> (r: Environment)
        ensures
            r@ == Map::<Seq<char>, Seq<char>>::empty(),
    {
        let r = Environment { vars: Vec::new() };
        assert(r@ =~= Map::<Seq<char>, Seq<char>>::empty());
        r
    }

    /// Sets variable `name` to `value`.
    pub fn set(&mut self, name: String, value: String)
        ensures
            final(self)@ == old(self)@.insert(name@, value@),
    {
        let ghost s = env_entries(self.vars@);
        let ghost k = name@;
        let ghost v = value@;
        self.vars.push((name, value));
        proof {
            assert(env_entries(self.vars@) =~= s.push((k, v)));
            lemma_map_of_push(s, k, v);
        }
    }

    /// The value of variable `name`, if it is set.
    pub fn get(&self, name: &Vec<char>) -> (r: Option<&String>)
        ensures
            match r {
                Some(x) => self@.contains_key(name@) && self@[name@] == x@,
                None => !self@.contains_key(name@),
            },
    {
        let ghost s = env_entries(self.vars@);
        let mut j: usize = self.vars.len();
        assert(s.subrange(0, j as int) =~= s);
        while j > 0
            invariant
                j <= self.vars.len() == s.len(),
                s == env_entries(self.vars@),
                last_lookup(s, name@) == last_lookup(s.subrange(0, j as int), name@),
            decreases j,
        {
            let ghost pre = s.subrange(0, j as int);
            assert(pre.drop_last() =~= s.subrange(0, j - 1));
            assert(pre.last() == (self.vars@[j - 1].0@, self.vars@[j - 1].1@));
            if str_eq_chars(self.vars[j - 1].0.as_str(), name) {
                return Some(&self.vars[j - 1].1);
            }
            j -= 1;
        }
        None
    }

    /// The value of variable `name`, or the empty text when it is not set.
    pub fn value_of(&self, name: &Vec<char>) -> (r: String)
        ensures
            r@ == env_value(self@, name@),
    {
        match self.get(name) {
            Some(v) => v.clone(),
            None => String::new(),
        }
    }
}

} // verus!
