//! The semi-structured value shared by request bodies and parsed responses,
//! and its mathematical model.

use vstd::prelude::*;

verus! {

/// A tree value: scalar, ordered sequence, or ordered mapping from text keys.
/// A number is held as its canonical decimal text.
#[derive(Debug, PartialEq)]
pub enum Value {
    Null,
    Bool(bool),
    Number(String),
    Str(String),
    Sequence(Vec<Value>),
    Mapping(Vec<(String, Value)>),
}

/// The model of a `Value`.
pub enum Tree {
    Null,
    Bool(bool),
    Number(Seq<char>),
    Str(Seq<char>),
    Sequence(Seq<Tree>),
    Mapping(Seq<(Seq<char>, Tree)>),
}

pub open spec fn tree_of(v: Value) -> Tree
    decreases v,
{
    match v {
        Value::Null => Tree::Null,
        Value::Bool(b) => Tree::Bool(b),
        Value::Number(n) => Tree::Number(n@),
        Value::Str(s) => Tree::Str(s@),
        Value::Sequence(items) => Tree::Sequence(trees_of(items@)),
        Value::Mapping(entries) => Tree::Mapping(entry_trees_of(entries@)),
    }
}

pub open spec fn trees_of(s: Seq<Value>) -> Seq<Tree>
    decreases s,
{
    if s.len() == 0 {
        Seq::empty()
    } else {
        trees_of(s.drop_last()).push(tree_of(s.last()))
    }
}

pub open spec fn entry_trees_of(s: Seq<(String, Value)>) -> Seq<(Seq<char>, Tree)>
    decreases s,
{
    if s.len() == 0 {
        Seq::empty()
    } else {
        entry_trees_of(s.drop_last()).push((s.last().0@, tree_of(s.last().1)))
    }
}

impl View for Value {
    type V = Tree;

    open spec fn view(&self) -> Tree {
        tree_of(*self)
    }
}


pub proof fn lemma_trees_of(s: Seq<Value>)
    ensures
        trees_of(s).len() == s.len(),
        forall|i: int| 0 <= i < s.len() ==> #[trigger] trees_of(s)[i] == tree_of(s[i]),
    decreases s.len(),
{
    if s.len() > 0 {
        lemma_trees_of(s.drop_last());
    }
}

pub proof fn lemma_entry_trees_of(s: Seq<(String, Value)>)
    ensures
        entry_trees_of(s).len() == s.len(),
        forall|i: int|
            0 <= i < s.len() ==> #[trigger] entry_trees_of(s)[i] == (s[i].0@, tree_of(s[i].1)),
    decreases s.len(),
{
    if s.len() > 0 {
        lemma_entry_trees_of(s.drop_last());
    }
}

/// The value bound to `key` in a mapping's entries: the first entry with that key.
pub open spec fn entry_get(es: Seq<(Seq<char>, Tree)>, key: Seq<char>) -> Option<Tree>
    decreases es.len(),
{
    if es.len() == 0 {
        None
    } else if es[0].0 == key {
        Some(es[0].1)
    } else {
        entry_get(es.drop_first(), key)
    }
}

/// Looking a key up in a node: the bound value, or `Null` when the node is
/// not a mapping or lacks the key.
pub open spec fn lookup(t: Tree, key: Seq<char>) -> Tree {
    match t {
        Tree::Mapping(es) => match entry_get(es, key) {
            Some(v) => v,
            None => Tree::Null,
        },
        _ => Tree::Null,
    }
}

impl Value {
    /// A copy that has the same model.
    pub fn copy(&self) -> (r: Value)
        ensures
            r@ == self@,
        decreases self,
    {
        match self {
            Value::Null => Value::Null,
            Value::Bool(b) => Value::Bool(*b),
            Value::Number(n) => Value::Number(n.clone()),
            Value::Str(s) => Value::Str(s.clone()),
            Value::Sequence(items) => {
                let mut out: Vec<Value> = Vec::new();
                let mut i: usize = 0;
                while i < items.len()
                    invariant
                        i <= items.len(),
                        *self == Value::Sequence(*items),
                        trees_of(out@) == trees_of(items@.subrange(0, i as int)),
                    decreases items.len() - i,
                {
                    proof {
                        assert(decreases_to!(*items => items[i as int]));
                        assert(decreases_to!(*self => self->Sequence_0));
                        assert(decreases_to!(*self => items[i as int]));
                    }
                    let c = items[i].copy();
                    let ghost prev = out@;
                    out.push(c);
                    i += 1;
                    assert(items@.subrange(0, i as int).drop_last() =~= items@.subrange(0, i - 1));
                    assert(out@.drop_last() =~= prev);
                }
                assert(items@.subrange(0, items.len() as int) =~= items@);
                Value::Sequence(out)
            },
            Value::Mapping(entries) => {
                let mut out: Vec<(String, Value)> = Vec::new();
                let mut i: usize = 0;
                while i < entries.len()
                    invariant
                        i <= entries.len(),
                        *self == Value::Mapping(*entries),
                        entry_trees_of(out@) == entry_trees_of(entries@.subrange(0, i as int)),
                    decreases entries.len() - i,
                {
                    proof {
                        assert(decreases_to!(*entries => entries[i as int]));
                        assert(decreases_to!(*self => self->Mapping_0));
                        assert(decreases_to!(*self => entries[i as int].1));
                    }
                    let k = entries[i].0.clone();
                    let c = entries[i].1.copy();
                    let ghost prev = out@;
                    out.push((k, c));
                    i += 1;
                    assert(entries@.subrange(0, i as int).drop_last() =~= entries@.subrange(0, i - 1));
                    assert(out@.drop_last() =~= prev);
                }
                assert(entries@.subrange(0, entries.len() as int) =~= entries@);
                Value::Mapping(out)
            },
        }
    }

    /// The first value bound to `key`, when `self` is a mapping.
    pub fn get(&self, key: &Vec<char>) -> (r: Option<&Value>)
        ensures
            match r {
                Some(v) => self@ is Mapping && entry_get(self@->Mapping_0, key@) == Some(v@),
                None => !(self@ is Mapping) || entry_get(self@->Mapping_0, key@) is None,
            },
    {
        match self {
            Value::Mapping(entries) => {
                let ghost es = entry_trees_of(entries@);
                proof {
                    lemma_entry_trees_of(entries@);
                    assert(es.subrange(0, es.len() as int) =~= es);
                }
                let mut i: usize = 0;
                while i < entries.len()
                    invariant
                        i <= entries.len() == es.len(),
                        *self == Value::Mapping(*entries),
                        es == entry_trees_of(entries@),
                        forall|j: int| 0 <= j < es.len() ==> #[trigger] es[j] == (entries@[j].0@, tree_of(entries@[j].1)),
                        entry_get(es, key@) == entry_get(es.subrange(i as int, es.len() as int), key@),
                    decreases entries.len() - i,
                {
                    if str_eq_chars(entries[i].0.as_str(), key) {
                        assert(es.subrange(i as int, es.len() as int)[0] == es[i as int]);
                        return Some(&entries[i].1);
                    }
                    assert(es.subrange(i as int, es.len() as int).drop_first() =~= es.subrange(i + 1, es.len() as int));
                    i += 1;
                }
                None
            },
            _ => None,
        }
    }
}

/// Whether the characters of `s` are exactly `v`.
pub fn str_eq_chars(s: &str, v: &Vec<char>) -> (r: bool)
    ensures
        r == (s@ == v@),
{
    let n = s.unicode_len();
    if n != v.len() {
        return false;
    }
    let mut i: usize = 0;
    while i < n
        invariant
            n == s@.len() == v.len(),
            i <= n,
            forall|k: int| 0 <= k < i ==> s@[k] == v@[k],
        decreases n - i,
    {
        if s.get_char(i) != v[i] {
            return false;
        }
        i += 1;
    }
    assert(s@ =~= v@);
    true
}

} // verus!
