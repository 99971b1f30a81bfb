//! Whole-string placeholders in a value tree: `{{env.NAME}}` and
//! `{{name.json.seg.seg[i]...}}`.

use vstd::prelude::*;
use crate::text::{chars_of, chars_slice, trim_both_of, trim_range};
use crate::value::{Value, Tree, tree_of, trees_of, entry_trees_of, lemma_trees_of, lemma_entry_trees_of};
use crate::path::{PathError, split_on, split_chars, views_of, walk, walk_value, node_of, step, lemma_split_concat, lemma_split_single, parse_index, digits_value};
use crate::text::{trim_start_of, trim_end_of, lemma_first_of};
use crate::value::lookup;
use crate::registry::{Registry, Environment, ResponseModel, env_value};

verus! {

/// `s` starts with `{{` and ends with `}}`.
pub open spec fn is_placeholder(s: Seq<char>) -> bool {
    &&& s.len() >= 2
    &&& s[0] == '{'
    &&& s[1] == '{'
    &&& s[s.len() - 2] == '}'
    &&& s[s.len() - 1] == '}'
}

/// `s` starts with `env.`.
pub open spec fn has_env_prefix(s: Seq<char>) -> bool {
    s.len() >= 4 && s[0] == 'e' && s[1] == 'n' && s[2] == 'v' && s[3] == '.'
}

/// What a string leaf becomes: the environment value for `{{env.NAME}}`, the
/// node that a registry reference points at, or the string itself when it is
/// no placeholder, has fewer than two dotted parts, or names nothing registered.
pub open spec fn resolve_str(
    s: Seq<char>,
    reg: Map<Seq<char>, ResponseModel>,
    env: Map<Seq<char>, Seq<char>>,
) -> Result<Tree, PathError> {
    if !is_placeholder(s) {
        Ok(Tree::Str(s))
    } else {
        let inner = trim_both_of(s, '{', '}');
        if has_env_prefix(inner) {
            Ok(Tree::Str(env_value(env, inner.subrange(4, inner.len() as int))))
        } else {
            let parts = split_on(inner, '.');
            if parts.len() < 2 || !reg.contains_key(parts[0]) {
                Ok(Tree::Str(s))
            } else {
                walk(reg[parts[0]].0, parts.subrange(2, parts.len() as int))
            }
        }
    }
}

/// A tree with every string leaf resolved, or the first failure in document order.
pub open spec fn resolve_tree(
    t: Tree,
    reg: Map<Seq<char>, ResponseModel>,
    env: Map<Seq<char>, Seq<char>>,
) -> Result<Tree, PathError>
    decreases t,
{
    match t {
        Tree::Str(s) => resolve_str(s, reg, env),
        Tree::Sequence(items) => match resolve_items(items, reg, env) {
            Ok(r) => Ok(Tree::Sequence(r)),
            Err(e) => Err(e),
        },
        Tree::Mapping(es) => match resolve_entries(es, reg, env) {
            Ok(r) => Ok(Tree::Mapping(r)),
            Err(e) => Err(e),
        },
        _ => Ok(t),
    }
}

pub open spec fn resolve_items(
    s: Seq<Tree>,
    reg: Map<Seq<char>, ResponseModel>,
    env: Map<Seq<char>, Seq<char>>,
) -> Result<Seq<Tree>, PathError>
    decreases s,
{
    if s.len() == 0 {
        Ok(Seq::empty())
    } else {
        match resolve_items(s.drop_last(), reg, env) {
            Err(e) => Err(e),
            Ok(p) => match resolve_tree(s.last(), reg, env) {
                Err(e) => Err(e),
                Ok(x) => Ok(p.push(x)),
            },
        }
    }
}

pub open spec fn resolve_entries(
    s: Seq<(Seq<char>, Tree)>,
    reg: Map<Seq<char>, ResponseModel>,
    env: Map<Seq<char>, Seq<char>>,
) -> Result<Seq<(Seq<char>, Tree)>, PathError>
    decreases s,
{
    if s.len() == 0 {
        Ok(Seq::empty())
    } else {
        match resolve_entries(s.drop_last(), reg, env) {
            Err(e) => Err(e),
            Ok(p) => match resolve_tree(s.last().1, reg, env) {
                Err(e) => Err(e),
                Ok(x) => Ok(p.push((s.last().0, x))),
            },
        }
    }
}

/// A copy of the node that a walk ended on (`None` stands for `Null`).
pub fn node_value(n: Option<&Value>) -> (r: Value)
    ensures
        r@ == node_of(n),
{
    match n {
        Some(v) => v.copy(),
        None => Value::Null,
    }
}

/// Resolves one string leaf.
pub fn resolve_string(s: &String, registry: &Registry, env: &Environment) -> (r: Result<
    Value,
    PathError,
>)
    ensures
        match r {
            Ok(v) => resolve_str(s@, registry@, env@) == Ok::<Tree, PathError>(v@),
            Err(e) => resolve_str(s@, registry@, env@) == Err::<Tree, PathError>(e),
        },
{
    let cs = chars_of(s.as_str());
    let n = cs.len();
    if !(n >= 2 && cs[0] == '{' && cs[1] == '{' && cs[n - 2] == '}' && cs[n - 1] == '}') {
        return Ok(Value::Str(s.clone()));
    }
    let (lo, hi) = trim_range(&cs, '{', '}');
    let inner = chars_slice(&cs, lo, hi);
    let m = inner.len();
    if m >= 4 && inner[0] == 'e' && inner[1] == 'n' && inner[2] == 'v' && inner[3] == '.' {
        let name = chars_slice(&inner, 4, m);
        return Ok(Value::Str(env.value_of(&name)));
    }
    let parts = split_chars(&inner, '.');
    if parts.len() < 2 {
        return Ok(Value::Str(s.clone()));
    }
    assert(views_of(parts@)[0] == parts@[0]@);
    match registry.get(&parts[0]) {
        None => Ok(Value::Str(s.clone())),
        Some(resp) => match walk_value(Some(&resp.json), &parts, 2) {
            Ok(node) => Ok(node_value(node)),
            Err(e) => Err(e),
        },
    }
}

/// Resolves every string leaf of `v`, in document order.
pub fn resolve_value(v: &Value, registry: &Registry, env: &Environment) -> (r: Result<
    Value,
    PathError,
>)
    ensures
        match r {
            Ok(x) => resolve_tree(v@, registry@, env@) == Ok::<Tree, PathError>(x@),
            Err(e) => resolve_tree(v@, registry@, env@) == Err::<Tree, PathError>(e),
        },
    decreases v,
{
    match v {
        Value::Str(s) => resolve_string(s, registry, env),
        Value::Sequence(items) => {
            let ghost ts = trees_of(items@);
            proof {
                lemma_trees_of(items@);
                assert(ts.subrange(0, 0) =~= Seq::<Tree>::empty());
            }
            let mut out: Vec<Value> = Vec::new();
            let mut i: usize = 0;
            while i < items.len()
                invariant
                    i <= items.len() == ts.len(),
                    *v == Value::Sequence(*items),
                    ts == trees_of(items@),
                    forall|j: int| 0 <= j < ts.len() ==> #[trigger] ts[j] == tree_of(items@[j]),
                    resolve_items(ts.subrange(0, i as int), registry@, env@) == Ok::<
                        Seq<Tree>,
                        PathError,
                    >(trees_of(out@)),
                decreases items.len() - i,
            {
                proof {
                    assert(decreases_to!(*items => items[i as int]));
                    assert(decreases_to!(*v => v->Sequence_0));
                    assert(decreases_to!(*v => items[i as int]));
                }
                let ghost next = ts.subrange(0, i + 1);
                assert(next.drop_last() =~= ts.subrange(0, i as int));
                assert(next.last() == items[i as int]@);
                match resolve_value(&items[i], registry, env) {
                    Ok(x) => {
                        let ghost prev = out@;
                        out.push(x);
                        assert(out@.drop_last() =~= prev);
                    },
                    Err(e) => {
                        proof {
                            lemma_items_prefix_err(ts, i + 1, registry@, env@);
                        }
                        return Err(e);
                    },
                }
                i += 1;
            }
            assert(ts.subrange(0, ts.len() as int) =~= ts);
            Ok(Value::Sequence(out))
        },
        Value::Mapping(entries) => {
            let ghost es = entry_trees_of(entries@);
            proof {
                lemma_entry_trees_of(entries@);
                assert(es.subrange(0, 0) =~= Seq::<(Seq<char>, Tree)>::empty());
            }
            let mut out: Vec<(String, Value)> = Vec::new();
            let mut i: usize = 0;
            while i < entries.len()
                invariant
                    i <= entries.len() == es.len(),
                    *v == Value::Mapping(*entries),
                    es == entry_trees_of(entries@),
                    forall|j: int|
                        0 <= j < es.len() ==> #[trigger] es[j] == (
                            entries@[j].0@,
                            tree_of(entries@[j].1),
                        ),
                    resolve_entries(es.subrange(0, i as int), registry@, env@) == Ok::<
                        Seq<(Seq<char>, Tree)>,
                        PathError,
                    >(entry_trees_of(out@)),
                decreases entries.len() - i,
            {
                proof {
                    assert(decreases_to!(*entries => entries[i as int]));
                    assert(decreases_to!(*v => v->Mapping_0));
                    assert(decreases_to!(*v => entries[i as int].1));
                }
                let ghost next = es.subrange(0, i + 1);
                assert(next.drop_last() =~= es.subrange(0, i as int));
                assert(next.last() == es[i as int]);
                match resolve_value(&entries[i].1, registry, env) {
                    Ok(x) => {
                        let ghost prev = out@;
                        out.push((entries[i].0.clone(), x));
                        assert(out@.drop_last() =~= prev);
                    },
                    Err(e) => {
                        proof {
                            lemma_entries_prefix_err(es, i + 1, registry@, env@);
                        }
                        return Err(e);
                    },
                }
                i += 1;
            }
            assert(es.subrange(0, es.len() as int) =~= es);
            Ok(Value::Mapping(out))
        },
        Value::Null => Ok(Value::Null),
        Value::Bool(b) => Ok(Value::Bool(*b)),
        Value::Number(n) => Ok(Value::Number(n.clone())),
    }
}

/// A failure on a prefix is the failure of the whole sequence.
proof fn lemma_items_prefix_err(
    s: Seq<Tree>,
    k: int,
    reg: Map<Seq<char>, ResponseModel>,
    env: Map<Seq<char>, Seq<char>>,
)
    requires
        0 <= k <= s.len(),
        resolve_items(s.subrange(0, k), reg, env) is Err,
    ensures
        resolve_items(s, reg, env) == resolve_items(s.subrange(0, k), reg, env),
    decreases s.len() - k,
{
    if k < s.len() {
        let next = s.subrange(0, k + 1);
        assert(next.drop_last() =~= s.subrange(0, k));
        lemma_items_prefix_err(s, k + 1, reg, env);
    } else {
        assert(s.subrange(0, k) =~= s);
    }
}

proof fn lemma_entries_prefix_err(
    s: Seq<(Seq<char>, Tree)>,
    k: int,
    reg: Map<Seq<char>, ResponseModel>,
    env: Map<Seq<char>, Seq<char>>,
)
    requires
        0 <= k <= s.len(),
        resolve_entries(s.subrange(0, k), reg, env) is Err,
    ensures
        resolve_entries(s, reg, env) == resolve_entries(s.subrange(0, k), reg, env),
    decreases s.len() - k,
{
    if k < s.len() {
        let next = s.subrange(0, k + 1);
        assert(next.drop_last() =~= s.subrange(0, k));
        lemma_entries_prefix_err(s, k + 1, reg, env);
    } else {
        assert(s.subrange(0, k) =~= s);
    }
}

/// Rewrites every placeholder leaf of `body` in place. On failure `body` is
/// left as it was.
pub fn resolve_references(body: &mut Value, registry: &Registry, env: &Environment) -> (r: Result<
    (),
    PathError,
>)
    ensures
        match r {
            Ok(()) => resolve_tree(old(body)@, registry@, env@) == Ok::<Tree, PathError>(
                final(body)@,
            ),
            Err(e) => resolve_tree(old(body)@, registry@, env@) == Err::<Tree, PathError>(e)
                && final(body)@ == old(body)@,
        },
{
    match resolve_value(body, registry, env) {
        Ok(v) => {
            *body = v;
            Ok(())
        },
        Err(e) => Err(e),
    }
}


/// No string leaf of `t` is a placeholder.
pub open spec fn placeholder_free(t: Tree) -> bool
    decreases t,
{
    match t {
        Tree::Str(s) => !is_placeholder(s),
        Tree::Sequence(items) => items_free(items),
        Tree::Mapping(es) => entries_free(es),
        _ => true,
    }
}

pub open spec fn items_free(s: Seq<Tree>) -> bool
    decreases s,
{
    s.len() == 0 || (items_free(s.drop_last()) && placeholder_free(s.last()))
}

pub open spec fn entries_free(s: Seq<(Seq<char>, Tree)>) -> bool
    decreases s,
{
    s.len() == 0 || (entries_free(s.drop_last()) && placeholder_free(s.last().1))
}

/// Resolving a tree with no placeholder leaves changes nothing.
pub proof fn lemma_resolve_placeholder_free(
    t: Tree,
    reg: Map<Seq<char>, ResponseModel>,
    env: Map<Seq<char>, Seq<char>>,
)
    requires
        placeholder_free(t),
    ensures
        resolve_tree(t, reg, env) == Ok::<Tree, PathError>(t),
    decreases t,
{
    match t {
        Tree::Sequence(items) => {
            lemma_items_free(items, reg, env);
        },
        Tree::Mapping(es) => {
            lemma_entries_free(es, reg, env);
        },
        _ => {},
    }
}

proof fn lemma_items_free(s: Seq<Tree>, reg: Map<Seq<char>, ResponseModel>, env: Map<Seq<char>, Seq<char>>)
    requires
        items_free(s),
    ensures
        resolve_items(s, reg, env) == Ok::<Seq<Tree>, PathError>(s),
    decreases s,
{
    if s.len() > 0 {
        lemma_items_free(s.drop_last(), reg, env);
        lemma_resolve_placeholder_free(s.last(), reg, env);
        assert(s.drop_last().push(s.last()) =~= s);
    } else {
        assert(s =~= Seq::<Tree>::empty());
    }
}

proof fn lemma_entries_free(
    s: Seq<(Seq<char>, Tree)>,
    reg: Map<Seq<char>, ResponseModel>,
    env: Map<Seq<char>, Seq<char>>,
)
    requires
        entries_free(s),
    ensures
        resolve_entries(s, reg, env) == Ok::<Seq<(Seq<char>, Tree)>, PathError>(s),
    decreases s,
{
    if s.len() > 0 {
        lemma_entries_free(s.drop_last(), reg, env);
        lemma_resolve_placeholder_free(s.last().1, reg, env);
        assert(s.drop_last().push((s.last().0, s.last().1)) =~= s);
    } else {
        assert(s =~= Seq::<(Seq<char>, Tree)>::empty());
    }
}


/// The placeholder `{{r.json.path}}`.
pub open spec fn reference_text(r: Seq<char>, path: Seq<char>) -> Seq<char> {
    seq!['{', '{'] + r + seq!['.', 'j', 's', 'o', 'n', '.'] + path + seq!['}', '}']
}

/// A registry name that a reference can spell: no dot, not `env` (which
/// reads as an environment placeholder), not starting with a brace.
pub open spec fn plain_name(r: Seq<char>) -> bool {
    &&& !r.contains('.')
    &&& r != seq!['e', 'n', 'v']
    &&& (r.len() > 0 ==> r[0] != '{' && r[0] != '}')
}

/// A reference `{{r.json.path}}` to a registered name walks `path`, cut at
/// its dots, from that name's parsed body.
pub proof fn lemma_reference_walks(
    reg: Map<Seq<char>, ResponseModel>,
    env: Map<Seq<char>, Seq<char>>,
    r: Seq<char>,
    path: Seq<char>,
)
    requires
        plain_name(r),
        reg.contains_key(r),
        path.len() > 0,
        path.last() != '{' && path.last() != '}',
    ensures
        resolve_str(reference_text(r, path), reg, env) == walk(reg[r].0, split_on(path, '.')),
{
    let mid = seq!['.', 'j', 's', 'o', 'n', '.'];
    let s = reference_text(r, path);
    let t = r + mid + path + seq!['}', '}'];
    let u = r + mid + path;
    assert(s.drop_first().drop_first() =~= t);
    assert(s.drop_first()[0] == '{');
    assert(t[0] != '{' && t[0] != '}') by {
        if r.len() > 0 {
            assert(t[0] == r[0]);
        } else {
            assert(t[0] == mid[0]);
        }
    }
    assert(s[0] == '{');
    assert(trim_start_of(s, '{', '}') == trim_start_of(s.drop_first(), '{', '}'));
    assert(trim_start_of(s.drop_first(), '{', '}') == trim_start_of(t, '{', '}'));
    assert(trim_start_of(s, '{', '}') == t);
    assert(t.drop_last().drop_last() =~= u);
    assert(t.last() == '}');
    assert(t.drop_last().last() == '}');
    assert(u.last() == path.last());
    assert(trim_end_of(t, '{', '}') == trim_end_of(t.drop_last(), '{', '}'));
    assert(trim_end_of(t.drop_last(), '{', '}') == trim_end_of(u, '{', '}'));
    assert(trim_end_of(t, '{', '}') == u);
    let inner = trim_both_of(s, '{', '}');
    assert(inner == u);
    assert(!has_env_prefix(u)) by {
        if has_env_prefix(u) {
            if r.len() >= 4 {
                assert(u[3] == r[3]);
                assert(r.contains('.'));
            } else if r.len() == 3 {
                assert(r =~= seq!['e', 'n', 'v']);
            } else {
                assert(u[r.len() as int] == '.');
            }
        }
    }
    assert(u =~= r + seq!['.'] + (seq!['j', 's', 'o', 'n'] + seq!['.'] + path));
    lemma_split_concat(r, seq!['j', 's', 'o', 'n'] + seq!['.'] + path, '.');
    lemma_split_concat(seq!['j', 's', 'o', 'n'], path, '.');
    lemma_split_single(r, '.');
    assert(!seq!['j', 's', 'o', 'n'].contains('.')) by {
        if seq!['j', 's', 'o', 'n'].contains('.') {
            let i = choose|i: int| 0 <= i < 4 && seq!['j', 's', 'o', 'n'][i] == '.';
        }
    }
    lemma_split_single(seq!['j', 's', 'o', 'n'], '.');
    let parts = split_on(u, '.');
    assert(parts =~= seq![r, seq!['j', 's', 'o', 'n']] + split_on(path, '.'));
    assert(parts.subrange(2, parts.len() as int) =~= split_on(path, '.'));
}

/// Registering a response under `r` and then resolving `{{r.json.a.b}}`
/// yields the node at `a.b` of that response's parsed body.
pub proof fn lemma_register_then_resolve(
    reg: Map<Seq<char>, ResponseModel>,
    env: Map<Seq<char>, Seq<char>>,
    r: Seq<char>,
    json: Tree,
    text: Seq<char>,
)
    requires
        plain_name(r),
    ensures
        resolve_str(reference_text(r, seq!['a', '.', 'b']), reg.insert(r, (json, text)), env) == Ok::<
            Tree,
            PathError,
        >(lookup(lookup(json, seq!['a']), seq!['b'])),
{
    let reg2 = reg.insert(r, (json, text));
    lemma_reference_walks(reg2, env, r, seq!['a', '.', 'b']);
    assert(seq!['a', '.', 'b'] =~= seq!['a'] + seq!['.'] + seq!['b']);
    lemma_split_concat(seq!['a'], seq!['b'], '.');
    lemma_split_single(seq!['a'], '.');
    lemma_split_single(seq!['b'], '.');
    let ps = split_on(seq!['a', '.', 'b'], '.');
    assert(ps =~= seq![seq!['a'], seq!['b']]);
    assert(!seq!['a'].contains('['));
    assert(!seq!['b'].contains('['));
    let n1 = lookup(json, seq!['a']);
    assert(step(json, seq!['a']) == Ok::<Tree, PathError>(n1));
    assert(ps.drop_first() =~= seq![seq!['b']]);
    assert(seq![seq!['b']].drop_first() =~= Seq::<Seq<char>>::empty());
    assert(step(n1, seq!['b']) == Ok::<Tree, PathError>(lookup(n1, seq!['b'])));
    assert(seq![seq!['b']][0] == seq!['b']);
    assert(walk(lookup(n1, seq!['b']), Seq::<Seq<char>>::empty()) == Ok::<Tree, PathError>(
        lookup(n1, seq!['b']),
    ));
    assert(walk(n1, seq![seq!['b']]) == Ok::<Tree, PathError>(lookup(n1, seq!['b'])));
}

/// `{{r.json.items[2].name}}` yields the `name` of the element at index 2 of
/// the sequence under `items`; it fails when there is no such element.
pub proof fn lemma_indexed_reference(
    reg: Map<Seq<char>, ResponseModel>,
    env: Map<Seq<char>, Seq<char>>,
    r: Seq<char>,
)
    requires
        plain_name(r),
        reg.contains_key(r),
    ensures
        resolve_str(
            reference_text(
                r,
                seq!['i', 't', 'e', 'm', 's', '[', '2', ']', '.', 'n', 'a', 'm', 'e'],
            ),
            reg,
            env,
        ) == match lookup(reg[r].0, seq!['i', 't', 'e', 'm', 's']) {
            Tree::Sequence(items) => if items.len() > 2 {
                Ok::<Tree, PathError>(lookup(items[2], seq!['n', 'a', 'm', 'e']))
            } else {
                Err::<Tree, PathError>(PathError::NoElement)
            },
            _ => Err::<Tree, PathError>(PathError::NoElement),
        },
{
    let seg = seq!['i', 't', 'e', 'm', 's', '[', '2', ']'];
    let name = seq!['n', 'a', 'm', 'e'];
    let path = seq!['i', 't', 'e', 'm', 's', '[', '2', ']', '.', 'n', 'a', 'm', 'e'];
    lemma_reference_walks(reg, env, r, path);
    assert(path =~= seg + seq!['.'] + name);
    lemma_split_concat(seg, name, '.');
    assert(!seg.contains('.')) by {
        if seg.contains('.') {
            let i = choose|i: int| 0 <= i < seg.len() && seg[i] == '.';
        }
    }
    assert(!name.contains('.')) by {
        if name.contains('.') {
            let i = choose|i: int| 0 <= i < name.len() && name[i] == '.';
        }
    }
    assert(!name.contains('[')) by {
        if name.contains('[') {
            let i = choose|i: int| 0 <= i < name.len() && name[i] == '[';
        }
    }
    lemma_split_single(seg, '.');
    lemma_split_single(name, '.');
    let ps = split_on(path, '.');
    assert(ps =~= seq![seg, name]);
    assert(seg[5] == '[');
    assert(seg[7] == ']');
    assert(seg.contains('['));
    assert(seg.contains(']'));
    lemma_first_of(seg, '[', 5);
    assert(seg.subrange(0, 5) =~= seq!['i', 't', 'e', 'm', 's']);
    let idx = seg.subrange(6, 8);
    assert(idx =~= seq!['2', ']']);
    assert(idx.drop_last() =~= seq!['2']);
    assert(trim_end_of(seq!['2'], ']', ']') == seq!['2']);
    assert(trim_end_of(idx, ']', ']') == seq!['2']);
    assert(seq!['2'].drop_last() =~= Seq::<char>::empty());
    assert('2' as u32 == 50);
    assert(seq!['2'].last() == '2');
    assert('0' as u32 == 48);
    assert(digits_value(Seq::<char>::empty()) == 0);
    assert(digits_value(seq!['2']) == 2);
    assert(parse_index(seq!['2']) == Some(2nat));
    let json = reg[r].0;
    assert(ps.drop_first() =~= seq![name]);
    assert(seq![name].drop_first() =~= Seq::<Seq<char>>::empty());
    match lookup(json, seq!['i', 't', 'e', 'm', 's']) {
        Tree::Sequence(items) => {
            if items.len() > 2 {
                assert(step(json, seg) == Ok::<Tree, PathError>(items[2]));
                assert(step(items[2], name) == Ok::<Tree, PathError>(lookup(items[2], name)));
                assert(seq![name][0] == name);
                assert(walk(lookup(items[2], name), Seq::<Seq<char>>::empty()) == Ok::<
                    Tree,
                    PathError,
                >(lookup(items[2], name)));
                assert(walk(items[2], seq![name]) == Ok::<Tree, PathError>(lookup(items[2], name)));
            } else {
                assert(step(json, seg) == Err::<Tree, PathError>(PathError::NoElement));
            }
        },
        _ => {
            assert(step(json, seg) == Err::<Tree, PathError>(PathError::NoElement));
        },
    }
}

} // verus!
