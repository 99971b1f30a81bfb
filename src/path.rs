//! Dotted paths with `key[index]` segments, and walking them through a tree.

use vstd::prelude::*;
use crate::text::{first_of, find_char, trim_end_of};
use crate::value::{Value, Tree, lookup, lemma_trees_of};

verus! {

/// `s` cut at every `d`, as `str::split` does: `n` separators give `n + 1` parts.
pub open spec fn split_on(s: Seq<char>, d: char) -> Seq<Seq<char>>
    decreases s.len(),
{
    if s.len() == 0 {
        seq![Seq::<char>::empty()]
    } else {
        let p = split_on(s.drop_last(), d);
        if s.last() == d {
            p.push(Seq::<char>::empty())
        } else {
            p.update(p.len() - 1, p.last().push(s.last()))
        }
    }
}

pub proof fn lemma_split_on_len(s: Seq<char>, d: char)
    ensures
        split_on(s, d).len() >= 1,
    decreases s.len(),
{
    if s.len() > 0 {
        lemma_split_on_len(s.drop_last(), d);
    }
}

/// Cutting at a separator splits the parts of both sides.
pub proof fn lemma_split_concat(x: Seq<char>, y: Seq<char>, d: char)
    ensures
        split_on(x + seq![d] + y, d) == split_on(x, d) + split_on(y, d),
    decreases y.len(),
{
    let s = x + seq![d] + y;
    if y.len() == 0 {
        assert(s.drop_last() =~= x);
        assert(split_on(y, d) =~= seq![Seq::<char>::empty()]);
        assert(split_on(s, d) =~= split_on(x, d) + split_on(y, d));
    } else {
        let y0 = y.drop_last();
        assert(s.drop_last() =~= x + seq![d] + y0);
        lemma_split_concat(x, y0, d);
        lemma_split_on_len(y0, d);
        lemma_split_on_len(x, d);
        assert(split_on(s, d) =~= split_on(x, d) + split_on(y, d));
    }
}

/// A text without the separator is one part.
pub proof fn lemma_split_single(x: Seq<char>, d: char)
    requires
        !x.contains(d),
    ensures
        split_on(x, d) == seq![x],
    decreases x.len(),
{
    if x.len() > 0 {
        assert(!x.drop_last().contains(d)) by {
            if x.drop_last().contains(d) {
                let i = choose|i: int| 0 <= i < x.drop_last().len() && x.drop_last()[i] == d;
                assert(x[i] == d);
            }
        }
        lemma_split_single(x.drop_last(), d);
        assert(x[x.len() - 1] != d);
        assert(x.drop_last().push(x.last()) =~= x);
        assert(split_on(x, d) =~= seq![x]);
    } else {
        assert(x =~= Seq::<char>::empty());
    }
}

/// The views of a sequence of character vectors.
pub open spec fn views_of(s: Seq<Vec<char>>) -> Seq<Seq<char>> {
    s.map_values(|x: Vec<char>| x@)
}

/// The parts of `v` between the separators `d`.
pub fn split_chars(v: &Vec<char>, d: char) -> (r: Vec<Vec<char>>)
    ensures
        views_of(r@) == split_on(v@, d),
{
    let mut done: Vec<Vec<char>> = Vec::new();
    let mut cur: Vec<char> = Vec::new();
    let mut i: usize = 0;
    assert(views_of(done@).push(cur@) =~= split_on(v@.subrange(0, 0), d));
    while i < v.len()
        invariant
            i <= v.len(),
            views_of(done@).push(cur@) == split_on(v@.subrange(0, i as int), d),
        decreases v.len() - i,
    {
        let ghost pre = v@.subrange(0, i as int);
        proof {
            lemma_split_on_len(pre, d);
        }
        assert(v@.subrange(0, i + 1).drop_last() =~= pre);
        if v[i] == d {
            let ghost old_done = done@;
            done.push(cur);
            cur = Vec::new();
            assert(views_of(done@) =~= views_of(old_done).push(split_on(pre, d).last()));
            assert(views_of(done@).push(cur@) =~= split_on(v@.subrange(0, i + 1), d));
        } else {
            cur.push(v[i]);
            assert(views_of(done@).push(cur@) =~= split_on(v@.subrange(0, i + 1), d));
        }
        i += 1;
    }
    assert(v@.subrange(0, v.len() as int) =~= v@);
    let ghost old_done = done@;
    done.push(cur);
    assert(views_of(done@) =~= views_of(old_done).push(cur@));
    done
}

pub open spec fn is_digit(c: char) -> bool {
    '0' <= c && c <= '9'
}

pub open spec fn all_digits(s: Seq<char>) -> bool {
    s.len() > 0 && forall|i: int| 0 <= i < s.len() ==> is_digit(#[trigger] s[i])
}

/// The number written by the decimal digits `s`.
pub open spec fn digits_value(s: Seq<char>) -> nat
    decreases s.len(),
{
    if s.len() == 0 {
        0
    } else {
        digits_value(s.drop_last()) * 10 + ((s.last() as u32 - '0' as u32) as nat)
    }
}

/// The digits of an index text: an optional leading `+` is dropped.
pub open spec fn index_digits(s: Seq<char>) -> Seq<char> {
    if s.len() > 0 && s[0] == '+' {
        s.drop_first()
    } else {
        s
    }
}

/// The index that `s` writes, when it is an unsigned decimal that fits in a `usize`.
pub open spec fn parse_index(s: Seq<char>) -> Option<nat> {
    let d = index_digits(s);
    if all_digits(d) && digits_value(d) <= usize::MAX {
        Some(digits_value(d))
    } else {
        None
    }
}

proof fn lemma_digits_prefix(s: Seq<char>, k: int)
    requires
        0 <= k <= s.len(),
    ensures
        digits_value(s.subrange(0, k)) <= digits_value(s),
    decreases s.len(),
{
    if k < s.len() {
        assert(s.drop_last() =~= s.subrange(0, s.len() - 1));
        lemma_digits_prefix(s.drop_last(), k);
        assert(s.drop_last().subrange(0, k) =~= s.subrange(0, k));
    } else {
        assert(s.subrange(0, k) =~= s);
    }
}

/// Reads `v[from..to]` as an index.
pub fn parse_index_chars(v: &Vec<char>, from: usize, to: usize) -> (r: Option<usize>)
    requires
        from <= to <= v.len(),
    ensures
        match r {
            Some(n) => parse_index(v@.subrange(from as int, to as int)) == Some(n as nat),
            None => parse_index(v@.subrange(from as int, to as int)) is None,
        },
{
    let ghost s = v@.subrange(from as int, to as int);
    let mut start = from;
    if from < to && v[from] == '+' {
        start = from + 1;
    }
    let ghost d = index_digits(s);
    assert(d =~= v@.subrange(start as int, to as int));
    if start == to {
        return None;
    }
    let mut value: usize = 0;
    let mut i: usize = start;
    while i < to
        invariant
            start <= i <= to <= v.len(),
            s == v@.subrange(from as int, to as int),
            d == index_digits(s),
            d == v@.subrange(start as int, to as int),
            forall|k: int| start <= k < i ==> is_digit(#[trigger] v@[k]),
            value as nat == digits_value(v@.subrange(start as int, i as int)),
        decreases to - i,
    {
        let c = v[i];
        if !('0' <= c && c <= '9') {
            assert(d[i - start] == c);
            return None;
        }
        let digit = (c as u32 - '0' as u32) as usize;
        assert(v@.subrange(start as int, i + 1).drop_last() =~= v@.subrange(start as int, i as int));
        if value > (usize::MAX - digit) / 10 {
            proof {
                lemma_digits_prefix(d, i + 1 - start);
                assert(d.subrange(0, i + 1 - start) =~= v@.subrange(start as int, i + 1));
            }
            return None;
        }
        value = value * 10 + digit;
        i += 1;
    }
    assert(v@.subrange(start as int, to as int) =~= d);
    Some(value)
}

/// Why a path could not be walked.
#[derive(PartialEq, Eq, Structural, Clone, Copy, Debug)]
pub enum PathError {
    /// The text between the brackets of a `key[index]` segment is no index.
    BadIndex,
    /// A `key[index]` segment names no element: the key is absent, its value
    /// is not a sequence, or the index is out of range.
    NoElement,
}

/// One step of a walk: `key[index]` when the segment holds both brackets,
/// else a plain key.
pub open spec fn step(t: Tree, p: Seq<char>) -> Result<Tree, PathError> {
    if p.contains('[') && p.contains(']') {
        let b = first_of(p, '[');
        let key = p.subrange(0, b);
        match parse_index(trim_end_of(p.subrange(b + 1, p.len() as int), ']', ']')) {
            None => Err(PathError::BadIndex),
            Some(n) => match lookup(t, key) {
                Tree::Sequence(items) => if n < items.len() {
                    Ok(items[n as int])
                } else {
                    Err(PathError::NoElement)
                },
                _ => Err(PathError::NoElement),
            },
        }
    } else {
        Ok(lookup(t, p))
    }
}

/// Walks every segment of `ps` in order, starting at `t`.
pub open spec fn walk(t: Tree, ps: Seq<Seq<char>>) -> Result<Tree, PathError>
    decreases ps.len(),
{
    if ps.len() == 0 {
        Ok(t)
    } else {
        match step(t, ps[0]) {
            Ok(n) => walk(n, ps.drop_first()),
            Err(e) => Err(e),
        }
    }
}

/// The node that an optional reference stands for: `None` is `Null`.
pub open spec fn node_of(v: Option<&Value>) -> Tree {
    match v {
        Some(r) => r@,
        None => Tree::Null,
    }
}

/// One step of a walk on a value (`None` stands for `Null`).
pub fn step_value<'a>(cur: Option<&'a Value>, p: &Vec<char>) -> (r: Result<Option<&'a Value>, PathError>)
    ensures
        match r {
            Ok(n) => step(node_of(cur), p@) == Ok::<Tree, PathError>(node_of(n)),
            Err(e) => step(node_of(cur), p@) == Err::<Tree, PathError>(e),
        },
{
    let open = find_char(p, '[');
    let close = find_char(p, ']');
    if open.is_some() && close.is_some() {
        let b = open.unwrap();
        assert(b < p.len());
        {
            let (lo, hi) = crate::text::trim_end_range(p, b + 1, ']');
            let n = match parse_index_chars(p, lo, hi) {
                Some(n) => n,
                None => return Err(PathError::BadIndex),
            };
            let key = crate::text::chars_slice(p, 0, b);
            let inner = match cur {
                Some(v) => v.get(&key),
                None => None,
            };
            match inner {
                Some(Value::Sequence(items)) => {
                    proof {
                        lemma_trees_of(items@);
                    }
                    if n < items.len() {
                        Ok(Some(&items[n]))
                    } else {
                        Err(PathError::NoElement)
                    }
                },
                _ => Err(PathError::NoElement),
            }
        }
    } else {
        match cur {
            Some(v) => Ok(v.get(p)),
            None => Ok(None),
        }
    }
}


/// Walks the segments `ps[from..]` in order, starting at `root`.
pub fn walk_value<'a>(root: Option<&'a Value>, ps: &Vec<Vec<char>>, from: usize) -> (r: Result<
    Option<&'a Value>,
    PathError,
>)
    requires
        from <= ps.len(),
    ensures
        match r {
            Ok(n) => walk(node_of(root), views_of(ps@).subrange(from as int, ps.len() as int))
                == Ok::<Tree, PathError>(node_of(n)),
            Err(e) => walk(node_of(root), views_of(ps@).subrange(from as int, ps.len() as int))
                == Err::<Tree, PathError>(e),
        },
{
    let ghost all = views_of(ps@);
    let mut cur = root;
    let mut i: usize = from;
    while i < ps.len()
        invariant
            from <= i <= ps.len(),
            all == views_of(ps@),
            walk(node_of(root), all.subrange(from as int, ps.len() as int)) == walk(
                node_of(cur),
                all.subrange(i as int, ps.len() as int),
            ),
        decreases ps.len() - i,
    {
        let ghost rest = all.subrange(i as int, ps.len() as int);
        assert(rest[0] == ps@[i as int]@);
        assert(rest.drop_first() =~= all.subrange(i + 1, ps.len() as int));
        match step_value(cur, &ps[i]) {
            Ok(n) => {
                cur = n;
            },
            Err(e) => {
                return Err(e);
            },
        }
        i += 1;
    }
    Ok(cur)
}

} // verus!
