//! Compact JSON text of a value, and the rendering that expectations compare.

use vstd::prelude::*;
use crate::text::{push_char, chars_of, trim_both_of, trim_range, string_of};
use crate::value::{Value, Tree, tree_of, trees_of, entry_trees_of, lemma_trees_of, lemma_entry_trees_of};

verus! {

/// The lowercase hexadecimal digit of `n` (for `n < 16`).
pub open spec fn hex_digit(n: u32) -> char {
    if n < 10 {
        seq!['0', '1', '2', '3', '4', '5', '6', '7', '8', '9'][n as int]
    } else {
        seq!['a', 'b', 'c', 'd', 'e', 'f'][n - 10]
    }
}

/// How one character of a string is written inside JSON quotes.
pub open spec fn escape(c: char) -> Seq<char> {
    if c == '"' {
        seq!['\\', '"']
    } else if c == '\\' {
        seq!['\\', '\\']
    } else if c == '\n' {
        seq!['\\', 'n']
    } else if c == '\r' {
        seq!['\\', 'r']
    } else if c == '\t' {
        seq!['\\', 't']
    } else if c == '\x08' {
        seq!['\\', 'b']
    } else if c == '\x0c' {
        seq!['\\', 'f']
    } else if (c as u32) < 0x20 {
        seq!['\\', 'u', '0', '0', hex_digit((c as u32) / 16), hex_digit((c as u32) % 16)]
    } else {
        seq![c]
    }
}

pub open spec fn escape_all(s: Seq<char>) -> Seq<char>
    decreases s.len(),
{
    if s.len() == 0 {
        Seq::empty()
    } else {
        escape_all(s.drop_last()) + escape(s.last())
    }
}

/// A JSON string literal holding `s`.
pub open spec fn quoted(s: Seq<char>) -> Seq<char> {
    seq!['"'] + escape_all(s) + seq!['"']
}

/// The compact JSON text of a tree.
pub open spec fn json_text(t: Tree) -> Seq<char>
    decreases t,
{
    match t {
        Tree::Null => seq!['n', 'u', 'l', 'l'],
        Tree::Bool(b) => if b {
            seq!['t', 'r', 'u', 'e']
        } else {
            seq!['f', 'a', 'l', 's', 'e']
        },
        Tree::Number(n) => n,
        Tree::Str(s) => quoted(s),
        Tree::Sequence(items) => seq!['['] + items_text(items) + seq![']'],
        Tree::Mapping(es) => seq!['{'] + entries_text(es) + seq!['}'],
    }
}

/// The elements' JSON texts, separated by commas.
pub open spec fn items_text(s: Seq<Tree>) -> Seq<char>
    decreases s,
{
    if s.len() == 0 {
        Seq::empty()
    } else if s.len() == 1 {
        json_text(s[0])
    } else {
        items_text(s.drop_last()) + seq![','] + json_text(s.last())
    }
}

/// The entries' `"key":value` texts, separated by commas.
pub open spec fn entries_text(s: Seq<(Seq<char>, Tree)>) -> Seq<char>
    decreases s,
{
    if s.len() == 0 {
        Seq::empty()
    } else if s.len() == 1 {
        quoted(s[0].0) + seq![':'] + json_text(s[0].1)
    } else {
        entries_text(s.drop_last()) + seq![','] + quoted(s.last().0) + seq![':'] + json_text(
            s.last().1,
        )
    }
}

/// How a node reads when compared with an expected text: its JSON text with
/// the surrounding double quotes removed (`null` stays `null`).
pub open spec fn render(t: Tree) -> Seq<char> {
    trim_both_of(json_text(t), '"', '"')
}

fn hex_char(n: u32) -> (c: char)
    requires
        n < 16,
    ensures
        c == hex_digit(n),
{
    let c = if n == 0 { '0' } else if n == 1 { '1' } else if n == 2 { '2' } else if n == 3 {
        '3'
    } else if n == 4 { '4' } else if n == 5 { '5' } else if n == 6 { '6' } else if n == 7 {
        '7'
    } else if n == 8 { '8' } else if n == 9 { '9' } else if n == 10 { 'a' } else if n == 11 {
        'b'
    } else if n == 12 { 'c' } else if n == 13 { 'd' } else if n == 14 { 'e' } else { 'f' };
    c
}

fn push_all(out: &mut String, Ghost(s): Ghost<Seq<char>>, cs: &[char])
    requires
        cs@ == s,
    ensures
        final(out)@ == old(out)@ + s,
{
    let mut i: usize = 0;
    while i < cs.len()
        invariant
            i <= cs.len(),
            cs@ == s,
            out@ == old(out)@ + s.subrange(0, i as int),
        decreases cs.len() - i,
    {
        push_char(out, cs[i]);
        i += 1;
        assert(out@ =~= old(out)@ + s.subrange(0, i as int));
    }
    assert(s.subrange(0, cs.len() as int) =~= s);
}

fn push_escaped(out: &mut String, c: char)
    ensures
        final(out)@ == old(out)@ + escape(c),
{
    if c == '"' {
        push_all(out, Ghost(escape(c)), &['\\', '"']);
    } else if c == '\\' {
        push_all(out, Ghost(escape(c)), &['\\', '\\']);
    } else if c == '\n' {
        push_all(out, Ghost(escape(c)), &['\\', 'n']);
    } else if c == '\r' {
        push_all(out, Ghost(escape(c)), &['\\', 'r']);
    } else if c == '\t' {
        push_all(out, Ghost(escape(c)), &['\\', 't']);
    } else if c == '\x08' {
        push_all(out, Ghost(escape(c)), &['\\', 'b']);
    } else if c == '\x0c' {
        push_all(out, Ghost(escape(c)), &['\\', 'f']);
    } else if (c as u32) < 0x20 {
        let hi = hex_char((c as u32) / 16);
        let lo = hex_char((c as u32) % 16);
        push_all(out, Ghost(escape(c)), &['\\', 'u', '0', '0', hi, lo]);
    } else {
        let one = [c];
        assert(one@ =~= seq![c]);
        push_all(out, Ghost(escape(c)), &one);
    }
}

/// Appends `s` as a JSON string literal.
pub fn write_quoted(out: &mut String, s: &str)
    ensures
        final(out)@ == old(out)@ + quoted(s@),
{
    let v = chars_of(s);
    let ghost start = out@;
    push_char(out, '"');
    let mut i: usize = 0;
    while i < v.len()
        invariant
            i <= v.len(),
            v@ == s@,
            out@ == start + seq!['"'] + escape_all(s@.subrange(0, i as int)),
        decreases v.len() - i,
    {
        assert(s@.subrange(0, i + 1).drop_last() =~= s@.subrange(0, i as int));
        push_escaped(out, v[i]);
        i += 1;
        assert(out@ =~= start + seq!['"'] + escape_all(s@.subrange(0, i as int)));
    }
    assert(s@.subrange(0, v.len() as int) =~= s@);
    push_char(out, '"');
    assert(out@ =~= start + quoted(s@));
}

/// Appends the compact JSON text of `v`.
pub fn write_json(out: &mut String, v: &Value)
    ensures
        final(out)@ == old(out)@ + json_text(v@),
    decreases v,
{
    let ghost start = out@;
    match v {
        Value::Null => push_all(out, Ghost(json_text(v@)), &['n', 'u', 'l', 'l']),
        Value::Bool(b) => {
            if *b {
                push_all(out, Ghost(json_text(v@)), &['t', 'r', 'u', 'e']);
            } else {
                push_all(out, Ghost(json_text(v@)), &['f', 'a', 'l', 's', 'e']);
            }
        },
        Value::Number(n) => {
            let cs = chars_of(n.as_str());
            crate::text::push_chars(out, &cs, 0, cs.len());
            assert(cs@.subrange(0, cs.len() as int) =~= cs@);
        },
        Value::Str(s) => write_quoted(out, s.as_str()),
        Value::Sequence(items) => {
            let ghost ts = trees_of(items@);
            proof {
                lemma_trees_of(items@);
            }
            push_char(out, '[');
            let mut i: usize = 0;
            while i < items.len()
                invariant
                    i <= items.len() == ts.len(),
                    *v == Value::Sequence(*items),
                    ts == trees_of(items@),
                    forall|j: int| 0 <= j < ts.len() ==> #[trigger] ts[j] == tree_of(items@[j]),
                    out@ == start + seq!['['] + items_text(ts.subrange(0, i as int)),
                decreases items.len() - i,
            {
                proof {
                    assert(decreases_to!(*items => items[i as int]));
                    assert(decreases_to!(*v => v->Sequence_0));
                    assert(decreases_to!(*v => items[i as int]));
                }
                let ghost pre = ts.subrange(0, i as int);
                let ghost next = ts.subrange(0, i + 1);
                assert(next.drop_last() =~= pre);
                assert(next.last() == items[i as int]@);
                if i > 0 {
                    push_char(out, ',');
                }
                write_json(out, &items[i]);
                i += 1;
                assert(out@ =~= start + seq!['['] + items_text(ts.subrange(0, i as int)));
            }
            assert(ts.subrange(0, ts.len() as int) =~= ts);
            push_char(out, ']');
            assert(out@ =~= start + json_text(v@));
        },
        Value::Mapping(entries) => {
            let ghost es = entry_trees_of(entries@);
            proof {
                lemma_entry_trees_of(entries@);
            }
            push_char(out, '{');
            let mut i: usize = 0;
            while i < entries.len()
                invariant
                    i <= entries.len() == es.len(),
                    *v == Value::Mapping(*entries),
                    es == entry_trees_of(entries@),
                    forall|j: int|
                        0 <= j < es.len() ==> #[trigger] es[j] == (
                            entries@[j].0@,
                            tree_of(entries@[j].1),
                        ),
                    out@ == start + seq!['{'] + entries_text(es.subrange(0, i as int)),
                decreases entries.len() - i,
            {
                proof {
                    assert(decreases_to!(*entries => entries[i as int]));
                    assert(decreases_to!(*v => v->Mapping_0));
                    assert(decreases_to!(*v => entries[i as int].1));
                }
                let ghost pre = es.subrange(0, i as int);
                let ghost next = es.subrange(0, i + 1);
                assert(next.drop_last() =~= pre);
                assert(next.last() == es[i as int]);
                if i > 0 {
                    push_char(out, ',');
                }
                write_quoted(out, entries[i].0.as_str());
                push_char(out, ':');
                write_json(out, &entries[i].1);
                i += 1;
                assert(out@ =~= start + seq!['{'] + entries_text(es.subrange(0, i as int)));
            }
            assert(es.subrange(0, es.len() as int) =~= es);
            push_char(out, '}');
            assert(out@ =~= start + json_text(v@));
        },
    }
}

/// The compact JSON text of `v`.
pub fn to_json(v: &Value) -> (r: String)
    ensures
        r@ == json_text(v@),
{
    let mut out = String::new();
    write_json(&mut out, v);
    assert(out@ =~= json_text(v@));
    out
}

/// The text that an expectation compares: see `render`.
pub fn render_value(v: &Value) -> (r: String)
    ensures
        r@ == render(v@),
{
    let text = to_json(v);
    let cs = chars_of(text.as_str());
    let (lo, hi) = trim_range(&cs, '"', '"');
    string_of(&cs, lo, hi)
}

} // verus!
