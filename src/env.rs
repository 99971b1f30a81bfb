//! Environment substitution on a task's own fields, before it is dispatched.

use vstd::prelude::*;
use crate::text::{chars_of, chars_slice, push_chars, trim_both_of, trim_range};
use crate::registry::{Environment, env_value};
use crate::types::{Task, Expect, ExpectModel, BasicAuth};

verus! {

/// The opening marker of an environment placeholder.
pub open spec fn env_open() -> Seq<char> {
    seq!['{', '{', 'e', 'n', 'v', '.']
}

/// The closing marker of a placeholder.
pub open spec fn close_mark() -> Seq<char> {
    seq!['}', '}']
}

/// `pat` occurs in `s` at position `i`.
pub open spec fn occurs_at(s: Seq<char>, pat: Seq<char>, i: int) -> bool {
    0 <= i && i + pat.len() <= s.len() && s.subrange(i, i + pat.len()) == pat
}

/// The first position at or after `from` where `pat` occurs in `s`.
pub open spec fn first_occ(s: Seq<char>, pat: Seq<char>, from: int) -> Option<int>
    decreases s.len() + 1 - from,
{
    if from < 0 || from + pat.len() > s.len() {
        None
    } else if occurs_at(s, pat, from) {
        Some(from)
    } else {
        first_occ(s, pat, from + 1)
    }
}

/// The text from position `i` on, with each `{{env.NAME}}` replaced by the
/// variable's value, scanning left to right and never rescanning an
/// inserted value.
pub open spec fn scan_env(s: Seq<char>, i: int, env: Map<Seq<char>, Seq<char>>) -> Seq<char>
    decreases s.len() - i,
{
    match first_occ(s, env_open(), i) {
        None => s.subrange(i, s.len() as int),
        Some(p) => match first_occ(s, close_mark(), p) {
            None => s.subrange(i, s.len() as int),
            Some(q) => if i <= p && p + 6 <= q && q + 2 <= s.len() {
                s.subrange(i, p) + env_value(env, s.subrange(p + 6, q)) + scan_env(s, q + 2, env)
            } else {
                s.subrange(i, s.len() as int)
            },
        },
    }
}

/// A field that is one whole `{{env.NAME}}` placeholder becomes the value
/// of `NAME`; any other text stays.
pub open spec fn whole_env(s: Seq<char>, env: Map<Seq<char>, Seq<char>>) -> Seq<char> {
    let inner = trim_both_of(s, '{', '}');
    if s.len() >= 6 && s.subrange(0, 6) == env_open() && s.len() >= 2 && s.subrange(
        s.len() - 2,
        s.len() as int,
    ) == close_mark() && inner.len() >= 4 && inner.subrange(0, 4) == seq!['e', 'n', 'v', '.'] {
        env_value(env, inner.subrange(4, inner.len() as int))
    } else {
        s
    }
}

/// The expectation with its expected text substituted.
pub open spec fn expect_env(e: ExpectModel, env: Map<Seq<char>, Seq<char>>) -> ExpectModel {
    match e {
        ExpectModel::Status(c) => ExpectModel::Status(c),
        ExpectModel::JsonPath(p, v) => ExpectModel::JsonPath(p, whole_env(v, env)),
        ExpectModel::Raw(c) => ExpectModel::Raw(whole_env(c, env)),
    }
}

pub proof fn lemma_first_occ(s: Seq<char>, pat: Seq<char>, from: int)
    ensures
        first_occ(s, pat, from) matches Some(p) ==> from <= p && occurs_at(s, pat, p),
    decreases s.len() + 1 - from,
{
    if !(from < 0 || from + pat.len() > s.len()) && !occurs_at(s, pat, from) {
        lemma_first_occ(s, pat, from + 1);
    }
}

/// Whether `pat` occurs in `v` at position `i`.
fn matches_at(v: &Vec<char>, pat: &[char], i: usize) -> (r: bool)
    ensures
        r == occurs_at(v@, pat@, i as int),
{
    if i > v.len() || pat.len() > v.len() - i {
        return false;
    }
    let mut k: usize = 0;
    while k < pat.len()
        invariant
            k <= pat.len(),
            i + pat.len() <= v.len(),
            forall|j: int| 0 <= j < k ==> v@[i + j] == pat@[j],
        decreases pat.len() - k,
    {
        if v[i + k] != pat[k] {
            assert(v@.subrange(i as int, i + pat.len())[k as int] != pat@[k as int]);
            return false;
        }
        k += 1;
    }
    assert(v@.subrange(i as int, i + pat.len()) =~= pat@);
    true
}

/// The first position at or after `from` where `pat` occurs in `v`.
pub fn find_from(v: &Vec<char>, pat: &[char], from: usize) -> (r: Option<usize>)
    requires
        pat.len() > 0,
    ensures
        match r {
            Some(p) => first_occ(v@, pat@, from as int) == Some(p as int),
            None => first_occ(v@, pat@, from as int) is None,
        },
{
    let mut i: usize = from;
    while i <= v.len() && pat.len() <= v.len() - i
        invariant
            from <= i,
            pat.len() > 0,
            first_occ(v@, pat@, from as int) == first_occ(v@, pat@, i as int),
        decreases v.len() + 1 - i,
    {
        if matches_at(v, pat, i) {
            return Some(i);
        }
        i += 1;
    }
    None
}

/// Replaces every `{{env.NAME}}` in `s`, left to right.
pub fn substitute_env(s: &str, env: &Environment) -> (r: String)
    ensures
        r@ == scan_env(s@, 0, env@),
{
    let v = chars_of(s);
    let open = ['{', '{', 'e', 'n', 'v', '.'];
    let close = ['}', '}'];
    assert(open@ =~= env_open());
    assert(close@ =~= close_mark());
    let mut out = String::new();
    let mut i: usize = 0;
    while i <= v.len()
        invariant
            i <= v.len(),
            v@ == s@,
            open@ == env_open(),
            close@ == close_mark(),
            scan_env(s@, 0, env@) == out@ + scan_env(s@, i as int, env@),
        ensures
            i <= v.len(),
            v@ == s@,
            scan_env(s@, 0, env@) == out@ + s@.subrange(i as int, s@.len() as int),
        decreases v.len() - i,
    {
        let p = match find_from(&v, &open, i) {
            Some(p) => p,
            None => {
                assert(scan_env(s@, i as int, env@) == s@.subrange(i as int, s@.len() as int));
                break;
            },
        };
        proof {
            lemma_first_occ(v@, open@, i as int);
        }
        let q = match find_from(&v, &close, p) {
            Some(q) => q,
            None => {
                assert(scan_env(s@, i as int, env@) == s@.subrange(i as int, s@.len() as int));
                break;
            },
        };
        proof {
            lemma_first_occ(v@, close@, p as int);
        }
        if !(i <= p && p + 6 <= q && q <= v.len() - 2) {
            assert(scan_env(s@, i as int, env@) == s@.subrange(i as int, s@.len() as int));
            break;
        }
        let ghost before = out@;
        push_chars(&mut out, &v, i, p);
        let name = chars_slice(&v, p + 6, q);
        let value = env.value_of(&name);
        let vc = chars_of(value.as_str());
        push_chars(&mut out, &vc, 0, vc.len());
        assert(vc@.subrange(0, vc.len() as int) =~= vc@);
        assert(scan_env(s@, i as int, env@) == v@.subrange(i as int, p as int) + env_value(
            env@,
            v@.subrange(p + 6, q as int),
        ) + scan_env(s@, q + 2, env@));
        assert(before + scan_env(s@, i as int, env@) =~= out@ + scan_env(s@, q + 2, env@));
        i = q + 2;
    }
    let ghost before = out@;
    push_chars(&mut out, &v, i, v.len());
    assert(out@ == before + s@.subrange(i as int, s@.len() as int));
    out
}

/// The value of a field that may be one whole `{{env.NAME}}` placeholder.
pub fn substitute_whole(s: &String, env: &Environment) -> (r: String)
    ensures
        r@ == whole_env(s@, env@),
{
    let v = chars_of(s.as_str());
    let n = v.len();
    let open = ['{', '{', 'e', 'n', 'v', '.'];
    let close = ['}', '}'];
    assert(open@ =~= env_open());
    assert(close@ =~= close_mark());
    if n >= 6 && matches_at(&v, &open, 0) && matches_at(&v, &close, n - 2) {
        let (lo, hi) = trim_range(&v, '{', '}');
        let inner = chars_slice(&v, lo, hi);
        let m = inner.len();
        if m >= 4 && inner[0] == 'e' && inner[1] == 'n' && inner[2] == 'v' && inner[3] == '.' {
            assert(inner@.subrange(0, 4) =~= seq!['e', 'n', 'v', '.']);
            let name = chars_slice(&inner, 4, m);
            return env.value_of(&name);
        }
        proof {
            if inner@.len() >= 4 && inner@.subrange(0, 4) == seq!['e', 'n', 'v', '.'] {
                assert(inner@[0] == inner@.subrange(0, 4)[0]);
                assert(inner@[1] == inner@.subrange(0, 4)[1]);
                assert(inner@[2] == inner@.subrange(0, 4)[2]);
                assert(inner@[3] == inner@.subrange(0, 4)[3]);
            }
        }
    }
    s.clone()
}


/// Credentials with each field substituted.
pub open spec fn auth_env(
    before: Option<BasicAuth>,
    after: Option<BasicAuth>,
    env: Map<Seq<char>, Seq<char>>,
) -> bool {
    match (before, after) {
        (None, None) => true,
        (Some(b), Some(a)) => a.username@ == whole_env(b.username@, env) && a.password@
            == whole_env(b.password@, env),
        _ => false,
    }
}

/// Environment substitution on a definition's own fields.
pub trait EnvResolver: Sized {
    /// How a value relates to itself after substitution under `env`.
    spec fn env_resolved(before: Self, after: Self, env: Map<Seq<char>, Seq<char>>) -> bool;

    /// Substitutes the environment placeholders of the fields in place.
    fn resolve_env_vars(&mut self, env: &Environment)
        ensures
            Self::env_resolved(*old(self), *final(self), env@),
    ;
}

impl EnvResolver for Task {
    /// The URL has every embedded `{{env.NAME}}` replaced; the credentials,
    /// header values and expected texts are replaced when they are one whole
    /// placeholder; nothing else changes.
    open spec fn env_resolved(before: Task, after: Task, env: Map<Seq<char>, Seq<char>>) -> bool {
        &&& after.url@ == scan_env(before.url@, 0, env)
        &&& auth_env(before.auth, after.auth, env)
        &&& after.headers.len() == before.headers.len()
        &&& forall|k: int|
            0 <= k < after.headers.len() ==> #[trigger] after.headers@[k].0@ == before.headers@[k].0@
                && after.headers@[k].1@ == whole_env(before.headers@[k].1@, env)
        &&& after.expect.len() == before.expect.len()
        &&& forall|k: int|
            0 <= k < after.expect.len() ==> #[trigger] after.expect@[k]@ == expect_env(
                before.expect@[k]@,
                env,
            )
        &&& after.name == before.name
        &&& after.kind == before.kind
        &&& after.method == before.method
        &&& after.body == before.body
        &&& after.body_type == before.body_type
        &&& after.depends_on == before.depends_on
        &&& after.retries == before.retries
        &&& after.retry_delay == before.retry_delay
        &&& after.register == before.register
        &&& after.save_as == before.save_as
        &&& after.variables == before.variables
    }

    fn resolve_env_vars(&mut self, env: &Environment) {
        let url = substitute_env(self.url.as_str(), env);
        self.url = url;
        let auth = match &self.auth {
            Some(a) => Some(
                BasicAuth {
                    username: substitute_whole(&a.username, env),
                    password: substitute_whole(&a.password, env),
                },
            ),
            None => None,
        };
        self.auth = auth;
        let mut headers: Vec<(String, String)> = Vec::new();
        let mut i: usize = 0;
        while i < self.headers.len()
            invariant
                i <= self.headers.len(),
                headers.len() == i,
                forall|k: int|
                    0 <= k < i ==> #[trigger] headers@[k].0@ == self.headers@[k].0@ && headers@[k].1@
                        == whole_env(self.headers@[k].1@, env@),
            decreases self.headers.len() - i,
        {
            let name = self.headers[i].0.clone();
            let value = substitute_whole(&self.headers[i].1, env);
            headers.push((name, value));
            i += 1;
        }
        let mut expect: Vec<Expect> = Vec::new();
        let mut j: usize = 0;
        while j < self.expect.len()
            invariant
                j <= self.expect.len(),
                expect.len() == j,
                forall|k: int|
                    0 <= k < j ==> #[trigger] expect@[k]@ == expect_env(self.expect@[k]@, env@),
            decreases self.expect.len() - j,
        {
            let e = match &self.expect[j] {
                Expect::Status { code } => Expect::Status { code: *code },
                Expect::JsonPath { path, value } => Expect::JsonPath {
                    path: path.clone(),
                    value: substitute_whole(value, env),
                },
                Expect::Raw { contains } => Expect::Raw { contains: substitute_whole(contains, env) },
            };
            expect.push(e);
            j += 1;
        }
        self.headers = headers;
        self.expect = expect;
    }
}

} // verus!
