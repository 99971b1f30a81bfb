//! The task execution protocol: building the request, judging a response,
//! and the retry state machine. Sending, reading and sleeping are the
//! caller's part; it hands each outcome back to `TaskRun::next`.

use vstd::prelude::*;
use base64::Engine;
use crate::text::{chars_of, push_chars, push_char};
use crate::value::{Value, Tree, entry_trees_of, lemma_entry_trees_of};
use crate::path::{PathError, split_on, split_chars, walk, walk_value};
use crate::json::{json_text, render, to_json, render_value};
use crate::registry::{Registry, Environment, ResponseModel};
use crate::resolve::{resolve_tree, resolve_value, node_value};
use crate::types::{Task, Expect, ExpectModel, BodyType, BasicAuth, expects_of};
use crate::env::{occurs_at, first_occ, lemma_first_occ};

verus! {

/// Why a task stopped the run.
#[derive(PartialEq, Eq, Structural, Clone, Copy, Debug)]
pub enum TaskError {
    /// The body is to be form-urlencoded but is not a mapping.
    FormNotMapping,
    /// The body is to be sent as a multipart form but is not a mapping.
    MultipartNotMapping,
    /// A reference in the body could not be followed.
    Reference(PathError),
    /// A `JsonPath` expectation met a response that is not JSON.
    InvalidJson,
    /// The path of a `JsonPath` expectation could not be followed.
    Path(PathError),
    /// Every attempt failed.
    RetriesExhausted,
}

pub open spec fn basic_prefix() -> Seq<char> {
    seq!['B', 'a', 's', 'i', 'c', ' ']
}

/// The standard base64 text (with padding) of the UTF-8 bytes of `s`.
pub uninterp spec fn base64_of(s: Seq<char>) -> Seq<char>;

/// Relies on base64's `STANDARD.encode`: the padded standard-alphabet
/// encoding of the string's UTF-8 bytes, which depends on them alone. It
/// panics only when the encoded length overflows `usize`, which the bound on
/// the input rules out.
#[verifier::external_body]
fn encode_base64(s: &str) -> (r: String)
    requires
        s@.len() <= 0x1000_0000,
    ensures
        r@ == base64_of(s@),
{
    base64::engine::general_purpose::STANDARD.encode(s)
}

/// The `user:password` text that basic auth encodes.
pub open spec fn credentials_text(username: Seq<char>, password: Seq<char>) -> Seq<char> {
    username + seq![':'] + password
}

/// The `Authorization` value for credentials already encoded as `encoded`.
pub fn basic_value(encoded: &str) -> (r: String)
    ensures
        r@ == basic_prefix() + encoded@,
{
    let mut out = String::new();
    let cs = chars_of(encoded);
    let prefix = vec!['B', 'a', 's', 'i', 'c', ' '];
    push_chars(&mut out, &prefix, 0, 6);
    push_chars(&mut out, &cs, 0, cs.len());
    assert(prefix@.subrange(0, 6) =~= basic_prefix());
    assert(cs@.subrange(0, cs.len() as int) =~= cs@);
    assert(out@ =~= basic_prefix() + encoded@);
    out
}

/// The `Authorization` header value of basic-auth credentials.
pub fn basic_auth_value(auth: &BasicAuth) -> (r: String)
    requires
        auth.username@.len() + auth.password@.len() < 0x1000_0000,
    ensures
        r@ == basic_prefix() + base64_of(credentials_text(auth.username@, auth.password@)),
{
    let mut creds = auth.username.clone();
    let sep = vec![':'];
    push_chars(&mut creds, &sep, 0, 1);
    let pw = chars_of(auth.password.as_str());
    push_chars(&mut creds, &pw, 0, pw.len());
    assert(sep@.subrange(0, 1) =~= seq![':']);
    assert(pw@.subrange(0, pw.len() as int) =~= pw@);
    assert(creds@ =~= credentials_text(auth.username@, auth.password@));
    let encoded = encode_base64(creds.as_str());
    basic_value(encoded.as_str())
}

/// The text a form field takes from a value: a string as it is, anything else empty.
pub open spec fn field_text(t: Tree) -> Seq<char> {
    match t {
        Tree::Str(s) => s,
        _ => Seq::empty(),
    }
}

/// `key=value` pairs joined by `&`, with no escaping.
pub open spec fn form_text(es: Seq<(Seq<char>, Tree)>) -> Seq<char>
    decreases es.len(),
{
    if es.len() == 0 {
        Seq::empty()
    } else if es.len() == 1 {
        es[0].0 + seq!['='] + field_text(es[0].1)
    } else {
        form_text(es.drop_last()) + seq!['&'] + es.last().0 + seq!['='] + field_text(es.last().1)
    }
}

/// The form fields of a mapping: each key with its field text.
pub open spec fn form_fields(es: Seq<(Seq<char>, Tree)>) -> Seq<(Seq<char>, Seq<char>)> {
    es.map_values(|e: (Seq<char>, Tree)| (e.0, field_text(e.1)))
}

/// Appends the field text of `v`.
fn push_field(out: &mut String, v: &Value)
    ensures
        final(out)@ == old(out)@ + field_text(v@),
{
    match v {
        Value::Str(s) => {
            let cs = chars_of(s.as_str());
            push_chars(out, &cs, 0, cs.len());
            assert(cs@.subrange(0, cs.len() as int) =~= cs@);
        },
        _ => {
            assert(old(out)@ + field_text(v@) =~= old(out)@);
        },
    }
}

/// The form-urlencoded text of a mapping's entries.
pub fn form_encode(entries: &Vec<(String, Value)>) -> (r: String)
    ensures
        r@ == form_text(entry_trees_of(entries@)),
{
    let ghost es = entry_trees_of(entries@);
    proof {
        lemma_entry_trees_of(entries@);
    }
    let mut out = String::new();
    let mut i: usize = 0;
    while i < entries.len()
        invariant
            i <= entries.len() == es.len(),
            es == entry_trees_of(entries@),
            forall|j: int|
                0 <= j < es.len() ==> #[trigger] es[j] == (entries@[j].0@, entries@[j].1@),
            out@ == form_text(es.subrange(0, i as int)),
        decreases entries.len() - i,
    {
        let ghost next = es.subrange(0, i + 1);
        assert(next.drop_last() =~= es.subrange(0, i as int));
        assert(next.last() == es[i as int]);
        if i > 0 {
            push_char(&mut out, '&');
        }
        let k = chars_of(entries[i].0.as_str());
        push_chars(&mut out, &k, 0, k.len());
        assert(k@.subrange(0, k.len() as int) =~= k@);
        push_char(&mut out, '=');
        push_field(&mut out, &entries[i].1);
        i += 1;
        assert(out@ =~= form_text(es.subrange(0, i as int)));
    }
    assert(es.subrange(0, es.len() as int) =~= es);
    out
}

/// The form fields of a mapping's entries, for a multipart body.
pub fn form_fields_of(entries: &Vec<(String, Value)>) -> (r: Vec<(String, String)>)
    ensures
        r.len() == entries.len(),
        forall|i: int|
            0 <= i < r.len() ==> #[trigger] form_fields(entry_trees_of(entries@))[i] == (
                r@[i].0@,
                r@[i].1@,
            ),
{
    proof {
        lemma_entry_trees_of(entries@);
    }
    let mut out: Vec<(String, String)> = Vec::new();
    let mut i: usize = 0;
    while i < entries.len()
        invariant
            i <= entries.len(),
            out.len() == i,
            entry_trees_of(entries@).len() == entries.len(),
            forall|j: int|
                0 <= j < entries.len() ==> #[trigger] entry_trees_of(entries@)[j] == (
                    entries@[j].0@,
                    entries@[j].1@,
                ),
            forall|j: int|
                0 <= j < i ==> #[trigger] form_fields(entry_trees_of(entries@))[j] == (
                    out@[j].0@,
                    out@[j].1@,
                ),
        decreases entries.len() - i,
    {
        let mut value = String::new();
        push_field(&mut value, &entries[i].1);
        out.push((entries[i].0.clone(), value));
        i += 1;
    }
    out
}

/// `m` is `GET` in any letter case.
pub open spec fn is_get(m: Seq<char>) -> bool {
    &&& m.len() == 3
    &&& (m[0] == 'G' || m[0] == 'g')
    &&& (m[1] == 'E' || m[1] == 'e')
    &&& (m[2] == 'T' || m[2] == 't')
}

/// The URL with a query string added: after `&` when it already has a `?`,
/// else after `?`.
pub open spec fn with_query(url: Seq<char>, query: Seq<char>) -> Seq<char> {
    if url.contains('?') {
        url + seq!['&'] + query
    } else {
        url + seq!['?'] + query
    }
}


/// What goes in a request after the headers.
#[derive(Debug)]
pub enum Body {
    Empty,
    /// A text body, with the content type to declare, if any.
    Text { content_type: Option<String>, text: String },
    /// A multipart form of text fields.
    Multipart(Vec<(String, String)>),
}

/// The model of a request body.
pub enum BodyModel {
    Empty,
    Text(Option<Seq<char>>, Seq<char>),
    Multipart(Seq<(Seq<char>, Seq<char>)>),
}

pub open spec fn opt_view(o: Option<String>) -> Option<Seq<char>> {
    match o {
        Some(s) => Some(s@),
        None => None,
    }
}

pub open spec fn pair_views(s: Seq<(String, String)>) -> Seq<(Seq<char>, Seq<char>)> {
    s.map_values(|p: (String, String)| (p.0@, p.1@))
}

impl View for Body {
    type V = BodyModel;

    open spec fn view(&self) -> BodyModel {
        match self {
            Body::Empty => BodyModel::Empty,
            Body::Text { content_type, text } => BodyModel::Text(opt_view(*content_type), text@),
            Body::Multipart(fields) => BodyModel::Multipart(pair_views(fields@)),
        }
    }
}

/// A request ready to send.
#[derive(Debug)]
pub struct Request {
    pub method: String,
    pub url: String,
    /// Header names and values, inserted in this order (a later one replaces
    /// an earlier one of the same name).
    pub headers: Vec<(String, String)>,
    pub body: Body,
}

/// The URL and body that a resolved body gives under an encoding.
pub open spec fn plan_body(
    body: Option<Tree>,
    bt: BodyType,
    method: Seq<char>,
    url: Seq<char>,
) -> Result<(Seq<char>, BodyModel), TaskError> {
    match body {
        None => Ok((url, BodyModel::Empty)),
        Some(t) => match bt {
            BodyType::Json => Ok((url, BodyModel::Text(Some("application/json"@), json_text(t)))),
            BodyType::FormUrlencoded => match t {
                Tree::Mapping(es) => if is_get(method) {
                    Ok((with_query(url, form_text(es)), BodyModel::Empty))
                } else if form_text(es).len() == 0 {
                    Ok((url, BodyModel::Empty))
                } else {
                    Ok(
                        (
                            url,
                            BodyModel::Text(
                                Some("application/x-www-form-urlencoded"@),
                                form_text(es),
                            ),
                        ),
                    )
                },
                _ => Err(TaskError::FormNotMapping),
            },
            BodyType::Raw => Ok((url, BodyModel::Text(None, field_text(t)))),
            BodyType::FormMultipart => match t {
                Tree::Mapping(es) => Ok((url, BodyModel::Multipart(form_fields(es)))),
                _ => Err(TaskError::MultipartNotMapping),
            },
        },
    }
}

/// The encoding a task's body uses: JSON unless it says otherwise.
pub open spec fn body_type_of(bt: Option<BodyType>) -> BodyType {
    match bt {
        Some(b) => b,
        None => BodyType::Json,
    }
}

/// The task's body with its references resolved.
pub open spec fn resolved_body(
    body: Option<Value>,
    reg: Map<Seq<char>, ResponseModel>,
    env: Map<Seq<char>, Seq<char>>,
) -> Result<Option<Tree>, TaskError> {
    match body {
        None => Ok(None),
        Some(b) => match resolve_tree(b@, reg, env) {
            Ok(t) => Ok(Some(t)),
            Err(e) => Err(TaskError::Reference(e)),
        },
    }
}

/// The headers every request carries before the task's own: the client
/// identifier, the task name when `verbose`, and basic auth when present.
pub open spec fn base_headers(
    name: Seq<char>,
    verbose: bool,
    version: Seq<char>,
    auth: Option<BasicAuth>,
) -> Seq<(Seq<char>, Seq<char>)> {
    seq![("user-agent"@, "crabflow/"@ + version)] + (if verbose {
        seq![("x-crabflow-task"@, name)]
    } else {
        Seq::empty()
    }) + match auth {
        Some(a) => seq![
            ("authorization"@, basic_prefix() + base64_of(credentials_text(a.username@, a.password@))),
        ],
        None => Seq::empty(),
    }
}

/// Credentials short enough to encode.
pub open spec fn auth_fits(auth: Option<BasicAuth>) -> bool {
    auth matches Some(a) ==> a.username@.len() + a.password@.len() < 0x1000_0000
}

fn copy_pairs(src: &Vec<(String, String)>, dst: &mut Vec<(String, String)>)
    ensures
        pair_views(final(dst)@) == pair_views(old(dst)@) + pair_views(src@),
{
    let mut i: usize = 0;
    while i < src.len()
        invariant
            i <= src.len(),
            pair_views(dst@) == pair_views(old(dst)@) + pair_views(src@.subrange(0, i as int)),
        decreases src.len() - i,
    {
        let ghost prev = dst@;
        let a = src[i].0.clone();
        let b = src[i].1.clone();
        dst.push((a, b));
        assert(pair_views(src@.subrange(0, i + 1)) =~= pair_views(src@.subrange(0, i as int)).push(
            (a@, b@),
        ));
        assert(pair_views(dst@) =~= pair_views(prev).push((a@, b@)));
        i += 1;
        assert(pair_views(dst@) =~= pair_views(old(dst)@) + pair_views(src@.subrange(0, i as int)));
    }
    assert(src@.subrange(0, i as int) =~= src@);
}

/// Builds the request for one task: the body is resolved against `registry`
/// and `env` and encoded as the task says; the client identifier is
/// `crabflow/` followed by `version`.
pub fn build_request(
    task: &Task,
    registry: &Registry,
    env: &Environment,
    verbose: bool,
    version: &str,
) -> (r: Result<Request, TaskError>)
    requires
        auth_fits(task.auth),
    ensures
        match resolved_body(task.body, registry@, env@) {
            Err(e) => r == Err::<Request, TaskError>(e),
            Ok(b) => match plan_body(b, body_type_of(task.body_type), task.method@, task.url@) {
                Err(e) => r == Err::<Request, TaskError>(e),
                Ok((url, body)) => r matches Ok(req) && req.method@ == task.method@ && req.url@ == url
                    && req.body@ == body && pair_views(req.headers@) == base_headers(
                    task.name@,
                    verbose,
                    version@,
                    task.auth,
                ) + pair_views(task.headers@),
            },
        },
{
    let resolved = match &task.body {
        None => None,
        Some(b) => match resolve_value(b, registry, env) {
            Ok(v) => Some(v),
            Err(e) => return Err(TaskError::Reference(e)),
        },
    };
    let mut headers: Vec<(String, String)> = Vec::new();
    let mut agent = String::from_str("crabflow/");
    let vc = chars_of(version);
    push_chars(&mut agent, &vc, 0, vc.len());
    assert(vc@.subrange(0, vc.len() as int) =~= vc@);
    headers.push((String::from_str("user-agent"), agent));
    if verbose {
        headers.push((String::from_str("x-crabflow-task"), task.name.clone()));
    }
    match &task.auth {
        Some(a) => {
            headers.push((String::from_str("authorization"), basic_auth_value(a)));
        },
        None => {},
    }
    assert(pair_views(headers@) =~= base_headers(task.name@, verbose, version@, task.auth));
    copy_pairs(&task.headers, &mut headers);
    let bt = match task.body_type {
        Some(b) => b,
        None => BodyType::Json,
    };
    let mut url = task.url.clone();
    let body = match resolved {
        None => Body::Empty,
        Some(v) => match bt {
            BodyType::Json => Body::Text {
                content_type: Some(String::from_str("application/json")),
                text: to_json(&v),
            },
            BodyType::Raw => {
                let mut text = String::new();
                push_field(&mut text, &v);
                Body::Text { content_type: None, text }
            },
            BodyType::FormUrlencoded => match &v {
                Value::Mapping(entries) => {
                    let form = form_encode(entries);
                    let m = chars_of(task.method.as_str());
                    let get = m.len() == 3 && (m[0] == 'G' || m[0] == 'g') && (m[1] == 'E' || m[1]
                        == 'e') && (m[2] == 'T' || m[2] == 't');
                    if get {
                        let u = chars_of(task.url.as_str());
                        let sep = match crate::text::find_char(&u, '?') {
                            Some(_) => '&',
                            None => '?',
                        };
                        push_char(&mut url, sep);
                        let fc = chars_of(form.as_str());
                        push_chars(&mut url, &fc, 0, fc.len());
                        assert(fc@.subrange(0, fc.len() as int) =~= fc@);
                        Body::Empty
                    } else if form.as_str().unicode_len() == 0 {
                        Body::Empty
                    } else {
                        Body::Text {
                            content_type: Some(String::from_str("application/x-www-form-urlencoded")),
                            text: form,
                        }
                    }
                },
                _ => return Err(TaskError::FormNotMapping),
            },
            BodyType::FormMultipart => match &v {
                Value::Mapping(entries) => {
                    let fields = form_fields_of(entries);
                    proof {
                        lemma_entry_trees_of(entries@);
                    }
                    assert(pair_views(fields@) =~= form_fields(entry_trees_of(entries@)));
                    Body::Multipart(fields)
                },
                _ => return Err(TaskError::MultipartNotMapping),
            },
        },
    };
    Ok(Request { method: task.method.clone(), url, headers, body })
}


/// `pat` occurs somewhere in `s`.
pub open spec fn contains_seq(s: Seq<char>, pat: Seq<char>) -> bool {
    exists|i: int| occurs_at(s, pat, i)
}

proof fn lemma_first_occ_none(s: Seq<char>, pat: Seq<char>, from: int, i: int)
    requires
        0 <= from <= i,
        first_occ(s, pat, from) is None,
    ensures
        !occurs_at(s, pat, i),
    decreases s.len() + 1 - from,
{
    if from + pat.len() <= s.len() && from < i {
        lemma_first_occ_none(s, pat, from + 1, i);
    }
}

/// Whether `pat` occurs in `v`.
pub fn contains_chars(v: &Vec<char>, pat: &Vec<char>) -> (r: bool)
    ensures
        r == contains_seq(v@, pat@),
{
    if pat.len() == 0 {
        assert(occurs_at(v@, pat@, 0)) by {
            assert(v@.subrange(0, 0) =~= pat@);
        }
        return true;
    }
    match crate::env::find_from(v, pat.as_slice(), 0) {
        Some(p) => {
            proof {
                lemma_first_occ(v@, pat@, 0);
            }
            true
        },
        None => {
            assert forall|i: int| !occurs_at(v@, pat@, i) by {
                if i >= 0 {
                    lemma_first_occ_none(v@, pat@, 0, i);
                }
            }
            false
        },
    }
}

/// Whether one expectation holds; `Err` when it cannot be judged.
pub open spec fn eval_one(e: ExpectModel, status: u16, text: Seq<char>, json: Option<Tree>) -> Result<
    bool,
    TaskError,
> {
    match e {
        ExpectModel::Status(c) => Ok(status == c),
        ExpectModel::JsonPath(p, v) => match json {
            None => Err(TaskError::InvalidJson),
            Some(t) => match walk(t, split_on(p, '.')) {
                Err(pe) => Err(TaskError::Path(pe)),
                Ok(n) => Ok(render(n) == v),
            },
        },
        ExpectModel::Raw(c) => Ok(contains_seq(text, c)),
    }
}

/// Every expectation before position `k` holds.
pub open spec fn holds_before(es: Seq<ExpectModel>, status: u16, text: Seq<char>, json: Option<Tree>, k: int) -> bool {
    forall|j: int| 0 <= j < k ==> #[trigger] eval_one(es[j], status, text, json) == Ok::<bool, TaskError>(true)
}

/// Checking stops at position `i`: all before it hold and it does not.
pub open spec fn stops_at(es: Seq<ExpectModel>, status: u16, text: Seq<char>, json: Option<Tree>, i: int) -> bool {
    &&& 0 <= i < es.len()
    &&& holds_before(es, status, text, json, i)
    &&& eval_one(es[i], status, text, json) != Ok::<bool, TaskError>(true)
}

pub proof fn lemma_stop_unique(es: Seq<ExpectModel>, status: u16, text: Seq<char>, json: Option<Tree>, i: int, j: int)
    requires
        stops_at(es, status, text, json, i),
        stops_at(es, status, text, json, j),
    ensures
        i == j,
{
    if i < j {
        assert(eval_one(es[i], status, text, json) == Ok::<bool, TaskError>(true));
    } else if j < i {
        assert(eval_one(es[j], status, text, json) == Ok::<bool, TaskError>(true));
    }
}

/// Checks the expectations in declared order and stops at the first that
/// fails (`Ok(Some(i))`) or cannot be judged (`Err`); `Ok(None)` when all hold.
pub fn check_expectations(
    expects: &Vec<Expect>,
    status: u16,
    text: &str,
    json: &Option<Value>,
) -> (r: Result<Option<usize>, TaskError>)
    ensures
        match r {
            Ok(None) => holds_before(
                expects_of(expects@),
                status,
                text@,
                opt_tree(*json),
                expects.len() as int,
            ),
            Ok(Some(i)) => stops_at(expects_of(expects@), status, text@, opt_tree(*json), i as int)
                && eval_one(expects@[i as int]@, status, text@, opt_tree(*json)) == Ok::<
                bool,
                TaskError,
            >(false),
            Err(e) => exists|i: int|
                stops_at(expects_of(expects@), status, text@, opt_tree(*json), i) && eval_one(
                    #[trigger] expects@[i]@,
                    status,
                    text@,
                    opt_tree(*json),
                ) == Err::<bool, TaskError>(e),
        },
{
    let ghost es = expects_of(expects@);
    let tv = chars_of(text);
    let mut i: usize = 0;
    while i < expects.len()
        invariant
            i <= expects.len(),
            es == expects_of(expects@),
            tv@ == text@,
            holds_before(es, status, text@, opt_tree(*json), i as int),
        decreases expects.len() - i,
    {
        assert(es[i as int] == expects@[i as int]@);
        let verdict: Result<bool, TaskError> = match &expects[i] {
            Expect::Status { code } => Ok(status == *code),
            Expect::JsonPath { path, value } => match json {
                None => Err(TaskError::InvalidJson),
                Some(v) => {
                    let pc = chars_of(path.as_str());
                    let parts = split_chars(&pc, '.');
                    assert(crate::path::views_of(parts@).subrange(0, parts.len() as int)
                        =~= crate::path::views_of(parts@));
                    match walk_value(Some(v), &parts, 0) {
                        Err(pe) => Err(TaskError::Path(pe)),
                        Ok(n) => {
                            let node = node_value(n);
                            let shown = render_value(&node);
                            let vc = chars_of(value.as_str());
                            Ok(crate::value::str_eq_chars(shown.as_str(), &vc))
                        },
                    }
                },
            },
            Expect::Raw { contains } => {
                let cc = chars_of(contains.as_str());
                Ok(contains_chars(&tv, &cc))
            },
        };
        assert(verdict == eval_one(es[i as int], status, text@, opt_tree(*json)));
        match verdict {
            Ok(true) => {},
            Ok(false) => {
                return Ok(Some(i));
            },
            Err(e) => {
                assert(stops_at(es, status, text@, opt_tree(*json), i as int));
                return Err(e);
            },
        }
        i += 1;
    }
    Ok(None)
}

/// The model of an optional value.
pub open spec fn opt_tree(o: Option<Value>) -> Option<Tree> {
    match o {
        Some(v) => Some(v@),
        None => None,
    }
}


/// What came back from one attempt, as the caller observed it.
#[derive(Debug)]
pub enum Outcome {
    /// No response arrived (connection error, timeout and the like).
    TransportError,
    /// A response arrived: its status, its text, and that text parsed as
    /// JSON (`None` when it is not JSON).
    Received { status: u16, text: String, json: Option<Value> },
    /// A binary response was written to `path` (see `should_save`).
    Saved { status: u16, path: String, content_type: String, size: u64 },
}

/// The model of an outcome.
pub enum OutcomeModel {
    TransportError,
    Received(u16, Seq<char>, Option<Tree>),
    Saved(u16, Seq<char>, Seq<char>, u64),
}

impl View for Outcome {
    type V = OutcomeModel;

    open spec fn view(&self) -> OutcomeModel {
        match self {
            Outcome::TransportError => OutcomeModel::TransportError,
            Outcome::Received { status, text, json } => OutcomeModel::Received(
                *status,
                text@,
                opt_tree(*json),
            ),
            Outcome::Saved { status, path, content_type, size } => OutcomeModel::Saved(
                *status,
                path@,
                content_type@,
                *size,
            ),
        }
    }
}

/// The model of how one attempt ended.
pub enum Verdict {
    /// The task succeeded with this result value and text.
    Success(Tree, Seq<char>),
    /// The attempt failed and may be retried.
    Failure,
    /// The run must stop.
    Fatal(TaskError),
}

/// How one attempt ended.
#[derive(Debug)]
pub enum Attempt {
    Success(Value, String),
    Failure,
    Fatal(TaskError),
}

impl View for Attempt {
    type V = Verdict;

    open spec fn view(&self) -> Verdict {
        match self {
            Attempt::Success(v, t) => Verdict::Success(v@, t@),
            Attempt::Failure => Verdict::Failure,
            Attempt::Fatal(e) => Verdict::Fatal(*e),
        }
    }
}

pub open spec fn digit_char(d: nat) -> char {
    seq!['0', '1', '2', '3', '4', '5', '6', '7', '8', '9'][d as int]
}

/// The decimal text of `n`.
pub open spec fn decimal(n: nat) -> Seq<char>
    decreases n,
{
    if n < 10 {
        seq![digit_char(n)]
    } else {
        decimal(n / 10).push(digit_char(n % 10))
    }
}

fn digit(d: u64) -> (c: char)
    requires
        d < 10,
    ensures
        c == digit_char(d as nat),
{
    if d == 0 { '0' } else if d == 1 { '1' } else if d == 2 { '2' } else if d == 3 { '3' } else if d
        == 4 { '4' } else if d == 5 { '5' } else if d == 6 { '6' } else if d == 7 { '7' } else if d
        == 8 { '8' } else { '9' }
}

/// Appends the decimal text of `n`.
pub fn write_decimal(out: &mut String, n: u64)
    ensures
        final(out)@ == old(out)@ + decimal(n as nat),
    decreases n,
{
    if n >= 10 {
        write_decimal(out, n / 10);
    }
    push_char(out, digit(n % 10));
    assert(out@ =~= old(out)@ + decimal(n as nat));
}

/// The result object of a response that only carries text.
pub open spec fn text_object(text: Seq<char>) -> Tree {
    Tree::Mapping(seq![("text"@, Tree::Str(text))])
}

/// The result object of a response written to a file, keys in sorted order.
pub open spec fn saved_object(status: u16, path: Seq<char>, content_type: Seq<char>, size: u64) -> Tree {
    Tree::Mapping(
        seq![
            ("content_type"@, Tree::Str(content_type)),
            ("saved_as"@, Tree::Str(path)),
            ("size"@, Tree::Number(decimal(size as nat))),
            ("status"@, Tree::Number(decimal(status as nat))),
        ],
    )
}

/// The result text of a response written to a file.
pub open spec fn saved_text(path: Seq<char>) -> Seq<char> {
    "Response saved to "@ + path
}

pub open spec fn has_status(es: Seq<ExpectModel>) -> bool {
    exists|i: int| 0 <= i < es.len() && #[trigger] es[i] is Status
}

pub open spec fn has_raw(es: Seq<ExpectModel>) -> bool {
    exists|i: int| 0 <= i < es.len() && #[trigger] es[i] is Raw
}

/// A 2xx status.
pub open spec fn is_success(status: u16) -> bool {
    200 <= status < 300
}

/// The result of an attempt that passed: a text object when a `Raw`
/// expectation is present, else the parsed body; a body that is not JSON
/// fails the attempt.
pub open spec fn shape(es: Seq<ExpectModel>, text: Seq<char>, json: Option<Tree>) -> Verdict {
    if has_raw(es) {
        Verdict::Success(text_object(text), text)
    } else {
        match json {
            Some(t) => Verdict::Success(t, text),
            None => Verdict::Failure,
        }
    }
}

/// How an attempt with this outcome ends.
pub open spec fn verdict(es: Seq<ExpectModel>, o: OutcomeModel) -> Verdict {
    match o {
        OutcomeModel::TransportError => Verdict::Failure,
        OutcomeModel::Saved(status, path, ct, size) => Verdict::Success(
            saved_object(status, path, ct, size),
            saved_text(path),
        ),
        OutcomeModel::Received(status, text, json) => if exists|i: int|
            stops_at(es, status, text, json, i) {
            let i = choose|i: int| stops_at(es, status, text, json, i);
            match eval_one(es[i], status, text, json) {
                Err(e) => Verdict::Fatal(e),
                _ => Verdict::Failure,
            }
        } else if has_status(es) || is_success(status) {
            shape(es, text, json)
        } else {
            Verdict::Failure
        },
    }
}

fn has_status_exec(expects: &Vec<Expect>) -> (r: bool)
    ensures
        r == has_status(expects_of(expects@)),
{
    let mut i: usize = 0;
    while i < expects.len()
        invariant
            i <= expects.len(),
            forall|j: int| 0 <= j < i ==> !(#[trigger] expects_of(expects@)[j] is Status),
        decreases expects.len() - i,
    {
        match &expects[i] {
            Expect::Status { .. } => {
                assert(expects_of(expects@)[i as int] is Status);
                return true;
            },
            _ => {},
        }
        i += 1;
    }
    false
}

fn has_raw_exec(expects: &Vec<Expect>) -> (r: bool)
    ensures
        r == has_raw(expects_of(expects@)),
{
    let mut i: usize = 0;
    while i < expects.len()
        invariant
            i <= expects.len(),
            forall|j: int| 0 <= j < i ==> !(#[trigger] expects_of(expects@)[j] is Raw),
        decreases expects.len() - i,
    {
        match &expects[i] {
            Expect::Raw { .. } => {
                assert(expects_of(expects@)[i as int] is Raw);
                return true;
            },
            _ => {},
        }
        i += 1;
    }
    false
}

/// The result object of a response that only carries text.
pub fn text_object_of(text: &String) -> (r: Value)
    ensures
        r@ == text_object(text@),
{
    let entries = vec![(String::from_str("text"), Value::Str(text.clone()))];
    let r = Value::Mapping(entries);
    proof {
        lemma_entry_trees_of(entries@);
    }
    assert(entry_trees_of(entries@) =~= seq![("text"@, Tree::Str(text@))]);
    r
}

fn number_of(n: u64) -> (r: Value)
    ensures
        r@ == Tree::Number(decimal(n as nat)),
{
    let mut s = String::new();
    write_decimal(&mut s, n);
    assert(s@ =~= decimal(n as nat));
    Value::Number(s)
}

/// The result of a response that was written to a file.
pub fn saved_result(status: u16, path: &String, content_type: &String, size: u64) -> (r: (Value, String))
    ensures
        r.0@ == saved_object(status, path@, content_type@, size),
        r.1@ == saved_text(path@),
{
    let entries = vec![
        (String::from_str("content_type"), Value::Str(content_type.clone())),
        (String::from_str("saved_as"), Value::Str(path.clone())),
        (String::from_str("size"), number_of(size)),
        (String::from_str("status"), number_of(status as u64)),
    ];
    proof {
        lemma_entry_trees_of(entries@);
    }
    let ghost es = seq![
        ("content_type"@, Tree::Str(content_type@)),
        ("saved_as"@, Tree::Str(path@)),
        ("size"@, Tree::Number(decimal(size as nat))),
        ("status"@, Tree::Number(decimal(status as nat))),
    ];
    assert(entry_trees_of(entries@) =~= es);
    let v = Value::Mapping(entries);
    let mut text = String::from_str("Response saved to ");
    let pc = chars_of(path.as_str());
    push_chars(&mut text, &pc, 0, pc.len());
    assert(pc@.subrange(0, pc.len() as int) =~= pc@);
    (v, text)
}

/// Judges one attempt from its outcome.
pub fn judge(expects: &Vec<Expect>, outcome: &Outcome) -> (r: Attempt)
    ensures
        r@ == verdict(expects_of(expects@), outcome@),
{
    let ghost es = expects_of(expects@);
    match outcome {
        Outcome::TransportError => Attempt::Failure,
        Outcome::Saved { status, path, content_type, size } => {
            let (v, t) = saved_result(*status, path, content_type, *size);
            Attempt::Success(v, t)
        },
        Outcome::Received { status, text, json } => {
            let ghost jt = opt_tree(*json);
            match check_expectations(expects, *status, text.as_str(), json) {
                Err(e) => {
                    proof {
                        let i = choose|i: int| stops_at(es, *status, text@, jt, i) && eval_one(
                            #[trigger] expects@[i]@,
                            *status,
                            text@,
                            jt,
                        ) == Err::<bool, TaskError>(e);
                        let k = choose|k: int| stops_at(es, *status, text@, jt, k);
                        lemma_stop_unique(es, *status, text@, jt, i, k);
                    }
                    Attempt::Fatal(e)
                },
                Ok(Some(i)) => {
                    proof {
                        let k = choose|k: int| stops_at(es, *status, text@, jt, k);
                        lemma_stop_unique(es, *status, text@, jt, i as int, k);
                    }
                    Attempt::Failure
                },
                Ok(None) => {
                    assert(!exists|i: int| stops_at(es, *status, text@, jt, i));
                    let st = has_status_exec(expects);
                    if st || (200 <= *status && *status < 300) {
                        if has_raw_exec(expects) {
                            Attempt::Success(text_object_of(text), text.clone())
                        } else {
                            match json {
                                Some(v) => Attempt::Success(v.copy(), text.clone()),
                                None => Attempt::Failure,
                            }
                        }
                    } else {
                        Attempt::Failure
                    }
                },
            }
        },
    }
}


/// A response is written to a file when the task names a path and the
/// content type is a stream, octet stream or image.
pub open spec fn saves(save_as: Option<String>, content_type: Seq<char>) -> bool {
    &&& save_as is Some
    &&& (contains_seq(content_type, "stream"@) || contains_seq(content_type, "octet-stream"@)
        || (content_type.len() >= 6 && content_type.subrange(0, 6) == "image/"@))
}

/// Whether a response with this content type is written to the task's file.
pub fn should_save(save_as: &Option<String>, content_type: &str) -> (r: bool)
    ensures
        r == saves(*save_as, content_type@),
{
    if save_as.is_none() {
        return false;
    }
    let ct = chars_of(content_type);
    let stream = chars_of("stream");
    let octet = chars_of("octet-stream");
    let image = chars_of("image/");
    if contains_chars(&ct, &stream) || contains_chars(&ct, &octet) {
        return true;
    }
    proof {
        reveal_strlit("image/");
    }
    let r = ct.len() >= 6 && ct[0] == image[0] && ct[1] == image[1] && ct[2] == image[2] && ct[3]
        == image[3] && ct[4] == image[4] && ct[5] == image[5];
    assert(r ==> ct@.subrange(0, 6) =~= "image/"@);
    assert(ct@.len() >= 6 && ct@.subrange(0, 6) == "image/"@ ==> r) by {
        if ct@.len() >= 6 && ct@.subrange(0, 6) == "image/"@ {
            assert(ct@[0] == ct@.subrange(0, 6)[0]);
            assert(ct@[1] == ct@.subrange(0, 6)[1]);
            assert(ct@[2] == ct@.subrange(0, 6)[2]);
            assert(ct@[3] == ct@.subrange(0, 6)[3]);
            assert(ct@[4] == ct@.subrange(0, 6)[4]);
            assert(ct@[5] == ct@.subrange(0, 6)[5]);
        }
    }
    r
}

/// With no expectations, a 2xx response whose body is JSON succeeds with
/// that body, and a response with any other status fails the attempt (which
/// `TaskRun::next` then retries until the budget is spent).
pub proof fn lemma_no_expectations(status: u16, text: Seq<char>, json: Option<Tree>)
    ensures
        is_success(status) && json is Some ==> verdict(
            Seq::<ExpectModel>::empty(),
            OutcomeModel::Received(status, text, json),
        ) == Verdict::Success(json->0, text),
        !is_success(status) ==> verdict(
            Seq::<ExpectModel>::empty(),
            OutcomeModel::Received(status, text, json),
        ) == Verdict::Failure,
{
    let es = Seq::<ExpectModel>::empty();
    assert(!exists|i: int| stops_at(es, status, text, json, i));
    assert(!has_status(es));
    assert(!has_raw(es));
}

/// Expectations are judged in declared order and the first one that does
/// not hold ends the check: what follows it has no bearing on the verdict.
pub proof fn lemma_first_mismatch_halts(
    es: Seq<ExpectModel>,
    later: Seq<ExpectModel>,
    status: u16,
    text: Seq<char>,
    json: Option<Tree>,
    i: int,
)
    requires
        stops_at(es, status, text, json, i),
        i < later.len(),
        later.subrange(0, i + 1) == es.subrange(0, i + 1),
    ensures
        stops_at(later, status, text, json, i),
        verdict(later, OutcomeModel::Received(status, text, json)) == verdict(
            es,
            OutcomeModel::Received(status, text, json),
        ),
{
    assert forall|j: int| 0 <= j <= i implies later[j] == es[j] by {
        assert(later.subrange(0, i + 1)[j] == later[j]);
        assert(es.subrange(0, i + 1)[j] == es[j]);
    }
    assert(later[i] == es[i]);
    assert(holds_before(later, status, text, json, i)) by {
        assert forall|j: int| 0 <= j < i implies #[trigger] eval_one(later[j], status, text, json)
            == Ok::<bool, TaskError>(true) by {
            assert(later[j] == es[j]);
            assert(eval_one(es[j], status, text, json) == Ok::<bool, TaskError>(true));
        }
    }
    assert(stops_at(later, status, text, json, i));
    let a = choose|k: int| stops_at(es, status, text, json, k);
    let b = choose|k: int| stops_at(later, status, text, json, k);
    lemma_stop_unique(es, status, text, json, a, i);
    lemma_stop_unique(later, status, text, json, b, i);
}

/// What the caller does after an attempt.
#[derive(Debug)]
pub enum Step {
    /// The task succeeded with this result value and text.
    Done { json: Value, text: String },
    /// Wait this many seconds, then send the same request again.
    Retry { delay_secs: u64 },
    /// The task failed; the run stops.
    Failed(TaskError),
}

/// The model of a step.
pub enum StepModel {
    Done(Tree, Seq<char>),
    Retry(u64),
    Failed(TaskError),
}

impl View for Step {
    type V = StepModel;

    open spec fn view(&self) -> StepModel {
        match self {
            Step::Done { json, text } => StepModel::Done(json@, text@),
            Step::Retry { delay_secs } => StepModel::Retry(*delay_secs),
            Step::Failed(e) => StepModel::Failed(*e),
        }
    }
}

/// The step after the `attempts`-th attempt ended with `v`, for a task that
/// allows `retries` retries spaced by `delay` seconds.
pub open spec fn step_model(attempts: nat, retries: nat, delay: u64, v: Verdict) -> StepModel {
    match v {
        Verdict::Success(j, t) => StepModel::Done(j, t),
        Verdict::Fatal(e) => StepModel::Failed(e),
        Verdict::Failure => if attempts > retries {
            StepModel::Failed(TaskError::RetriesExhausted)
        } else {
            StepModel::Retry(delay)
        },
    }
}

/// A task whose attempts all fail makes exactly `retries + 1` of them: each
/// of the first `retries` failures is retried after the fixed delay, and the
/// next one ends the run.
pub proof fn lemma_attempt_budget(retries: nat, delay: u64, k: nat)
    requires
        1 <= k <= retries + 1,
    ensures
        k <= retries ==> step_model(k, retries, delay, Verdict::Failure) == StepModel::Retry(delay),
        k == retries + 1 ==> step_model(k, retries, delay, Verdict::Failure) == StepModel::Failed(
            TaskError::RetriesExhausted,
        ),
{
}

/// The retry state of one task: how many attempts have been judged, out of
/// `retries + 1` allowed.
#[derive(Debug)]
pub struct TaskRun {
    attempts: u64,
    retries: u32,
    retry_delay: u64,
}

impl TaskRun {
    pub closed spec fn attempts(&self) -> nat {
        self.attempts as nat
    }

    pub closed spec fn retries(&self) -> nat {
        self.retries as nat
    }

    pub closed spec fn retry_delay(&self) -> u64 {
        self.retry_delay
    }

    /// No attempt judged yet.
    pub fn new(retries: u32, retry_delay: u64) -> (r: TaskRun)
        ensures
            r.attempts() == 0,
            r.retries() == retries,
            r.retry_delay() == retry_delay,
    {
        TaskRun { attempts: 0, retries, retry_delay }
    }

    /// Whether another attempt is allowed.
    pub fn may_attempt(&self) -> (r: bool)
        ensures
            r == (self.attempts() <= self.retries()),
    {
        self.attempts <= self.retries as u64
    }

    /// Judges the outcome of the next attempt and says what to do: a success
    /// ends the task, a fatal condition stops it, and a failed attempt is
    /// retried after the fixed delay until `retries + 1` attempts have failed.
    pub fn next(&mut self, expects: &Vec<Expect>, outcome: &Outcome) -> (s: Step)
        requires
            old(self).attempts() <= old(self).retries(),
        ensures
            final(self).attempts() == old(self).attempts() + 1,
            final(self).retries() == old(self).retries(),
            final(self).retry_delay() == old(self).retry_delay(),
            s@ == step_model(
                final(self).attempts(),
                final(self).retries(),
                final(self).retry_delay(),
                verdict(expects_of(expects@), outcome@),
            ),
    {
        self.attempts = self.attempts + 1;
        match judge(expects, outcome) {
            Attempt::Success(json, text) => Step::Done { json, text },
            Attempt::Fatal(e) => Step::Failed(e),
            Attempt::Failure => {
                if self.attempts > self.retries as u64 {
                    Step::Failed(TaskError::RetriesExhausted)
                } else {
                    Step::Retry { delay_secs: self.retry_delay }
                }
            },
        }
    }
}

} // verus!
