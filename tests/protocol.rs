use crabflow::env::{substitute_env, substitute_whole, EnvResolver};
use crabflow::http::{
    basic_auth_value, basic_value, build_request, check_expectations, judge, saved_result,
    should_save, text_object_of, write_decimal, Attempt, Body, Outcome, Step, TaskError, TaskRun,
};
use crabflow::json::{render_value, to_json};
use crabflow::path::PathError;
use crabflow::registry::{Environment, RegisteredResponse, Registry};
use crabflow::types::{default_retries, default_retry_delay, BasicAuth, BodyType, Expect, Task};
use crabflow::value::Value;
use crabflow::workflow::{missing_dependency, register_result, task_kind, TaskKind};

fn s(x: &str) -> Value {
    Value::Str(x.to_string())
}

fn map(entries: Vec<(&str, Value)>) -> Value {
    Value::Mapping(entries.into_iter().map(|(k, v)| (k.to_string(), v)).collect())
}

fn task(method: &str, url: &str) -> Task {
    Task {
        name: "t".to_string(),
        kind: "http".to_string(),
        method: method.to_string(),
        url: url.to_string(),
        headers: Vec::new(),
        body: None,
        body_type: None,
        depends_on: Vec::new(),
        retries: default_retries(),
        retry_delay: default_retry_delay(),
        expect: Vec::new(),
        register: None,
        auth: None,
        save_as: None,
        variables: None,
    }
}

fn env_with(pairs: &[(&str, &str)]) -> Environment {
    let mut env = Environment::new();
    for (k, v) in pairs {
        env.set(k.to_string(), v.to_string());
    }
    env
}

fn received(status: u16, text: &str, json: Option<Value>) -> Outcome {
    Outcome::Received { status, text: text.to_string(), json }
}

fn header<'a>(headers: &'a [(String, String)], name: &str) -> Option<&'a str> {
    headers.iter().rev().find(|(k, _)| k == name).map(|(_, v)| v.as_str())
}

#[test]
fn defaults_are_one_retry_and_five_seconds() {
    assert_eq!(default_retries(), 1);
    assert_eq!(default_retry_delay(), 5);
}

#[test]
fn url_env_placeholder_is_substituted() {
    let env = env_with(&[("PASSWD", "secret123")]);
    let mut t = task("GET", "http://h/basic-auth/{{env.PASSWD}}");
    t.resolve_env_vars(&env);
    assert_eq!(t.url, "http://h/basic-auth/secret123");
}

#[test]
fn url_with_several_placeholders_and_missing_one() {
    let env = env_with(&[("A", "x{{env.B}}"), ("C", "c")]);
    let url = substitute_env("http://{{env.A}}/{{env.C}}/{{env.NOPE}}/end", &env);
    assert_eq!(url, "http://x{{env.B}}/c//end");
}

#[test]
fn url_with_unclosed_placeholder_stays() {
    let env = env_with(&[("A", "a")]);
    assert_eq!(substitute_env("http://h/{{env.A}}/{{env.B", &env), "http://h/a/{{env.B");
}

#[test]
fn whole_field_placeholders_in_auth_headers_and_expectations() {
    let env = env_with(&[("USER", "alice"), ("KEY", "k-1"), ("WANT", "ok")]);
    let mut t = task("GET", "http://h/");
    t.auth = Some(BasicAuth { username: "{{env.USER}}".to_string(), password: "pw".to_string() });
    t.headers = vec![
        ("X-Key".to_string(), "{{env.KEY}}".to_string()),
        ("X-Mixed".to_string(), "a{{env.KEY}}".to_string()),
    ];
    t.expect = vec![
        Expect::Status { code: 200 },
        Expect::JsonPath { path: "a.b".to_string(), value: "{{env.WANT}}".to_string() },
        Expect::Raw { contains: "{{env.MISSING}}".to_string() },
    ];
    t.resolve_env_vars(&env);
    let auth = t.auth.unwrap();
    assert_eq!(auth.username, "alice");
    assert_eq!(auth.password, "pw");
    assert_eq!(t.headers[0].1, "k-1");
    assert_eq!(t.headers[1].1, "a{{env.KEY}}");
    match &t.expect[1] {
        Expect::JsonPath { path, value } => {
            assert_eq!(path, "a.b");
            assert_eq!(value, "ok");
        }
        _ => panic!("kind changed"),
    }
    match &t.expect[2] {
        Expect::Raw { contains } => assert_eq!(contains, ""),
        _ => panic!("kind changed"),
    }
}

#[test]
fn whole_field_needs_the_env_marker_at_the_start() {
    let env = env_with(&[("A", "a")]);
    assert_eq!(substitute_whole(&"{{{env.A}}".to_string(), &env), "{{{env.A}}");
    assert_eq!(substitute_whole(&"{{env.A}}".to_string(), &env), "a");
}

#[test]
fn basic_auth_header_is_base64_of_user_colon_password() {
    let auth = BasicAuth { username: "user".to_string(), password: "pass".to_string() };
    assert_eq!(basic_auth_value(&auth), "Basic dXNlcjpwYXNz");
    assert_eq!(basic_value("abc"), "Basic abc");
}

#[test]
fn request_headers_in_order() {
    let mut t = task("POST", "http://h/");
    t.auth = Some(BasicAuth { username: "user".to_string(), password: "pass".to_string() });
    t.headers = vec![("X-A".to_string(), "1".to_string())];
    let req = build_request(&t, &Registry::new(), &Environment::new(), true, "1.2.3").unwrap();
    let names: Vec<&str> = req.headers.iter().map(|(k, _)| k.as_str()).collect();
    assert_eq!(names, vec!["user-agent", "x-crabflow-task", "authorization", "X-A"]);
    assert_eq!(header(&req.headers, "user-agent"), Some("crabflow/1.2.3"));
    assert_eq!(header(&req.headers, "x-crabflow-task"), Some("t"));
    assert_eq!(header(&req.headers, "authorization"), Some("Basic dXNlcjpwYXNz"));
    let quiet = build_request(&t, &Registry::new(), &Environment::new(), false, "1.2.3").unwrap();
    assert_eq!(header(&quiet.headers, "x-crabflow-task"), None);
    assert!(matches!(quiet.body, Body::Empty));
}

#[test]
fn form_get_appends_query_and_sends_no_body() {
    let mut t = task("GET", "http://h/get");
    t.body = Some(map(vec![("q", s("x"))]));
    t.body_type = Some(BodyType::FormUrlencoded);
    let req = build_request(&t, &Registry::new(), &Environment::new(), false, "0").unwrap();
    assert_eq!(req.url, "http://h/get?q=x");
    assert!(matches!(req.body, Body::Empty));

    let mut t2 = task("get", "http://h/get?a=1");
    t2.body = Some(map(vec![("q", s("x"))]));
    t2.body_type = Some(BodyType::FormUrlencoded);
    let req2 = build_request(&t2, &Registry::new(), &Environment::new(), false, "0").unwrap();
    assert_eq!(req2.url, "http://h/get?a=1&q=x");
    assert!(matches!(req2.body, Body::Empty));
}

#[test]
fn form_post_is_an_unescaped_body() {
    let mut t = task("POST", "http://h/post");
    t.body = Some(map(vec![("a", s("1 2")), ("n", Value::Number("5".to_string())), ("b", s("&"))]));
    t.body_type = Some(BodyType::FormUrlencoded);
    let req = build_request(&t, &Registry::new(), &Environment::new(), false, "0").unwrap();
    assert_eq!(req.url, "http://h/post");
    match req.body {
        Body::Text { content_type, text } => {
            assert_eq!(content_type.as_deref(), Some("application/x-www-form-urlencoded"));
            assert_eq!(text, "a=1 2&n=&b=&");
        }
        _ => panic!("expected a text body"),
    }
}

#[test]
fn form_post_with_empty_mapping_sends_nothing() {
    let mut t = task("POST", "http://h/post");
    t.body = Some(Value::Mapping(Vec::new()));
    t.body_type = Some(BodyType::FormUrlencoded);
    let req = build_request(&t, &Registry::new(), &Environment::new(), false, "0").unwrap();
    assert!(matches!(req.body, Body::Empty));
}

#[test]
fn form_body_must_be_a_mapping() {
    let mut t = task("POST", "http://h/post");
    t.body = Some(s("a=b"));
    t.body_type = Some(BodyType::FormUrlencoded);
    assert_eq!(build_request(&t, &Registry::new(), &Environment::new(), false, "0").unwrap_err(), TaskError::FormNotMapping);
    t.body_type = Some(BodyType::FormMultipart);
    assert_eq!(build_request(&t, &Registry::new(), &Environment::new(), false, "0").unwrap_err(), TaskError::MultipartNotMapping);
}

#[test]
fn multipart_fields_are_text() {
    let mut t = task("POST", "http://h/post");
    t.body = Some(map(vec![("a", s("1")), ("b", Value::Bool(true))]));
    t.body_type = Some(BodyType::FormMultipart);
    let req = build_request(&t, &Registry::new(), &Environment::new(), false, "0").unwrap();
    match req.body {
        Body::Multipart(fields) => {
            assert_eq!(fields, vec![("a".to_string(), "1".to_string()), ("b".to_string(), String::new())]);
        }
        _ => panic!("expected multipart"),
    }
}

#[test]
fn json_body_is_compact_json() {
    let mut t = task("POST", "http://h/post");
    t.body = Some(map(vec![
        ("a", Value::Sequence(vec![Value::Number("1".to_string()), Value::Null, Value::Bool(false)])),
        ("s", s("q\"\\\n\u{1}")),
    ]));
    let req = build_request(&t, &Registry::new(), &Environment::new(), false, "0").unwrap();
    match req.body {
        Body::Text { content_type, text } => {
            assert_eq!(content_type.as_deref(), Some("application/json"));
            assert_eq!(text, "{\"a\":[1,null,false],\"s\":\"q\\\"\\\\\\n\\u0001\"}");
        }
        _ => panic!("expected a text body"),
    }
}

#[test]
fn raw_body_is_sent_as_is_without_content_type() {
    let mut t = task("PUT", "http://h/put");
    t.body = Some(s("hello"));
    t.body_type = Some(BodyType::Raw);
    let req = build_request(&t, &Registry::new(), &Environment::new(), false, "0").unwrap();
    match req.body {
        Body::Text { content_type, text } => {
            assert_eq!(content_type, None);
            assert_eq!(text, "hello");
        }
        _ => panic!("expected a text body"),
    }
}

#[test]
fn body_reference_error_is_fatal() {
    let mut registry = Registry::new();
    registry.insert("r".to_string(), RegisteredResponse { json: map(vec![("l", Value::Sequence(vec![]))]), text: String::new() });
    let mut t = task("POST", "http://h/post");
    t.body = Some(map(vec![("x", s("{{r.json.l[0]}}"))]));
    assert_eq!(
        build_request(&t, &registry, &Environment::new(), false, "0").unwrap_err(),
        TaskError::Reference(PathError::NoElement)
    );
}

#[test]
fn body_references_are_resolved_before_encoding() {
    let mut registry = Registry::new();
    registry.insert("r".to_string(), RegisteredResponse { json: map(vec![("id", Value::Number("42".to_string()))]), text: String::new() });
    let mut t = task("POST", "http://h/post");
    t.body = Some(map(vec![("id", s("{{r.json.id}}"))]));
    let req = build_request(&t, &registry, &Environment::new(), false, "0").unwrap();
    match req.body {
        Body::Text { text, .. } => assert_eq!(text, "{\"id\":42}"),
        _ => panic!("expected a text body"),
    }
}

#[test]
fn rendering_strips_quotes_and_keeps_null() {
    assert_eq!(render_value(&Value::Null), "null");
    assert_eq!(render_value(&s("John")), "John");
    assert_eq!(render_value(&Value::Bool(true)), "true");
    assert_eq!(render_value(&Value::Number("2.5".to_string())), "2.5");
    assert_eq!(render_value(&map(vec![("a", s("b"))])), "{\"a\":\"b\"}");
    assert_eq!(to_json(&s("\"x\"")), "\"\\\"x\\\"\"");
    assert_eq!(render_value(&s("\"x\"")), "\\\"x\\");
}

#[test]
fn decimal_text() {
    let mut out = String::from("n=");
    write_decimal(&mut out, 0);
    write_decimal(&mut out, 1234567890123);
    assert_eq!(out, "n=01234567890123");
}

#[test]
fn expectations_stop_at_first_mismatch() {
    let expects = vec![
        Expect::Status { code: 201 },
        Expect::JsonPath { path: "a".to_string(), value: "1".to_string() },
    ];
    // The second expectation would fail on a body that is not JSON, but it is never reached.
    assert_eq!(check_expectations(&expects, 200, "not json", &None), Ok(Some(0)));
    assert_eq!(check_expectations(&expects, 201, "not json", &None), Err(TaskError::InvalidJson));
}

#[test]
fn json_path_expectation_compares_rendered_text() {
    let body = map(vec![("data", map(vec![("users", Value::Sequence(vec![map(vec![("name", s("John"))])]))]))]);
    let ok = vec![Expect::JsonPath { path: "data.users[0].name".to_string(), value: "John".to_string() }];
    let bad = vec![Expect::JsonPath { path: "data.users[0].name".to_string(), value: "Jane".to_string() }];
    let null = vec![Expect::JsonPath { path: "data.none".to_string(), value: "null".to_string() }];
    let out_of_range = vec![Expect::JsonPath { path: "data.users[5].name".to_string(), value: "x".to_string() }];
    let json = Some(body);
    assert_eq!(check_expectations(&ok, 200, "", &json), Ok(None));
    assert_eq!(check_expectations(&bad, 200, "", &json), Ok(Some(0)));
    assert_eq!(check_expectations(&null, 200, "", &json), Ok(None));
    assert_eq!(check_expectations(&out_of_range, 200, "", &json), Err(TaskError::Path(PathError::NoElement)));
}

#[test]
fn raw_expectation_is_a_substring_test() {
    let e = vec![Expect::Raw { contains: "lo w".to_string() }];
    assert_eq!(check_expectations(&e, 500, "hello world", &None), Ok(None));
    assert_eq!(check_expectations(&e, 500, "hello", &None), Ok(Some(0)));
    let empty = vec![Expect::Raw { contains: String::new() }];
    assert_eq!(check_expectations(&empty, 500, "", &None), Ok(None));
}

#[test]
fn no_expectations_success_needs_2xx_and_json() {
    let none: Vec<Expect> = Vec::new();
    match judge(&none, &received(200, "{}", Some(map(vec![])))) {
        Attempt::Success(v, t) => {
            assert_eq!(v, map(vec![]));
            assert_eq!(t, "{}");
        }
        other => panic!("{:?}", other),
    }
    assert!(matches!(judge(&none, &received(204, "", None)), Attempt::Failure));
    assert!(matches!(judge(&none, &received(404, "{}", Some(map(vec![])))), Attempt::Failure));
    assert!(matches!(judge(&none, &Outcome::TransportError), Attempt::Failure));
}

#[test]
fn status_expectation_accepts_non_2xx() {
    let e = vec![Expect::Status { code: 404 }];
    assert!(matches!(judge(&e, &received(404, "[]", Some(Value::Sequence(vec![])))), Attempt::Success(..)));
}

#[test]
fn raw_expectation_shapes_a_text_object() {
    let e = vec![Expect::Status { code: 200 }, Expect::Raw { contains: "ok".to_string() }];
    match judge(&e, &received(200, "all ok", None)) {
        Attempt::Success(v, t) => {
            assert_eq!(v, text_object_of(&"all ok".to_string()));
            assert_eq!(v, map(vec![("text", s("all ok"))]));
            assert_eq!(t, "all ok");
        }
        other => panic!("{:?}", other),
    }
}

#[test]
fn saved_response_summary() {
    let (v, t) = saved_result(200, &"out.png".to_string(), &"image/png".to_string(), 1234);
    assert_eq!(
        v,
        map(vec![
            ("content_type", s("image/png")),
            ("saved_as", s("out.png")),
            ("size", Value::Number("1234".to_string())),
            ("status", Value::Number("200".to_string())),
        ])
    );
    assert_eq!(t, "Response saved to out.png");
    let saved = Outcome::Saved { status: 500, path: "f".to_string(), content_type: "image/png".to_string(), size: 1 };
    assert!(matches!(judge(&vec![Expect::Status { code: 200 }], &saved), Attempt::Success(..)));
}

#[test]
fn binary_content_types_are_saved() {
    let path = Some("f".to_string());
    assert!(should_save(&path, "application/octet-stream"));
    assert!(should_save(&path, "text/event-stream"));
    assert!(should_save(&path, "image/png"));
    assert!(!should_save(&path, "application/json"));
    assert!(!should_save(&path, "text/image/"));
    assert!(!should_save(&None, "image/png"));
}

#[test]
fn retries_two_makes_three_attempts_then_fails() {
    let expects = vec![Expect::Status { code: 200 }];
    let mut run = TaskRun::new(2, 0);
    let mut attempts = 0;
    let result = loop {
        assert!(run.may_attempt());
        attempts += 1;
        match run.next(&expects, &received(500, "err", None)) {
            Step::Retry { delay_secs } => assert_eq!(delay_secs, 0),
            Step::Failed(e) => break e,
            Step::Done { .. } => panic!("cannot succeed"),
        }
    };
    assert_eq!(attempts, 3);
    assert_eq!(result, TaskError::RetriesExhausted);
    assert!(!run.may_attempt());
}

#[test]
fn no_expectations_non_2xx_exhausts_retries() {
    let none: Vec<Expect> = Vec::new();
    let mut run = TaskRun::new(1, 7);
    assert!(matches!(run.next(&none, &received(503, "", None)), Step::Retry { delay_secs: 7 }));
    assert!(matches!(run.next(&none, &received(503, "", None)), Step::Failed(TaskError::RetriesExhausted)));
}

#[test]
fn retry_then_success() {
    let none: Vec<Expect> = Vec::new();
    let mut run = TaskRun::new(3, 1);
    assert!(matches!(run.next(&none, &Outcome::TransportError), Step::Retry { .. }));
    match run.next(&none, &received(200, "[1]", Some(Value::Sequence(vec![Value::Number("1".to_string())])))) {
        Step::Done { json, text } => {
            assert_eq!(json, Value::Sequence(vec![Value::Number("1".to_string())]));
            assert_eq!(text, "[1]");
        }
        other => panic!("{:?}", other),
    }
}

#[test]
fn fatal_expectation_error_is_not_retried() {
    let e = vec![Expect::JsonPath { path: "a".to_string(), value: "1".to_string() }];
    let mut run = TaskRun::new(5, 0);
    assert!(matches!(run.next(&e, &received(200, "<html>", None)), Step::Failed(TaskError::InvalidJson)));
}

#[test]
fn task_kinds() {
    assert_eq!(task_kind("http"), TaskKind::Http);
    assert_eq!(task_kind("display"), TaskKind::Display);
    assert_eq!(task_kind("HTTP"), TaskKind::Unknown);
}

#[test]
fn dependencies_must_have_completed() {
    let done = vec!["a".to_string(), "b".to_string()];
    assert_eq!(missing_dependency(&vec!["b".to_string(), "a".to_string()], &done), None);
    assert_eq!(missing_dependency(&vec!["a".to_string(), "c".to_string(), "d".to_string()], &done), Some(1));
    assert_eq!(missing_dependency(&Vec::new(), &Vec::new()), None);
}

#[test]
fn success_is_registered_under_the_register_name() {
    let mut registry = Registry::new();
    let mut t = task("GET", "http://h/");
    register_result(&mut registry, &t, map(vec![]), "x".to_string());
    assert!(registry.is_empty());
    t.register = Some("saved".to_string());
    register_result(&mut registry, &t, map(vec![("k", s("v"))]), "raw".to_string());
    assert!(registry.contains("saved"));
    let current = registry.current();
    assert_eq!(current.len(), 1);
    assert_eq!(current[0].0, "saved");
    assert_eq!(current[0].1.text, "raw");
}
