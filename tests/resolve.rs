use crabflow::path::PathError;
use crabflow::registry::{Environment, RegisteredResponse, Registry};
use crabflow::resolve::resolve_references;
use crabflow::value::Value;

fn s(x: &str) -> Value {
    Value::Str(x.to_string())
}

fn n(x: &str) -> Value {
    Value::Number(x.to_string())
}

fn map(entries: Vec<(&str, Value)>) -> Value {
    Value::Mapping(entries.into_iter().map(|(k, v)| (k.to_string(), v)).collect())
}

fn field<'a>(v: &'a Value, key: &str) -> &'a Value {
    match v {
        Value::Mapping(entries) => {
            for (k, x) in entries {
                if k == key {
                    return x;
                }
            }
            panic!("no key {}", key)
        }
        _ => panic!("not a mapping"),
    }
}

fn item(v: &Value, i: usize) -> &Value {
    match v {
        Value::Sequence(items) => &items[i],
        _ => panic!("not a sequence"),
    }
}

fn create_test_registry() -> Registry {
    let mut registry = Registry::new();
    registry.insert(
        "task1".to_string(),
        RegisteredResponse {
            json: map(vec![(
                "data",
                map(vec![
                    (
                        "users",
                        Value::Sequence(vec![
                            map(vec![("name", s("John")), ("age", n("30"))]),
                            map(vec![("name", s("Jane")), ("age", n("25"))]),
                        ]),
                    ),
                    ("settings", map(vec![("enabled", Value::Bool(true))])),
                ]),
            )]),
            text: "Test response text".to_string(),
        },
    );
    registry.insert(
        "urlencoded".to_string(),
        RegisteredResponse {
            json: map(vec![("args", map(vec![("foo", Value::Sequence(vec![s("bar")]))]))]),
            text: "Test response text".to_string(),
        },
    );
    registry
}

fn env_with(pairs: &[(&str, &str)]) -> Environment {
    let mut env = Environment::new();
    for (k, v) in pairs {
        env.set(k.to_string(), v.to_string());
    }
    env
}

#[test]
fn test_resolve_env_variable() {
    let env = env_with(&[("TEST_VAR", "test_value")]);
    let mut value = map(vec![("key", s("{{env.TEST_VAR}}"))]);
    let registry = Registry::new();

    resolve_references(&mut value, &registry, &env).unwrap();

    assert_eq!(field(&value, "key"), &s("test_value"));
}

#[test]
fn test_resolve_env_in_url() {
    let env = env_with(&[("PASSWD", "secret123")]);

    let name: Vec<char> = "PASSWD".chars().collect();
    assert_eq!(env.get(&name).unwrap(), "secret123");

    let mut value = map(vec![(
        "url",
        map(vec![
            ("base", s("http://localhost:8080/basic-auth/user/")),
            ("password", s("{{env.PASSWD}}")),
        ]),
    )]);
    let registry = Registry::new();

    resolve_references(&mut value, &registry, &env).unwrap();

    assert_eq!(field(field(&value, "url"), "base"), &s("http://localhost:8080/basic-auth/user/"));
    assert_eq!(field(field(&value, "url"), "password"), &s("secret123"));
}

#[test]
fn test_resolve_env_in_headers() {
    let env = env_with(&[("X_API_KEY", "api-key-123")]);
    let mut value = map(vec![("headers", map(vec![("X-Api-Key", s("{{env.X_API_KEY}}"))]))]);
    let registry = Registry::new();

    resolve_references(&mut value, &registry, &env).unwrap();

    assert_eq!(field(field(&value, "headers"), "X-Api-Key"), &s("api-key-123"));
}

#[test]
fn test_resolve_env_in_form_data() {
    let env = env_with(&[("FOO", "bar-value")]);
    let mut value = map(vec![("body", map(vec![("foo", s("{{env.FOO}}"))]))]);
    let registry = Registry::new();

    resolve_references(&mut value, &registry, &env).unwrap();

    assert_eq!(field(field(&value, "body"), "foo"), &s("bar-value"));
}

#[test]
fn test_resolve_registered_response() {
    let mut value = map(vec![
        ("user", s("{{task1.json.data.users[0].name}}")),
        ("setting", s("{{task1.json.data.settings.enabled}}")),
    ]);
    let registry = create_test_registry();

    resolve_references(&mut value, &registry, &Environment::new()).unwrap();

    assert_eq!(field(&value, "user"), &s("John"));
    assert_eq!(field(&value, "setting"), &Value::Bool(true));
}

#[test]
fn test_resolve_nested_structure() {
    let mut value = map(vec![(
        "config",
        map(vec![(
            "user_info",
            map(vec![
                ("name", s("{{task1.json.data.users[1].name}}")),
                ("age", s("{{task1.json.data.users[1].age}}")),
            ]),
        )]),
    )]);
    let registry = create_test_registry();

    resolve_references(&mut value, &registry, &Environment::new()).unwrap();

    assert_eq!(field(field(field(&value, "config"), "user_info"), "name"), &s("Jane"));
    assert_eq!(field(field(field(&value, "config"), "user_info"), "age"), &n("25"));
}

#[test]
fn test_resolve_array() {
    let mut value = map(vec![(
        "users",
        Value::Sequence(vec![
            s("{{task1.json.data.users[0].name}}"),
            s("{{task1.json.data.users[1].name}}"),
        ]),
    )]);
    let registry = create_test_registry();

    resolve_references(&mut value, &registry, &Environment::new()).unwrap();

    assert_eq!(item(field(&value, "users"), 0), &s("John"));
    assert_eq!(item(field(&value, "users"), 1), &s("Jane"));
}

#[test]
fn test_resolve_simple_response_reference() {
    let mut value = map(vec![("args", s("{{urlencoded.json.args}}"))]);
    let registry = create_test_registry();

    resolve_references(&mut value, &registry, &Environment::new()).unwrap();

    assert_eq!(item(field(field(&value, "args"), "foo"), 0), &s("bar"));
}

#[test]
fn test_resolve_nested_array_reference() {
    let mut value = map(vec![("foo", s("{{urlencoded.json.args.foo[0]}}"))]);
    let registry = create_test_registry();

    resolve_references(&mut value, &registry, &Environment::new()).unwrap();

    assert_eq!(field(&value, "foo"), &s("bar"));
}

#[test]
fn test_non_reference_string() {
    let mut value = map(vec![("key", s("regular string"))]);
    let registry = Registry::new();

    resolve_references(&mut value, &registry, &Environment::new()).unwrap();

    assert_eq!(field(&value, "key"), &s("regular string"));
}

#[test]
fn registry_scenario_first_user_name() {
    let mut registry = Registry::new();
    registry.insert(
        "task1".to_string(),
        RegisteredResponse {
            json: map(vec![("data", map(vec![("users", Value::Sequence(vec![map(vec![("name", s("John"))])]))]))]),
            text: String::new(),
        },
    );
    let mut value = s("{{task1.json.data.users[0].name}}");
    resolve_references(&mut value, &registry, &Environment::new()).unwrap();
    assert_eq!(value, s("John"));
}

#[test]
fn register_then_resolve_round_trip() {
    let mut registry = Registry::new();
    let body = map(vec![("a", map(vec![("b", n("7"))]))]);
    registry.insert("R".to_string(), RegisteredResponse { json: body, text: String::new() });
    let mut value = s("{{R.json.a.b}}");
    resolve_references(&mut value, &registry, &Environment::new()).unwrap();
    assert_eq!(value, n("7"));
}

#[test]
fn registering_twice_overwrites() {
    let mut registry = Registry::new();
    registry.insert("R".to_string(), RegisteredResponse { json: map(vec![("a", s("old"))]), text: String::new() });
    registry.insert("R".to_string(), RegisteredResponse { json: map(vec![("a", s("new"))]), text: String::new() });
    let mut value = s("{{R.json.a}}");
    resolve_references(&mut value, &registry, &Environment::new()).unwrap();
    assert_eq!(value, s("new"));
    assert_eq!(registry.current().len(), 1);
}

fn items_registry() -> Registry {
    let mut registry = Registry::new();
    let items = Value::Sequence(vec![
        map(vec![("name", s("zero"))]),
        map(vec![("name", s("one"))]),
        map(vec![("name", s("two"))]),
    ]);
    registry.insert("R".to_string(), RegisteredResponse { json: map(vec![("items", items)]), text: String::new() });
    registry
}

#[test]
fn array_index_picks_third_element() {
    let registry = items_registry();
    let mut value = s("{{R.json.items[2].name}}");
    resolve_references(&mut value, &registry, &Environment::new()).unwrap();
    assert_eq!(value, s("two"));
}

#[test]
fn array_index_out_of_range_is_an_error() {
    let registry = items_registry();
    let mut value = s("{{R.json.items[3].name}}");
    let r = resolve_references(&mut value, &registry, &Environment::new());
    assert_eq!(r, Err(PathError::NoElement));
    assert_eq!(value, s("{{R.json.items[3].name}}"));
}

#[test]
fn index_on_a_non_sequence_is_an_error() {
    let registry = items_registry();
    let mut value = s("{{R.json.missing[0]}}");
    assert_eq!(resolve_references(&mut value, &registry, &Environment::new()), Err(PathError::NoElement));
}

#[test]
fn malformed_index_is_an_error() {
    let registry = items_registry();
    let mut value = s("{{R.json.items[x].name}}");
    assert_eq!(resolve_references(&mut value, &registry, &Environment::new()), Err(PathError::BadIndex));
}

#[test]
fn missing_key_resolves_to_null() {
    let registry = items_registry();
    let mut value = s("{{R.json.nothing}}");
    resolve_references(&mut value, &registry, &Environment::new()).unwrap();
    assert_eq!(value, Value::Null);
}

#[test]
fn resolving_without_placeholders_changes_nothing() {
    let registry = items_registry();
    let before = map(vec![
        ("a", s("plain")),
        ("b", Value::Sequence(vec![n("1"), Value::Null, Value::Bool(false), s("{x}")])),
        ("c", s("{{ only start")),
    ]);
    let mut value = before.copy();
    resolve_references(&mut value, &registry, &Environment::new()).unwrap();
    assert_eq!(value, before);
}

#[test]
fn unknown_registry_name_is_left_as_written() {
    let registry = items_registry();
    let mut value = s("{{nobody.json.a}}");
    resolve_references(&mut value, &registry, &Environment::new()).unwrap();
    assert_eq!(value, s("{{nobody.json.a}}"));
}

#[test]
fn single_segment_reference_is_left_as_written() {
    let registry = items_registry();
    let mut value = s("{{R}}");
    resolve_references(&mut value, &registry, &Environment::new()).unwrap();
    assert_eq!(value, s("{{R}}"));
}

#[test]
fn missing_environment_variable_becomes_empty() {
    let mut value = s("{{env.NOT_SET_ANYWHERE}}");
    resolve_references(&mut value, &Registry::new(), &Environment::new()).unwrap();
    assert_eq!(value, s(""));
}

#[test]
fn env_prefix_wins_over_a_registry_name() {
    let mut registry = Registry::new();
    registry.insert("env".to_string(), RegisteredResponse { json: map(vec![("X", s("from registry"))]), text: String::new() });
    let env = env_with(&[("X", "from env")]);
    let mut value = s("{{env.X}}");
    resolve_references(&mut value, &registry, &env).unwrap();
    assert_eq!(value, s("from env"));
}

#[test]
fn later_environment_entry_wins() {
    let env = env_with(&[("A", "first"), ("A", "second")]);
    let mut value = s("{{env.A}}");
    resolve_references(&mut value, &Registry::new(), &env).unwrap();
    assert_eq!(value, s("second"));
}
