use task_diff::json::{Entry, Json};
use task_diff::pair::{parse_environment, replace_in_tree};

fn string(s: &str) -> Json {
    Json::String(s.to_string())
}

fn object(members: Vec<(&str, Json)>) -> Json {
    Json::Object(
        members
            .into_iter()
            .map(|(key, value)| Entry { key: key.to_string(), value })
            .collect(),
    )
}

fn pair(name: &str, value: &str) -> Json {
    object(vec![("name", string(name)), ("value", string(value))])
}

#[test]
fn pair_parse_environment_array() {
    let env = Json::Array(vec![pair("foo", "bar"), pair("baz", "qux")]);
    let result = object(vec![("foo", string("bar")), ("baz", string("qux"))]);
    assert_eq!(parse_environment(&env).unwrap(), result);
}

#[test]
fn pair_replace_in_object_tree() {
    let env = object(vec![(
        "environment",
        Json::Array(vec![pair("foo", "bar"), pair("baz", "qux")]),
    )]);
    let result = object(vec![(
        "environment",
        object(vec![("foo", string("bar")), ("baz", string("qux"))]),
    )]);
    assert_eq!(
        replace_in_tree("environment", env, parse_environment).unwrap(),
        result
    );
}

#[test]
fn pair_replace_in_array_tree() {
    let env = Json::Array(vec![object(vec![(
        "environment",
        Json::Array(vec![pair("foo", "bar"), pair("baz", "qux")]),
    )])]);
    let result = Json::Array(vec![object(vec![(
        "environment",
        object(vec![("foo", string("bar")), ("baz", string("qux"))]),
    )])]);
    assert_eq!(
        replace_in_tree("environment", env, parse_environment).unwrap(),
        result
    );
}
