use task_diff::json::{Entry, Json};
use task_diff::pair::{parse_environment, replace_in_tree};

fn string(s: &str) -> Json {
    Json::String(s.to_string())
}

fn object(members: Vec<(&str, Json)>) -> Json {
    Json::Object(
        members
            .into_iter()
            .map(|(key, value)| Entry { key: key.to_string(), value })
            .collect(),
    )
}

fn pair(name: &str, value: &str) -> Json {
    object(vec![("name", string(name)), ("value", string(value))])
}

#[test]
fn util_parse_environment_array() {
    let env = Json::Array(vec![pair("foo", "bar"), pair("baz", "qux")]);
    let result = object(vec![("foo", string("bar")), ("baz", string("qux"))]);
    assert_eq!(parse_environment(&env).unwrap(), result);
}

#[test]
fn util_replace_in_object_tree() {
    let env = object(vec![(
        "environment",
        Json::Array(vec![pair("foo", "bar"), pair("baz", "qux")]),
    )]);
    let result = object(vec![(
        "environment",
        object(vec![("foo", string("bar")), ("baz", string("qux"))]),
    )]);
    assert_eq!(
        replace_in_tree("environment", env, parse_environment).unwrap(),
        result
    );
}

#[test]
fn util_replace_in_array_tree() {
    let env = Json::Array(vec![object(vec![(
        "environment",
        Json::Array(vec![pair("foo", "bar"), pair("baz", "qux")]),
    )])]);
    let result = Json::Array(vec![object(vec![(
        "environment",
        object(vec![("foo", string("bar")), ("baz", string("qux"))]),
    )])]);
    assert_eq!(
        replace_in_tree("environment", env, parse_environment).unwrap(),
        result
    );
}

#[test]
fn zip_pairs_by_position() {
    let a = vec![string("a0"), string("a1"), string("a2")];
    let b = vec![string("b0")];
    let pairs = task_diff::util::zip_to_end(a, b);
    assert_eq!(
        pairs,
        vec![
            (Some(string("a0")), Some(string("b0"))),
            (Some(string("a1")), None),
            (Some(string("a2")), None),
        ]
    );
}

#[test]
fn zip_second_longer() {
    let pairs = task_diff::util::zip_to_end(vec![], vec![string("b0"), string("b1")]);
    assert_eq!(
        pairs,
        vec![(None, Some(string("b0"))), (None, Some(string("b1")))]
    );
}

#[test]
fn zip_of_nothing() {
    assert!(task_diff::util::zip_to_end(vec![], vec![]).is_empty());
}
