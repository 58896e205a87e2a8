use task_diff::json::{Entry, Json};
use task_diff::pair::{normalize, parse_environment};
use task_diff::parser::diff;

fn string(s: &str) -> Json {
    Json::String(s.to_string())
}

fn number(digits: &str) -> Json {
    Json::Number(digits.to_string())
}

fn object(members: Vec<(&str, Json)>) -> Json {
    Json::Object(
        members
            .into_iter()
            .map(|(key, value)| Entry { key: key.to_string(), value })
            .collect(),
    )
}

fn pair(name: &str, value: &str) -> Json {
    object(vec![("name", string(name)), ("value", string(value))])
}

fn rendered(a: &Json, b: &Json) -> Vec<String> {
    diff(a, b).unwrap().iter().map(|l| l.render()).collect()
}

fn sorted(mut lines: Vec<String>) -> Vec<String> {
    lines.sort_unstable();
    lines
}

#[test]
fn test_parse_environment() {
    let env = Json::Array(vec![pair("foo", "bar"), pair("baz", "qux")]);
    let result = object(vec![("foo", string("bar")), ("baz", string("qux"))]);
    assert_eq!(parse_environment(&env).unwrap(), result);
}

#[test]
fn test_diff_obj_delete() {
    let a = object(vec![
        ("foo", string("same")),
        ("baz", string("removed")),
        ("qux", string("will change")),
    ]);
    let b = object(vec![
        ("foo", string("same")),
        ("quux", string("added")),
        ("qux", string("changed!")),
    ]);
    let result = rendered(&a, &b);
    let expected = vec![
        r#"- "baz": "removed""#.to_string(),
        r#"+ "quux": "added""#.to_string(),
        r#"~ "qux": "will change" => "changed!""#.to_string(),
    ];
    assert_eq!(sorted(result), sorted(expected));
}

#[test]
fn test_diff_array_obj() {
    let a = Json::Array(vec![
        object(vec![("foo", string("same")), ("baz", string("removed"))]),
        object(vec![("qux", string("will change"))]),
    ]);
    let b = Json::Array(vec![
        object(vec![("foo", string("same"))]),
        object(vec![("quux", string("added")), ("qux", string("changed!"))]),
    ]);
    let result = rendered(&a, &b);
    let expected = vec![
        r#"{"#.to_string(),
        r#"  - "baz": "removed""#.to_string(),
        r#"}"#.to_string(),
        r#"{"#.to_string(),
        r#"  + "quux": "added""#.to_string(),
        r#"  ~ "qux": "will change" => "changed!""#.to_string(),
        r#"}"#.to_string(),
    ];
    assert_eq!(sorted(result), sorted(expected));
}

#[test]
fn test_diff_array_obj_removed() {
    let a = Json::Array(vec![
        object(vec![("foo", string("same"))]),
        object(vec![("baz", string("removed"))]),
    ]);
    let b = Json::Array(vec![object(vec![("foo", string("same"))])]);
    let result = rendered(&a, &b);
    let expected = vec![r#"{"#, r#"  - "baz": "removed""#, r#"}"#];
    assert_eq!(result, expected);
}

#[test]
fn test_diff_array() {
    let a = Json::Array(vec![number("1"), number("2")]);
    let b = Json::Array(vec![number("1"), number("2"), number("3")]);
    let result = rendered(&a, &b);
    let expected = vec![r#"~ [1,2] => [1,2,3]"#];
    assert_eq!(result, expected);
}

#[test]
fn test_diff_array_vs_obj() {
    let a = object(vec![]);
    let b = Json::Array(vec![]);
    assert!(diff(&a, &b).is_err());
}

#[test]
fn test_diff_obj_empty() {
    let a = object(vec![]);
    let b = object(vec![]);
    assert!(diff(&a, &b).unwrap().is_empty());
}

#[test]
fn test_diff_array_empty() {
    let a = Json::Array(vec![]);
    let b = Json::Array(vec![]);
    assert!(diff(&a, &b).unwrap().is_empty());
}

#[test]
fn test_diff_env() {
    let a = object(vec![(
        "environment",
        Json::Array(vec![
            pair("foo", "kept"),
            pair("bar", "removed"),
            pair("qux", "will change"),
        ]),
    )]);
    let b = object(vec![(
        "environment",
        Json::Array(vec![
            pair("foo", "kept"),
            pair("baz", "added"),
            pair("qux", "changed!"),
        ]),
    )]);
    let a = normalize(a).unwrap();
    let b = normalize(b).unwrap();
    let result = rendered(&a, &b);
    let expected = vec![
        r#""environment": {"#.to_string(),
        r#"  - "bar": "removed""#.to_string(),
        r#"  + "baz": "added""#.to_string(),
        r#"  ~ "qux": "will change" => "changed!""#.to_string(),
        r#"}"#.to_string(),
    ];
    assert_eq!(sorted(result), sorted(expected));
}
