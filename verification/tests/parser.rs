use task_diff::json::{Entry, Json};
use task_diff::parser;

fn string(s: &str) -> Json {
    Json::String(s.to_string())
}

fn number(digits: &str) -> Json {
    Json::Number(digits.to_string())
}

fn object(members: Vec<(&str, Json)>) -> Json {
    Json::Object(
        members
            .into_iter()
            .map(|(key, value)| Entry { key: key.to_string(), value })
            .collect(),
    )
}

fn rendered(a: &Json, b: &Json) -> Vec<String> {
    parser::diff(a, b).unwrap().iter().map(|l| l.render()).collect()
}

#[test]
fn diff_obj_delete() {
    let a = object(vec![
        ("foo", string("same")),
        ("baz", string("removed")),
        ("qux", string("will change")),
    ]);
    let b = object(vec![
        ("foo", string("same")),
        ("quux", string("added")),
        ("qux", string("changed!")),
    ]);
    let mut result = rendered(&a, &b);
    let mut expected = vec![
        r#"- "baz": "removed""#,
        r#"+ "quux": "added""#,
        r#"~ "qux": "will change" => "changed!""#,
    ];
    result.sort_unstable();
    expected.sort_unstable();
    assert_eq!(result, expected);
}

#[test]
fn diff_array_obj() {
    let a = Json::Array(vec![
        object(vec![("foo", string("same")), ("baz", string("removed"))]),
        object(vec![("qux", string("will change"))]),
    ]);
    let b = Json::Array(vec![
        object(vec![("foo", string("same"))]),
        object(vec![("quux", string("added")), ("qux", string("changed!"))]),
    ]);
    let mut result = rendered(&a, &b);
    let mut expected = vec![
        r#"{"#,
        r#"  - "baz": "removed""#,
        r#"}"#,
        r#"{"#,
        r#"  + "quux": "added""#,
        r#"  ~ "qux": "will change" => "changed!""#,
        r#"}"#,
    ];
    result.sort_unstable();
    expected.sort_unstable();
    assert_eq!(result, expected);
}

#[test]
fn diff_array_obj_removed() {
    let a = Json::Array(vec![
        object(vec![("foo", string("same"))]),
        object(vec![("baz", string("removed"))]),
    ]);
    let b = Json::Array(vec![object(vec![("foo", string("same"))])]);
    let result = rendered(&a, &b);
    let expected = vec![r#"{"#, r#"  - "baz": "removed""#, r#"}"#];
    assert_eq!(result, expected);
}

#[test]
fn diff_array() {
    let a = Json::Array(vec![number("1"), number("2")]);
    let b = Json::Array(vec![number("1"), number("2"), number("3")]);
    let result = rendered(&a, &b);
    let expected = vec![r#"~ [1,2] => [1,2,3]"#];
    assert_eq!(result, expected);
}

#[test]
fn diff_array_vs_obj() {
    let a = object(vec![]);
    let b = Json::Array(vec![]);
    assert!(parser::diff(&a, &b).is_err());
}

#[test]
fn diff_obj_empty() {
    let a = object(vec![]);
    let b = object(vec![]);
    assert!(parser::diff(&a, &b).unwrap().is_empty());
}

#[test]
fn diff_array_empty() {
    let a = Json::Array(vec![]);
    let b = Json::Array(vec![]);
    assert!(parser::diff(&a, &b).unwrap().is_empty());
}

#[test]
fn diff_env() {
    let a = object(vec![(
        "environment",
        object(vec![
            ("foo", string("kept")),
            ("bar", string("removed")),
            ("qux", string("will change")),
        ]),
    )]);
    let b = object(vec![(
        "environment",
        object(vec![
            ("foo", string("kept")),
            ("baz", string("added")),
            ("qux", string("changed!")),
        ]),
    )]);
    let mut result = rendered(&a, &b);
    let mut expected = vec![
        r#""environment": {"#,
        r#"  - "bar": "removed""#,
        r#"  + "baz": "added""#,
        r#"  ~ "qux": "will change" => "changed!""#,
        r#"}"#,
    ];
    result.sort_unstable();
    expected.sort_unstable();
    assert_eq!(result, expected);
}
