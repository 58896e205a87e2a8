use task_diff::error::DiffError;
use task_diff::json::{Entry, Json};
use task_diff::line::{wrap, Line, WrapperKind};
use task_diff::pair::{normalize, parse_environment, replace_in_tree};
use task_diff::parser::{diff, diff_array, diff_obj, diff_obj_array};
use task_diff::reader::parse_document;

fn doc(text: &str) -> Json {
    parse_document(text).unwrap()
}

fn rendered(a: &str, b: &str) -> Vec<String> {
    diff(&doc(a), &doc(b)).unwrap().iter().map(|l| l.render()).collect()
}

fn no_lines() -> Vec<String> {
    Vec::new()
}

#[test]
fn identity_of_objects_and_arrays_of_objects() {
    let texts = [
        r#"{}"#,
        r#"[]"#,
        r#"{"a":1,"b":[1,2,{"c":null}],"d":{"e":{"f":true}}}"#,
        r#"[{"a":1},{"b":{"c":[{"d":2}]}}]"#,
    ];
    for text in texts {
        assert_eq!(rendered(text, text), no_lines());
    }
}

#[test]
fn identity_fails_for_an_array_with_a_scalar() {
    assert_eq!(rendered("[1,2]", "[1,2]"), vec!["~ [1,2] => [1,2]"]);
}

#[test]
fn deletion_only() {
    assert_eq!(rendered(r#"{"a":1,"b":2}"#, r#"{"a":1}"#), vec![r#"- "b": 2"#]);
}

#[test]
fn addition_only() {
    assert_eq!(rendered(r#"{"a":1}"#, r#"{"a":1,"b":2}"#), vec![r#"+ "b": 2"#]);
}

#[test]
fn change_of_a_scalar() {
    assert_eq!(rendered(r#"{"q":"x"}"#, r#"{"q":"y"}"#), vec![r#"~ "q": "x" => "y""#]);
}

#[test]
fn nested_collapse() {
    assert_eq!(rendered(r#"{"k":{"a":1}}"#, r#"{"k":{"a":1}}"#), no_lines());
}

#[test]
fn nested_collapse_of_reordered_members() {
    assert_eq!(
        rendered(r#"{"k":[{"a":1,"b":2}]}"#, r#"{"k":[{"b":2,"a":1}]}"#),
        no_lines()
    );
}

#[test]
fn array_of_objects_with_length_mismatch() {
    assert_eq!(
        rendered(r#"[{"x":1},{"y":2}]"#, r#"[{"x":1}]"#),
        vec!["{", r#"  - "y": 2"#, "}"]
    );
}

#[test]
fn array_of_objects_second_longer() {
    assert_eq!(
        rendered(r#"[{"x":1}]"#, r#"[{"x":1},{"y":2,"z":[3]}]"#),
        vec!["{", r#"  + "y": 2"#, r#"  + "z": [3]"#, "}"]
    );
}

#[test]
fn mixed_array_collapse() {
    assert_eq!(rendered("[1,2]", "[1,2,3]"), vec!["~ [1,2] => [1,2,3]"]);
    assert_eq!(
        rendered(r#"[{"a":1},2]"#, r#"[{"a":2},2]"#),
        vec![r#"~ [{"a":1},2] => [{"a":2},2]"#]
    );
}

#[test]
fn shape_mismatch() {
    assert_eq!(diff(&doc("{}"), &doc("[]")).err(), Some(DiffError::TypeMismatch));
    assert_eq!(diff(&doc("[]"), &doc("{}")).err(), Some(DiffError::TypeMismatch));
    assert_eq!(diff(&doc("1"), &doc("1")).err(), Some(DiffError::TypeMismatch));
    assert_eq!(diff(&doc("{}"), &doc("null")).err(), Some(DiffError::TypeMismatch));
    assert_eq!(DiffError::TypeMismatch.message(), "Different types cannot be compared");
}

#[test]
fn order_is_first_then_second_without_sorting() {
    assert_eq!(
        rendered(
            r#"{"z":1,"foo":"same","m":{"p":1},"a":[1]}"#,
            r#"{"b":0,"a":[2],"foo":"same","m":{"p":2,"q":3},"aa":null}"#
        ),
        vec![
            r#"- "z": 1"#,
            r#""m": {"#,
            r#"  ~ "p": 1 => 2"#,
            r#"  + "q": 3"#,
            r#"}"#,
            r#""a": ["#,
            r#"  ~ [1] => [2]"#,
            r#"]"#,
            r#"+ "b": 0"#,
            r#"+ "aa": null"#,
        ]
    );
}

#[test]
fn deep_nesting_indents_two_spaces_a_level() {
    assert_eq!(
        rendered(r#"{"a":{"b":[{"c":{"d":1}}]}}"#, r#"{"a":{"b":[{"c":{"d":2}}]}}"#),
        vec![
            r#""a": {"#,
            r#"  "b": ["#,
            r#"    {"#,
            r#"      "c": {"#,
            r#"        ~ "d": 1 => 2"#,
            r#"      }"#,
            r#"    }"#,
            r#"  ]"#,
            r#"}"#,
        ]
    );
}

#[test]
fn kinds_that_differ_under_a_key_are_one_changed_line() {
    assert_eq!(
        rendered(r#"{"k":{"a":1}}"#, r#"{"k":[1]}"#),
        vec![r#"~ "k": {"a":1} => [1]"#]
    );
    assert_eq!(rendered(r#"{"k":1}"#, r#"{"k":1.0}"#), vec![r#"~ "k": 1 => 1.0"#]);
}

#[test]
fn keys_are_shown_as_they_are_and_values_escaped() {
    let a = Json::Object(vec![Entry {
        key: "a\"b".to_string(),
        value: Json::String("x\"y\\z\n\u{1}".to_string()),
    }]);
    let b = Json::Object(vec![]);
    let lines: Vec<String> = diff(&a, &b).unwrap().iter().map(|l| l.render()).collect();
    assert_eq!(lines, vec![r#"- "a"b": "x\"y\\z\n\u0001""#]);
}

#[test]
fn no_line_carries_the_marker_of_an_unchanged_entry() {
    let a = doc(r#"{"same":1,"gone":2,"deep":{"same":[1],"t":[{"u":1}]}}"#);
    let b = doc(r#"{"same":1,"new":3,"deep":{"same":[1],"t":[{"u":2}]}}"#);
    let lines = diff(&a, &b).unwrap();
    assert_eq!(lines.len(), 9);
    for line in &lines {
        assert!(matches!(line.diff, '+' | '-' | '~' | '.'));
    }
}

#[test]
fn bracket_lines_render_without_marker() {
    let inner = vec![Line::new('+', "x".to_string())];
    let block = wrap(inner, "\"k\": ", WrapperKind::Array);
    let shown: Vec<String> = block.iter().map(|l| l.render()).collect();
    assert_eq!(shown, vec!["\"k\": [", "  + x", "]"]);
    let outer = wrap(block, "", WrapperKind::Object);
    let shown: Vec<String> = outer.iter().map(|l| l.render()).collect();
    assert_eq!(shown, vec!["{", "  \"k\": [", "    + x", "  ]", "}"]);
    assert_eq!(outer[1], Line { diff: '.', depth: 1, contents: "\"k\": [".to_string() });
}

#[test]
fn wrap_of_nothing_is_nothing() {
    assert!(wrap(Vec::new(), "label", WrapperKind::Object).is_empty());
}

#[test]
fn render_formula() {
    let line = Line { diff: '~', depth: 3, contents: "t".to_string() };
    assert_eq!(line.render(), "      ~ t");
    let line = Line { diff: '.', depth: 2, contents: "}".to_string() };
    assert_eq!(line.render(), "    }");
    let line = Line::new('x', String::new());
    assert_eq!(line.render(), "x ");
    assert_eq!(line.depth, 0);
}

#[test]
fn colours_by_marker() {
    assert_eq!(Line::new('+', String::new()).color(), "cyan");
    assert_eq!(Line::new('~', String::new()).color(), "yellow");
    assert_eq!(Line::new('-', String::new()).color(), "red");
    assert_eq!(Line::new('.', String::new()).color(), "white");
}

#[test]
fn environment_round_trip() {
    let tree = doc(r#"{"environment":[{"name":"a","value":"b"}]}"#);
    assert_eq!(normalize(tree).unwrap(), doc(r#"{"environment":{"a":"b"}}"#));
}

#[test]
fn normalized_environments_compare_as_objects() {
    let a = normalize(doc(
        r#"{"environment":[{"name":"k","value":"1"},{"name":"l","value":"2"}]}"#,
    ))
    .unwrap();
    let b = normalize(doc(
        r#"{"environment":[{"name":"l","value":"2"},{"name":"k","value":"3"}]}"#,
    ))
    .unwrap();
    let through_lists: Vec<String> = diff(&a, &b).unwrap().iter().map(|l| l.render()).collect();
    assert_eq!(
        through_lists,
        rendered(
            r#"{"environment":{"k":"1","l":"2"}}"#,
            r#"{"environment":{"l":"2","k":"3"}}"#
        )
    );
    assert_eq!(
        through_lists,
        vec![r#""environment": {"#, r#"  ~ "k": "1" => "3""#, "}"]
    );
}

#[test]
fn environment_last_value_wins_in_first_place() {
    let env = doc(
        r#"[{"name":"a","value":1},{"name":"b","value":2},{"name":"a","value":3}]"#,
    );
    let object = parse_environment(&env).unwrap();
    assert_eq!(object.to_text(), r#"{"a":3,"b":2}"#);
}

#[test]
fn environment_failures() {
    assert_eq!(parse_environment(&doc(r#"{"name":"a","value":1}"#)), None);
    assert_eq!(parse_environment(&doc(r#"[{"name":"a"}]"#)), None);
    assert_eq!(parse_environment(&doc(r#"[{"value":"a"}]"#)), None);
    assert_eq!(parse_environment(&doc(r#"[{"name":1,"value":"a"}]"#)), None);
    assert_eq!(parse_environment(&doc(r#"[{"name":"a","value":1},2]"#)), None);
    assert_eq!(parse_environment(&doc("[]")), Some(doc("{}")));
    assert_eq!(
        normalize(doc(r#"[{"environment":{"a":"b"}}]"#)).err(),
        Some(DiffError::NormalizationFailure)
    );
    assert_eq!(DiffError::NormalizationFailure.message(), "Invalid input");
}

#[test]
fn normalization_reaches_every_depth() {
    let tree = doc(
        r#"{"a":{"b":[{"environment":[{"name":"x","value":"y"}],"c":1}]},"d":2}"#,
    );
    assert_eq!(
        normalize(tree).unwrap(),
        doc(r#"{"a":{"b":[{"environment":{"x":"y"},"c":1}]},"d":2}"#)
    );
}

#[test]
fn normalization_leaves_the_siblings_of_the_key() {
    let tree = doc(
        r#"{"environment":[{"name":"x","value":"y"}],"s":{"environment":[{"name":"p","value":"q"}]}}"#,
    );
    assert_eq!(
        normalize(tree).unwrap().to_text(),
        r#"{"environment":{"x":"y"},"s":{"environment":[{"name":"p","value":"q"}]}}"#
    );
}

#[test]
fn normalization_does_not_enter_what_it_replaced() {
    let tree = doc(
        r#"{"environment":[{"name":"n","value":{"environment":[{"name":"p","value":"q"}]}}]}"#,
    );
    assert_eq!(
        normalize(tree).unwrap().to_text(),
        r#"{"environment":{"n":{"environment":[{"name":"p","value":"q"}]}}}"#
    );
}

#[test]
fn replace_with_another_key_and_function() {
    let tree = doc(r#"[{"k":1,"z":[{"k":2}]},{"z":[{"k":2}]},3]"#);
    let out = replace_in_tree("k", tree, |v: &Json| {
        Some(Json::Array(vec![v.clone()]))
    });
    assert_eq!(
        out.unwrap().to_text(),
        r#"[{"k":[1],"z":[{"k":2}]},{"z":[{"k":[2]}]},3]"#
    );
    let tree = doc(r#"{"a":[{"k":1},{"k":2}]}"#);
    let out = replace_in_tree("k", tree, |v: &Json| {
        if *v == Json::Number("2".to_string()) {
            None
        } else {
            Some(v.clone())
        }
    });
    assert_eq!(out, None);
    assert_eq!(
        replace_in_tree("k", doc("\"s\""), |_: &Json| None),
        Some(doc("\"s\""))
    );
}

#[test]
fn arrays_of_objects_pair_by_position() {
    let a = vec![doc(r#"{"k":1}"#), doc(r#"{"k":2}"#), doc(r#"{"gone":true}"#)];
    let b = vec![doc(r#"{"k":2}"#), doc(r#"{"k":1}"#)];
    let lines: Vec<String> = diff_obj_array(&a, &b).iter().map(|l| l.render()).collect();
    assert_eq!(
        lines,
        vec![
            "{",
            r#"  ~ "k": 1 => 2"#,
            "}",
            "{",
            r#"  ~ "k": 2 => 1"#,
            "}",
            "{",
            r#"  - "gone": true"#,
            "}",
        ]
    );
    let empty = vec![doc("{}")];
    assert!(diff_obj_array(&empty, &Vec::new()).is_empty());
    assert!(diff_obj_array(&Vec::new(), &empty).is_empty());
}

#[test]
fn a_line_and_its_copy() {
    let line = Line { diff: '-', depth: 2, contents: "gone".to_string() };
    assert_eq!(line.clone(), line);
    assert_eq!(line.clone().render(), "    - gone");
}

#[test]
fn parts_of_the_comparison() {
    let a = vec![Entry { key: "a".to_string(), value: doc("1") }];
    let b = vec![Entry { key: "a".to_string(), value: doc("2") }];
    let lines: Vec<String> = diff_obj(&a, &b).iter().map(|l| l.render()).collect();
    assert_eq!(lines, vec![r#"~ "a": 1 => 2"#]);
    let lines: Vec<String> =
        diff_array(&vec![doc("{}")], &vec![doc("[]")]).iter().map(|l| l.render()).collect();
    assert_eq!(lines, vec!["~ [{}] => [[]]"]);
}
