use task_diff::error::DiffError;
use task_diff::input::{key_action, read_pair, KeyAction};
use task_diff::json::{Entry, Json};
use task_diff::pair::Pair;
use task_diff::parser::diff;
use task_diff::reader::{lift, parse_document};
use task_diff::strings::{chars_of, find, matches_at, rfind, string_of, trim_bounds, Trim};

fn chars(s: &str) -> Vec<char> {
    s.chars().collect()
}

#[test]
fn pair_from_two_quoted_fragments() {
    let pair = Pair::new(r#"defs: "[{"name":"a"}]" => "[{"name":"b"}]""#).unwrap();
    assert_eq!(pair.a.to_text(), r#"[{"name":"a"}]"#);
    assert_eq!(pair.b.to_text(), r#"[{"name":"b"}]"#);
    let lines: Vec<String> = diff(&pair.a, &pair.b).unwrap().iter().map(|l| l.render()).collect();
    assert_eq!(lines, vec!["{", r#"  ~ "name": "a" => "b""#, "}"]);
}

#[test]
fn pair_fragments_are_trimmed_and_normalized() {
    let pair = Pair::new(
        "x \"\"{\"environment\":[{\"name\":\"k\",\"value\":1}]}\"\" \t => \u{a0} \"\"[ 1 , 2 ]\"\" tail",
    )
    .unwrap();
    assert_eq!(pair.a.to_text(), r#"{"environment":{"k":1}}"#);
    assert_eq!(pair.b.to_text(), "[1,2]");
}

#[test]
fn pair_parts_at_the_first_separator() {
    let pair = Pair::new(r#""" x => y" => "[]""#);
    assert_eq!(pair.err(), Some(DiffError::Syntax));
    let pair = Pair::new(r#""[" => "]" => "[]""#);
    assert_eq!(pair.err(), Some(DiffError::Syntax));
}

#[test]
fn pair_failures() {
    assert_eq!(Pair::new("").err(), Some(DiffError::InvalidInput));
    assert_eq!(Pair::new("{} => {}").err(), Some(DiffError::InvalidInput));
    assert_eq!(Pair::new("\"{} => {}").err(), Some(DiffError::InvalidInput));
    assert_eq!(Pair::new("\"{}\" -> \"{}\"").err(), Some(DiffError::InvalidInput));
    assert_eq!(Pair::new("\"{\" => \"{}\"").err(), Some(DiffError::Syntax));
    assert_eq!(Pair::new("\"{}\" => \"\"").err(), Some(DiffError::Syntax));
    assert_eq!(
        Pair::new("\"{\"environment\":1}\" => \"{}\"").err(),
        Some(DiffError::NormalizationFailure)
    );
    assert_eq!(
        Pair::new("\"{\" => \"{\"environment\":1}\"").err(),
        Some(DiffError::Syntax)
    );
    assert_eq!(DiffError::InvalidInput.message(), "Invalid input");
    assert_eq!(DiffError::Syntax.message(), "Invalid document");
}

#[test]
fn typed_line_is_unescaped_first() {
    let typed = r#"defs: "[{\"a\":\"1\\n\"}]" => "[{\"a\":\"é\x41\"}]""#;
    let pair = read_pair(typed).unwrap().unwrap();
    assert_eq!(pair.a, Json::Array(vec![Json::Object(vec![Entry {
        key: "a".to_string(),
        value: Json::String("1\n".to_string()),
    }])]));
    assert_eq!(pair.b.to_text(), "[{\"a\":\"\u{e9}A\"}]");
}

#[test]
fn typed_line_with_a_bad_escape() {
    assert!(read_pair(r#""{}" => "{}" \q"#).is_none());
    assert!(read_pair("\"{}\" => \"{}\" \\").is_none());
    assert_eq!(
        read_pair("no quotes").unwrap().err(),
        Some(DiffError::InvalidInput)
    );
}

#[test]
fn keys() {
    assert_eq!(key_action(10), KeyAction::Finish);
    assert_eq!(key_action(27), KeyAction::Finish);
    assert_eq!(key_action(32), KeyAction::Append(' '));
    assert_eq!(key_action(65), KeyAction::Append('A'));
    assert_eq!(key_action(126), KeyAction::Append('~'));
    assert_eq!(key_action(31), KeyAction::Ignore);
    assert_eq!(key_action(127), KeyAction::Ignore);
    assert_eq!(key_action(0), KeyAction::Ignore);
    assert_eq!(key_action(-1), KeyAction::Ignore);
    assert_eq!(key_action(263), KeyAction::Ignore);
}

#[test]
fn documents_are_read_in_text_order() {
    let doc = parse_document(r#" {"b":1,"a":[true,false,null,"s",-2.50e1],"b":2} "#).unwrap();
    assert_eq!(doc.to_text(), r#"{"b":2,"a":[true,false,null,"s",-25.0]}"#);
    assert!(doc.well_formed());
    assert_eq!(parse_document("{").err(), Some(DiffError::Syntax));
    assert_eq!(parse_document("").err(), Some(DiffError::Syntax));
    assert_eq!(parse_document("1 2").err(), Some(DiffError::Syntax));
}

#[test]
fn lift_of_a_built_value() {
    let built = serde_json::Value::Array(vec![
        serde_json::Value::from(18446744073709551615u64),
        serde_json::Value::from(-7i64),
        serde_json::Value::from("x"),
    ]);
    assert_eq!(built.to_string(), lift(built.clone()).to_text());
    assert_eq!(lift(built).to_text(), r#"[18446744073709551615,-7,"x"]"#);
}

#[test]
fn text_is_what_the_parser_prints() {
    let texts = [
        r#"{"a":{"b":[1,2.5,"x\ny",{"c":null}],"d":"\u0007\"\\/"},"e":[],"f":{}}"#,
        r#""é😀""#,
        "1e300",
        "-0.0",
    ];
    for text in texts {
        let theirs: serde_json::Value = serde_json::from_str(text).unwrap();
        assert_eq!(parse_document(text).unwrap().to_text(), theirs.to_string());
    }
}

#[test]
fn equality_ignores_the_order_of_members() {
    let a = parse_document(r#"{"a":1,"b":{"c":2,"d":[3]}}"#).unwrap();
    let b = parse_document(r#"{"b":{"d":[3],"c":2},"a":1}"#).unwrap();
    let c = parse_document(r#"{"b":{"d":[3],"c":2},"a":2}"#).unwrap();
    let d = parse_document(r#"{"b":{"d":[3],"c":2}}"#).unwrap();
    assert_eq!(a, b);
    assert_ne!(a, c);
    assert_ne!(a, d);
    assert_ne!(d, a);
    assert_ne!(
        parse_document("[1,2]").unwrap(),
        parse_document("[2,1]").unwrap()
    );
    assert_eq!(a.clone(), a);
}

#[test]
fn well_formed_and_depth() {
    let twice = Json::Object(vec![
        Entry { key: "a".to_string(), value: Json::Null },
        Entry { key: "a".to_string(), value: Json::Null },
    ]);
    assert!(!twice.well_formed());
    assert!(!Json::Array(vec![Json::Bool(true), twice]).well_formed());
    let deep = parse_document(r#"{"a":[{"b":[]}]}"#).unwrap();
    assert!(deep.well_formed());
    assert!(deep.nests_within(4));
    assert!(deep.nests_within(usize::MAX));
    assert!(!deep.nests_within(3));
    assert!(parse_document("1").unwrap().nests_within(0));
    assert!(!parse_document("[]").unwrap().nests_within(0));
}

#[test]
fn searching() {
    let text = chars("a => b => c");
    let arrow = chars(" => ");
    assert_eq!(find(&text, &arrow), Some(1));
    assert_eq!(rfind(&text, &arrow), Some(6));
    assert_eq!(find(&text, &chars("=> c")), Some(7));
    assert_eq!(find(&text, &chars("x")), None);
    assert_eq!(rfind(&text, &chars("x")), None);
    assert_eq!(find(&text, &chars("")), Some(0));
    assert_eq!(rfind(&text, &chars("")), Some(11));
    assert_eq!(find(&chars("ab"), &chars("abc")), None);
    assert_eq!(rfind(&chars("ab"), &chars("abc")), None);
    assert_eq!(find(&chars(""), &chars("")), Some(0));
    assert!(matches_at(&text, &arrow, 6));
    assert!(!matches_at(&text, &arrow, 7));
    assert!(!matches_at(&text, &arrow, 8));
    assert!(!matches_at(&text, &arrow, 100));
}

#[test]
fn trimming() {
    let text = chars(" \t\u{a0}\"\" x \" \n");
    let (lo, hi) = trim_bounds(&text, 0, text.len(), Trim::WhiteSpace);
    assert_eq!(string_of(&text, lo, hi), "\"\" x \"");
    let (lo, hi) = trim_bounds(&text, lo, hi, Trim::Quotes);
    assert_eq!(string_of(&text, lo, hi), " x ");
    let all = chars("\"\"\"");
    assert_eq!(trim_bounds(&all, 0, 3, Trim::Quotes), (3, 3));
    assert_eq!(trim_bounds(&all, 0, 3, Trim::WhiteSpace), (0, 3));
    assert_eq!(trim_bounds(&all, 1, 1, Trim::Quotes), (1, 1));
    assert_eq!(chars_of("h\u{e9}llo"), chars("h\u{e9}llo"));
    assert_eq!(string_of(&chars("h\u{e9}llo"), 1, 3), "\u{e9}l");
}
