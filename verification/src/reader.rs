//! Reading a document from JSON text, with `serde_json` as the parser.

use crate::error::DiffError;
use crate::json::{
    entries_view, lemma_array_wf, lemma_object_wf, lemma_view_of_containers, values_view, Entry,
    EntryView, Json, JsonView,
};
use vstd::prelude::*;

verus! {

/// `serde_json::Value`, as the parser hands it out. Nothing of what is
/// inside is known but through [`json_tree`].
#[verifier::external_type_specification]
#[verifier::external_body]
pub struct ExJsonValue(serde_json::Value);

/// `serde_json::Error`, which the parser returns for a text that it does
/// not accept. Nothing is read from it.
#[verifier::external_type_specification]
#[verifier::external_body]
pub struct ExJsonError(serde_json::Error);

/// The document that a `serde_json::Value` holds: its scalars, a number by
/// the text that `serde_json` prints for it, its items in order and its
/// members in the order in which `serde_json` walks them.
pub uninterp spec fn json_tree(j: serde_json::Value) -> JsonView;

/// The document that `serde_json` reads from a text; none where it reports
/// an error.
pub uninterp spec fn json_parse(text: Seq<char>) -> Option<JsonView>;

/// `serde_json::from_str` for a `serde_json::Value`. The outcome is a
/// function of the text alone; the contract gives it the name
/// [`json_parse`] and claims nothing more of it.
#[verifier::external_body]
fn parse_text(s: &str) -> (parsed: Result<serde_json::Value, serde_json::Error>)
    ensures
        match parsed {
            Ok(j) => json_parse(s@) == Some(json_tree(j)),
            Err(_) => json_parse(s@) is None,
        },
{
    serde_json::from_str(s)
}

/// The top of a `serde_json::Value`: a scalar, or the parts of an array or
/// of an object, still in `serde_json`'s form.
enum Node {
    Null,
    Bool(bool),
    Number(String),
    String(String),
    Array(Vec<serde_json::Value>),
    Object(Vec<(String, serde_json::Value)>),
}

/// The keys of an object's members, in order.
spec fn member_keys(members: Seq<(String, serde_json::Value)>) -> Seq<Seq<char>> {
    Seq::new(members.len(), |i: int| members[i].0@)
}

/// The document that a node stands for.
spec fn node_tree(node: Node) -> JsonView {
    match node {
        Node::Null => JsonView::Null,
        Node::Bool(b) => JsonView::Bool(b),
        Node::Number(digits) => JsonView::Number(digits@),
        Node::String(s) => JsonView::String(s@),
        Node::Array(items) => JsonView::Array(
            Seq::new(items@.len(), |i: int| json_tree(items@[i])),
        ),
        Node::Object(members) => JsonView::Object(
            Seq::new(
                members@.len(),
                |i: int| EntryView { key: members@[i].0@, value: json_tree(members@[i].1) },
            ),
        ),
    }
}

/// Takes a `serde_json::Value` apart, one arm for each of its variants. A
/// number is handed out as the text of `serde_json`'s `Display` for it, an
/// object as the pairs of `Map::into_iter`. The contract claims that the
/// value's document is made of the documents of these parts, and that the
/// keys of an object are distinct, as those of a map are.
#[verifier::external_body]
fn open(j: serde_json::Value) -> (node: Node)
    ensures
        node_tree(node) == json_tree(j),
        node matches Node::Object(members) ==> member_keys(members@).no_duplicates(),
{
    match j {
        serde_json::Value::Null => Node::Null,
        serde_json::Value::Bool(b) => Node::Bool(b),
        serde_json::Value::Number(n) => Node::Number(n.to_string()),
        serde_json::Value::String(s) => Node::String(s),
        serde_json::Value::Array(items) => Node::Array(items),
        serde_json::Value::Object(map) => Node::Object(map.into_iter().collect()),
    }
}

/// The document that a `serde_json::Value` holds, as a value of this library.
#[verifier::loop_isolation(false)]
pub fn lift(j: serde_json::Value) -> (v: Json)
    ensures
        v@ == json_tree(j),
        v@.wf(),
    decreases json_tree(j),
{
    let node = open(j);
    match node {
        Node::Null => Json::Null,
        Node::Bool(b) => Json::Bool(b),
        Node::Number(digits) => Json::Number(digits),
        Node::String(s) => Json::String(s),
        Node::Array(items) => {
            let ghost parts = json_tree(j)->Array_0;
            let mut out: Vec<Json> = Vec::new();
            for item in it: items
                invariant
                    it.seq() == items@,
                    out@.len() == it.index(),
                    forall|k: int|
                        0 <= k < it.index() ==> (#[trigger] out@[k])@ == parts[k] && parts[k].wf(),
            {
                assert(json_tree(item) == parts[it.index() as int]);
                out.push(lift(item));
            }
            let v = Json::Array(out);
            proof {
                lemma_view_of_containers(v);
                assert(values_view(out@) =~= parts);
                lemma_array_wf(parts);
            }
            v
        },
        Node::Object(members) => {
            let ghost parts = json_tree(j)->Object_0;
            let mut out: Vec<Entry> = Vec::new();
            for member in it: members
                invariant
                    it.seq() == members@,
                    out@.len() == it.index(),
                    forall|k: int|
                        0 <= k < it.index() ==> (#[trigger] out@[k])@ == parts[k]
                            && parts[k].value.wf(),
            {
                assert(json_tree(member.1) == parts[it.index() as int].value);
                let (key, item) = member;
                out.push(Entry { key, value: lift(item) });
            }
            let v = Json::Object(out);
            proof {
                lemma_view_of_containers(v);
                assert(entries_view(out@) =~= parts);
                assert forall|a: int, b: int| 0 <= a < b < parts.len() implies (
                #[trigger] parts[a]).key != (#[trigger] parts[b]).key by {
                    assert(member_keys(members@)[a] == parts[a].key);
                    assert(member_keys(members@)[b] == parts[b].key);
                }
                lemma_object_wf(parts);
            }
            v
        },
    }
}

/// Reads a document from JSON text.
pub fn parse_document(s: &str) -> (result: Result<Json, DiffError>)
    ensures
        match result {
            Ok(v) => json_parse(s@) == Some(v@) && v@.wf(),
            Err(e) => e == DiffError::Syntax && json_parse(s@) is None,
        },
{
    match parse_text(s) {
        Ok(j) => Ok(lift(j)),
        Err(_) => Err(DiffError::Syntax),
    }
}

} // verus!
