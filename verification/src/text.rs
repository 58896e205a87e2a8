//! The canonical text of a document: compact JSON.

use crate::json::{
    entries_view, lemma_view_of_containers, values_view, Entry, EntryView, Json, JsonView,
};
use vstd::prelude::*;

verus! {

/// The text that `serde_json` writes for a JSON string with these
/// characters: the characters between double quotes, with the quote, the
/// backslash and the control characters escaped.
pub uninterp spec fn json_string_text(s: Seq<char>) -> Seq<char>;

/// `serde_json`'s `Display` for a `Value::String`: the quoted, escaped form of
/// `s`. The result is a function of the characters of `s` alone; the contract
/// gives it the name [`json_string_text`] and claims nothing more of it.
#[verifier::external_body]
fn quoted(s: &str) -> (text: String)
    ensures
        text@ == json_string_text(s@),
{
    serde_json::Value::String(s.to_owned()).to_string()
}

/// The canonical text of a document: `null`, `true`, `false`, a number's
/// digits, a quoted string, `[` items `]` or `{` members `}`, with `,`
/// between items, `:` between a key and its value, and no white space.
pub open spec fn text(v: JsonView) -> Seq<char>
    decreases v, 0nat,
{
    match v {
        JsonView::Null => "null"@,
        JsonView::Bool(b) => if b {
            "true"@
        } else {
            "false"@
        },
        JsonView::Number(digits) => digits,
        JsonView::String(s) => json_string_text(s),
        JsonView::Array(items) => "["@ + items_text(items, items.len()) + "]"@,
        JsonView::Object(entries) => "{"@ + members_text(entries, entries.len()) + "}"@,
    }
}

/// The texts of the first `n` items, with a comma between each two.
pub open spec fn items_text(items: Seq<JsonView>, n: nat) -> Seq<char>
    decreases items, n,
{
    if n == 0 || n > items.len() {
        Seq::empty()
    } else if n == 1 {
        text(items[0])
    } else {
        items_text(items, (n - 1) as nat) + ","@ + text(items[n - 1])
    }
}

/// The texts of the first `n` members, with a comma between each two. A
/// member's text is its quoted key, a colon and the text of its value.
pub open spec fn members_text(entries: Seq<EntryView>, n: nat) -> Seq<char>
    decreases entries, n,
{
    if n == 0 || n > entries.len() {
        Seq::empty()
    } else if n == 1 {
        json_string_text(entries[0].key) + ":"@ + text(entries[0].value)
    } else {
        members_text(entries, (n - 1) as nat) + ","@ + json_string_text(entries[n - 1].key)
            + ":"@ + text(entries[n - 1].value)
    }
}

/// The canonical text of the array with these items.
#[verifier::loop_isolation(false)]
pub fn array_to_text(items: &Vec<Json>) -> (out: String)
    ensures
        out@ == text(JsonView::Array(values_view(items@))),
    decreases items, 0nat,
{
    let ghost vs = values_view(items@);
    let mut out = "[".to_owned();
    let mut i: usize = 0;
    while i < items.len()
        invariant
            i <= items.len(),
            out@ == "["@ + items_text(vs, i as nat),
        decreases items.len() - i,
    {
        if i > 0 {
            out.append(",");
        }
        let part = items[i].to_text();
        out.append(part.as_str());
        i += 1;
    }
    out.append("]");
    out
}

/// The canonical text of the object with these members.
#[verifier::loop_isolation(false)]
pub fn object_to_text(entries: &Vec<Entry>) -> (out: String)
    ensures
        out@ == text(JsonView::Object(entries_view(entries@))),
    decreases entries, 0nat,
{
    let ghost es = entries_view(entries@);
    let mut out = "{".to_owned();
    let mut i: usize = 0;
    while i < entries.len()
        invariant
            i <= entries.len(),
            out@ == "{"@ + members_text(es, i as nat),
        decreases entries.len() - i,
    {
        if i > 0 {
            out.append(",");
        }
        let key = quoted(entries[i].key.as_str());
        out.append(key.as_str());
        out.append(":");
        let part = entries[i].value.to_text();
        out.append(part.as_str());
        i += 1;
    }
    out.append("}");
    out
}

impl Json {
    /// The canonical text of the document.
    pub fn to_text(&self) -> (out: String)
        ensures
            out@ == text(self@),
        decreases self, 1nat,
    {
        proof {
            lemma_view_of_containers(*self);
        }
        match self {
            Json::Null => "null".to_owned(),
            Json::Bool(b) => if *b {
                "true".to_owned()
            } else {
                "false".to_owned()
            },
            Json::Number(digits) => digits.clone(),
            Json::String(s) => quoted(s.as_str()),
            Json::Array(items) => array_to_text(items),
            Json::Object(entries) => object_to_text(entries),
        }
    }
}

} // verus!
