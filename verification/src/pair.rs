//! The two documents of a comparison: how they are read from a line of
//! input, and how they are normalized. Wherever the key `environment` holds
//! a list of `name`/`value` pairs, the list becomes an object from each name
//! to its value.

use crate::error::DiffError;
use crate::json::{
    entries_view, find_entry, lemma_position, lemma_view_of_containers, lookup, position,
    unique_keys, values_view, Entry, EntryView, Json, JsonView,
};
use crate::reader::{json_parse, parse_document};
use crate::rewrite::{
    lemma_collected_fails, lemma_environment_is_object, lemma_inserted_unique,
    lemma_normalized_wf, lemma_rewrite_of_function,
};
use crate::strings::{
    chars_of, find, first_occurrence, last_occurrence, lemma_first_before_last, rfind, string_of,
    stripped, trim_bounds, Trim,
};
use vstd::prelude::*;

verus! {

/// The view of an optional document.
pub open spec fn view_of(v: Option<Json>) -> Option<JsonView> {
    match v {
        Some(v) => Some(v@),
        None => None,
    }
}

/// The members after `value` is stored under `key`: in the place of the
/// member that had the key, or at the end where none had it.
pub open spec fn inserted(entries: Seq<EntryView>, key: Seq<char>, value: JsonView) -> Seq<
    EntryView,
> {
    match position(entries, key) {
        Some(i) => entries.update(i, EntryView { key, value }),
        None => entries.push(EntryView { key, value }),
    }
}

/// What a `name`/`value` pair holds: the item is an object with a string
/// under `name` and any value under `value`.
pub open spec fn pair_of(item: JsonView) -> Option<(Seq<char>, JsonView)> {
    match item {
        JsonView::Object(members) => match (lookup(members, "name"@), lookup(members, "value"@)) {
            (Some(JsonView::String(name)), Some(value)) => Some((name, value)),
            _ => None,
        },
        _ => None,
    }
}

/// The members that the first `n` items give, each stored under its name in
/// turn, so that of two items with one name the later one's value stays;
/// none if one of the items is no pair.
pub open spec fn collected(items: Seq<JsonView>, n: nat) -> Option<Seq<EntryView>>
    decreases n,
{
    if n == 0 || n > items.len() {
        Some(Seq::empty())
    } else {
        match (collected(items, (n - 1) as nat), pair_of(items[n - 1])) {
            (Some(sofar), Some((name, value))) => Some(inserted(sofar, name, value)),
            _ => None,
        }
    }
}

/// The object that stands for a list of `name`/`value` pairs; none if the
/// value is no array or one of its items is no pair.
pub open spec fn environment_of(env: JsonView) -> Option<JsonView> {
    match env {
        JsonView::Array(items) => match collected(items, items.len()) {
            Some(members) => Some(JsonView::Object(members)),
            None => None,
        },
        _ => None,
    }
}

/// Stores `value` under `key`: in place of the value that the key had, or as
/// a new last member. Keys that were distinct stay distinct.
pub fn insert_entry(entries: &mut Vec<Entry>, key: String, value: Json)
    ensures
        entries_view(final(entries)@) == inserted(entries_view(old(entries)@), key@, value@),
        unique_keys(entries_view(old(entries)@)) ==> unique_keys(entries_view(final(entries)@)),
{
    let ghost after = inserted(entries_view(entries@), key@, value@);
    proof {
        if unique_keys(entries_view(entries@)) {
            lemma_inserted_unique(entries_view(entries@), key@, value@);
        }
    }
    match find_entry(entries, &key) {
        Some(i) => {
            entries[i] = Entry { key, value };
        },
        None => {
            entries.push(Entry { key, value });
        },
    }
    assert(entries_view(entries@) =~= after);
}

/// Turns a list of `name`/`value` pairs into an object from each name to
/// its value. Fails if `env` is no array, or one of its items is no object
/// with a string under `name` and a value under `value`.
pub fn parse_environment(env: &Json) -> (result: Option<Json>)
    ensures
        view_of(result) == environment_of(env@),
        result matches Some(object) ==> object@ is Object && (env@.wf() ==> object@.wf()),
{
    proof {
        lemma_view_of_containers(*env);
        lemma_environment_is_object(env@);
    }
    let items = match env {
        Json::Array(items) => items,
        _ => {
            return None;
        },
    };
    let ghost vs = values_view(items@);
    let name_key = "name".to_owned();
    let value_key = "value".to_owned();
    let mut members: Vec<Entry> = Vec::new();
    let mut i: usize = 0;
    while i < items.len()
        invariant
            i <= items.len(),
            vs == values_view(items@),
            env@ == JsonView::Array(vs),
            name_key@ == "name"@,
            value_key@ == "value"@,
            collected(vs, i as nat) == Some(entries_view(members@)),
        decreases items.len() - i,
    {
        proof {
            lemma_view_of_containers(items[i as int]);
        }
        let map = match &items[i] {
            Json::Object(map) => map,
            _ => {
                proof {
                    lemma_collected_fails(vs, (i + 1) as nat, items.len() as nat);
                }
                return None;
            },
        };
        let name = match find_entry(map, &name_key) {
            Some(k) => match &map[k].value {
                Json::String(name) => name.clone(),
                _ => {
                    proof {
                        lemma_collected_fails(vs, (i + 1) as nat, items.len() as nat);
                    }
                    return None;
                },
            },
            None => {
                proof {
                    lemma_collected_fails(vs, (i + 1) as nat, items.len() as nat);
                }
                return None;
            },
        };
        let value = match find_entry(map, &value_key) {
            Some(k) => map[k].value.clone(),
            None => {
                proof {
                    lemma_collected_fails(vs, (i + 1) as nat, items.len() as nat);
                }
                return None;
            },
        };
        insert_entry(&mut members, name, value);
        i += 1;
    }
    let result = Json::Object(members);
    proof {
        lemma_view_of_containers(result);
    }
    Some(result)
}

/// `out` is what rewriting `tree` may give, with `f` as the replacement.
///
/// In an object that has `key`, the value under the key becomes what `f`
/// makes of it and nothing else changes; without `f`'s result there is no
/// result. In an object that does not have it, every member's value is
/// rewritten, and in an array every item; there is no result if one of them
/// has none. Any other value stays as it is.
pub open spec fn rewrites_to<F: Fn(&Json) -> Option<Json>>(
    key: Seq<char>,
    tree: Json,
    f: F,
    out: Option<Json>,
) -> bool
    decreases tree,
{
    match tree {
        Json::Object(entries) => match position(entries_view(entries@), key) {
            Some(i) => match out {
                Some(Json::Object(outs)) => {
                    &&& outs@.len() == entries@.len()
                    &&& outs@[i].key@ == key
                    &&& f.ensures((&entries@[i].value,), Some(outs@[i].value))
                    &&& forall|j: int|
                        0 <= j < entries@.len() && j != i ==> (#[trigger] outs@[j])@
                            == entries@[j]@
                },
                Some(_) => false,
                None => f.ensures((&entries@[i].value,), None),
            },
            None => match out {
                Some(Json::Object(outs)) => {
                    &&& outs@.len() == entries@.len()
                    &&& forall|j: int|
                        0 <= j < entries@.len() ==> {
                            &&& (#[trigger] outs@[j]).key@ == entries@[j].key@
                            &&& rewrites_to(key, entries@[j].value, f, Some(outs@[j].value))
                        }
                },
                Some(_) => false,
                None => exists|j: int|
                    0 <= j < entries@.len() && rewrites_to(
                        key,
                        (#[trigger] entries@[j]).value,
                        f,
                        None,
                    ),
            },
        },
        Json::Array(items) => match out {
            Some(Json::Array(outs)) => {
                &&& outs@.len() == items@.len()
                &&& forall|j: int|
                    0 <= j < items@.len() ==> rewrites_to(
                        key,
                        items@[j],
                        f,
                        Some(#[trigger] outs@[j]),
                    )
            },
            Some(_) => false,
            None => exists|j: int|
                0 <= j < items@.len() && rewrites_to(key, #[trigger] items@[j], f, None),
        },
        _ => out matches Some(v) && v@ == tree@,
    }
}

/// Rewrites `tree` with `f` wherever `key` appears.
///
/// The search goes through every array and through every object that does
/// not have `key` itself. In an object that has it, the value under `key`
/// becomes what `f` makes of it; the other members of that object, and what
/// `f` returned, are not searched. There is no result as soon as `f` has
/// none. `f` must accept every value.
#[verifier::loop_isolation(false)]
pub fn replace_in_tree<F>(key: &str, tree: Json, f: F) -> (out: Option<Json>) where
    F: Fn(&Json) -> Option<Json> + Copy,

    requires
        forall|v: &Json| #[trigger] f.requires((v,)),
    ensures
        rewrites_to(key@, tree, f, out),
    decreases tree,
{
    match tree {
        Json::Object(entries) => {
            let mut entries = entries;
            let ghost before = entries@;
            let owned = key.to_owned();
            proof {
                lemma_position(entries_view(before), key@);
            }
            match find_entry(&entries, &owned) {
                Some(i) => {
                    let replaced = f(&entries[i].value);
                    match replaced {
                        Some(value) => {
                            entries[i] = Entry { key: owned, value };
                            Some(Json::Object(entries))
                        },
                        None => None,
                    }
                },
                None => {
                    let mut outs: Vec<Entry> = Vec::new();
                    for entry in it: entries
                        invariant
                            it.seq() == before,
                            outs@.len() == it.index(),
                            forall|j: int|
                                0 <= j < it.index() ==> {
                                    &&& (#[trigger] outs@[j]).key@ == before[j].key@
                                    &&& rewrites_to(key@, before[j].value, f, Some(outs@[j].value))
                                },
                    {
                        assert(decreases_to!(tree => entry.value));
                        match replace_in_tree(key, entry.value, f) {
                            Some(value) => outs.push(Entry { key: entry.key, value }),
                            None => {
                                return None;
                            },
                        }
                    }
                    Some(Json::Object(outs))
                },
            }
        },
        Json::Array(items) => {
            let ghost before = items@;
            let mut outs: Vec<Json> = Vec::new();
            for item in it: items
                invariant
                    it.seq() == before,
                    outs@.len() == it.index(),
                    forall|j: int|
                        0 <= j < it.index() ==> rewrites_to(
                            key@,
                            before[j],
                            f,
                            Some(#[trigger] outs@[j]),
                        ),
            {
                assert(decreases_to!(tree => item));
                match replace_in_tree(key, item, f) {
                    Some(value) => outs.push(value),
                    None => {
                        return None;
                    },
                }
            }
            Some(Json::Array(outs))
        },
        _ => Some(tree),
    }
}

/// The tree rewritten with the replacement `t`, where `t` is a function:
/// in an object that has `key`, the value under the key becomes what `t`
/// makes of it and the rest stays; in an object that does not have it every
/// member's value is rewritten, and in an array every item; any other value
/// stays. There is no result where `t` has none, or a part has none.
pub open spec fn replaced(
    key: Seq<char>,
    tree: JsonView,
    t: spec_fn(JsonView) -> Option<JsonView>,
) -> Option<JsonView>
    decreases tree, 0nat,
{
    match tree {
        JsonView::Object(entries) => match position(entries, key) {
            Some(i) => match t(entries[i].value) {
                Some(value) => Some(JsonView::Object(entries.update(i, EntryView { key, value }))),
                None => None,
            },
            None => match replaced_members(key, entries, t, entries.len()) {
                Some(members) => Some(JsonView::Object(members)),
                None => None,
            },
        },
        JsonView::Array(items) => match replaced_items(key, items, t, items.len()) {
            Some(items) => Some(JsonView::Array(items)),
            None => None,
        },
        _ => Some(tree),
    }
}

/// The first `n` items, each rewritten; none if one of them has no result.
pub open spec fn replaced_items(
    key: Seq<char>,
    items: Seq<JsonView>,
    t: spec_fn(JsonView) -> Option<JsonView>,
    n: nat,
) -> Option<Seq<JsonView>>
    decreases items, n,
{
    if n == 0 || n > items.len() {
        Some(Seq::empty())
    } else {
        match (replaced_items(key, items, t, (n - 1) as nat), replaced(key, items[n - 1], t)) {
            (Some(sofar), Some(item)) => Some(sofar.push(item)),
            _ => None,
        }
    }
}

/// The first `n` members, the value of each rewritten; none if one of them
/// has no result.
pub open spec fn replaced_members(
    key: Seq<char>,
    entries: Seq<EntryView>,
    t: spec_fn(JsonView) -> Option<JsonView>,
    n: nat,
) -> Option<Seq<EntryView>>
    decreases entries, n,
{
    if n == 0 || n > entries.len() {
        Some(Seq::empty())
    } else {
        match (
            replaced_members(key, entries, t, (n - 1) as nat),
            replaced(key, entries[n - 1].value, t),
        ) {
            (Some(sofar), Some(value)) => Some(
                sofar.push(EntryView { key: entries[n - 1].key, value }),
            ),
            _ => None,
        }
    }
}

/// The document with every list of pairs under `environment` turned into an
/// object; none if one of them is no list of pairs.
pub open spec fn normalized(tree: JsonView) -> Option<JsonView> {
    replaced("environment"@, tree, |v: JsonView| environment_of(v))
}

/// Every result of `f` has the view that `t` gives for its argument's view.
pub open spec fn computes<F: Fn(&Json) -> Option<Json>>(
    f: F,
    t: spec_fn(JsonView) -> Option<JsonView>,
) -> bool {
    forall|v: &Json, r: Option<Json>| #[trigger] f.ensures((v,), r) ==> view_of(r) == t(v@)
}

/// Turns every list of `name`/`value` pairs under the key `environment`
/// into an object, at whatever depth it stands: [`replace_in_tree`] with the
/// key `environment` and [`parse_environment`] as the replacement. Fails if
/// a value under that key is no list of pairs.
pub fn normalize(tree: Json) -> (result: Result<Json, DiffError>)
    ensures
        match result {
            Ok(v) => normalized(tree@) == Some(v@) && (tree@.wf() ==> v@.wf()),
            Err(e) => e == DiffError::NormalizationFailure && normalized(tree@) is None,
        },
{
    let out = replace_in_tree("environment", tree, parse_environment);
    proof {
        if tree@.wf() {
            lemma_normalized_wf(tree@);
        }
        lemma_rewrite_of_function(
            "environment"@,
            tree,
            parse_environment,
            out,
            |v: JsonView| environment_of(v),
        );
    }
    match out {
        Some(v) => Ok(v),
        None => Err(DiffError::NormalizationFailure),
    }
}

/// The two documents of a comparison.
#[derive(Debug)]
pub struct Pair {
    pub a: Json,
    pub b: Json,
}

/// The input from its first double quote up to its last one, the first
/// included and the last not; none if the input holds no double quote.
pub open spec fn quoted_part(input: Seq<char>) -> Option<Seq<char>> {
    match (first_occurrence(input, "\""@), last_occurrence(input, "\""@)) {
        (Some(start), Some(end)) => Some(input.subrange(start, end)),
        _ => None,
    }
}

/// The two fragments of the input: what stands before and what stands after
/// the first ` => ` of its quoted part; none if there is no quoted part or
/// no ` => ` in it.
pub open spec fn fragments(input: Seq<char>) -> Option<(Seq<char>, Seq<char>)> {
    match quoted_part(input) {
        Some(part) => match first_occurrence(part, " => "@) {
            Some(i) => Some(
                (part.subrange(0, i), part.subrange(i + " => "@.len(), part.len() as int)),
            ),
            None => None,
        },
        None => None,
    }
}

/// A fragment without the white space around it, and then without the
/// double quotes around that.
pub open spec fn cleaned(fragment: Seq<char>) -> Seq<char> {
    stripped(stripped(fragment, Trim::WhiteSpace), Trim::Quotes)
}

/// The document that a fragment holds: its cleaned text parsed as JSON and
/// normalized.
pub open spec fn document(fragment: Seq<char>) -> Result<JsonView, DiffError> {
    match json_parse(cleaned(fragment)) {
        None => Err(DiffError::Syntax),
        Some(tree) => match normalized(tree) {
            None => Err(DiffError::NormalizationFailure),
            Some(v) => Ok(v),
        },
    }
}

/// The two documents that an input holds, or the first failure on the way
/// to them.
pub open spec fn documents(input: Seq<char>) -> Result<(JsonView, JsonView), DiffError> {
    match fragments(input) {
        None => Err(DiffError::InvalidInput),
        Some((left, right)) => match document(left) {
            Err(e) => Err(e),
            Ok(a) => match document(right) {
                Err(e) => Err(e),
                Ok(b) => Ok((a, b)),
            },
        },
    }
}

impl Pair {
    /// Reads the document that a fragment holds.
    fn clean_string(s: &str) -> (result: Result<Json, DiffError>)
        ensures
            match result {
                Ok(v) => document(s@) == Ok::<JsonView, DiffError>(v@) && v@.wf(),
                Err(e) => document(s@) == Err::<JsonView, DiffError>(e),
            },
    {
        let chars = chars_of(s);
        let (lo, hi) = trim_bounds(&chars, 0, chars.len(), Trim::WhiteSpace);
        let (lo, hi) = trim_bounds(&chars, lo, hi, Trim::Quotes);
        assert(chars@.subrange(0, chars.len() as int) =~= s@);
        let text = string_of(&chars, lo, hi);
        match parse_document(text.as_str()) {
            Ok(value) => normalize(value),
            Err(e) => Err(e),
        }
    }

    /// The quoted part of the input.
    fn trim(input: &str) -> (part: Option<String>)
        ensures
            match part {
                Some(p) => quoted_part(input@) == Some(p@),
                None => quoted_part(input@) is None,
            },
    {
        let chars = chars_of(input);
        let quote = chars_of("\"");
        proof {
            lemma_first_before_last(chars@, quote@);
        }
        match (find(&chars, &quote), rfind(&chars, &quote)) {
            (Some(start), Some(end)) => Some(string_of(&chars, start, end)),
            _ => None,
        }
    }

    /// Reads the two documents of an input such as
    /// `"{\"a\": 1}" => "{\"a\": 2}"`: takes the text from the first double
    /// quote up to the last, parts it at the first ` => `, and reads one
    /// document from each part.
    pub fn new(input: &str) -> (result: Result<Pair, DiffError>)
        ensures
            match result {
                Ok(pair) => {
                    &&& documents(input@) == Ok::<(JsonView, JsonView), DiffError>(
                        (pair.a@, pair.b@),
                    )
                    &&& pair.a@.wf()
                    &&& pair.b@.wf()
                },
                Err(e) => documents(input@) == Err::<(JsonView, JsonView), DiffError>(e),
            },
    {
        let trimmed = match Pair::trim(input) {
            Some(part) => part,
            None => {
                return Err(DiffError::InvalidInput);
            },
        };
        let chars = chars_of(trimmed.as_str());
        let separator = chars_of(" => ");
        let index = match find(&chars, &separator) {
            Some(index) => index,
            None => {
                return Err(DiffError::InvalidInput);
            },
        };
        let left = string_of(&chars, 0, index);
        let right = string_of(&chars, index + separator.len(), chars.len());
        let a = match Pair::clean_string(left.as_str()) {
            Ok(a) => a,
            Err(e) => {
                return Err(e);
            },
        };
        let b = match Pair::clean_string(right.as_str()) {
            Ok(b) => b,
            Err(e) => {
                return Err(e);
            },
        };
        Ok(Pair { a, b })
    }
}

} // verus!
