//! The comparison itself: objects key by key, arrays of objects position by
//! position, everything else as one changed line.

use crate::depth::{
    lemma_array_diff_bounded, lemma_nests_within_more, lemma_object_diff_bounded,
};
use crate::error::DiffError;
use crate::json::{
    copy_value, entries_view, find_entry, lemma_array_nests_within, lemma_object_nests_within,
    lemma_position, lemma_view_of_containers, lookup, value_eq, values_view, Entry, EntryView,
    Json, JsonView,
};
use crate::laws::{all_shown, lemma_diff_shown, lemma_object_diff_to_empty};
use crate::line::{lines_view, wrap, wrapped, Line, LineView, WrapperKind};
use crate::text::{array_to_text, text};
use crate::util::zip_to_end;
use vstd::prelude::*;

verus! {

/// How a key is shown before its value: the key between double quotes, a
/// colon and a space.
pub open spec fn key_label(key: Seq<char>) -> Seq<char> {
    "\""@ + key + "\": "@
}

/// The line for a member that only the first object has.
pub open spec fn removed_line(e: EntryView) -> LineView {
    LineView { marker: '-', depth: 0, text: key_label(e.key) + text(e.value) }
}

/// The line for a member that only the second object has.
pub open spec fn added_line(e: EntryView) -> LineView {
    LineView { marker: '+', depth: 0, text: key_label(e.key) + text(e.value) }
}

/// The line for a key whose value differs and is not compared part by part.
pub open spec fn changed_line(key: Seq<char>, a: JsonView, b: JsonView) -> LineView {
    LineView { marker: '~', depth: 0, text: key_label(key) + text(a) + " => "@ + text(b) }
}

/// The line for two arrays that are not compared item by item.
pub open spec fn replaced_line(a: Seq<JsonView>, b: Seq<JsonView>) -> LineView {
    LineView {
        marker: '~',
        depth: 0,
        text: text(JsonView::Array(a)) + " => "@ + text(JsonView::Array(b)),
    }
}

/// Every item is an object.
pub open spec fn all_objects(items: Seq<JsonView>) -> bool {
    forall|i: int| 0 <= i < items.len() ==> (#[trigger] items[i]) is Object
}

/// One added line for each member, in order.
pub open spec fn all_added(entries: Seq<EntryView>) -> Seq<LineView> {
    Seq::new(entries.len(), |i: int| added_line(entries[i]))
}

/// One removed line for each member, in order.
pub open spec fn all_removed(entries: Seq<EntryView>) -> Seq<LineView> {
    Seq::new(entries.len(), |i: int| removed_line(entries[i]))
}

/// The result of comparing two objects: for each member of `a`, in `a`'s
/// order, what became of it in `b`; then one added line for each member of
/// `b` whose key `a` does not have, in `b`'s order.
pub open spec fn object_diff(a: Seq<EntryView>, b: Seq<EntryView>) -> Seq<LineView>
    decreases a, 1nat, 0nat,
{
    members_diff(a, b, a.len()) + additions(a, b, b.len())
}

/// What became of the first `n` members of `a`.
pub open spec fn members_diff(a: Seq<EntryView>, b: Seq<EntryView>, n: nat) -> Seq<LineView>
    decreases a, 0nat, n,
{
    if n == 0 || n > a.len() {
        Seq::empty()
    } else {
        members_diff(a, b, (n - 1) as nat) + member_diff(a[n - 1], b)
    }
}

/// What became of one member of the first object: a removed line where `b`
/// has no such key; nothing where `b` holds an equal value; the bracketed
/// comparison of the two values where both are objects or both are arrays,
/// which is nothing where that comparison is empty; else a changed line.
pub open spec fn member_diff(e: EntryView, b: Seq<EntryView>) -> Seq<LineView>
    decreases e, 0nat, 0nat,
{
    match lookup(b, e.key) {
        None => seq![removed_line(e)],
        Some(other) => if value_eq(e.value, other) {
            Seq::empty()
        } else {
            match (e.value, other) {
                (JsonView::Object(x), JsonView::Object(y)) => wrapped(
                    object_diff(x, y),
                    key_label(e.key),
                    WrapperKind::Object,
                ),
                (JsonView::Array(x), JsonView::Array(y)) => wrapped(
                    array_diff(x, y),
                    key_label(e.key),
                    WrapperKind::Array,
                ),
                _ => seq![changed_line(e.key, e.value, other)],
            }
        },
    }
}

/// The added lines among the first `n` members of `b`: one for each whose
/// key `a` does not have.
pub open spec fn additions(a: Seq<EntryView>, b: Seq<EntryView>, n: nat) -> Seq<LineView>
    decreases n,
{
    if n == 0 || n > b.len() {
        Seq::empty()
    } else if lookup(a, b[n - 1].key) is None {
        additions(a, b, (n - 1) as nat).push(added_line(b[n - 1]))
    } else {
        additions(a, b, (n - 1) as nat)
    }
}

/// The result of comparing two arrays: position by position where every
/// item of both is an object, else one line that shows both arrays whole.
pub open spec fn array_diff(a: Seq<JsonView>, b: Seq<JsonView>) -> Seq<LineView>
    decreases a, 1nat, 0nat,
{
    if all_objects(a) && all_objects(b) {
        pairs_diff(a, b, if a.len() >= b.len() { a.len() } else { b.len() })
    } else {
        seq![replaced_line(a, b)]
    }
}

/// The blocks for the first `n` positions of two arrays of objects.
pub open spec fn pairs_diff(a: Seq<JsonView>, b: Seq<JsonView>, n: nat) -> Seq<LineView>
    decreases a, 0nat, n,
{
    if n == 0 {
        Seq::empty()
    } else {
        pairs_diff(a, b, (n - 1) as nat) + pair_diff(a, b, n - 1)
    }
}

/// The block for one position: the two objects compared where both arrays
/// reach it; the object of the one that does compared with an empty object
/// where the other is shorter. An empty comparison gives no block.
pub open spec fn pair_diff(a: Seq<JsonView>, b: Seq<JsonView>, i: int) -> Seq<LineView>
    decreases a, 0nat, 0nat,
{
    if 0 <= i < a.len() {
        match a[i] {
            JsonView::Object(x) => wrapped(
                object_diff(x, members_at(b, i)),
                Seq::empty(),
                WrapperKind::Object,
            ),
            _ => Seq::empty(),
        }
    } else {
        wrapped(all_added(members_at(b, i)), Seq::empty(), WrapperKind::Object)
    }
}

/// The members of the object at position `i`; none where there is no object.
pub open spec fn members_at(items: Seq<JsonView>, i: int) -> Seq<EntryView> {
    if 0 <= i < items.len() && items[i] is Object {
        items[i]->Object_0
    } else {
        Seq::empty()
    }
}

/// The result of comparing two documents: that of two objects or of two
/// arrays; none for any other pair.
pub open spec fn diff_of(a: JsonView, b: JsonView) -> Option<Seq<LineView>> {
    match (a, b) {
        (JsonView::Object(x), JsonView::Object(y)) => Some(object_diff(x, y)),
        (JsonView::Array(x), JsonView::Array(y)) => Some(array_diff(x, y)),
        _ => None,
    }
}

/// One of the two documents nests no deeper than a `usize` can count, so
/// that the depth of every line of their comparison fits in one.
pub open spec fn fits(a: JsonView, b: JsonView) -> bool {
    a.nests_within(usize::MAX as nat) || b.nests_within(usize::MAX as nat)
}

/// The key as it is shown before its value.
fn label_of(key: &String) -> (label: String)
    ensures
        label@ == key_label(key@),
{
    let mut label = "\"".to_owned();
    label.append(key.as_str());
    label.append("\": ");
    label
}

/// The line that shows a member under the given marker.
fn member_line(marker: char, e: &Entry) -> (line: Line)
    ensures
        line@ == (LineView { marker, depth: 0, text: key_label(e.key@) + text(e.value@) }),
{
    let mut shown = label_of(&e.key);
    let value = e.value.to_text();
    shown.append(value.as_str());
    Line::new(marker, shown)
}

/// Appends `more` to `lines`.
fn append_lines(lines: &mut Vec<Line>, more: Vec<Line>)
    ensures
        lines_view(final(lines)@) == lines_view(old(lines)@) + lines_view(more@),
{
    let mut more = more;
    lines.append(&mut more);
}

/// Appends one line to `lines`.
fn push_line(lines: &mut Vec<Line>, line: Line)
    ensures
        lines_view(final(lines)@) == lines_view(old(lines)@).push(line@),
{
    lines.push(line);
}

/// One added line for each member.
fn added_lines(entries: &Vec<Entry>) -> (lines: Vec<Line>)
    ensures
        lines_view(lines@) == all_added(entries_view(entries@)),
{
    let ghost es = entries_view(entries@);
    let mut lines: Vec<Line> = Vec::new();
    let mut i: usize = 0;
    while i < entries.len()
        invariant
            i <= entries.len(),
            es == entries_view(entries@),
            lines_view(lines@) == all_added(es).take(i as int),
        decreases entries.len() - i,
    {
        push_line(&mut lines, member_line('+', &entries[i]));
        i += 1;
    }
    lines
}

/// Compares two objects, given as their members.
#[verifier::loop_isolation(false)]
pub fn diff_obj(a: &Vec<Entry>, b: &Vec<Entry>) -> (lines: Vec<Line>)
    requires
        fits(JsonView::Object(entries_view(a@)), JsonView::Object(entries_view(b@))),
    ensures
        lines_view(lines@) == object_diff(entries_view(a@), entries_view(b@)),
    decreases entries_view(a@), 1nat,
{
    let ghost av = entries_view(a@);
    let ghost bv = entries_view(b@);
    let ghost top = usize::MAX as nat;
    proof {
        lemma_object_nests_within(av, top);
        lemma_object_nests_within(bv, top);
    }
    let mut lines: Vec<Line> = Vec::new();
    let mut i: usize = 0;
    while i < a.len()
        invariant
            i <= a.len(),
            lines_view(lines@) == members_diff(av, bv, i as nat),
        decreases a.len() - i,
    {
        let entry = &a[i];
        let ghost e = av[i as int];
        let ghost before = lines_view(lines@);
        proof {
            lemma_position(bv, e.key);
        }
        match find_entry(b, &entry.key) {
            None => {
                push_line(&mut lines, member_line('-', entry));
            },
            Some(k) => {
                let other = &b[k].value;
                if entry.value != *other {
                    proof {
                        lemma_view_of_containers(entry.value);
                        lemma_view_of_containers(*other);
                        if e.value.nests_within((top - 1) as nat) {
                            lemma_nests_within_more(e.value, (top - 1) as nat, top);
                        }
                        if other@.nests_within((top - 1) as nat) {
                            lemma_nests_within_more(other@, (top - 1) as nat, top);
                        }
                    }
                    match (&entry.value, other) {
                        (Json::Object(x), Json::Object(y)) => {
                            let inner = diff_obj(x, y);
                            proof {
                                lemma_object_diff_bounded(
                                    entries_view(x@),
                                    entries_view(y@),
                                    (top - 1) as nat,
                                );
                            }
                            let label = label_of(&entry.key);
                            let block = wrap(inner, label.as_str(), WrapperKind::Object);
                            append_lines(&mut lines, block);
                        },
                        (Json::Array(x), Json::Array(y)) => {
                            let inner = diff_array(x, y);
                            proof {
                                lemma_array_diff_bounded(
                                    values_view(x@),
                                    values_view(y@),
                                    (top - 1) as nat,
                                );
                            }
                            let label = label_of(&entry.key);
                            let block = wrap(inner, label.as_str(), WrapperKind::Array);
                            append_lines(&mut lines, block);
                        },
                        _ => {
                            let mut shown = label_of(&entry.key);
                            let old_text = entry.value.to_text();
                            let new_text = other.to_text();
                            shown.append(old_text.as_str());
                            shown.append(" => ");
                            shown.append(new_text.as_str());
                            push_line(&mut lines, Line::new('~', shown));
                        },
                    }
                }
            },
        }
        assert(lines_view(lines@) =~= before + member_diff(e, bv));
        i += 1;
    }
    let mut j: usize = 0;
    while j < b.len()
        invariant
            j <= b.len(),
            lines_view(lines@) == members_diff(av, bv, a.len() as nat) + additions(
                av,
                bv,
                j as nat,
            ),
        decreases b.len() - j,
    {
        if find_entry(a, &b[j].key).is_none() {
            push_line(&mut lines, member_line('+', &b[j]));
        }
        j += 1;
    }
    lines
}

/// Whether every item is an object.
fn only_objects(items: &Vec<Json>) -> (all: bool)
    ensures
        all == all_objects(values_view(items@)),
{
    let mut i: usize = 0;
    while i < items.len()
        invariant
            i <= items.len(),
            forall|k: int| 0 <= k < i ==> (#[trigger] values_view(items@)[k]) is Object,
        decreases items.len() - i,
    {
        match &items[i] {
            Json::Object(_) => {},
            _ => {
                return false;
            },
        }
        assert(values_view(items@)[i as int] is Object);
        i += 1;
    }
    true
}

/// A deep copy of the items.
fn copy_items(items: &Vec<Json>) -> (copies: Vec<Json>)
    ensures
        values_view(copies@) == values_view(items@),
{
    let mut copies: Vec<Json> = Vec::new();
    let mut i: usize = 0;
    while i < items.len()
        invariant
            i <= items.len(),
            values_view(copies@) == values_view(items@).take(i as int),
        decreases items.len() - i,
    {
        let ghost before = values_view(copies@);
        copies.push(copy_value(&items[i]));
        i += 1;
        assert(values_view(copies@) =~= before.push(items@[i - 1]@));
    }
    copies
}

/// Compares two arrays of objects position by position: the objects at
/// one position with each other, and an object that has no partner with
/// an empty object.
#[verifier::loop_isolation(false)]
pub fn diff_obj_array(a: &Vec<Json>, b: &Vec<Json>) -> (lines: Vec<Line>)
    requires
        all_objects(values_view(a@)),
        all_objects(values_view(b@)),
        fits(JsonView::Array(values_view(a@)), JsonView::Array(values_view(b@))),
    ensures
        lines_view(lines@) == pairs_diff(
            values_view(a@),
            values_view(b@),
            if a.len() >= b.len() {
                a.len() as nat
            } else {
                b.len() as nat
            },
        ),
    decreases values_view(a@), 1nat,
{
    let ghost av = values_view(a@);
    let ghost bv = values_view(b@);
    let ghost top = usize::MAX as nat;
    let mut lines: Vec<Line> = Vec::new();
    proof {
        lemma_array_nests_within(av, top);
        lemma_array_nests_within(bv, top);
    }
    let copies_a = copy_items(a);
    let copies_b = copy_items(b);
    assert(copies_a.len() == av.len() && copies_b.len() == bv.len());
    let pairs = zip_to_end(copies_a, copies_b);
    let mut i: usize = 0;
    while i < pairs.len()
        invariant
            i <= pairs.len(),
            lines_view(lines@) == pairs_diff(av, bv, i as nat),
        decreases pairs.len() - i,
    {
        let ghost before = lines_view(lines@);
        let ghost n = i as int;
        match (&pairs[i].0, &pairs[i].1) {
            (Some(x), Some(y)) => {
                proof {
                    lemma_view_of_containers(*x);
                    lemma_view_of_containers(*y);
                    if av[n].nests_within((top - 1) as nat) {
                        lemma_nests_within_more(av[n], (top - 1) as nat, top);
                    }
                    if bv[n].nests_within((top - 1) as nat) {
                        lemma_nests_within_more(bv[n], (top - 1) as nat, top);
                    }
                }
                match (x, y) {
                    (Json::Object(xs), Json::Object(ys)) => {
                        let inner = diff_obj(xs, ys);
                        proof {
                            lemma_object_diff_bounded(
                                entries_view(xs@),
                                entries_view(ys@),
                                (top - 1) as nat,
                            );
                        }
                        append_lines(&mut lines, wrap(inner, "", WrapperKind::Object));
                    },
                    _ => {},
                }
            },
            (Some(x), None) => {
                proof {
                    lemma_view_of_containers(*x);
                }
                match x {
                    Json::Object(xs) => {
                        let nothing: Vec<Entry> = Vec::new();
                        assert(entries_view(nothing@) =~= Seq::empty());
                        proof {
                            lemma_object_nests_within(Seq::empty(), top);
                        }
                        let inner = diff_obj(xs, &nothing);
                        proof {
                            lemma_object_diff_to_empty(entries_view(xs@));
                        }
                        append_lines(&mut lines, wrap(inner, "", WrapperKind::Object));
                    },
                    _ => {},
                }
            },
            (None, Some(y)) => {
                proof {
                    lemma_view_of_containers(*y);
                }
                match y {
                    Json::Object(ys) => {
                        let inner = added_lines(ys);
                        append_lines(&mut lines, wrap(inner, "", WrapperKind::Object));
                    },
                    _ => {},
                }
            },
            (None, None) => {},
        }
        proof {
            reveal_strlit("");
        }
        assert(lines_view(lines@) =~= before + pair_diff(av, bv, n));
        i += 1;
    }
    lines
}

/// Compares two arrays, given as their items.
pub fn diff_array(a: &Vec<Json>, b: &Vec<Json>) -> (lines: Vec<Line>)
    requires
        fits(JsonView::Array(values_view(a@)), JsonView::Array(values_view(b@))),
    ensures
        lines_view(lines@) == array_diff(values_view(a@), values_view(b@)),
    decreases values_view(a@), 2nat,
{
    if only_objects(a) && only_objects(b) {
        diff_obj_array(a, b)
    } else {
        let mut lines: Vec<Line> = Vec::new();
        let mut shown = array_to_text(a);
        let new_text = array_to_text(b);
        shown.append(" => ");
        shown.append(new_text.as_str());
        push_line(&mut lines, Line::new('~', shown));
        lines
    }
}

/// Compares two documents.
///
/// Two objects are compared key by key and two arrays position by position;
/// any other pair is refused as a type mismatch. No line of the result
/// carries the marker of an unchanged entry. One of the two documents must
/// nest no deeper than a `usize` can count.
pub fn diff(a: &Json, b: &Json) -> (result: Result<Vec<Line>, DiffError>)
    requires
        fits(a@, b@),
    ensures
        match result {
            Ok(lines) => diff_of(a@, b@) == Some(lines_view(lines@)) && all_shown(
                lines_view(lines@),
            ),
            Err(e) => e == DiffError::TypeMismatch && diff_of(a@, b@) is None,
        },
{
    proof {
        lemma_view_of_containers(*a);
        lemma_view_of_containers(*b);
        lemma_diff_shown(a@, b@);
    }
    match (a, b) {
        (Json::Object(x), Json::Object(y)) => Ok(diff_obj(x, y)),
        (Json::Array(x), Json::Array(y)) => Ok(diff_array(x, y)),
        _ => Err(DiffError::TypeMismatch),
    }
}

} // verus!
