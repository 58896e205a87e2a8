//! What holds of every document and of every comparison: equality is an
//! equivalence, a document does not differ from itself, no line of a
//! result stands for an unchanged entry, and bracket lines show no marker.

use crate::json::{
    keys, lemma_array_wf, lemma_object_wf, lemma_position, lemma_position_is,
    lemma_position_none, lookup, member_eq, position, unique_keys, value_eq, EntryView, JsonView,
};
use crate::line::{
    close_bracket, indented, open_bracket, rendered, spaces, wrapped, LineView, WrapperKind,
};
use crate::pair::{environment_of, normalized};
use crate::parser::{
    additions, all_added, all_objects, all_removed, array_diff, changed_line, diff_of,
    key_label, member_diff, members_at, members_diff, object_diff, pair_diff, pairs_diff,
    removed_line,
};
use crate::rewrite::lemma_environment_is_object;
use vstd::prelude::*;

verus! {

/// In a well-formed object, each member's key leads to that member's value.
pub proof fn lemma_lookup_own_member(entries: Seq<EntryView>, i: int)
    requires
        unique_keys(entries),
        0 <= i < entries.len(),
    ensures
        position(entries, entries[i].key) == Some(i),
        lookup(entries, entries[i].key) == Some(entries[i].value),
{
    assert forall|j: int| 0 <= j < i implies (#[trigger] entries[j]).key != entries[i].key by {}
    lemma_position_is(entries, entries[i].key, i);
}

/// A well-formed document equals itself.
pub proof fn lemma_value_eq_reflexive(v: JsonView)
    requires
        v.wf(),
    ensures
        value_eq(v, v),
    decreases v,
{
    match v {
        JsonView::Array(items) => {
            assert forall|i: int| 0 <= i < items.len() implies value_eq(
                #[trigger] items[i],
                items[i],
            ) by {
                lemma_value_eq_reflexive(items[i]);
            }
        },
        JsonView::Object(entries) => {
            assert forall|i: int| 0 <= i < entries.len() implies member_eq(
                #[trigger] entries[i],
                entries,
            ) by {
                lemma_lookup_own_member(entries, i);
                lemma_value_eq_reflexive(entries[i].value);
            }
        },
        _ => {},
    }
}

/// Two well-formed objects of one size, of which the second holds every key
/// of the first, hold the same keys: the first holds every key of the second.
pub proof fn lemma_same_keys(xs: Seq<EntryView>, ys: Seq<EntryView>, j: int)
    requires
        unique_keys(xs),
        unique_keys(ys),
        xs.len() == ys.len(),
        forall|i: int| 0 <= i < xs.len() ==> lookup(ys, (#[trigger] xs[i]).key) is Some,
        0 <= j < ys.len(),
    ensures
        exists|i: int| 0 <= i < xs.len() && (#[trigger] xs[i]).key == ys[j].key,
{
    let kx = keys(xs);
    let ky = keys(ys);
    assert(kx.no_duplicates()) by {
        assert forall|a: int, b: int|
            0 <= a < kx.len() && 0 <= b < kx.len() && a != b implies kx[a] != kx[b] by {
            if a < b {
                assert(xs[a].key != xs[b].key);
            } else {
                assert(xs[b].key != xs[a].key);
            }
        }
    }
    assert(ky.no_duplicates()) by {
        assert forall|a: int, b: int|
            0 <= a < ky.len() && 0 <= b < ky.len() && a != b implies ky[a] != ky[b] by {
            if a < b {
                assert(ys[a].key != ys[b].key);
            } else {
                assert(ys[b].key != ys[a].key);
            }
        }
    }
    kx.unique_seq_to_set();
    ky.unique_seq_to_set();
    vstd::seq_lib::seq_to_set_is_finite(kx);
    vstd::seq_lib::seq_to_set_is_finite(ky);
    assert(kx.to_set().subset_of(ky.to_set())) by {
        assert forall|k: Seq<char>| kx.to_set().contains(k) implies ky.to_set().contains(k) by {
            let i = choose|i: int| 0 <= i < kx.len() && kx[i] == k;
            assert(xs[i].key == k);
            lemma_position(ys, k);
            let at = position(ys, k)->Some_0;
            assert(ky[at] == k);
        }
    }
    vstd::set_lib::lemma_subset_equality(kx.to_set(), ky.to_set());
    assert(ky[j] == ys[j].key);
    assert(ky.to_set().contains(ys[j].key));
    assert(kx.to_set().contains(ys[j].key));
    let i = choose|i: int| 0 <= i < kx.len() && kx[i] == ys[j].key;
    assert(xs[i].key == ys[j].key);
}

/// Equality of well-formed documents does not depend on which of the two
/// comes first.
pub proof fn lemma_value_eq_symmetric(a: JsonView, b: JsonView)
    requires
        a.wf(),
        b.wf(),
        value_eq(a, b),
    ensures
        value_eq(b, a),
    decreases a,
{
    match (a, b) {
        (JsonView::Array(xs), JsonView::Array(ys)) => {
            assert forall|i: int| 0 <= i < ys.len() implies value_eq(#[trigger] ys[i], xs[i]) by {
                lemma_value_eq_symmetric(xs[i], ys[i]);
            }
        },
        (JsonView::Object(xs), JsonView::Object(ys)) => {
            assert forall|i: int| 0 <= i < xs.len() implies lookup(
                ys,
                (#[trigger] xs[i]).key,
            ) is Some by {
                assert(member_eq(xs[i], ys));
            }
            assert forall|j: int| 0 <= j < ys.len() implies member_eq(#[trigger] ys[j], xs) by {
                lemma_same_keys(xs, ys, j);
                let i = choose|i: int| 0 <= i < xs.len() && (#[trigger] xs[i]).key == ys[j].key;
                lemma_lookup_own_member(xs, i);
                lemma_lookup_own_member(ys, j);
                assert(member_eq(xs[i], ys));
                lemma_value_eq_symmetric(xs[i].value, ys[j].value);
            }
        },
        _ => {},
    }
}

/// Two documents that equal a third in turn equal each other.
pub proof fn lemma_value_eq_transitive(a: JsonView, b: JsonView, c: JsonView)
    requires
        value_eq(a, b),
        value_eq(b, c),
    ensures
        value_eq(a, c),
    decreases a,
{
    match (a, b, c) {
        (JsonView::Array(xs), JsonView::Array(ys), JsonView::Array(zs)) => {
            assert forall|i: int| 0 <= i < xs.len() implies value_eq(#[trigger] xs[i], zs[i]) by {
                lemma_value_eq_transitive(xs[i], ys[i], zs[i]);
            }
        },
        (JsonView::Object(xs), JsonView::Object(ys), JsonView::Object(zs)) => {
            assert forall|i: int| 0 <= i < xs.len() implies member_eq(#[trigger] xs[i], zs) by {
                assert(member_eq(xs[i], ys));
                lemma_position(ys, xs[i].key);
                let j = position(ys, xs[i].key)->Some_0;
                assert(member_eq(ys[j], zs));
                lemma_value_eq_transitive(
                    xs[i].value,
                    ys[j].value,
                    lookup(zs, xs[i].key)->Some_0,
                );
            }
        },
        _ => {},
    }
}

/// A well-formed object compared with itself: none of its first `n` members
/// has changed, and none of them is new.
pub proof fn lemma_object_diff_self(entries: Seq<EntryView>, n: nat)
    requires
        JsonView::Object(entries).wf(),
        n <= entries.len(),
    ensures
        members_diff(entries, entries, n) == Seq::<LineView>::empty(),
        additions(entries, entries, n) == Seq::<LineView>::empty(),
    decreases n,
{
    lemma_object_wf(entries);
    if n > 0 {
        lemma_object_diff_self(entries, (n - 1) as nat);
        lemma_lookup_own_member(entries, n - 1);
        lemma_value_eq_reflexive(entries[n - 1].value);
        assert(member_diff(entries[n - 1], entries) == Seq::<LineView>::empty());
    }
}

/// An array of well-formed objects compared with itself: none of its first
/// `n` positions gives a block.
pub proof fn lemma_pairs_diff_self(items: Seq<JsonView>, n: nat)
    requires
        JsonView::Array(items).wf(),
        all_objects(items),
        n <= items.len(),
    ensures
        pairs_diff(items, items, n) == Seq::<LineView>::empty(),
    decreases n,
{
    lemma_array_wf(items);
    if n > 0 {
        lemma_pairs_diff_self(items, (n - 1) as nat);
        let x = items[n - 1]->Object_0;
        lemma_object_diff_self(x, x.len());
        assert(pair_diff(items, items, n - 1) == Seq::<LineView>::empty());
    }
}

/// Identity: a well-formed object, or a well-formed array of objects,
/// compared with itself gives no line.
pub proof fn lemma_diff_identity(v: JsonView)
    requires
        v.wf(),
        v is Object || (v matches JsonView::Array(items) && all_objects(items)),
    ensures
        diff_of(v, v) == Some(Seq::<LineView>::empty()),
{
    match v {
        JsonView::Object(entries) => {
            lemma_object_diff_self(entries, entries.len());
        },
        JsonView::Array(items) => {
            lemma_pairs_diff_self(items, items.len());
        },
        _ => {},
    }
}

/// Compared with an empty object, every member of the first is removed.
pub proof fn lemma_object_diff_to_empty(a: Seq<EntryView>)
    ensures
        object_diff(a, Seq::empty()) == all_removed(a),
{
    lemma_members_diff_to_empty(a, a.len());
}

/// The same, of the first `n` members.
pub proof fn lemma_members_diff_to_empty(a: Seq<EntryView>, n: nat)
    requires
        n <= a.len(),
    ensures
        members_diff(a, Seq::empty(), n) == all_removed(a).take(n as int),
    decreases n,
{
    if n > 0 {
        lemma_members_diff_to_empty(a, (n - 1) as nat);
        lemma_position_none(Seq::empty(), a[n - 1].key);
        assert(member_diff(a[n - 1], Seq::empty()) == seq![removed_line(a[n - 1])]);
        assert(all_removed(a).take(n as int) =~= all_removed(a).take(n - 1).push(
            removed_line(a[n - 1]),
        ));
    }
}

/// Compared with an empty object, every member of the other is added.
pub proof fn lemma_object_diff_from_empty(b: Seq<EntryView>)
    ensures
        object_diff(Seq::empty(), b) == all_added(b),
{
    lemma_additions_from_empty(b, b.len());
}

/// The same, of the first `n` members.
pub proof fn lemma_additions_from_empty(b: Seq<EntryView>, n: nat)
    requires
        n <= b.len(),
    ensures
        additions(Seq::empty(), b, n) == all_added(b).take(n as int),
    decreases n,
{
    if n > 0 {
        lemma_additions_from_empty(b, (n - 1) as nat);
        lemma_position_none(Seq::empty(), b[n - 1].key);
    }
}

/// An object that has no partner at its position is compared with an
/// empty object: the block holds one removed line for each of its members
/// where it stands in the first array, one added line for each where it
/// stands in the second.
pub proof fn lemma_pair_without_partner(a: Seq<JsonView>, b: Seq<JsonView>, i: int)
    requires
        all_objects(a),
        all_objects(b),
        0 <= i,
    ensures
        a.len() <= i ==> pair_diff(a, b, i) == wrapped(
            object_diff(Seq::empty(), members_at(b, i)),
            Seq::empty(),
            WrapperKind::Object,
        ),
        b.len() <= i < a.len() ==> pair_diff(a, b, i) == wrapped(
            all_removed(members_at(a, i)),
            Seq::empty(),
            WrapperKind::Object,
        ),
{
    lemma_object_diff_from_empty(members_at(b, i));
    if b.len() <= i < a.len() {
        lemma_object_diff_to_empty(members_at(a, i));
    }
}

/// The line's marker is one that is shown: added, removed, changed or
/// bracket; not the marker of an unchanged entry.
pub open spec fn shown(line: LineView) -> bool {
    line.marker == '+' || line.marker == '-' || line.marker == '~' || line.marker == '.'
}

/// Every line carries a marker that is shown.
pub open spec fn all_shown(lines: Seq<LineView>) -> bool {
    forall|i: int| 0 <= i < lines.len() ==> shown(#[trigger] lines[i])
}

/// A block of shown lines is made of shown lines.
pub proof fn lemma_wrapped_shown(lines: Seq<LineView>, label: Seq<char>, kind: WrapperKind)
    requires
        all_shown(lines),
    ensures
        all_shown(wrapped(lines, label, kind)),
{
}

/// No comparison of two objects holds the marker of an unchanged entry.
pub proof fn lemma_object_diff_shown(a: Seq<EntryView>, b: Seq<EntryView>)
    ensures
        all_shown(object_diff(a, b)),
    decreases a, 1nat, 0nat,
{
    lemma_members_diff_shown(a, b, a.len());
    lemma_additions_shown(a, b, b.len());
}

/// The same, of the first `n` members of the first object.
pub proof fn lemma_members_diff_shown(a: Seq<EntryView>, b: Seq<EntryView>, n: nat)
    ensures
        all_shown(members_diff(a, b, n)),
    decreases a, 0nat, n,
{
    if 0 < n <= a.len() {
        lemma_members_diff_shown(a, b, (n - 1) as nat);
        let e = a[n - 1];
        match lookup(b, e.key) {
            None => {},
            Some(other) => {
                if !value_eq(e.value, other) {
                    match (e.value, other) {
                        (JsonView::Object(x), JsonView::Object(y)) => {
                            lemma_object_diff_shown(x, y);
                            lemma_wrapped_shown(
                                object_diff(x, y),
                                key_label(e.key),
                                WrapperKind::Object,
                            );
                        },
                        (JsonView::Array(x), JsonView::Array(y)) => {
                            lemma_array_diff_shown(x, y);
                            lemma_wrapped_shown(
                                array_diff(x, y),
                                key_label(e.key),
                                WrapperKind::Array,
                            );
                        },
                        _ => {},
                    }
                }
            },
        }
        assert(all_shown(member_diff(e, b)));
    }
}

/// The same, of the added lines.
pub proof fn lemma_additions_shown(a: Seq<EntryView>, b: Seq<EntryView>, n: nat)
    ensures
        all_shown(additions(a, b, n)),
    decreases n,
{
    if 0 < n <= b.len() {
        lemma_additions_shown(a, b, (n - 1) as nat);
    }
}

/// No comparison of two arrays holds the marker of an unchanged entry.
pub proof fn lemma_array_diff_shown(a: Seq<JsonView>, b: Seq<JsonView>)
    ensures
        all_shown(array_diff(a, b)),
    decreases a, 1nat, 0nat,
{
    if all_objects(a) && all_objects(b) {
        lemma_pairs_diff_shown(a, b, if a.len() >= b.len() { a.len() } else { b.len() });
    }
}

/// The same, of the first `n` positions.
pub proof fn lemma_pairs_diff_shown(a: Seq<JsonView>, b: Seq<JsonView>, n: nat)
    ensures
        all_shown(pairs_diff(a, b, n)),
    decreases a, 0nat, n,
{
    if n > 0 {
        lemma_pairs_diff_shown(a, b, (n - 1) as nat);
        let i = n - 1;
        let y = members_at(b, i);
        if i < a.len() {
            match a[i] {
                JsonView::Object(x) => {
                    lemma_object_diff_shown(x, y);
                    lemma_wrapped_shown(object_diff(x, y), Seq::empty(), WrapperKind::Object);
                },
                _ => {},
            }
        } else {
            lemma_wrapped_shown(all_added(y), Seq::empty(), WrapperKind::Object);
        }
        assert(all_shown(pair_diff(a, b, i)));
    }
}

/// The marker of an unchanged entry never reaches a caller: every line of a
/// comparison is an added, a removed, a changed or a bracket line.
pub proof fn lemma_diff_shown(a: JsonView, b: JsonView)
    ensures
        diff_of(a, b) matches Some(lines) ==> all_shown(lines),
{
    match (a, b) {
        (JsonView::Object(x), JsonView::Object(y)) => {
            lemma_object_diff_shown(x, y);
        },
        (JsonView::Array(x), JsonView::Array(y)) => {
            lemma_array_diff_shown(x, y);
        },
        _ => {},
    }
}

/// A bracket line shows no marker: only its indentation and its text.
pub proof fn lemma_bracket_line_rendered(line: LineView)
    requires
        line.marker == '.',
    ensures
        rendered(line) == spaces(2 * line.depth) + line.text,
{
}

/// The two lines that enclose a block are bracket lines: the first shows
/// the label and the opening bracket, the last the closing bracket, and
/// neither shows a marker.
pub proof fn lemma_block_brackets(lines: Seq<LineView>, label: Seq<char>, kind: WrapperKind)
    requires
        lines.len() > 0,
    ensures
        wrapped(lines, label, kind).len() == lines.len() + 2,
        wrapped(lines, label, kind).first().marker == '.',
        wrapped(lines, label, kind).last().marker == '.',
        rendered(wrapped(lines, label, kind).first()) == label + open_bracket(kind),
        rendered(wrapped(lines, label, kind).last()) == close_bracket(kind),
{
}

/// A block inside a block keeps its bracket lines: one level deeper, they
/// still show no marker.
pub proof fn lemma_indented_keeps_brackets(lines: Seq<LineView>, i: int)
    requires
        0 <= i < lines.len(),
        lines[i].marker == '.',
    ensures
        indented(lines)[i].marker == '.',
        rendered(indented(lines)[i]) == spaces(2 * (lines[i].depth + 1)) + lines[i].text,
{
}

/// The object that holds one member.
pub open spec fn single(key: Seq<char>, value: JsonView) -> JsonView {
    JsonView::Object(seq![EntryView { key, value }])
}

/// Normalizing a document that holds a list of pairs under `environment`,
/// and nothing else, puts the object from names to values in the list's
/// place; it fails where the list is no list of pairs.
pub proof fn lemma_normalized_environment(env: JsonView)
    ensures
        normalized(single("environment"@, env)) == match environment_of(env) {
            Some(o) => Some(single("environment"@, o)),
            None => None,
        },
{
    let entries = seq![EntryView { key: "environment"@, value: env }];
    lemma_position_is(entries, "environment"@, 0);
    match environment_of(env) {
        Some(o) => {
            assert(entries.update(0, EntryView { key: "environment"@, value: o }) =~= seq![
                EntryView { key: "environment"@, value: o },
            ]);
        },
        None => {},
    }
}

/// Two objects that hold one value each, under the same key, compare as
/// that one member does.
pub proof fn lemma_diff_under_one_key(key: Seq<char>, x: JsonView, y: JsonView)
    ensures
        diff_of(single(key, x), single(key, y)) == Some(
            if value_eq(x, y) {
                Seq::<LineView>::empty()
            } else {
                match (x, y) {
                    (JsonView::Object(xs), JsonView::Object(ys)) => wrapped(
                        object_diff(xs, ys),
                        key_label(key),
                        WrapperKind::Object,
                    ),
                    (JsonView::Array(xs), JsonView::Array(ys)) => wrapped(
                        array_diff(xs, ys),
                        key_label(key),
                        WrapperKind::Array,
                    ),
                    _ => seq![changed_line(key, x, y)],
                }
            },
        ),
{
    let a = seq![EntryView { key, value: x }];
    let b = seq![EntryView { key, value: y }];
    lemma_position_is(a, key, 0);
    lemma_position_is(b, key, 0);
    assert(additions(a, b, 0) =~= Seq::<LineView>::empty());
}

/// Two documents that each hold a list of pairs under `environment`, once
/// normalized, compare as the two objects from names to values do: nothing
/// where these are equal, else their comparison in a block under the key.
pub proof fn lemma_environments_compare_as_objects(ea: JsonView, eb: JsonView)
    requires
        environment_of(ea) is Some,
        environment_of(eb) is Some,
    ensures
        ({
            let x = environment_of(ea)->Some_0;
            let y = environment_of(eb)->Some_0;
            let a = normalized(single("environment"@, ea));
            let b = normalized(single("environment"@, eb));
            &&& x is Object
            &&& y is Object
            &&& a is Some
            &&& b is Some
            &&& diff_of(a->Some_0, b->Some_0) == Some(
                if value_eq(x, y) {
                    Seq::<LineView>::empty()
                } else {
                    wrapped(
                        object_diff(x->Object_0, y->Object_0),
                        key_label("environment"@),
                        WrapperKind::Object,
                    )
                },
            )
        }),
{
    lemma_environment_is_object(ea);
    lemma_environment_is_object(eb);
    lemma_normalized_environment(ea);
    lemma_normalized_environment(eb);
    lemma_diff_under_one_key(
        "environment"@,
        environment_of(ea)->Some_0,
        environment_of(eb)->Some_0,
    );
}

} // verus!
