//! How deep the lines of a comparison go: no deeper than the documents
//! nest.

use crate::json::{
    lemma_array_nests_within, lemma_position, lookup, value_eq, EntryView, JsonView,
};
use crate::laws::lemma_object_diff_to_empty;
use crate::line::{bounded, wrapped, LineView, WrapperKind};
use crate::parser::{
    additions, all_added, all_objects, array_diff, key_label, member_diff, members_at,
    members_diff, object_diff, pair_diff, pairs_diff,
};
use vstd::prelude::*;

verus! {

/// A tree that nests within a limit nests within every greater one.
pub proof fn lemma_nests_within_more(v: JsonView, m: nat, n: nat)
    requires
        v.nests_within(m),
        m <= n,
    ensures
        v.nests_within(n),
    decreases v,
{
    match v {
        JsonView::Array(items) => {
            assert forall|i: int| 0 <= i < items.len() implies (#[trigger] items[i]).nests_within(
                (n - 1) as nat,
            ) by {
                lemma_nests_within_more(items[i], (m - 1) as nat, (n - 1) as nat);
            }
        },
        JsonView::Object(entries) => {
            assert forall|i: int| 0 <= i < entries.len() implies (#[trigger] entries[i])
                .value.nests_within((n - 1) as nat) by {
                lemma_nests_within_more(entries[i].value, (m - 1) as nat, (n - 1) as nat);
            }
        },
        _ => {},
    }
}

/// A block is at most one level deeper than the lines it encloses.
pub proof fn lemma_wrapped_bounded(
    lines: Seq<LineView>,
    label: Seq<char>,
    kind: WrapperKind,
    limit: nat,
)
    requires
        bounded(lines, limit),
    ensures
        bounded(wrapped(lines, label, kind), limit + 1),
{
}

/// Every added line is at depth zero.
pub proof fn lemma_additions_bounded(a: Seq<EntryView>, b: Seq<EntryView>, n: nat)
    ensures
        bounded(additions(a, b, n), 0),
    decreases n,
{
    if 0 < n <= b.len() {
        lemma_additions_bounded(a, b, (n - 1) as nat);
    }
}

/// The lines of a comparison of two objects go no deeper than either object nests.
pub proof fn lemma_object_diff_bounded(a: Seq<EntryView>, b: Seq<EntryView>, limit: nat)
    requires
        JsonView::Object(a).nests_within(limit) || JsonView::Object(b).nests_within(limit),
    ensures
        bounded(object_diff(a, b), limit),
    decreases a, 1nat, 0nat,
{
    lemma_members_diff_bounded(a, b, a.len(), limit);
    lemma_additions_bounded(a, b, b.len());
}

/// The same, of the first `n` members.
pub proof fn lemma_members_diff_bounded(
    a: Seq<EntryView>,
    b: Seq<EntryView>,
    n: nat,
    limit: nat,
)
    requires
        JsonView::Object(a).nests_within(limit) || JsonView::Object(b).nests_within(limit),
    ensures
        bounded(members_diff(a, b, n), limit),
    decreases a, 0nat, n,
{
    if 0 < n <= a.len() {
        lemma_members_diff_bounded(a, b, (n - 1) as nat, limit);
        lemma_member_diff_bounded(a, b, n - 1, limit);
    }
}

/// The same, of one member.
pub proof fn lemma_member_diff_bounded(a: Seq<EntryView>, b: Seq<EntryView>, i: int, limit: nat)
    requires
        0 <= i < a.len(),
        JsonView::Object(a).nests_within(limit) || JsonView::Object(b).nests_within(limit),
    ensures
        bounded(member_diff(a[i], b), limit),
    decreases a, 0nat, 0nat,
{
    let e = a[i];
    lemma_position(b, e.key);
    match lookup(b, e.key) {
        None => {},
        Some(other) => {
            if !value_eq(e.value, other) {
                match (e.value, other) {
                    (JsonView::Object(x), JsonView::Object(y)) => {
                        lemma_object_diff_bounded(x, y, (limit - 1) as nat);
                        lemma_wrapped_bounded(
                            object_diff(x, y),
                            key_label(e.key),
                            WrapperKind::Object,
                            (limit - 1) as nat,
                        );
                    },
                    (JsonView::Array(x), JsonView::Array(y)) => {
                        lemma_array_diff_bounded(x, y, (limit - 1) as nat);
                        lemma_wrapped_bounded(
                            array_diff(x, y),
                            key_label(e.key),
                            WrapperKind::Array,
                            (limit - 1) as nat,
                        );
                    },
                    _ => {},
                }
            }
        },
    }
}

/// The lines of a comparison of two arrays go no deeper than either array nests.
pub proof fn lemma_array_diff_bounded(a: Seq<JsonView>, b: Seq<JsonView>, limit: nat)
    requires
        JsonView::Array(a).nests_within(limit) || JsonView::Array(b).nests_within(limit),
    ensures
        bounded(array_diff(a, b), limit),
    decreases a, 1nat, 0nat,
{
    if all_objects(a) && all_objects(b) {
        lemma_pairs_diff_bounded(a, b, if a.len() >= b.len() { a.len() } else { b.len() }, limit);
    }
}

/// The same, of the first `n` positions.
pub proof fn lemma_pairs_diff_bounded(a: Seq<JsonView>, b: Seq<JsonView>, n: nat, limit: nat)
    requires
        all_objects(a),
        all_objects(b),
        JsonView::Array(a).nests_within(limit) || JsonView::Array(b).nests_within(limit),
    ensures
        bounded(pairs_diff(a, b, n), limit),
    decreases a, 0nat, n,
{
    if n > 0 {
        lemma_pairs_diff_bounded(a, b, (n - 1) as nat, limit);
        lemma_array_nests_within(a, limit);
        lemma_array_nests_within(b, limit);
        let i = n - 1;
        let y = members_at(b, i);
        if i < a.len() {
            let x = a[i]->Object_0;
            if i < b.len() {
                lemma_object_diff_bounded(x, y, (limit - 1) as nat);
            } else {
                lemma_object_diff_to_empty(x);
            }
            lemma_wrapped_bounded(
                object_diff(x, y),
                Seq::empty(),
                WrapperKind::Object,
                (limit - 1) as nat,
            );
        } else {
            lemma_wrapped_bounded(all_added(y), Seq::empty(), WrapperKind::Object, 0);
        }
        assert(bounded(pair_diff(a, b, i), limit));
    }
}

} // verus!
