//! What holds of normalization: it has one outcome where the replacement
//! is a function, and it keeps well-formed documents well formed.

use crate::json::{
    entries_view, lemma_array_wf, lemma_object_wf, lemma_position, lemma_view_of_containers,
    position, unique_keys, values_view, EntryView, Json, JsonView,
};
use crate::pair::{
    collected, computes, environment_of, inserted, normalized, pair_of, replaced, replaced_items,
    replaced_members, rewrites_to, view_of,
};
use vstd::prelude::*;

verus! {

/// Storing a value under a key keeps the keys distinct.
pub proof fn lemma_inserted_unique(entries: Seq<EntryView>, key: Seq<char>, value: JsonView)
    requires
        unique_keys(entries),
    ensures
        unique_keys(inserted(entries, key, value)),
{
    lemma_position(entries, key);
    let after = inserted(entries, key, value);
    assert forall|i: int, j: int| 0 <= i < j < after.len() implies (#[trigger] after[i]).key != (
    #[trigger] after[j]).key by {
        match position(entries, key) {
            Some(k) => {
                assert(after[i].key == entries[i].key);
                assert(after[j].key == entries[j].key);
            },
            None => {
                if j == entries.len() {
                    assert(after[i] == entries[i]);
                } else {
                    assert(after[i] == entries[i]);
                    assert(after[j] == entries[j]);
                }
            },
        }
    }
}

/// What a list of well-formed pairs gives is a well-formed set of members.
pub proof fn lemma_collected_wf(items: Seq<JsonView>, n: nat)
    requires
        JsonView::Array(items).wf(),
    ensures
        collected(items, n) matches Some(members) ==> JsonView::Object(members).wf(),
    decreases n,
{
    lemma_array_wf(items);
    if n == 0 || n > items.len() {
        lemma_object_wf(Seq::empty());
    } else {
        lemma_collected_wf(items, (n - 1) as nat);
        match (collected(items, (n - 1) as nat), pair_of(items[n - 1])) {
            (Some(sofar), Some((name, value))) => {
                let members = items[n - 1]->Object_0;
                assert(items[n - 1] == JsonView::Object(members));
                lemma_object_wf(members);
                lemma_position(members, "value"@);
                assert(value.wf());
                lemma_object_wf(sofar);
                lemma_inserted_unique(sofar, name, value);
                lemma_position(sofar, name);
                let after = inserted(sofar, name, value);
                assert forall|i: int| 0 <= i < after.len() implies (
                #[trigger] after[i]).value.wf() by {
                    if i < sofar.len() && position(sofar, name) != Some(i) {
                        assert(after[i] == sofar[i]);
                    }
                }
                lemma_object_wf(after);
            },
            _ => {},
        }
    }
}

/// A list of pairs becomes an object, and a well-formed list a well-formed
/// object: no name occurs twice in it.
pub proof fn lemma_environment_is_object(env: JsonView)
    ensures
        environment_of(env) matches Some(o) ==> o is Object && (env.wf() ==> o.wf()),
{
    match env {
        JsonView::Array(items) => {
            if env.wf() {
                lemma_collected_wf(items, items.len());
            }
        },
        _ => {},
    }
}

/// Once one item is no pair, no longer prefix gives members.
pub proof fn lemma_collected_fails(items: Seq<JsonView>, n: nat, m: nat)
    requires
        collected(items, n) is None,
        n <= m <= items.len(),
    ensures
        collected(items, m) is None,
    decreases m,
{
    if n < m {
        lemma_collected_fails(items, n, (m - 1) as nat);
    }
}

/// Where every one of the first `n` items has a result, they have one together.
pub proof fn lemma_replaced_items_all(
    key: Seq<char>,
    items: Seq<JsonView>,
    t: spec_fn(JsonView) -> Option<JsonView>,
    outs: Seq<JsonView>,
    n: nat,
)
    requires
        n <= items.len(),
        n <= outs.len(),
        forall|j: int| 0 <= j < n ==> replaced(key, #[trigger] items[j], t) == Some(outs[j]),
    ensures
        replaced_items(key, items, t, n) == Some(outs.take(n as int)),
    decreases n,
{
    if n > 0 {
        lemma_replaced_items_all(key, items, t, outs, (n - 1) as nat);
        assert(replaced(key, items[n - 1], t) == Some(outs[n - 1]));
        assert(outs.take(n as int) =~= outs.take(n - 1).push(outs[n - 1]));
    }
}

/// Where one of the first `n` items has no result, they have none together.
pub proof fn lemma_replaced_items_none(
    key: Seq<char>,
    items: Seq<JsonView>,
    t: spec_fn(JsonView) -> Option<JsonView>,
    j: int,
    n: nat,
)
    requires
        0 <= j < n <= items.len(),
        replaced(key, items[j], t) is None,
    ensures
        replaced_items(key, items, t, n) is None,
    decreases n,
{
    if j < n - 1 {
        lemma_replaced_items_none(key, items, t, j, (n - 1) as nat);
    }
}

/// Where every one of the first `n` members has a result, they have one together.
pub proof fn lemma_replaced_members_all(
    key: Seq<char>,
    entries: Seq<EntryView>,
    t: spec_fn(JsonView) -> Option<JsonView>,
    outs: Seq<EntryView>,
    n: nat,
)
    requires
        n <= entries.len(),
        n <= outs.len(),
        forall|j: int|
            0 <= j < n ==> {
                &&& (#[trigger] outs[j]).key == entries[j].key
                &&& replaced(key, entries[j].value, t) == Some(outs[j].value)
            },
    ensures
        replaced_members(key, entries, t, n) == Some(outs.take(n as int)),
    decreases n,
{
    if n > 0 {
        lemma_replaced_members_all(key, entries, t, outs, (n - 1) as nat);
        assert(outs[n - 1].key == entries[n - 1].key);
        assert(outs.take(n as int) =~= outs.take(n - 1).push(outs[n - 1]));
    }
}

/// Where one of the first `n` members has no result, they have none together.
pub proof fn lemma_replaced_members_none(
    key: Seq<char>,
    entries: Seq<EntryView>,
    t: spec_fn(JsonView) -> Option<JsonView>,
    j: int,
    n: nat,
)
    requires
        0 <= j < n <= entries.len(),
        replaced(key, entries[j].value, t) is None,
    ensures
        replaced_members(key, entries, t, n) is None,
    decreases n,
{
    if j < n - 1 {
        lemma_replaced_members_none(key, entries, t, j, (n - 1) as nat);
    }
}

/// With a replacement that computes a function, rewriting has one outcome:
/// the one that [`replaced`] gives.
pub proof fn lemma_rewrite_of_function<F: Fn(&Json) -> Option<Json>>(
    key: Seq<char>,
    tree: Json,
    f: F,
    out: Option<Json>,
    t: spec_fn(JsonView) -> Option<JsonView>,
)
    requires
        rewrites_to(key, tree, f, out),
        computes(f, t),
    ensures
        view_of(out) == replaced(key, tree@, t),
    decreases tree,
{
    lemma_view_of_containers(tree);
    if out is Some {
        lemma_view_of_containers(out->Some_0);
    }
    match tree {
        Json::Object(entries) => {
            let es = entries_view(entries@);
            lemma_position(es, key);
            match position(es, key) {
                Some(i) => {
                    match out {
                        Some(Json::Object(outs)) => {
                            assert(f.ensures((&entries@[i].value,), Some(outs@[i].value)));
                            assert(t(es[i].value) == Some(outs@[i].value@));
                            assert(entries_view(outs@) =~= es.update(
                                i,
                                EntryView { key, value: outs@[i].value@ },
                            ));
                        },
                        Some(_) => {},
                        None => {
                            assert(f.ensures((&entries@[i].value,), None));
                            assert(t(es[i].value) == view_of(None));
                        },
                    }
                },
                None => {
                    match out {
                        Some(Json::Object(outs)) => {
                            let os = entries_view(outs@);
                            assert forall|j: int| 0 <= j < es.len() implies {
                                &&& (#[trigger] os[j]).key == es[j].key
                                &&& replaced(key, es[j].value, t) == Some(os[j].value)
                            } by {
                                assert(outs@[j].key@ == entries@[j].key@);
                                lemma_rewrite_of_function(
                                    key,
                                    entries@[j].value,
                                    f,
                                    Some(outs@[j].value),
                                    t,
                                );
                            }
                            lemma_replaced_members_all(key, es, t, os, es.len());
                            assert(os.take(es.len() as int) =~= os);
                        },
                        Some(_) => {},
                        None => {
                            let j = choose|j: int|
                                0 <= j < entries@.len() && rewrites_to(
                                    key,
                                    (#[trigger] entries@[j]).value,
                                    f,
                                    None,
                                );
                            lemma_rewrite_of_function(key, entries@[j].value, f, None, t);
                            lemma_replaced_members_none(key, es, t, j, es.len());
                        },
                    }
                },
            }
        },
        Json::Array(items) => {
            let xs = values_view(items@);
            match out {
                Some(Json::Array(outs)) => {
                    let os = values_view(outs@);
                    assert forall|j: int| 0 <= j < xs.len() implies replaced(
                        key,
                        #[trigger] xs[j],
                        t,
                    ) == Some(os[j]) by {
                        assert(rewrites_to(key, items@[j], f, Some(outs@[j])));
                        lemma_rewrite_of_function(key, items@[j], f, Some(outs@[j]), t);
                    }
                    lemma_replaced_items_all(key, xs, t, os, xs.len());
                    assert(os.take(xs.len() as int) =~= os);
                },
                Some(_) => {},
                None => {
                    let j = choose|j: int|
                        0 <= j < items@.len() && rewrites_to(key, #[trigger] items@[j], f, None);
                    lemma_rewrite_of_function(key, items@[j], f, None, t);
                    lemma_replaced_items_none(key, xs, t, j, xs.len());
                },
            }
        },
        _ => {},
    }
}

/// The replacement keeps well-formed documents well formed.
pub open spec fn keeps_wf(t: spec_fn(JsonView) -> Option<JsonView>) -> bool {
    forall|v: JsonView| v.wf() ==> (#[trigger] t(v) matches Some(w) ==> w.wf())
}

/// Rewriting with a replacement that keeps documents well formed keeps
/// them well formed.
pub proof fn lemma_replaced_wf(
    key: Seq<char>,
    tree: JsonView,
    t: spec_fn(JsonView) -> Option<JsonView>,
)
    requires
        tree.wf(),
        keeps_wf(t),
    ensures
        replaced(key, tree, t) matches Some(out) ==> out.wf(),
    decreases tree, 0nat,
{
    match tree {
        JsonView::Object(entries) => {
            lemma_object_wf(entries);
            lemma_position(entries, key);
            match position(entries, key) {
                Some(i) => {
                    match t(entries[i].value) {
                        Some(value) => {
                            let after = entries.update(i, EntryView { key, value });
                            assert forall|a: int, b: int| 0 <= a < b < after.len() implies (
                            #[trigger] after[a]).key != (#[trigger] after[b]).key by {
                                assert(after[a].key == entries[a].key);
                                assert(after[b].key == entries[b].key);
                            }
                            assert forall|j: int| 0 <= j < after.len() implies (
                            #[trigger] after[j]).value.wf() by {
                                if j != i {
                                    assert(after[j] == entries[j]);
                                }
                            }
                            lemma_object_wf(after);
                        },
                        None => {},
                    }
                },
                None => {
                    lemma_replaced_members_wf(key, entries, t, entries.len());
                    match replaced_members(key, entries, t, entries.len()) {
                        Some(members) => {
                            assert forall|a: int, b: int|
                                0 <= a < b < members.len() implies (#[trigger] members[a]).key
                                != (#[trigger] members[b]).key by {
                                assert(members[a].key == entries[a].key);
                                assert(members[b].key == entries[b].key);
                            }
                            lemma_object_wf(members);
                        },
                        None => {},
                    }
                },
            }
        },
        JsonView::Array(items) => {
            lemma_array_wf(items);
            lemma_replaced_items_wf(key, items, t, items.len());
            match replaced_items(key, items, t, items.len()) {
                Some(outs) => {
                    lemma_array_wf(outs);
                },
                None => {},
            }
        },
        _ => {},
    }
}

/// The same, of the first `n` items of an array.
pub proof fn lemma_replaced_items_wf(
    key: Seq<char>,
    items: Seq<JsonView>,
    t: spec_fn(JsonView) -> Option<JsonView>,
    n: nat,
)
    requires
        JsonView::Array(items).wf(),
        keeps_wf(t),
        n <= items.len(),
    ensures
        replaced_items(key, items, t, n) matches Some(outs) ==> {
            &&& outs.len() == n
            &&& forall|j: int| 0 <= j < n ==> (#[trigger] outs[j]).wf()
        },
    decreases items, n,
{
    lemma_array_wf(items);
    if n > 0 {
        lemma_replaced_items_wf(key, items, t, (n - 1) as nat);
        lemma_replaced_wf(key, items[n - 1], t);
    }
}

/// The same, of the first `n` members of an object; they keep their keys.
pub proof fn lemma_replaced_members_wf(
    key: Seq<char>,
    entries: Seq<EntryView>,
    t: spec_fn(JsonView) -> Option<JsonView>,
    n: nat,
)
    requires
        JsonView::Object(entries).wf(),
        keeps_wf(t),
        n <= entries.len(),
    ensures
        replaced_members(key, entries, t, n) matches Some(outs) ==> {
            &&& outs.len() == n
            &&& forall|j: int|
                0 <= j < n ==> (#[trigger] outs[j]).key == entries[j].key && outs[j].value.wf()
        },
    decreases entries, n,
{
    lemma_object_wf(entries);
    if n > 0 {
        lemma_replaced_members_wf(key, entries, t, (n - 1) as nat);
        lemma_replaced_wf(key, entries[n - 1].value, t);
    }
}

/// Normalizing a well-formed document gives a well-formed document.
pub proof fn lemma_normalized_wf(tree: JsonView)
    requires
        tree.wf(),
    ensures
        normalized(tree) matches Some(out) ==> out.wf(),
{
    let t = |v: JsonView| environment_of(v);
    assert forall|v: JsonView| v.wf() implies (#[trigger] t(v) matches Some(w) ==> w.wf()) by {
        lemma_environment_is_object(v);
    }
    lemma_replaced_wf("environment"@, tree, t);
}

} // verus!
