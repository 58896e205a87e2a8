//! The document model: a tree of scalars, arrays and objects.

use vstd::prelude::*;
use vstd::std_specs::cmp::PartialEqSpecImpl;

verus! {

/// One member of an object: a key and the value stored under it.
#[derive(Debug)]
pub struct Entry {
    pub key: String,
    pub value: Json,
}

/// A parsed document.
///
/// A number is held as its decimal text. An object is held as its members in
/// document order; in a well-formed value no key occurs twice in one object.
#[derive(Debug)]
pub enum Json {
    Null,
    Bool(bool),
    Number(String),
    String(String),
    Array(Vec<Json>),
    Object(Vec<Entry>),
}

/// The mathematical value of an [`Entry`].
pub struct EntryView {
    pub key: Seq<char>,
    pub value: JsonView,
}

/// The mathematical value of a [`Json`].
pub enum JsonView {
    Null,
    Bool(bool),
    Number(Seq<char>),
    String(Seq<char>),
    Array(Seq<JsonView>),
    Object(Seq<EntryView>),
}

impl View for Entry {
    type V = EntryView;

    open spec fn view(&self) -> EntryView {
        EntryView { key: self.key@, value: self.value@ }
    }
}

impl View for Json {
    type V = JsonView;

    open spec fn view(&self) -> JsonView
        decreases self,
    {
        match self {
            Json::Null => JsonView::Null,
            Json::Bool(b) => JsonView::Bool(*b),
            Json::Number(t) => JsonView::Number(t@),
            Json::String(s) => JsonView::String(s@),
            Json::Array(items) => JsonView::Array(
                Seq::new(
                    items@.len(),
                    |i: int|
                        if 0 <= i < items@.len() {
                            items@[i].view()
                        } else {
                            arbitrary()
                        },
                ),
            ),
            Json::Object(entries) => JsonView::Object(
                Seq::new(
                    entries@.len(),
                    |i: int|
                        if 0 <= i < entries@.len() {
                            EntryView { key: entries@[i].key@, value: entries@[i].value.view() }
                        } else {
                            arbitrary()
                        },
                ),
            ),
        }
    }
}

/// The views of a sequence of values, in order.
pub open spec fn values_view(items: Seq<Json>) -> Seq<JsonView> {
    Seq::new(items.len(), |i: int| items[i]@)
}

/// The views of a sequence of members, in order.
pub open spec fn entries_view(entries: Seq<Entry>) -> Seq<EntryView> {
    Seq::new(entries.len(), |i: int| entries[i]@)
}

/// An array's view is the views of its items; an object's, of its members.
pub proof fn lemma_view_of_containers(v: Json)
    ensures
        v matches Json::Array(items) ==> v@ == JsonView::Array(values_view(items@)),
        v matches Json::Object(entries) ==> v@ == JsonView::Object(entries_view(entries@)),
{
    reveal_with_fuel(<Json as View>::view, 2);
    match v {
        Json::Array(items) => {
            assert(v@->Array_0 =~= values_view(items@));
        },
        Json::Object(entries) => {
            assert(v@->Object_0 =~= entries_view(entries@));
        },
        _ => {},
    }
}

/// The keys of a sequence of members, in order.
pub open spec fn keys(entries: Seq<EntryView>) -> Seq<Seq<char>> {
    Seq::new(entries.len(), |i: int| entries[i].key)
}

/// Where the first member with this key stands, if there is one.
pub open spec fn position(entries: Seq<EntryView>, key: Seq<char>) -> Option<int> {
    keys(entries).index_of_first(key)
}

/// The value stored under this key, if there is one.
pub open spec fn lookup(entries: Seq<EntryView>, key: Seq<char>) -> Option<JsonView> {
    match position(entries, key) {
        Some(i) => Some(entries[i].value),
        None => None,
    }
}

/// No key occurs twice.
pub open spec fn unique_keys(entries: Seq<EntryView>) -> bool {
    forall|i: int, j: int|
        0 <= i < j < entries.len() ==> (#[trigger] entries[i]).key != (#[trigger] entries[j]).key
}

/// What `position` returns: the least index that holds the key.
pub proof fn lemma_position(entries: Seq<EntryView>, key: Seq<char>)
    ensures
        match position(entries, key) {
            Some(i) => {
                &&& 0 <= i < entries.len()
                &&& entries[i].key == key
                &&& forall|j: int| 0 <= j < i ==> (#[trigger] entries[j]).key != key
            },
            None => forall|j: int| 0 <= j < entries.len() ==> (#[trigger] entries[j]).key != key,
        },
{
    let ks = keys(entries);
    ks.index_of_first_ensures(key);
    match position(entries, key) {
        Some(i) => {
            assert forall|j: int| 0 <= j < i implies (#[trigger] entries[j]).key != key by {
                assert(ks[j] != key);
            }
        },
        None => {
            assert forall|j: int| 0 <= j < entries.len() implies (#[trigger] entries[j]).key
                != key by {
                assert(ks[j] == entries[j].key);
            }
        },
    }
}

/// An index that holds the key, with none before it that does, is the key's position.
pub proof fn lemma_position_is(entries: Seq<EntryView>, key: Seq<char>, i: int)
    requires
        0 <= i < entries.len(),
        entries[i].key == key,
        forall|j: int| 0 <= j < i ==> (#[trigger] entries[j]).key != key,
    ensures
        position(entries, key) == Some(i),
        lookup(entries, key) == Some(entries[i].value),
{
    lemma_position(entries, key);
}

/// Where no index holds the key, the key has no position.
pub proof fn lemma_position_none(entries: Seq<EntryView>, key: Seq<char>)
    requires
        forall|j: int| 0 <= j < entries.len() ==> (#[trigger] entries[j]).key != key,
    ensures
        position(entries, key) is None,
        lookup(entries, key) is None,
{
    lemma_position(entries, key);
}

impl JsonView {
    /// In every object of the tree, no key occurs twice.
    pub open spec fn wf(self) -> bool
        decreases self,
    {
        match self {
            JsonView::Array(items) => forall|i: int|
                0 <= i < items.len() ==> (#[trigger] items[i]).wf(),
            JsonView::Object(entries) => {
                &&& unique_keys(entries)
                &&& forall|i: int| 0 <= i < entries.len() ==> (#[trigger] entries[i]).value.wf()
            },
            _ => true,
        }
    }

    /// No path of the tree goes through more than `limit` nested containers.
    pub open spec fn nests_within(self, limit: nat) -> bool
        decreases self,
    {
        match self {
            JsonView::Array(items) => {
                &&& limit > 0
                &&& forall|i: int|
                    0 <= i < items.len() ==> (#[trigger] items[i]).nests_within(
                        (limit - 1) as nat,
                    )
            },
            JsonView::Object(entries) => {
                &&& limit > 0
                &&& forall|i: int|
                    0 <= i < entries.len() ==> (#[trigger] entries[i]).value.nests_within(
                        (limit - 1) as nat,
                    )
            },
            _ => true,
        }
    }
}

/// An array is well formed when each item is.
pub proof fn lemma_array_wf(items: Seq<JsonView>)
    ensures
        JsonView::Array(items).wf() <==> forall|i: int|
            0 <= i < items.len() ==> (#[trigger] items[i]).wf(),
{
    let v = JsonView::Array(items);
    assert(v->Array_0 == items);
}

/// An object is well formed when its keys are distinct and each member's
/// value is well formed.
pub proof fn lemma_object_wf(entries: Seq<EntryView>)
    ensures
        JsonView::Object(entries).wf() <==> unique_keys(entries) && forall|i: int|
            0 <= i < entries.len() ==> (#[trigger] entries[i]).value.wf(),
{
    let v = JsonView::Object(entries);
    assert(v->Object_0 == entries);
}

/// An array nests within a limit when the limit is not zero and each item
/// nests within one less.
pub proof fn lemma_array_nests_within(items: Seq<JsonView>, limit: nat)
    ensures
        JsonView::Array(items).nests_within(limit) <==> limit > 0 && forall|i: int|
            0 <= i < items.len() ==> (#[trigger] items[i]).nests_within((limit - 1) as nat),
{
    let v = JsonView::Array(items);
    assert(v->Array_0 == items);
}

/// An object nests within a limit when the limit is not zero and each
/// member's value nests within one less.
pub proof fn lemma_object_nests_within(entries: Seq<EntryView>, limit: nat)
    ensures
        JsonView::Object(entries).nests_within(limit) <==> limit > 0 && forall|i: int|
            0 <= i < entries.len() ==> (#[trigger] entries[i]).value.nests_within(
                (limit - 1) as nat,
            ),
{
    let v = JsonView::Object(entries);
    assert(v->Object_0 == entries);
}

/// Deep equality of two documents. Arrays are equal item by item; objects are
/// equal when they have as many members and every member of the first has an
/// equal value under the same key in the second, in whatever order.
pub open spec fn value_eq(a: JsonView, b: JsonView) -> bool
    decreases a,
{
    match (a, b) {
        (JsonView::Null, JsonView::Null) => true,
        (JsonView::Bool(x), JsonView::Bool(y)) => x == y,
        (JsonView::Number(x), JsonView::Number(y)) => x == y,
        (JsonView::String(x), JsonView::String(y)) => x == y,
        (JsonView::Array(xs), JsonView::Array(ys)) => {
            &&& xs.len() == ys.len()
            &&& forall|i: int| 0 <= i < xs.len() ==> value_eq(#[trigger] xs[i], ys[i])
        },
        (JsonView::Object(xs), JsonView::Object(ys)) => {
            &&& xs.len() == ys.len()
            &&& forall|i: int| 0 <= i < xs.len() ==> member_eq(#[trigger] xs[i], ys)
        },
        _ => false,
    }
}

/// The other object holds an equal value under this member's key.
pub open spec fn member_eq(e: EntryView, others: Seq<EntryView>) -> bool
    decreases e,
{
    match lookup(others, e.key) {
        Some(w) => value_eq(e.value, w),
        None => false,
    }
}

/// The index of the first member stored under `key`, if there is one.
pub fn find_entry(entries: &Vec<Entry>, key: &String) -> (found: Option<usize>)
    ensures
        match found {
            Some(i) => {
                &&& i < entries.len()
                &&& entries[i as int].key@ == key@
                &&& position(entries_view(entries@), key@) == Some(i as int)
            },
            None => position(entries_view(entries@), key@) is None,
        },
{
    let ghost es = entries_view(entries@);
    let mut i: usize = 0;
    while i < entries.len()
        invariant
            i <= entries.len(),
            es == entries_view(entries@),
            forall|j: int| 0 <= j < i ==> (#[trigger] es[j]).key != key@,
        decreases entries.len() - i,
    {
        if entries[i].key == *key {
            proof {
                lemma_position_is(es, key@, i as int);
            }
            return Some(i);
        }
        i += 1;
    }
    proof {
        lemma_position_none(es, key@);
    }
    None
}

/// Whether two documents are deeply equal.
#[verifier::loop_isolation(false)]
pub fn values_equal(a: &Json, b: &Json) -> (equal: bool)
    ensures
        equal == value_eq(a@, b@),
    decreases a,
{
    proof {
        lemma_view_of_containers(*a);
        lemma_view_of_containers(*b);
    }
    match (a, b) {
        (Json::Null, Json::Null) => true,
        (Json::Bool(x), Json::Bool(y)) => *x == *y,
        (Json::Number(x), Json::Number(y)) => *x == *y,
        (Json::String(x), Json::String(y)) => *x == *y,
        (Json::Array(xs), Json::Array(ys)) => {
            if xs.len() != ys.len() {
                return false;
            }
            let mut i: usize = 0;
            while i < xs.len()
                invariant
                    i <= xs.len(),
                    xs.len() == ys.len(),
                    forall|j: int| 0 <= j < i ==> value_eq(#[trigger] xs@[j]@, ys@[j]@),
                decreases xs.len() - i,
            {
                assert(decreases_to!(a => xs[i as int]));
                if !values_equal(&xs[i], &ys[i]) {
                    assert(!value_eq(values_view(xs@)[i as int], values_view(ys@)[i as int]));
                    return false;
                }
                i += 1;
            }
            true
        },
        (Json::Object(xs), Json::Object(ys)) => {
            if xs.len() != ys.len() {
                return false;
            }
            let ghost xv = entries_view(xs@);
            let ghost yv = entries_view(ys@);
            let mut i: usize = 0;
            while i < xs.len()
                invariant
                    i <= xs.len(),
                    xs.len() == ys.len(),
                    xv == entries_view(xs@),
                    yv == entries_view(ys@),
                    forall|j: int| 0 <= j < i ==> member_eq(#[trigger] xv[j], yv),
                decreases xs.len() - i,
            {
                match find_entry(ys, &xs[i].key) {
                    Some(k) => {
                        if !values_equal(&xs[i].value, &ys[k].value) {
                            assert(!member_eq(xv[i as int], yv));
                            return false;
                        }
                    },
                    None => {
                        assert(!member_eq(xv[i as int], yv));
                        return false;
                    },
                }
                i += 1;
            }
            true
        },
        _ => false,
    }
}

/// A deep copy of a document.
#[verifier::loop_isolation(false)]
pub fn copy_value(v: &Json) -> (copy: Json)
    ensures
        copy@ == v@,
    decreases v,
{
    proof {
        lemma_view_of_containers(*v);
    }
    match v {
        Json::Null => Json::Null,
        Json::Bool(b) => Json::Bool(*b),
        Json::Number(t) => Json::Number(t.clone()),
        Json::String(s) => Json::String(s.clone()),
        Json::Array(items) => {
            let mut copies: Vec<Json> = Vec::new();
            let mut i: usize = 0;
            while i < items.len()
                invariant
                    i <= items.len(),
                    copies.len() == i,
                    forall|j: int| 0 <= j < i ==> (#[trigger] copies@[j])@ == items@[j]@,
                decreases items.len() - i,
            {
                assert(decreases_to!(v => items[i as int]));
                copies.push(copy_value(&items[i]));
                i += 1;
            }
            let copy = Json::Array(copies);
            proof {
                lemma_view_of_containers(copy);
                assert(values_view(copies@) =~= values_view(items@));
            }
            copy
        },
        Json::Object(entries) => {
            let mut copies: Vec<Entry> = Vec::new();
            let mut i: usize = 0;
            while i < entries.len()
                invariant
                    i <= entries.len(),
                    copies.len() == i,
                    forall|j: int| 0 <= j < i ==> (#[trigger] copies@[j])@ == entries@[j]@,
                decreases entries.len() - i,
            {
                let value = copy_value(&entries[i].value);
                copies.push(Entry { key: entries[i].key.clone(), value });
                i += 1;
            }
            let copy = Json::Object(copies);
            proof {
                lemma_view_of_containers(copy);
                assert(entries_view(copies@) =~= entries_view(entries@));
            }
            copy
        },
    }
}

impl Clone for Json {
    /// A deep copy.
    fn clone(&self) -> (copy: Json)
        ensures
            copy@ == self@,
    {
        copy_value(self)
    }
}

impl Clone for Entry {
    /// A deep copy.
    fn clone(&self) -> (copy: Entry)
        ensures
            copy@ == self@,
    {
        Entry { key: self.key.clone(), value: copy_value(&self.value) }
    }
}

/// Whether no key occurs twice among the members.
pub fn keys_are_unique(entries: &Vec<Entry>) -> (unique: bool)
    ensures
        unique == unique_keys(entries_view(entries@)),
{
    let ghost es = entries_view(entries@);
    let mut j: usize = 0;
    while j < entries.len()
        invariant
            j <= entries.len(),
            es == entries_view(entries@),
            forall|a: int, b: int|
                0 <= a < b < j ==> (#[trigger] es[a]).key != (#[trigger] es[b]).key,
        decreases entries.len() - j,
    {
        let mut i: usize = 0;
        while i < j
            invariant
                i <= j < entries.len(),
                es == entries_view(entries@),
                forall|a: int| 0 <= a < i ==> (#[trigger] es[a]).key != es[j as int].key,
            decreases j - i,
        {
            if entries[i].key == entries[j].key {
                assert(es[i as int].key == es[j as int].key);
                return false;
            }
            i += 1;
        }
        j += 1;
    }
    true
}

impl Json {
    /// Whether the document is well formed: in each of its objects, no key
    /// occurs twice.
    #[verifier::loop_isolation(false)]
    pub fn well_formed(&self) -> (ok: bool)
        ensures
            ok == self@.wf(),
        decreases self,
    {
        proof {
            lemma_view_of_containers(*self);
        }
        match self {
            Json::Array(items) => {
                proof {
                    lemma_array_wf(values_view(items@));
                }
                let mut i: usize = 0;
                while i < items.len()
                    invariant
                        i <= items.len(),
                        forall|k: int| 0 <= k < i ==> (#[trigger] values_view(items@)[k]).wf(),
                    decreases items.len() - i,
                {
                    if !items[i].well_formed() {
                        assert(!values_view(items@)[i as int].wf());
                        return false;
                    }
                    i += 1;
                }
                true
            },
            Json::Object(entries) => {
                proof {
                    lemma_object_wf(entries_view(entries@));
                }
                if !keys_are_unique(entries) {
                    return false;
                }
                let mut i: usize = 0;
                while i < entries.len()
                    invariant
                        i <= entries.len(),
                        forall|k: int|
                            0 <= k < i ==> (#[trigger] entries_view(entries@)[k]).value.wf(),
                    decreases entries.len() - i,
                {
                    if !entries[i].value.well_formed() {
                        return false;
                    }
                    assert(entries_view(entries@)[i as int].value.wf());
                    i += 1;
                }
                true
            },
            _ => true,
        }
    }

    /// Whether no path of the document goes through more than `limit`
    /// nested containers.
    #[verifier::loop_isolation(false)]
    pub fn nests_within(&self, limit: usize) -> (ok: bool)
        ensures
            ok == self@.nests_within(limit as nat),
        decreases self,
    {
        proof {
            lemma_view_of_containers(*self);
        }
        match self {
            Json::Array(items) => {
                proof {
                    lemma_array_nests_within(values_view(items@), limit as nat);
                }
                if limit == 0 {
                    return false;
                }
                let mut i: usize = 0;
                while i < items.len()
                    invariant
                        i <= items.len(),
                        forall|k: int|
                            0 <= k < i ==> (#[trigger] values_view(items@)[k]).nests_within(
                                (limit - 1) as nat,
                            ),
                    decreases items.len() - i,
                {
                    if !items[i].nests_within(limit - 1) {
                        assert(!values_view(items@)[i as int].nests_within((limit - 1) as nat));
                        return false;
                    }
                    i += 1;
                }
                true
            },
            Json::Object(entries) => {
                proof {
                    lemma_object_nests_within(entries_view(entries@), limit as nat);
                }
                if limit == 0 {
                    return false;
                }
                let mut i: usize = 0;
                while i < entries.len()
                    invariant
                        i <= entries.len(),
                        forall|k: int|
                            0 <= k < i ==> (#[trigger] entries_view(
                                entries@,
                            )[k]).value.nests_within((limit - 1) as nat),
                    decreases entries.len() - i,
                {
                    if !entries[i].value.nests_within(limit - 1) {
                        return false;
                    }
                    assert(entries_view(entries@)[i as int].value.nests_within(
                        (limit - 1) as nat,
                    ));
                    i += 1;
                }
                true
            },
            _ => true,
        }
    }
}

impl PartialEq for Json {
    /// Deep equality, as [`value_eq`] defines it.
    fn eq(&self, other: &Json) -> (equal: bool) {
        values_equal(self, other)
    }
}

impl PartialEqSpecImpl for Json {
    open spec fn obeys_eq_spec() -> bool {
        true
    }

    open spec fn eq_spec(&self, other: &Json) -> bool {
        value_eq(self@, other@)
    }
}

} // verus!
