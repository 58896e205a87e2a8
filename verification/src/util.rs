//! Pairing the items of two arrays by position.

use crate::json::Json;
use std::collections::VecDeque;
use vstd::prelude::*;

verus! {

/// The item at position `i`, if the sequence reaches it.
pub open spec fn item_at(items: Seq<Json>, i: int) -> Option<Json> {
    if 0 <= i < items.len() {
        Some(items[i])
    } else {
        None
    }
}

/// The two sequences side by side, as long as the longer one: at each
/// position the item of each, or `None` where that one has ended.
pub open spec fn zipped(a: Seq<Json>, b: Seq<Json>) -> Seq<(Option<Json>, Option<Json>)> {
    Seq::new(
        if a.len() >= b.len() {
            a.len()
        } else {
            b.len()
        },
        |i: int| (item_at(a, i), item_at(b, i)),
    )
}

/// What is left of a sequence after its first `k` items.
spec fn left_after(items: Seq<Json>, k: int) -> Seq<Json> {
    if 0 <= k <= items.len() {
        items.skip(k)
    } else {
        Seq::empty()
    }
}

/// The items of a vector as a queue, first item in front.
fn queue_of(items: Vec<Json>) -> (queue: VecDeque<Json>)
    ensures
        queue@ == items@,
{
    let mut queue: VecDeque<Json> = VecDeque::new();
    for item in it: items
        invariant
            queue@ == it.seq().take(it.index() as int),
    {
        queue.push_back(item);
    }
    queue
}

/// Pairs the items of `a` and `b` by position, up to the end of the longer.
pub fn zip_to_end(a: Vec<Json>, b: Vec<Json>) -> (pairs: Vec<(Option<Json>, Option<Json>)>)
    ensures
        pairs@ == zipped(a@, b@),
{
    let ghost all = zipped(a@, b@);
    let ghost (sa, sb) = (a@, b@);
    let mut result = Vec::<(Option<Json>, Option<Json>)>::new();
    let mut rest_a = queue_of(a);
    let mut rest_b = queue_of(b);
    loop
        invariant
            all == zipped(sa, sb),
            result.len() <= all.len(),
            rest_a@ == left_after(sa, result.len() as int),
            rest_b@ == left_after(sb, result.len() as int),
            result@ == all.take(result.len() as int),
        ensures
            result@ == all,
        decreases all.len() - result.len(),
    {
        let next_a = rest_a.pop_front();
        let next_b = rest_b.pop_front();
        if next_a.is_none() && next_b.is_none() {
            break ;
        }
        result.push((next_a, next_b));
    }
    result
}

} // verus!
