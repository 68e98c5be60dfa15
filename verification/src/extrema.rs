//! Searches for extreme values among ordering keys.
//!
//! A key stands for a sample value by its order: `Some(k)` for a value that
//! is ordered against other values, `None` for one that compares with
//! nothing (a NaN). `a < b` holds of two values exactly when both keys are
//! `Some` and the first is the smaller.

use vstd::prelude::*;

verus! {

/// `a < b` for the values that the keys `a` and `b` stand for.
pub open spec fn key_lt(a: Option<i32>, b: Option<i32>) -> bool {
    match (a, b) {
        (Some(x), Some(y)) => x < y,
        _ => false,
    }
}

/// Every key of `keys` is ordered.
pub open spec fn all_ordered(keys: Seq<Option<i32>>) -> bool {
    forall|i: int| 0 <= i < keys.len() ==> (#[trigger] keys[i]) is Some
}

/// The ordered value of a key that is known to be `Some`.
pub open spec fn key_value(a: Option<i32>) -> int {
    match a {
        Some(x) => x as int,
        None => 0,
    }
}

/// `a < b` on keys.
pub fn key_less(a: Option<i32>, b: Option<i32>) -> (r: bool)
    ensures
        r == key_lt(a, b),
{
    match (a, b) {
        (Some(x), Some(y)) => x < y,
        _ => false,
    }
}

/// The index that a scan for the smallest key keeps after looking at
/// `keys[..end]`: it starts at `from` and moves to a later index only when
/// that key is strictly smaller than the one kept, so ties and unordered
/// keys keep the earlier index.
pub open spec fn min_scan(keys: Seq<Option<i32>>, from: int, end: int) -> int
    decreases end - from,
{
    if end <= from + 1 {
        from
    } else {
        let best = min_scan(keys, from, end - 1);
        if key_lt(keys[end - 1], keys[best]) {
            end - 1
        } else {
            best
        }
    }
}

/// The index that a scan for the largest key keeps after looking at
/// `keys[..end]`: it starts at `from` and moves to a later index unless the
/// key kept is strictly larger, so ties and unordered keys move it on.
pub open spec fn max_scan(keys: Seq<Option<i32>>, from: int, end: int) -> int
    decreases end - from,
{
    if end <= from + 1 {
        from
    } else {
        let best = max_scan(keys, from, end - 1);
        if key_lt(keys[end - 1], keys[best]) {
            best
        } else {
            end - 1
        }
    }
}

pub(crate) proof fn lemma_min_scan_bounds(keys: Seq<Option<i32>>, from: int, end: int)
    requires
        from < end,
    ensures
        from <= min_scan(keys, from, end) < end,
    decreases end - from,
{
    if end > from + 1 {
        lemma_min_scan_bounds(keys, from, end - 1);
    }
}

proof fn lemma_max_scan_bounds(keys: Seq<Option<i32>>, from: int, end: int)
    requires
        from < end,
    ensures
        from <= max_scan(keys, from, end) < end,
    decreases end - from,
{
    if end > from + 1 {
        lemma_max_scan_bounds(keys, from, end - 1);
    }
}

/// With every key ordered, the minimum scan keeps the first index of the
/// smallest key.
pub proof fn lemma_min_scan_is_first_minimum(keys: Seq<Option<i32>>, from: int, end: int)
    requires
        0 <= from < end <= keys.len(),
        all_ordered(keys),
    ensures
        ({
            let r = min_scan(keys, from, end);
            &&& from <= r < end
            &&& forall|j: int| from <= j < end ==> key_value(keys[r]) <= key_value(#[trigger] keys[j])
            &&& forall|j: int| from <= j < r ==> key_value(keys[r]) < key_value(#[trigger] keys[j])
        }),
    decreases end - from,
{
    lemma_min_scan_bounds(keys, from, end);
    if end > from + 1 {
        lemma_min_scan_is_first_minimum(keys, from, end - 1);
        assert(keys[end - 1] is Some);
        let best = min_scan(keys, from, end - 1);
        assert(keys[best] is Some);
    }
}

/// With every key ordered, the maximum scan keeps the last index of the
/// largest key.
pub proof fn lemma_max_scan_is_last_maximum(keys: Seq<Option<i32>>, from: int, end: int)
    requires
        0 <= from < end <= keys.len(),
        all_ordered(keys),
    ensures
        ({
            let r = max_scan(keys, from, end);
            &&& from <= r < end
            &&& forall|j: int| from <= j < end ==> key_value(#[trigger] keys[j]) <= key_value(keys[r])
            &&& forall|j: int| r < j < end ==> key_value(#[trigger] keys[j]) < key_value(keys[r])
        }),
    decreases end - from,
{
    lemma_max_scan_bounds(keys, from, end);
    if end > from + 1 {
        lemma_max_scan_is_last_maximum(keys, from, end - 1);
        assert(keys[end - 1] is Some);
        let best = max_scan(keys, from, end - 1);
        assert(keys[best] is Some);
    }
}

/// The index of the largest key, the last one on a tie; `None` for no keys.
pub fn argmax(keys: &[Option<i32>]) -> (r: Option<usize>)
    ensures
        r is None <==> keys@.len() == 0,
        r matches Some(i) ==> i == max_scan(keys@, 0, keys@.len() as int),
        r matches Some(i) ==> i < keys@.len(),
        r matches Some(i) ==> all_ordered(keys@) ==> (forall|j: int|
            0 <= j < keys@.len() ==> key_value(#[trigger] keys@[j]) <= key_value(keys@[i as int])),
        r matches Some(i) ==> all_ordered(keys@) ==> (forall|j: int|
            i < j < keys@.len() ==> key_value(#[trigger] keys@[j]) < key_value(keys@[i as int])),
{
    let len = keys.len();
    if len == 0 {
        return None;
    }
    let mut best: usize = 0;
    let mut j: usize = 1;
    while j < len
        invariant
            len == keys@.len(),
            0 < j <= len,
            best < j,
            best == max_scan(keys@, 0, j as int),
        decreases len - j,
    {
        if !key_less(keys[j], keys[best]) {
            best = j;
        }
        j = j + 1;
    }
    proof {
        lemma_max_scan_bounds(keys@, 0, len as int);
        if all_ordered(keys@) {
            lemma_max_scan_is_last_maximum(keys@, 0, len as int);
        }
    }
    Some(best)
}

} // verus!
