//! The mathematical model of a calendar: a strictly increasing `Seq<i32>`
//! of day ordinals, and the queries on it as spec functions.

use vstd::prelude::*;

verus! {

/// Every entry is smaller than every later entry: sorted, nothing twice.
pub open spec fn strictly_increasing(days: Seq<i32>) -> bool {
    forall|i: int, j: int| 0 <= i < j < days.len() ==> days[i] < days[j]
}

/// `a` and `b` hold the same ordinals, in whatever order and however often.
pub open spec fn same_ordinals(a: Seq<i32>, b: Seq<i32>) -> bool {
    forall|d: i32| a.contains(d) <==> b.contains(d)
}

/// The number of entries of `days` that are strictly less than `x`.
///
/// For a stored ordinal this is its rank; for any other it is the insertion
/// point, the position it would have to take to keep the order.
pub open spec fn rank(days: Seq<i32>, x: int) -> int
    decreases days.len(),
{
    if days.len() == 0 {
        0
    } else if days.last() < x {
        rank(days.drop_last(), x) + 1
    } else {
        rank(days.drop_last(), x)
    }
}

/// The ordinal stored at position `index`, if there is such a position.
pub open spec fn day_at(days: Seq<i32>, index: int) -> Option<i32> {
    if 0 <= index < days.len() {
        Some(days[index])
    } else {
        None
    }
}

/// The rank of `ordinal`, if it is stored.
pub open spec fn index_of_day(days: Seq<i32>, ordinal: i32) -> Option<int> {
    if days.contains(ordinal) {
        Some(rank(days, ordinal as int))
    } else {
        None
    }
}

/// The ordinal `n` positions away from the rank or insertion point of
/// `ordinal`: forward for positive `n`, backward for negative `n`.
///
/// The anchor is the insertion point whatever the sign of `n`. For an
/// ordinal that is not stored, step 0 is therefore the first business day
/// after it, and step -1 the last business day before it.
pub open spec fn shifted_day(days: Seq<i32>, ordinal: i32, n: int) -> Option<i32> {
    day_at(days, rank(days, ordinal as int) + n)
}

/// The first stored ordinal strictly greater than `ordinal`: the one that
/// stands right after all entries less than or equal to `ordinal`.
pub open spec fn next_day(days: Seq<i32>, ordinal: i32) -> Option<i32> {
    day_at(days, rank(days, ordinal + 1))
}

/// The last stored ordinal strictly less than `ordinal`: the one that
/// stands at the end of all entries less than `ordinal`.
pub open spec fn prev_day(days: Seq<i32>, ordinal: i32) -> Option<i32> {
    day_at(days, rank(days, ordinal as int) - 1)
}

/// The entries `d` of `days` with `start <= d <= end`, in their order.
pub open spec fn days_in_range(days: Seq<i32>, start: i32, end: i32) -> Seq<i32> {
    days.filter(|d: i32| start <= d && d <= end)
}

} // verus!
