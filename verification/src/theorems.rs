//! What holds of every calendar, stated over the model functions that the
//! queries' contracts use.

use vstd::prelude::*;
use crate::calendar::BusinessCalendar;
use crate::lemmas::{
    lemma_contains_iff_at_rank, lemma_next_day_least_above, lemma_prev_day_greatest_below,
    lemma_range_is_slice, lemma_rank_bounds, lemma_rank_of_entry, lemma_rank_splits,
    lemma_same_ordinals_equal, lemma_split_is_rank,
};
use crate::model::{
    day_at, days_in_range, index_of_day, next_day, prev_day, rank, same_ordinals, shifted_day,
    strictly_increasing,
};

verus! {

/// A calendar is determined by the set of ordinals it was built from: two
/// calendars that hold the same ordinals hold the same sequence, however
/// the ordinals were ordered or repeated when the calendars were built.
pub proof fn theorem_same_ordinals_same_calendar(a: BusinessCalendar, b: BusinessCalendar)
    requires
        a.wf(),
        b.wf(),
        same_ordinals(a@, b@),
    ensures
        a@ == b@,
{
    lemma_same_ordinals_equal(a@, b@);
}

/// Index and day-at-index are inverse to each other: the day at the index
/// of a business day is that day, and the index of the day at a valid index
/// is that index.
pub proof fn theorem_index_and_day_at_are_inverse(cal: BusinessCalendar, ordinal: i32, index: int)
    requires
        cal.wf(),
    ensures
        index_of_day(cal@, ordinal) == Some(index) ==> day_at(cal@, index) == Some(ordinal),
        0 <= index < cal@.len() ==> day_at(cal@, index) == Some(cal@[index]) && index_of_day(
            cal@,
            cal@[index],
        ) == Some(index),
{
    lemma_contains_iff_at_rank(cal@, ordinal);
    if 0 <= index < cal@.len() {
        lemma_rank_of_entry(cal@, index);
    }
}

/// The days found in a range are exactly the stored ordinals within its
/// bounds, in strictly increasing order, and as many as lie between the
/// insertion point of its start and the insertion point after its end.
pub proof fn theorem_range_holds_what_lies_within(cal: BusinessCalendar, start: i32, end: i32)
    requires
        cal.wf(),
    ensures
        strictly_increasing(days_in_range(cal@, start, end)),
        forall|d: i32|
            days_in_range(cal@, start, end).contains(d) <==> cal@.contains(d) && start <= d
                <= end,
        start <= end ==> days_in_range(cal@, start, end).len() == rank(cal@, end + 1) - rank(
            cal@,
            start as int,
        ),
        start > end ==> days_in_range(cal@, start, end).len() == 0,
{
    lemma_range_is_slice(cal@, start, end);
    lemma_rank_splits(cal@, start as int);
    lemma_rank_splits(cal@, end + 1);
}

/// The range over all ordinals holds the whole calendar, so that listing it
/// enumerates the business days in strictly increasing order.
pub proof fn theorem_full_range_is_whole_calendar(cal: BusinessCalendar)
    requires
        cal.wf(),
    ensures
        days_in_range(cal@, i32::MIN, i32::MAX) == cal@,
        strictly_increasing(days_in_range(cal@, i32::MIN, i32::MAX)),
{
    lemma_range_is_slice(cal@, i32::MIN, i32::MAX);
    lemma_split_is_rank(cal@, i32::MIN as int, 0);
    lemma_split_is_rank(cal@, i32::MAX + 1, cal@.len() as int);
    assert(cal@.subrange(0, cal@.len() as int) =~= cal@);
}

/// The next business day after `x` lies strictly after `x`, and no business
/// day lies strictly between the two; there is none only where no business
/// day lies after `x`.
pub proof fn theorem_next_day_is_nearest(cal: BusinessCalendar, x: i32)
    requires
        cal.wf(),
    ensures
        match next_day(cal@, x) {
            Some(y) => cal@.contains(y) && x < y && forall|d: i32|
                cal@.contains(d) ==> !(x < d < y),
            None => forall|d: i32| cal@.contains(d) ==> d <= x,
        },
{
    lemma_next_day_least_above(cal@, x);
}

/// The previous business day before `x` lies strictly before `x`, and no
/// business day lies strictly between the two; there is none only where no
/// business day lies before `x`.
pub proof fn theorem_prev_day_is_nearest(cal: BusinessCalendar, x: i32)
    requires
        cal.wf(),
    ensures
        match prev_day(cal@, x) {
            Some(y) => cal@.contains(y) && y < x && forall|d: i32|
                cal@.contains(d) ==> !(y < d < x),
            None => forall|d: i32| cal@.contains(d) ==> x <= d,
        },
{
    lemma_prev_day_greatest_below(cal@, x);
}

/// How a shift by business days relates to the neighbouring days: no step
/// from a business day stays on it, one step forward from it is its next
/// day, one step back from any ordinal is its previous day, and from an
/// ordinal that is no business day no step already gives its next day.
pub proof fn theorem_shift_meets_neighbours(cal: BusinessCalendar, x: i32)
    requires
        cal.wf(),
    ensures
        cal@.contains(x) ==> shifted_day(cal@, x, 0) == Some(x),
        cal@.contains(x) ==> shifted_day(cal@, x, 1) == next_day(cal@, x),
        !cal@.contains(x) ==> shifted_day(cal@, x, 0) == next_day(cal@, x),
        shifted_day(cal@, x, -1) == prev_day(cal@, x),
{
    lemma_contains_iff_at_rank(cal@, x);
    let p = rank(cal@, x as int);
    lemma_rank_splits(cal@, x as int);
    if cal@.contains(x) {
        lemma_split_is_rank(cal@, x + 1, p + 1);
    } else {
        lemma_split_is_rank(cal@, x + 1, p);
    }
}

/// An empty calendar answers every query with nothing: no ordinal is a
/// business day or has an index, no index or shift leads to a day, no
/// ordinal has a next or previous day, and no range holds a day.
pub proof fn theorem_empty_calendar_has_no_answers(
    cal: BusinessCalendar,
    ordinal: i32,
    n: int,
    index: int,
    start: i32,
    end: i32,
)
    requires
        cal@.len() == 0,
    ensures
        cal.wf(),
        !cal@.contains(ordinal),
        index_of_day(cal@, ordinal) is None,
        day_at(cal@, index) is None,
        shifted_day(cal@, ordinal, n) is None,
        next_day(cal@, ordinal) is None,
        prev_day(cal@, ordinal) is None,
        days_in_range(cal@, start, end) == Seq::<i32>::empty(),
{
    lemma_rank_bounds(cal@, ordinal as int);
    lemma_rank_bounds(cal@, ordinal + 1);
    lemma_range_is_slice(cal@, start, end);
}

} // verus!
