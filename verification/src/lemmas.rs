//! Facts about strictly increasing sequences and the model functions.

use vstd::prelude::*;
use crate::model::{
    day_at, days_in_range, next_day, prev_day, rank, same_ordinals, strictly_increasing,
};

verus! {

/// A rank is a position in the sequence, or its length.
pub proof fn lemma_rank_bounds(days: Seq<i32>, x: int)
    ensures
        0 <= rank(days, x) <= days.len(),
    decreases days.len(),
{
    if days.len() > 0 {
        lemma_rank_bounds(days.drop_last(), x);
    }
}

/// A larger ordinal has no smaller rank.
pub proof fn lemma_rank_monotone(days: Seq<i32>, x: int, y: int)
    requires
        x <= y,
    ensures
        rank(days, x) <= rank(days, y),
    decreases days.len(),
{
    if days.len() > 0 {
        lemma_rank_monotone(days.drop_last(), x, y);
    }
}

/// A position that has only entries below `x` before it, and none from it
/// on, is the rank of `x`.
pub proof fn lemma_split_is_rank(days: Seq<i32>, x: int, p: int)
    requires
        0 <= p <= days.len(),
        forall|i: int| 0 <= i < p ==> days[i] < x,
        forall|i: int| p <= i < days.len() ==> days[i] >= x,
    ensures
        rank(days, x) == p,
    decreases days.len(),
{
    if days.len() > 0 {
        let front = days.drop_last();
        if p == days.len() {
            lemma_split_is_rank(front, x, p - 1);
        } else {
            lemma_split_is_rank(front, x, p);
        }
    }
}

/// In a strictly increasing sequence the rank of `x` splits the entries:
/// those before it are below `x`, those from it on are not.
pub proof fn lemma_rank_splits(days: Seq<i32>, x: int)
    requires
        strictly_increasing(days),
    ensures
        0 <= rank(days, x) <= days.len(),
        forall|i: int| 0 <= i < rank(days, x) ==> days[i] < x,
        forall|i: int| rank(days, x) <= i < days.len() ==> days[i] >= x,
    decreases days.len(),
{
    if days.len() > 0 {
        let front = days.drop_last();
        lemma_rank_splits(front, x);
        if days.last() < x {
            lemma_split_is_rank(front, x, front.len() as int);
        }
        assert forall|i: int| 0 <= i < rank(days, x) implies days[i] < x by {
            if i < front.len() {
                assert(front[i] == days[i]);
            }
        }
        assert forall|i: int| rank(days, x) <= i < days.len() implies days[i] >= x by {
            if i < front.len() {
                assert(front[i] == days[i]);
            }
        }
    }
}

/// In a strictly increasing sequence each entry stands at its own rank.
pub proof fn lemma_rank_of_entry(days: Seq<i32>, i: int)
    requires
        strictly_increasing(days),
        0 <= i < days.len(),
    ensures
        rank(days, days[i] as int) == i,
{
    lemma_split_is_rank(days, days[i] as int, i);
}

/// In a strictly increasing sequence a stored ordinal is found at its rank,
/// and an ordinal that is not stored is not found there.
pub proof fn lemma_contains_iff_at_rank(days: Seq<i32>, ordinal: i32)
    requires
        strictly_increasing(days),
    ensures
        0 <= rank(days, ordinal as int) <= days.len(),
        days.contains(ordinal) <==> day_at(days, rank(days, ordinal as int)) == Some(ordinal),
{
    if days.contains(ordinal) {
        let i = choose|i: int| 0 <= i < days.len() && days[i] == ordinal;
        lemma_rank_of_entry(days, i);
    }
    lemma_rank_bounds(days, ordinal as int);
}

/// The entries of a strictly increasing sequence that lie in a closed range
/// are the slice between the rank of its start and the rank of the ordinal
/// after its end; an inverted range holds none.
pub proof fn lemma_range_is_slice(days: Seq<i32>, start: i32, end: i32)
    requires
        strictly_increasing(days),
    ensures
        start <= end ==> rank(days, start as int) <= rank(days, end + 1),
        start <= end ==> days_in_range(days, start, end) == days.subrange(
            rank(days, start as int),
            rank(days, end + 1),
        ),
        start > end ==> days_in_range(days, start, end) == Seq::<i32>::empty(),
    decreases days.len(),
{
    reveal(Seq::filter);
    if days.len() > 0 {
        let front = days.drop_last();
        lemma_range_is_slice(front, start, end);
        lemma_rank_splits(front, start as int);
        lemma_rank_splits(front, end + 1);
        if start <= end {
            lemma_rank_monotone(days, start as int, end + 1);
            let lo = rank(days, start as int);
            let hi = rank(days, end + 1);
            assert(days_in_range(days, start, end) =~= days.subrange(lo, hi));
        }
    }
}

/// Two strictly increasing sequences that hold the same ordinals are equal.
pub proof fn lemma_same_ordinals_equal(a: Seq<i32>, b: Seq<i32>)
    requires
        strictly_increasing(a),
        strictly_increasing(b),
        same_ordinals(a, b),
    ensures
        a == b,
    decreases a.len(),
{
    if a.len() == 0 {
        if b.len() > 0 {
            assert(b.contains(b[0]));
        }
    } else {
        assert(a.contains(a.last()));
        assert(b.contains(b.last()));
        let a0 = a.drop_last();
        let b0 = b.drop_last();
        assert forall|d: i32| a0.contains(d) <==> b0.contains(d) by {
            if a0.contains(d) {
                assert(a.contains(d));
                let j = choose|j: int| 0 <= j < b.len() && b[j] == d;
                assert(b0[j] == d);
            }
            if b0.contains(d) {
                assert(b.contains(d));
                let j = choose|j: int| 0 <= j < a.len() && a[j] == d;
                assert(a0[j] == d);
            }
        }
        lemma_same_ordinals_equal(a0, b0);
        assert(b =~= b0.push(b.last()));
    }
}

/// The next day after `ordinal` is the least stored ordinal above it; there
/// is none exactly when no stored ordinal is above it.
pub proof fn lemma_next_day_least_above(days: Seq<i32>, ordinal: i32)
    requires
        strictly_increasing(days),
    ensures
        match next_day(days, ordinal) {
            Some(y) => days.contains(y) && ordinal < y && forall|d: i32|
                days.contains(d) ==> !(ordinal < d < y),
            None => forall|d: i32| days.contains(d) ==> d <= ordinal,
        },
{
    lemma_rank_splits(days, ordinal + 1);
}

/// The previous day before `ordinal` is the greatest stored ordinal below
/// it; there is none exactly when no stored ordinal is below it.
pub proof fn lemma_prev_day_greatest_below(days: Seq<i32>, ordinal: i32)
    requires
        strictly_increasing(days),
    ensures
        match prev_day(days, ordinal) {
            Some(y) => days.contains(y) && y < ordinal && forall|d: i32|
                days.contains(d) ==> !(y < d < ordinal),
            None => forall|d: i32| days.contains(d) ==> ordinal <= d,
        },
{
    lemma_rank_splits(days, ordinal as int);
}

} // verus!
