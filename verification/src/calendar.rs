//! The calendar value type and its queries.

use vstd::prelude::*;
use crate::lemmas::{
    lemma_contains_iff_at_rank, lemma_next_day_least_above, lemma_prev_day_greatest_below,
    lemma_range_is_slice, lemma_split_is_rank,
};
use crate::model::{
    day_at, days_in_range, index_of_day, next_day, prev_day, rank, same_ordinals, shifted_day,
    strictly_increasing,
};
use crate::normalize::sorted_unique;

verus! {

/// An immutable ordered set of business days, each given by its day ordinal.
#[derive(Debug)]
pub struct BusinessCalendar {
    days: Vec<i32>,
}

impl View for BusinessCalendar {
    type V = Seq<i32>;

    /// The stored ordinals, in ascending order.
    closed spec fn view(&self) -> Seq<i32> {
        self.days@
    }
}

impl BusinessCalendar {
    /// The stored ordinals are strictly increasing. This holds of every
    /// calendar that executable code can get hold of.
    #[verifier::type_invariant]
    pub open spec fn wf(&self) -> bool {
        strictly_increasing(self@)
    }

    /// Builds the calendar of the given ordinals, which may come in any
    /// order and with repeats.
    pub fn new(ordinals: Vec<i32>) -> (cal: Self)
        ensures
            strictly_increasing(cal@),
            same_ordinals(cal@, ordinals@),
            cal@.len() <= ordinals@.len(),
    {
        BusinessCalendar { days: sorted_unique(&ordinals) }
    }

    /// The number of business days in the calendar.
    pub fn len(&self) -> (n: usize)
        ensures
            n == self@.len(),
    {
        self.days.len()
    }

    /// Whether the calendar holds no business day at all.
    pub fn is_empty(&self) -> (b: bool)
        ensures
            b == (self@.len() == 0),
    {
        self.days.len() == 0
    }

    /// The rank of `ordinal` if it is a business day, and else the position
    /// at which it would have to be inserted: in both cases the number of
    /// business days before `ordinal`. Found by binary search.
    pub fn insertion_point(&self, ordinal: i32) -> (p: usize)
        ensures
            p == rank(self@, ordinal as int),
            p <= self@.len(),
            forall|i: int| 0 <= i < p ==> self@[i] < ordinal,
            forall|i: int| p <= i < self@.len() ==> self@[i] >= ordinal,
    {
        proof {
            use_type_invariant(self);
        }
        let mut lo: usize = 0;
        let mut hi: usize = self.days.len();
        while lo < hi
            invariant
                lo <= hi <= self.days.len(),
                forall|i: int| 0 <= i < lo ==> self.days[i] < ordinal,
                forall|i: int| hi <= i < self.days.len() ==> self.days[i] >= ordinal,
                self.wf(),
            decreases hi - lo,
        {
            let mid: usize = lo + (hi - lo) / 2;
            if self.days[mid] < ordinal {
                lo = mid + 1;
            } else {
                hi = mid;
            }
        }
        proof {
            lemma_split_is_rank(self@, ordinal as int, lo as int);
        }
        lo
    }

    /// The number of business days up to and including `ordinal`: the
    /// insertion point, moved past `ordinal` itself where it is stored.
    fn insertion_point_after(&self, ordinal: i32) -> (p: usize)
        ensures
            p == rank(self@, ordinal + 1),
            p <= self@.len(),
            forall|i: int| 0 <= i < p ==> self@[i] <= ordinal,
            forall|i: int| p <= i < self@.len() ==> self@[i] > ordinal,
    {
        let at = self.insertion_point(ordinal);
        let p: usize = if at < self.days.len() && self.days[at] == ordinal {
            at + 1
        } else {
            at
        };
        proof {
            use_type_invariant(self);
            lemma_split_is_rank(self@, ordinal + 1, p as int);
        }
        p
    }

    /// Whether `ordinal` is a business day.
    pub fn is_business_day(&self, ordinal: i32) -> (b: bool)
        ensures
            b == self@.contains(ordinal),
    {
        let at = self.insertion_point(ordinal);
        proof {
            use_type_invariant(self);
            lemma_contains_iff_at_rank(self@, ordinal);
        }
        at < self.days.len() && self.days[at] == ordinal
    }

    /// The business day `n` steps away from `ordinal`, counted from the rank
    /// of `ordinal` or, where it is no business day, from its insertion
    /// point; `None` where that leaves the calendar.
    ///
    /// The anchor does not depend on the sign of `n`: from an ordinal that
    /// is no business day, step 0 gives the first business day after it and
    /// step -1 the last one before it.
    pub fn add_business_days(&self, ordinal: i32, n: i32) -> (r: Option<i32>)
        ensures
            r == shifted_day(self@, ordinal, n as int),
    {
        let anchor = self.insertion_point(ordinal);
        if n >= 0 {
            let forward: usize = n as usize;
            if forward < self.days.len() - anchor {
                Some(self.days[anchor + forward])
            } else {
                None
            }
        } else {
            let back: usize = (-(n as i64)) as usize;
            if back <= anchor {
                Some(self.days[anchor - back])
            } else {
                None
            }
        }
    }

    /// The first business day strictly after `ordinal`, whether or not
    /// `ordinal` is one itself; `None` where there is none.
    pub fn next_business_day(&self, ordinal: i32) -> (r: Option<i32>)
        ensures
            r == next_day(self@, ordinal),
            match r {
                Some(y) => self@.contains(y) && ordinal < y && forall|d: i32|
                    self@.contains(d) ==> !(ordinal < d < y),
                None => forall|d: i32| self@.contains(d) ==> d <= ordinal,
            },
    {
        let p = self.insertion_point_after(ordinal);
        proof {
            use_type_invariant(self);
            lemma_next_day_least_above(self@, ordinal);
        }
        if p < self.days.len() {
            Some(self.days[p])
        } else {
            None
        }
    }

    /// The last business day strictly before `ordinal`, whether or not
    /// `ordinal` is one itself; `None` where there is none.
    pub fn prev_business_day(&self, ordinal: i32) -> (r: Option<i32>)
        ensures
            r == prev_day(self@, ordinal),
            match r {
                Some(y) => self@.contains(y) && y < ordinal && forall|d: i32|
                    self@.contains(d) ==> !(y < d < ordinal),
                None => forall|d: i32| self@.contains(d) ==> ordinal <= d,
            },
    {
        let p = self.insertion_point(ordinal);
        proof {
            use_type_invariant(self);
            lemma_prev_day_greatest_below(self@, ordinal);
        }
        if p > 0 {
            Some(self.days[p - 1])
        } else {
            None
        }
    }

    /// The business days `d` with `start <= d <= end`, in ascending order;
    /// none where `start > end`.
    pub fn business_days_in_range(&self, start: i32, end: i32) -> (found: Vec<i32>)
        ensures
            found@ == days_in_range(self@, start, end),
            strictly_increasing(found@),
    {
        proof {
            use_type_invariant(self);
            lemma_range_is_slice(self@, start, end);
        }
        if start > end {
            return Vec::new();
        }
        let lo = self.insertion_point(start);
        let hi = self.insertion_point_after(end);
        let mut found: Vec<i32> = Vec::with_capacity(hi - lo);
        let mut i: usize = lo;
        while i < hi
            invariant
                lo <= i <= hi <= self.days.len(),
                found@ == self.days@.subrange(lo as int, i as int),
            decreases hi - i,
        {
            found.push(self.days[i]);
            i += 1;
        }
        found
    }

    /// The number of business days `d` with `start <= d <= end`, found by
    /// two binary searches.
    pub fn count_business_days(&self, start: i32, end: i32) -> (n: usize)
        ensures
            n == days_in_range(self@, start, end).len(),
    {
        proof {
            use_type_invariant(self);
            lemma_range_is_slice(self@, start, end);
        }
        if start > end {
            return 0;
        }
        let lo = self.insertion_point(start);
        let hi = self.insertion_point_after(end);
        hi - lo
    }

    /// The rank of `ordinal` among the business days, counted from 0;
    /// `None` where `ordinal` is no business day.
    pub fn get_business_day_index(&self, ordinal: i32) -> (r: Option<usize>)
        ensures
            match r {
                Some(i) => index_of_day(self@, ordinal) == Some(i as int) && self@[i as int]
                    == ordinal,
                None => index_of_day(self@, ordinal) is None,
            },
    {
        let at = self.insertion_point(ordinal);
        proof {
            use_type_invariant(self);
            lemma_contains_iff_at_rank(self@, ordinal);
        }
        if at < self.days.len() && self.days[at] == ordinal {
            Some(at)
        } else {
            None
        }
    }

    /// The business day of rank `index`, counted from 0; `None` where the
    /// calendar has no such rank.
    pub fn get_business_day_at_index(&self, index: usize) -> (r: Option<i32>)
        ensures
            r == day_at(self@, index as int),
    {
        if index < self.days.len() {
            Some(self.days[index])
        } else {
            None
        }
    }
}

} // verus!
