//! Bringing raw ordinals into the form a calendar stores: ascending, each
//! ordinal once.

use vstd::prelude::*;
use vstd::seq_lib::{lemma_seq_concat_contains_all_elements, lemma_seq_contains_after_push};
use crate::model::{same_ordinals, strictly_increasing};

verus! {

/// Merges two strictly increasing vectors into one that holds the ordinals
/// of both; an ordinal that both hold comes out once.
fn merge_unique(a: &Vec<i32>, b: &Vec<i32>) -> (out: Vec<i32>)
    requires
        strictly_increasing(a@),
        strictly_increasing(b@),
    ensures
        strictly_increasing(out@),
        same_ordinals(out@, a@ + b@),
        out@.len() <= a@.len() + b@.len(),
{
    let mut out: Vec<i32> = Vec::new();
    let mut i: usize = 0;
    let mut j: usize = 0;
    while i < a.len() || j < b.len()
        invariant
            i <= a.len(),
            j <= b.len(),
            strictly_increasing(a@),
            strictly_increasing(b@),
            strictly_increasing(out@),
            out.len() <= i + j,
            forall|k: int| 0 <= k < out.len() ==> a@.contains(out[k]) || b@.contains(out[k]),
            forall|k: int| 0 <= k < i ==> out@.contains(a[k]),
            forall|k: int| 0 <= k < j ==> out@.contains(b[k]),
            forall|k: int| 0 <= k < out.len() && i < a.len() ==> out[k] < a[i as int],
            forall|k: int| 0 <= k < out.len() && j < b.len() ==> out[k] < b[j as int],
        decreases a.len() - i + b.len() - j,
    {
        broadcast use lemma_seq_contains_after_push;

        let x: i32;
        if j >= b.len() || (i < a.len() && a[i] < b[j]) {
            x = a[i];
            i += 1;
        } else if i >= a.len() || b[j] < a[i] {
            x = b[j];
            j += 1;
        } else {
            x = a[i];
            i += 1;
            j += 1;
        }
        out.push(x);
    }
    proof {
        broadcast use lemma_seq_concat_contains_all_elements;
    }
    out
}

/// Sorts the ordinals at positions `lo..hi` of `ordinals` and drops the
/// repeats among them.
fn sorted_unique_between(ordinals: &Vec<i32>, lo: usize, hi: usize) -> (out: Vec<i32>)
    requires
        lo <= hi <= ordinals.len(),
    ensures
        strictly_increasing(out@),
        same_ordinals(out@, ordinals@.subrange(lo as int, hi as int)),
        out@.len() <= hi - lo,
    decreases hi - lo,
{
    let ghost part = ordinals@.subrange(lo as int, hi as int);
    if hi - lo == 0 {
        Vec::new()
    } else if hi - lo == 1 {
        let mut out: Vec<i32> = Vec::new();
        out.push(ordinals[lo]);
        proof {
            assert(out@ =~= part);
        }
        out
    } else {
        let mid: usize = lo + (hi - lo) / 2;
        let left = sorted_unique_between(ordinals, lo, mid);
        let right = sorted_unique_between(ordinals, mid, hi);
        let out = merge_unique(&left, &right);
        proof {
            broadcast use lemma_seq_concat_contains_all_elements;

            assert(part =~= ordinals@.subrange(lo as int, mid as int) + ordinals@.subrange(
                mid as int,
                hi as int,
            ));
        }
        out
    }
}

/// The ordinals of `ordinals` in ascending order, each of them once.
pub fn sorted_unique(ordinals: &Vec<i32>) -> (out: Vec<i32>)
    ensures
        strictly_increasing(out@),
        same_ordinals(out@, ordinals@),
        out@.len() <= ordinals@.len(),
{
    let out = sorted_unique_between(ordinals, 0, ordinals.len());
    proof {
        assert(ordinals@.subrange(0, ordinals.len() as int) =~= ordinals@);
    }
    out
}

} // verus!
