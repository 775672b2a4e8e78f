use vstd::prelude::*;

use crate::card::{get_rank, high_value, rank_of};

verus! {

/// From position `i` on, the first hand wins or ties: at the first position
/// where the ranks differ, its rank is higher, Ace high.
pub open spec fn first_wins_from(a: Seq<u32>, b: Seq<u32>, i: int) -> bool
    decreases 5 - i,
{
    if i >= 5 {
        true
    } else if rank_of(a[i]) == rank_of(b[i]) {
        first_wins_from(a, b, i + 1)
    } else {
        high_value(rank_of(a[i])) > high_value(rank_of(b[i]))
    }
}

/// The first of two best hands of equal category wins the comparison, card by
/// card; a full tie goes to the first.
pub open spec fn first_wins(a: Seq<u32>, b: Seq<u32>) -> bool {
    first_wins_from(a, b, 0)
}

/// Compares two best hands of equal category position by position, Ace high:
/// 1 when the first wins or all five ranks tie, 2 when the second wins.
pub fn tie_break(p1: &Vec<u32>, p2: &Vec<u32>) -> (w: u32)
    requires
        p1@.len() >= 5,
        p2@.len() >= 5,
    ensures
        w == 1 || w == 2,
        (w == 1) == first_wins(p1@, p2@),
{
    let mut idx: usize = 0;
    while idx < 5
        invariant
            idx <= 5,
            p1@.len() >= 5,
            p2@.len() >= 5,
            first_wins(p1@, p2@) == first_wins_from(p1@, p2@, idx as int),
        decreases 5 - idx,
    {
        let a = get_rank(p1[idx]);
        let b = get_rank(p2[idx]);
        if a != b {
            let ha: u32 = if a == 1 { 14 } else { a };
            let hb: u32 = if b == 1 { 14 } else { b };
            if ha > hb {
                return 1;
            } else {
                return 2;
            }
        }
        idx = idx + 1;
    }
    1
}

/// When two hands hold the same rank at every position, the first wins.
pub proof fn lemma_full_tie_goes_first(a: Seq<u32>, b: Seq<u32>)
    requires
        forall|i: int| 0 <= i < 5 ==> rank_of(#[trigger] a[i]) == rank_of(b[i]),
    ensures
        first_wins(a, b),
{
    lemma_tie_from(a, b, 0);
}

proof fn lemma_tie_from(a: Seq<u32>, b: Seq<u32>, i: int)
    requires
        0 <= i <= 5,
        forall|k: int| 0 <= k < 5 ==> rank_of(#[trigger] a[k]) == rank_of(b[k]),
    ensures
        first_wins_from(a, b, i),
    decreases 5 - i,
{
    if i < 5 {
        lemma_tie_from(a, b, i + 1);
    }
}

} // verus!
