use vstd::prelude::*;

use crate::card::{get_rank, get_suit, high_value, rank_of, suit_of, valid_card};

verus! {

/// All cards of the sequence are valid cards.
pub open spec fn all_valid(s: Seq<u32>) -> bool {
    forall|i: int| 0 <= i < s.len() ==> valid_card(#[trigger] s[i])
}

/// The cards of `s` with rank `r`, in their order in `s`.
pub open spec fn with_rank(s: Seq<u32>, r: int) -> Seq<u32>
    decreases s.len(),
{
    if s.len() == 0 {
        seq![]
    } else if rank_of(s.last()) == r {
        with_rank(s.drop_last(), r).push(s.last())
    } else {
        with_rank(s.drop_last(), r)
    }
}

/// The cards of `s` whose rank is not `r`, in their order in `s`.
pub open spec fn without_rank(s: Seq<u32>, r: int) -> Seq<u32>
    decreases s.len(),
{
    if s.len() == 0 {
        seq![]
    } else if rank_of(s.last()) != r {
        without_rank(s.drop_last(), r).push(s.last())
    } else {
        without_rank(s.drop_last(), r)
    }
}

/// The cards of `s` of suit `su`, in their order in `s`.
pub open spec fn with_suit(s: Seq<u32>, su: int) -> Seq<u32>
    decreases s.len(),
{
    if s.len() == 0 {
        seq![]
    } else if suit_of(s.last()) == su {
        with_suit(s.drop_last(), su).push(s.last())
    } else {
        with_suit(s.drop_last(), su)
    }
}

/// Number of cards of `s` with rank `r`.
pub open spec fn count(s: Seq<u32>, r: int) -> int {
    with_rank(s, r).len() as int
}

/// Card `x` ranks above card `y`, Ace high, when `x` stands after `y`:
/// a higher rank wins; on equal ranks a later card goes first, but for Aces,
/// which keep their order.
pub open spec fn beats(x: u32, y: u32) -> bool {
    high_value(rank_of(x)) > high_value(rank_of(y)) || (high_value(rank_of(x)) == high_value(
        rank_of(y),
    ) && rank_of(x) != 1)
}

/// Index of the card that an Ace-high sort puts first.
pub open spec fn top_index(s: Seq<u32>) -> int
    decreases s.len(),
{
    if s.len() <= 1 {
        0
    } else {
        let b = top_index(s.drop_last());
        if beats(s.last(), s[b]) {
            s.len() - 1
        } else {
            b
        }
    }
}

/// Ace-high sort of at most `n` cards: the top card, then the rest sorted.
pub open spec fn ace_sort_n(s: Seq<u32>, n: nat) -> Seq<u32>
    decreases n,
{
    if n == 0 || s.len() == 0 {
        seq![]
    } else {
        let b = top_index(s);
        seq![s[b]] + ace_sort_n(s.remove(b), (n - 1) as nat)
    }
}

/// The cards of `s` from highest to lowest, Ace high. Aces keep their order;
/// other cards of equal rank come in reverse order.
pub open spec fn ace_sort(s: Seq<u32>) -> Seq<u32> {
    ace_sort_n(s, s.len())
}

pub proof fn lemma_top_index_bounds(s: Seq<u32>)
    requires
        s.len() > 0,
    ensures
        0 <= top_index(s) < s.len(),
    decreases s.len(),
{
    if s.len() > 1 {
        lemma_top_index_bounds(s.drop_last());
    }
}

pub proof fn lemma_ace_sort_len(s: Seq<u32>, n: nat)
    requires
        n == s.len(),
    ensures
        ace_sort_n(s, n).len() == n,
    decreases n,
{
    if n > 0 {
        lemma_top_index_bounds(s);
        lemma_ace_sort_len(s.remove(top_index(s)), (n - 1) as nat);
    }
}

/// Index of the first card that an Ace-high sort of `cards` puts first.
fn find_top(cards: &Vec<u32>) -> (b: usize)
    requires
        cards@.len() > 0,
    ensures
        b == top_index(cards@),
        b < cards@.len(),
{
    let mut b: usize = 0;
    let mut i: usize = 1;
    assert(cards@.take(1).len() == 1);
    while i < cards.len()
        invariant
            1 <= i <= cards@.len(),
            b < i,
            b == top_index(cards@.take(i as int)),
        decreases cards@.len() - i,
    {
        assert(cards@.take(i as int + 1).drop_last() =~= cards@.take(i as int));
        let ri = get_rank(cards[i]);
        let rb = get_rank(cards[b]);
        let hi: u32 = if ri == 1 { 14 } else { ri };
        let hb: u32 = if rb == 1 { 14 } else { rb };
        if hi > hb || (hi == hb && ri != 1) {
            b = i;
        }
        i = i + 1;
    }
    assert(cards@.take(cards@.len() as int) =~= cards@);
    b
}

/// The cards sorted from highest to lowest rank, with the Aces first.
pub fn ace_sort_cards(cards: &Vec<u32>) -> (r: Vec<u32>)
    ensures
        r@ == ace_sort(cards@),
        r@.len() == cards@.len(),
{
    let mut cpy = cards.clone();
    let mut out: Vec<u32> = Vec::new();
    assert(out@ + ace_sort_n(cpy@, cpy@.len()) =~= ace_sort(cards@));
    while cpy.len() > 0
        invariant
            out@ + ace_sort_n(cpy@, cpy@.len()) == ace_sort(cards@),
            out@.len() + cpy@.len() == cards@.len(),
        decreases cpy@.len(),
    {
        let b = find_top(&cpy);
        let c = cpy.remove(b);
        out.push(c);
        assert(out@ + ace_sort_n(cpy@, cpy@.len()) =~= ace_sort(cards@));
    }
    assert(out@ =~= ace_sort(cards@));
    out
}

/// A rank from its Ace-high value: 14 is the Ace.
pub open spec fn rank_at(v: int) -> int {
    if v == 14 {
        1
    } else {
        v
    }
}

/// The ranks that occur exactly `k` times in `s`, from the highest Ace-high
/// value `v` down to 2.
pub open spec fn ranks_with(s: Seq<u32>, k: int, v: int) -> Seq<u32>
    decreases v,
{
    if v < 2 {
        seq![]
    } else if count(s, rank_at(v)) == k {
        seq![rank_at(v) as u32] + ranks_with(s, k, v - 1)
    } else {
        ranks_with(s, k, v - 1)
    }
}

/// Number of ranks of Ace-high value at most `v` that occur in `s`.
pub open spec fn distinct(s: Seq<u32>, v: int) -> int
    decreases v,
{
    if v < 2 {
        0
    } else if count(s, rank_at(v)) > 0 {
        1 + distinct(s, v - 1)
    } else {
        distinct(s, v - 1)
    }
}

/// Card `c` has rank `r`, and suit `su` unless `su` is 4, which stands for any suit.
pub open spec fn fits(c: u32, r: int, su: int) -> bool {
    rank_of(c) == r && (su == 4 || suit_of(c) == su)
}

/// The first card of `s` that fits rank `r` and suit `su`, or 0 if none does.
pub open spec fn first_match(s: Seq<u32>, r: int, su: int) -> u32
    decreases s.len(),
{
    if s.len() == 0 {
        0
    } else if first_match(s.drop_last(), r, su) != 0 {
        first_match(s.drop_last(), r, su)
    } else if fits(s.last(), r, su) {
        s.last()
    } else {
        0
    }
}

/// The cards of `cards` with rank `r`, and those without, each in their order.
pub fn split_rank(cards: &Vec<u32>, r: u32) -> (res: (Vec<u32>, Vec<u32>))
    ensures
        res.0@ == with_rank(cards@, r as int),
        res.1@ == without_rank(cards@, r as int),
        res.0@.len() + res.1@.len() == cards@.len(),
{
    let mut a: Vec<u32> = Vec::new();
    let mut b: Vec<u32> = Vec::new();
    let mut i: usize = 0;
    while i < cards.len()
        invariant
            i <= cards@.len(),
            a@ == with_rank(cards@.take(i as int), r as int),
            b@ == without_rank(cards@.take(i as int), r as int),
            a@.len() + b@.len() == i,
        decreases cards@.len() - i,
    {
        assert(cards@.take(i as int + 1).drop_last() =~= cards@.take(i as int));
        if get_rank(cards[i]) == r {
            a.push(cards[i]);
        } else {
            b.push(cards[i]);
        }
        i = i + 1;
    }
    assert(cards@.take(cards@.len() as int) =~= cards@);
    (a, b)
}

/// The cards of `cards` of suit `su`, in their order.
pub fn suited(cards: &Vec<u32>, su: u32) -> (res: Vec<u32>)
    requires
        all_valid(cards@),
    ensures
        res@ == with_suit(cards@, su as int),
{
    let mut a: Vec<u32> = Vec::new();
    let mut i: usize = 0;
    while i < cards.len()
        invariant
            i <= cards@.len(),
            all_valid(cards@),
            a@ == with_suit(cards@.take(i as int), su as int),
        decreases cards@.len() - i,
    {
        assert(cards@.take(i as int + 1).drop_last() =~= cards@.take(i as int));
        if get_suit(cards[i]) == su {
            a.push(cards[i]);
        }
        i = i + 1;
    }
    assert(cards@.take(cards@.len() as int) =~= cards@);
    a
}

/// Number of cards with rank `r`.
pub fn rank_count(cards: &Vec<u32>, r: u32) -> (n: usize)
    ensures
        n == count(cards@, r as int),
{
    let (a, _b) = split_rank(cards, r);
    a.len()
}

/// The ranks that occur exactly `k` times, highest first, Ace high.
pub fn ranks_of_count(cards: &Vec<u32>, k: usize) -> (res: Vec<u32>)
    ensures
        res@ == ranks_with(cards@, k as int, 14),
{
    let mut out: Vec<u32> = Vec::new();
    let mut v: u32 = 14;
    while v >= 2
        invariant
            1 <= v <= 14,
            out@ + ranks_with(cards@, k as int, v as int) == ranks_with(cards@, k as int, 14),
        decreases v,
    {
        let r: u32 = if v == 14 { 1 } else { v };
        let ghost old_out = out@;
        if rank_count(cards, r) == k {
            out.push(r);
            assert(out@ + ranks_with(cards@, k as int, v - 1) =~= old_out + ranks_with(
                cards@,
                k as int,
                v as int,
            ));
        }
        v = v - 1;
    }
    assert(out@ =~= out@ + ranks_with(cards@, k as int, v as int));
    out
}

/// Number of distinct ranks among the cards.
pub fn distinct_ranks(cards: &Vec<u32>) -> (n: usize)
    ensures
        n == distinct(cards@, 14),
{
    let mut n: usize = 0;
    let mut v: u32 = 2;
    while v <= 14
        invariant
            2 <= v <= 15,
            n == distinct(cards@, v - 1),
            n <= v,
        decreases 15 - v,
    {
        let r: u32 = if v == 14 { 1 } else { v };
        if rank_count(cards, r) > 0 {
            n = n + 1;
        }
        v = v + 1;
    }
    n
}

/// The first card with rank `r` and suit `su` (any suit when `su` is 4), or 0.
pub fn find_card(cards: &Vec<u32>, r: u32, su: u32) -> (c: u32)
    requires
        all_valid(cards@),
    ensures
        c == first_match(cards@, r as int, su as int),
{
    let mut f: u32 = 0;
    let mut i: usize = 0;
    while i < cards.len()
        invariant
            i <= cards@.len(),
            all_valid(cards@),
            f == first_match(cards@.take(i as int), r as int, su as int),
        decreases cards@.len() - i,
    {
        assert(cards@.take(i as int + 1).drop_last() =~= cards@.take(i as int));
        if f == 0 && get_rank(cards[i]) == r && (su == 4 || get_suit(cards[i]) == su) {
            f = cards[i];
        }
        i = i + 1;
    }
    assert(cards@.take(cards@.len() as int) =~= cards@);
    f
}

/// Splitting by a rank loses no card.
pub proof fn lemma_split_len(s: Seq<u32>, r: int)
    ensures
        with_rank(s, r).len() + without_rank(s, r).len() == s.len(),
    decreases s.len(),
{
    if s.len() > 0 {
        lemma_split_len(s.drop_last(), r);
    }
}

/// Taking out one rank keeps the cards of any other rank.
pub proof fn lemma_other_rank_kept(s: Seq<u32>, p: int, q: int)
    requires
        p != q,
    ensures
        with_rank(without_rank(s, p), q) == with_rank(s, q),
    decreases s.len(),
{
    if s.len() > 0 {
        lemma_other_rank_kept(s.drop_last(), p, q);
        if rank_of(s.last()) != p {
            assert(without_rank(s, p).drop_last() =~= without_rank(s.drop_last(), p));
        }
    }
}

/// The ranks listed by `ranks_with` occur `k` times each, are valid ranks,
/// and come in strictly falling Ace-high order.
pub proof fn lemma_ranks_with(s: Seq<u32>, k: int, v: int)
    requires
        v <= 14,
    ensures
        forall|i: int|
            0 <= i < ranks_with(s, k, v).len() ==> count(s, #[trigger] ranks_with(s, k, v)[i] as int)
                == k && 1 <= ranks_with(s, k, v)[i] <= 13 && 2 <= high_value(
                ranks_with(s, k, v)[i] as int,
            ) <= v,
        forall|i: int, j: int|
            0 <= i < j < ranks_with(s, k, v).len() ==> high_value(
                #[trigger] ranks_with(s, k, v)[i] as int,
            ) > high_value(#[trigger] ranks_with(s, k, v)[j] as int),
    decreases v,
{
    if v >= 2 {
        lemma_ranks_with(s, k, v - 1);
        let rest = ranks_with(s, k, v - 1);
        let rw = ranks_with(s, k, v);
        if count(s, rank_at(v)) == k {
            assert(rw == seq![rank_at(v) as u32] + rest);
            assert forall|i: int| 0 < i < rw.len() implies rw[i] == rest[i - 1] by {}
            assert(rw[0] == rank_at(v) as u32);
        }
    }
}

/// Sum of the counts of the ranks of Ace-high value at most `v`.
pub open spec fn sum_counts(s: Seq<u32>, v: int) -> int
    decreases v,
{
    if v < 2 {
        0
    } else {
        count(s, rank_at(v)) + sum_counts(s, v - 1)
    }
}

/// Number of ranks of Ace-high value at most `v` that occur five times or more.
pub open spec fn heavy(s: Seq<u32>, v: int) -> int
    decreases v,
{
    if v < 2 {
        0
    } else if count(s, rank_at(v)) >= 5 {
        1 + heavy(s, v - 1)
    } else {
        heavy(s, v - 1)
    }
}

proof fn lemma_sum_push(s: Seq<u32>, c: u32, v: int)
    requires
        valid_card(c),
        v <= 14,
    ensures
        sum_counts(s.push(c), v) == sum_counts(s, v) + (if 2 <= high_value(rank_of(c)) <= v {
            1int
        } else {
            0int
        }),
    decreases v,
{
    if v >= 2 {
        lemma_sum_push(s, c, v - 1);
        assert(s.push(c).drop_last() =~= s);
    }
}

/// The counts of all ranks add up to the number of cards.
pub proof fn lemma_sum_counts(s: Seq<u32>)
    requires
        all_valid(s),
    ensures
        sum_counts(s, 14) == s.len(),
    decreases s.len(),
{
    if s.len() > 0 {
        assert(s.drop_last().push(s.last()) =~= s);
        assert(valid_card(s[s.len() - 1]));
        let d = s.drop_last();
        let c = s.last();
        assert(all_valid(d));
        lemma_sum_counts(d);
        lemma_sum_push(d, c, 14);
        assert(1 <= rank_of(c) <= 13);
        assert(sum_counts(d.push(c), 14) == d.len() + 1);
    } else {
        lemma_sum_empty(s, 14);
    }
}

proof fn lemma_sum_empty(s: Seq<u32>, v: int)
    requires
        s.len() == 0,
    ensures
        sum_counts(s, v) == 0,
    decreases v,
{
    if v >= 2 {
        lemma_sum_empty(s, v - 1);
    }
}

/// Without pairs and four-of-a-kinds, every rank held counts once, a triple
/// thrice, and a rank held five times or more at least five times.
pub proof fn lemma_shape(s: Seq<u32>, v: int)
    requires
        v <= 14,
        ranks_with(s, 2, v).len() == 0,
        ranks_with(s, 4, v).len() == 0,
    ensures
        heavy(s, v) >= 0,
        sum_counts(s, v) >= distinct(s, v) + 2 * ranks_with(s, 3, v).len() + 4 * heavy(s, v),
        heavy(s, v) == 0 ==> sum_counts(s, v) == distinct(s, v) + 2 * ranks_with(s, 3, v).len(),
        distinct(s, v) >= ranks_with(s, 3, v).len() + heavy(s, v),
    decreases v,
{
    if v >= 2 {
        lemma_shape(s, v - 1);
    }
}

/// An Ace, where there is one, comes first in an Ace-high sort.
pub proof fn lemma_ace_first(s: Seq<u32>, i: int)
    requires
        0 <= i < s.len(),
        rank_of(s[i]) == 1,
    ensures
        ace_sort(s).len() > 0,
        rank_of(ace_sort(s)[0]) == 1,
{
    lemma_top_index_ace(s, i);
    lemma_top_index_bounds(s);
}

proof fn lemma_top_index_ace(s: Seq<u32>, i: int)
    requires
        0 <= i < s.len(),
        rank_of(s[i]) == 1,
    ensures
        rank_of(s[top_index(s)]) == 1,
    decreases s.len(),
{
    lemma_top_index_bounds(s);
    if s.len() > 1 {
        let d = s.drop_last();
        lemma_top_index_bounds(d);
        if i < s.len() - 1 {
            lemma_top_index_ace(d, i);
        }
    }
}

/// Filtering valid cards keeps them valid.
pub proof fn lemma_filters_valid(s: Seq<u32>, r: int, su: int)
    requires
        all_valid(s),
    ensures
        all_valid(with_rank(s, r)),
        all_valid(without_rank(s, r)),
        all_valid(with_suit(s, su)),
        first_match(s, r, su) == 0 || valid_card(first_match(s, r, su)),
    decreases s.len(),
{
    if s.len() > 0 {
        assert(valid_card(s[s.len() - 1]));
        lemma_filters_valid(s.drop_last(), r, su);
    }
}

/// Sorting valid cards keeps them valid.
pub proof fn lemma_ace_sort_valid(s: Seq<u32>, n: nat)
    requires
        all_valid(s),
    ensures
        all_valid(ace_sort_n(s, n)),
    decreases n,
{
    if n > 0 && s.len() > 0 {
        let b = top_index(s);
        lemma_top_index_bounds(s);
        let t = s.remove(b);
        assert forall|k: int| 0 <= k < t.len() implies valid_card(#[trigger] t[k]) by {
            if k < b {
                assert(t[k] == s[k]);
            } else {
                assert(t[k] == s[k + 1]);
            }
        }
        lemma_ace_sort_valid(t, (n - 1) as nat);
        let out = ace_sort_n(s, n);
        assert(valid_card(s[b]));
        assert forall|k: int| 0 <= k < out.len() implies valid_card(#[trigger] out[k]) by {
            if k > 0 {
                assert(out[k] == ace_sort_n(t, (n - 1) as nat)[k - 1]);
            }
        }
    }
}

/// Joining valid cards, or taking the first of them, keeps them valid.
pub proof fn lemma_join_valid(a: Seq<u32>, b: Seq<u32>, n: int)
    requires
        all_valid(a),
        all_valid(b),
        0 <= n <= b.len(),
    ensures
        all_valid(a + b),
        all_valid(a + b.take(n)),
        all_valid(b.take(n)),
{
    assert forall|k: int| 0 <= k < (a + b).len() implies valid_card(#[trigger] (a + b)[k]) by {
        if k >= a.len() {
            assert((a + b)[k] == b[k - a.len()]);
        }
    }
    assert forall|k: int| 0 <= k < (a + b.take(n)).len() implies valid_card(
        #[trigger] (a + b.take(n))[k],
    ) by {
        if k >= a.len() {
            assert((a + b.take(n))[k] == b[k - a.len()]);
        }
    }
    assert forall|k: int| 0 <= k < b.take(n).len() implies valid_card(#[trigger] b.take(n)[k]) by {
        assert(b.take(n)[k] == b[k]);
    }
}

} // verus!
