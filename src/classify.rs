use vstd::prelude::*;

use crate::card::valid_card;
use crate::pool::{
    ace_sort, ace_sort_cards, all_valid, count, distinct, distinct_ranks, find_card, first_match,
    lemma_ace_sort_len, lemma_ace_sort_valid, lemma_filters_valid, lemma_join_valid,
    lemma_other_rank_kept, lemma_ranks_with, lemma_shape, lemma_split_len, lemma_sum_counts,
    ranks_of_count, ranks_with, split_rank, suited, with_rank, with_suit, without_rank,
};

verus! {

/// A pool holds some card with rank `r` in suit `su` (any suit when `su` is 4).
pub open spec fn holds(s: Seq<u32>, r: int, su: int) -> bool {
    first_match(s, r, su) != 0
}

/// The five ranks from `t - 4` to `t` are all held in suit `su`.
pub open spec fn run_at(s: Seq<u32>, su: int, t: int) -> bool {
    holds(s, t - 4, su) && holds(s, t - 3, su) && holds(s, t - 2, su) && holds(s, t - 1, su) && holds(
        s,
        t,
        su,
    )
}

/// The highest `t` from 6 up to `top` that ends a run of five ranks without
/// the Ace, or 0.
pub open spec fn run_top(s: Seq<u32>, su: int, top: int) -> int
    decreases top,
{
    if top < 6 {
        0
    } else if run_at(s, su, top) {
        top
    } else {
        run_top(s, su, top - 1)
    }
}

/// Ten, Jack, Queen, King and Ace are all held in suit `su`.
pub open spec fn ace_high_run(s: Seq<u32>, su: int) -> bool {
    holds(s, 1, su) && holds(s, 10, su) && holds(s, 11, su) && holds(s, 12, su) && holds(s, 13, su)
}

/// The top of the best straight in suit `su`: 1 for the Ace-high straight,
/// else the highest rank that ends five consecutive ranks from 2 up, else 0.
/// Ace, 2, 3, 4, 5 is no straight.
pub open spec fn straight_top(s: Seq<u32>, su: int) -> int {
    if ace_high_run(s, su) {
        1
    } else {
        run_top(s, su, 13)
    }
}

/// The five ranks of the straight that `top` stands for.
pub open spec fn run_ranks(top: int) -> Seq<int> {
    if top == 1 {
        seq![1, 10, 11, 12, 13]
    } else {
        seq![top - 4, top - 3, top - 2, top - 1, top]
    }
}

/// For each rank of the straight, the first card of that rank in suit `su`.
pub open spec fn run_cards(s: Seq<u32>, su: int, top: int) -> Seq<u32> {
    let rs = run_ranks(top);
    seq![
        first_match(s, rs[0], su),
        first_match(s, rs[1], su),
        first_match(s, rs[2], su),
        first_match(s, rs[3], su),
        first_match(s, rs[4], su),
    ]
}

/// The first suit from `su` on that holds at least five cards, or 4.
pub open spec fn flush_from(s: Seq<u32>, su: int) -> int
    decreases 4 - su,
{
    if su >= 4 {
        4
    } else if with_suit(s, su).len() >= 5 {
        su
    } else {
        flush_from(s, su + 1)
    }
}

/// The suit that holds at least five cards, or 4 when none does.
pub open spec fn flush_suit(s: Seq<u32>) -> int {
    flush_from(s, 0)
}

/// Category of a pool, 1 (strongest) to 9: the first of the tests below, in
/// strength order, that the pool meets.
pub open spec fn category(s: Seq<u32>) -> int {
    let fs = flush_suit(s);
    if fs < 4 && straight_top(s, fs) != 0 {
        1
    } else if ranks_with(s, 4, 14).len() > 0 {
        2
    } else if ranks_with(s, 3, 14).len() > 0 && distinct(s, 14) < 5 {
        3
    } else if fs < 4 {
        4
    } else if straight_top(s, 4) != 0 {
        5
    } else if ranks_with(s, 3, 14).len() == 1 {
        6
    } else if ranks_with(s, 2, 14).len() >= 2 {
        7
    } else if ranks_with(s, 2, 14).len() == 1 {
        8
    } else {
        9
    }
}

/// The five cards of a pool's best hand, its defining group first and its
/// kickers last.
pub open spec fn best_hand(s: Seq<u32>) -> Seq<u32> {
    let fs = flush_suit(s);
    let c = category(s);
    let trips = ranks_with(s, 3, 14);
    let pairs = ranks_with(s, 2, 14);
    if c == 1 {
        run_cards(s, fs, straight_top(s, fs))
    } else if c == 2 {
        let q = ranks_with(s, 4, 14)[0] as int;
        with_rank(s, q) + ace_sort(without_rank(s, q)).take(1)
    } else if c == 3 {
        if trips.len() > 1 {
            with_rank(s, trips[0] as int) + with_rank(s, trips[1] as int).take(2)
        } else {
            with_rank(s, trips[0] as int) + with_rank(s, pairs[0] as int)
        }
    } else if c == 4 {
        ace_sort(with_suit(s, fs)).take(5)
    } else if c == 5 {
        run_cards(s, 4, straight_top(s, 4))
    } else if c == 6 {
        with_rank(s, trips[0] as int) + ace_sort(without_rank(s, trips[0] as int)).take(2)
    } else if c == 7 {
        let p = pairs[0] as int;
        let q = pairs[1] as int;
        with_rank(s, p) + with_rank(without_rank(s, p), q) + ace_sort(
            without_rank(without_rank(s, p), q),
        ).take(1)
    } else if c == 8 {
        with_rank(s, pairs[0] as int) + ace_sort(without_rank(s, pairs[0] as int)).take(3)
    } else {
        ace_sort(s).take(5)
    }
}

/// A pool: seven valid cards.
pub open spec fn valid_pool(s: Seq<u32>) -> bool {
    s.len() == 7 && all_valid(s)
}

/// The top of the best straight in suit `su` (any suit when `su` is 4).
pub fn straight_top_in(cards: &Vec<u32>, su: u32) -> (t: u32)
    requires
        all_valid(cards@),
    ensures
        t == straight_top(cards@, su as int),
        t == 0 || t == 1 || 6 <= t <= 13,
{
    if find_card(cards, 1, su) != 0 && find_card(cards, 10, su) != 0 && find_card(cards, 11, su)
        != 0 && find_card(cards, 12, su) != 0 && find_card(cards, 13, su) != 0 {
        return 1;
    }
    let mut t: u32 = 13;
    while t >= 6
        invariant
            5 <= t <= 13,
            all_valid(cards@),
            !ace_high_run(cards@, su as int),
            run_top(cards@, su as int, 13) == run_top(cards@, su as int, t as int),
        decreases t,
    {
        if find_card(cards, t - 4, su) != 0 && find_card(cards, t - 3, su) != 0 && find_card(
            cards,
            t - 2,
            su,
        ) != 0 && find_card(cards, t - 1, su) != 0 && find_card(cards, t, su) != 0 {
            return t;
        }
        t = t - 1;
    }
    0
}

/// The cards of the straight that ends at `top`, one per rank, in suit `su`.
fn get_straight(cards: &Vec<u32>, su: u32, top: u32) -> (h: Vec<u32>)
    requires
        all_valid(cards@),
        top == 1 || 6 <= top <= 13,
    ensures
        h@ == run_cards(cards@, su as int, top as int),
{
    let h = if top == 1 {
        vec![
            find_card(cards, 1, su),
            find_card(cards, 10, su),
            find_card(cards, 11, su),
            find_card(cards, 12, su),
            find_card(cards, 13, su),
        ]
    } else {
        vec![
            find_card(cards, top - 4, su),
            find_card(cards, top - 3, su),
            find_card(cards, top - 2, su),
            find_card(cards, top - 1, su),
            find_card(cards, top, su),
        ]
    };
    assert(h@ =~= run_cards(cards@, su as int, top as int));
    h
}

/// The suit that holds at least five cards, or 4.
pub fn flush_suit_of(cards: &Vec<u32>) -> (su: u32)
    requires
        all_valid(cards@),
    ensures
        su == flush_suit(cards@),
        su <= 4,
{
    let mut su: u32 = 0;
    while su < 4
        invariant
            su <= 4,
            all_valid(cards@),
            flush_from(cards@, su as int) == flush_suit(cards@),
        decreases 4 - su,
    {
        if suited(cards, su).len() >= 5 {
            return su;
        }
        su = su + 1;
    }
    4
}

/// A suit found by `flush_from` holds at least five cards.
pub proof fn lemma_flush_from(s: Seq<u32>, su: int)
    requires
        0 <= su,
    ensures
        0 <= flush_from(s, su) <= 4,
        flush_from(s, su) < 4 ==> with_suit(s, flush_from(s, su)).len() >= 5,
    decreases 4 - su,
{
    if su < 4 && with_suit(s, su).len() < 5 {
        lemma_flush_from(s, su + 1);
    }
}

/// The pool meets the test of category `k`, each test taken on its own.
pub open spec fn meets(s: Seq<u32>, k: int) -> bool {
    let fs = flush_suit(s);
    if k == 1 {
        fs < 4 && straight_top(s, fs) != 0
    } else if k == 2 {
        ranks_with(s, 4, 14).len() > 0
    } else if k == 3 {
        ranks_with(s, 3, 14).len() > 0 && distinct(s, 14) < 5
    } else if k == 4 {
        fs < 4
    } else if k == 5 {
        straight_top(s, 4) != 0
    } else if k == 6 {
        ranks_with(s, 3, 14).len() == 1
    } else if k == 7 {
        ranks_with(s, 2, 14).len() >= 2
    } else if k == 8 {
        ranks_with(s, 2, 14).len() == 1
    } else {
        k == 9
    }
}

/// Every pool falls in exactly one category from 1 to 9: the strongest whose
/// test it meets. A pool that meets a test is never put below it.
pub proof fn lemma_strongest_category(s: Seq<u32>, k: int)
    requires
        1 <= k <= 9,
        meets(s, k),
    ensures
        1 <= category(s) <= k,
        meets(s, category(s)),
        forall|j: int| 1 <= j < category(s) ==> !meets(s, j),
{
}

/// Without a Six and without a Ten there is no straight: Ace, 2, 3, 4, 5
/// does not count as one.
pub proof fn lemma_no_wheel(s: Seq<u32>, su: int)
    requires
        !holds(s, 6, su),
        !holds(s, 10, su),
    ensures
        straight_top(s, su) == 0,
{
    lemma_no_run(s, su, 13);
}

proof fn lemma_no_run(s: Seq<u32>, su: int, top: int)
    requires
        top <= 13,
        !holds(s, 6, su),
        !holds(s, 10, su),
    ensures
        run_top(s, su, top) == 0,
    decreases top,
{
    if top >= 6 {
        lemma_no_run(s, su, top - 1);
    }
}

/// A straight found by `run_top` has all five of its ranks.
pub proof fn lemma_run_top(s: Seq<u32>, su: int, top: int)
    ensures
        run_top(s, su, top) != 0 ==> run_at(s, su, run_top(s, su, top)) && 6 <= run_top(s, su, top)
            <= top,
    decreases top,
{
    if top >= 6 && !run_at(s, su, top) {
        lemma_run_top(s, su, top - 1);
    }
}

/// The cards of a straight that was found are valid cards.
pub proof fn lemma_run_cards_valid(s: Seq<u32>, su: int)
    requires
        all_valid(s),
        straight_top(s, su) != 0,
    ensures
        all_valid(run_cards(s, su, straight_top(s, su))),
{
    let top = straight_top(s, su);
    lemma_run_top(s, su, 13);
    let rs = run_ranks(top);
    lemma_filters_valid(s, rs[0], su);
    lemma_filters_valid(s, rs[1], su);
    lemma_filters_valid(s, rs[2], su);
    lemma_filters_valid(s, rs[3], su);
    lemma_filters_valid(s, rs[4], su);
    let h = run_cards(s, su, top);
    assert forall|k: int| 0 <= k < h.len() implies valid_card(#[trigger] h[k]) by {
        assert(h[k] == first_match(s, rs[k], su));
    }
}

/// Appends every card of `xs`.
fn push_all(h: &mut Vec<u32>, xs: &Vec<u32>)
    ensures
        final(h)@ == old(h)@ + xs@,
{
    let mut i: usize = 0;
    while i < xs.len()
        invariant
            i <= xs@.len(),
            h@ == old(h)@ + xs@.take(i as int),
        decreases xs@.len() - i,
    {
        h.push(xs[i]);
        i = i + 1;
        assert(h@ =~= old(h)@ + xs@.take(i as int));
    }
    assert(xs@.take(xs@.len() as int) =~= xs@);
}

/// Appends the `n` highest cards of `rest`, Ace high.
fn push_kickers(h: &mut Vec<u32>, rest: &Vec<u32>, n: usize)
    requires
        n <= rest@.len(),
    ensures
        final(h)@ == old(h)@ + ace_sort(rest@).take(n as int),
{
    let sorted = ace_sort_cards(rest);
    let mut i: usize = 0;
    while i < n
        invariant
            i <= n,
            n <= sorted@.len(),
            sorted@ == ace_sort(rest@),
            h@ == old(h)@ + sorted@.take(i as int),
        decreases n - i,
    {
        h.push(sorted[i]);
        i = i + 1;
        assert(h@ =~= old(h)@ + sorted@.take(i as int));
    }
}

/// The four cards of rank `quad` and the highest other card.
fn get_four_of_a_kind(cards: &Vec<u32>, quad: u32) -> (h: Vec<u32>)
    requires
        without_rank(cards@, quad as int).len() >= 1,
    ensures
        h@ == with_rank(cards@, quad as int) + ace_sort(without_rank(cards@, quad as int)).take(1),
{
    let (mut h, rest) = split_rank(cards, quad);
    push_kickers(&mut h, &rest, 1);
    h
}

/// The three cards of the higher triple and two of the lower one, or, with a
/// single triple, its three cards and the two of the highest pair.
fn get_full_house(cards: &Vec<u32>, trips: &Vec<u32>, pairs: &Vec<u32>) -> (h: Vec<u32>)
    requires
        trips@.len() >= 1,
        trips@.len() > 1 ==> count(cards@, trips@[1] as int) >= 2,
        trips@.len() <= 1 ==> pairs@.len() >= 1,
    ensures
        trips@.len() > 1 ==> h@ == with_rank(cards@, trips@[0] as int) + with_rank(
            cards@,
            trips@[1] as int,
        ).take(2),
        trips@.len() <= 1 ==> h@ == with_rank(cards@, trips@[0] as int) + with_rank(
            cards@,
            pairs@[0] as int,
        ),
{
    let (mut h, _rest) = split_rank(cards, trips[0]);
    if trips.len() > 1 {
        let (low, _others) = split_rank(cards, trips[1]);
        h.push(low[0]);
        h.push(low[1]);
        assert(with_rank(cards@, trips@[1] as int).take(2) =~= seq![low@[0], low@[1]]);
    } else {
        let (pair, _others) = split_rank(cards, pairs[0]);
        push_all(&mut h, &pair);
    }
    h
}

/// The five highest cards of suit `su`, Ace high.
fn get_flush(cards: &Vec<u32>, su: u32) -> (h: Vec<u32>)
    requires
        all_valid(cards@),
        with_suit(cards@, su as int).len() >= 5,
    ensures
        h@ == ace_sort(with_suit(cards@, su as int)).take(5),
{
    let mut h: Vec<u32> = Vec::new();
    push_kickers(&mut h, &suited(cards, su), 5);
    assert(h@ =~= ace_sort(with_suit(cards@, su as int)).take(5));
    h
}

/// The three cards of rank `trip` and the two highest other cards.
fn get_three_of_a_kind(cards: &Vec<u32>, trip: u32) -> (h: Vec<u32>)
    requires
        without_rank(cards@, trip as int).len() >= 2,
    ensures
        h@ == with_rank(cards@, trip as int) + ace_sort(without_rank(cards@, trip as int)).take(2),
{
    let (mut h, rest) = split_rank(cards, trip);
    push_kickers(&mut h, &rest, 2);
    h
}

/// The pair of rank `high`, then the pair of rank `low`, then the highest
/// other card.
fn get_two_pair(cards: &Vec<u32>, high: u32, low: u32) -> (h: Vec<u32>)
    requires
        without_rank(without_rank(cards@, high as int), low as int).len() >= 1,
    ensures
        h@ == with_rank(cards@, high as int) + with_rank(without_rank(cards@, high as int), low as int)
            + ace_sort(without_rank(without_rank(cards@, high as int), low as int)).take(1),
{
    let (mut h, rest) = split_rank(cards, high);
    let (second, rest2) = split_rank(&rest, low);
    push_all(&mut h, &second);
    push_kickers(&mut h, &rest2, 1);
    h
}

/// The two cards of rank `pair` and the three highest other cards.
fn get_pair(cards: &Vec<u32>, pair: u32) -> (h: Vec<u32>)
    requires
        without_rank(cards@, pair as int).len() >= 3,
    ensures
        h@ == with_rank(cards@, pair as int) + ace_sort(without_rank(cards@, pair as int)).take(3),
{
    let (mut h, rest) = split_rank(cards, pair);
    push_kickers(&mut h, &rest, 3);
    h
}

/// The five highest cards, Ace high.
fn get_high_card(cards: &Vec<u32>) -> (h: Vec<u32>)
    requires
        cards@.len() >= 5,
    ensures
        h@ == ace_sort(cards@).take(5),
{
    let mut h: Vec<u32> = Vec::new();
    push_kickers(&mut h, cards, 5);
    assert(h@ =~= ace_sort(cards@).take(5));
    h
}

/// A classified pool: its category, 1 (strongest) to 9, and its best five cards.
pub struct Hand {
    pub category: u32,
    pub best: Vec<u32>,
}

/// Classifies a pool of seven cards: the first category in strength order
/// that it meets, and the five cards that make it.
pub fn classify(cards: &Vec<u32>) -> (h: Hand)
    requires
        valid_pool(cards@),
    ensures
        h.category == category(cards@),
        1 <= h.category <= 9,
        h.best@ == best_hand(cards@),
        h.best@.len() == 5,
        all_valid(h.best@),
{
    let ghost s = cards@;
    let fs = flush_suit_of(cards);
    let quads = ranks_of_count(cards, 4);
    let trips = ranks_of_count(cards, 3);
    let pairs = ranks_of_count(cards, 2);
    proof {
        lemma_flush_from(s, 0);
        lemma_ranks_with(s, 4, 14);
        lemma_ranks_with(s, 3, 14);
        lemma_ranks_with(s, 2, 14);
    }
    if fs < 4 {
        let top = straight_top_in(cards, fs);
        if top != 0 {
            proof {
                lemma_run_cards_valid(s, fs as int);
            }
            return Hand { category: 1, best: get_straight(cards, fs, top) };
        }
    }
    if quads.len() > 0 {
        proof {
            let q = quads@[0] as int;
            lemma_split_len(s, q);
            lemma_filters_valid(s, q, 0);
            lemma_ace_sort_valid(without_rank(s, q), without_rank(s, q).len());
            lemma_ace_sort_len(without_rank(s, q), without_rank(s, q).len());
            lemma_join_valid(with_rank(s, q), ace_sort(without_rank(s, q)), 1);
        }
        return Hand { category: 2, best: get_four_of_a_kind(cards, quads[0]) };
    }
    if trips.len() > 0 && distinct_ranks(cards) < 5 {
        proof {
            if trips@.len() <= 1 && pairs@.len() == 0 {
                lemma_sum_counts(s);
                lemma_shape(s, 14);
            }
            lemma_filters_valid(s, trips@[0] as int, 0);
            if trips@.len() > 1 {
                lemma_filters_valid(s, trips@[1] as int, 0);
                lemma_join_valid(with_rank(s, trips@[0] as int), with_rank(s, trips@[1] as int), 2);
            } else {
                lemma_filters_valid(s, pairs@[0] as int, 0);
                lemma_join_valid(with_rank(s, trips@[0] as int), with_rank(s, pairs@[0] as int), 0);
            }
        }
        return Hand { category: 3, best: get_full_house(cards, &trips, &pairs) };
    }
    if fs < 4 {
        proof {
            let f = with_suit(s, fs as int);
            lemma_ace_sort_len(f, f.len());
            lemma_filters_valid(s, 0, fs as int);
            lemma_ace_sort_valid(f, f.len());
            lemma_join_valid(seq![], ace_sort(f), 5);
        }
        return Hand { category: 4, best: get_flush(cards, fs) };
    }
    let top = straight_top_in(cards, 4);
    if top != 0 {
        proof {
            lemma_run_cards_valid(s, 4);
        }
        return Hand { category: 5, best: get_straight(cards, 4, top) };
    }
    if trips.len() == 1 {
        proof {
            let t = trips@[0] as int;
            lemma_split_len(s, t);
            lemma_ace_sort_len(without_rank(s, t), without_rank(s, t).len());
            lemma_filters_valid(s, t, 0);
            lemma_ace_sort_valid(without_rank(s, t), without_rank(s, t).len());
            lemma_join_valid(with_rank(s, t), ace_sort(without_rank(s, t)), 2);
        }
        return Hand { category: 6, best: get_three_of_a_kind(cards, trips[0]) };
    }
    if pairs.len() >= 2 {
        proof {
            let p = pairs@[0] as int;
            let q = pairs@[1] as int;
            lemma_split_len(s, p);
            lemma_split_len(without_rank(s, p), q);
            lemma_other_rank_kept(s, p, q);
            let w = without_rank(s, p);
            let rest = without_rank(w, q);
            lemma_filters_valid(s, p, 0);
            lemma_filters_valid(w, q, 0);
            lemma_ace_sort_valid(rest, rest.len());
            lemma_ace_sort_len(rest, rest.len());
            lemma_join_valid(with_rank(s, p), with_rank(w, q), 0);
            lemma_join_valid(with_rank(s, p) + with_rank(w, q), ace_sort(rest), 1);
        }
        return Hand { category: 7, best: get_two_pair(cards, pairs[0], pairs[1]) };
    }
    if pairs.len() == 1 {
        proof {
            let p = pairs@[0] as int;
            lemma_split_len(s, p);
            lemma_ace_sort_len(without_rank(s, p), without_rank(s, p).len());
            lemma_filters_valid(s, p, 0);
            lemma_ace_sort_valid(without_rank(s, p), without_rank(s, p).len());
            lemma_join_valid(with_rank(s, p), ace_sort(without_rank(s, p)), 3);
        }
        return Hand { category: 8, best: get_pair(cards, pairs[0]) };
    }
    proof {
        lemma_ace_sort_len(s, s.len());
        lemma_ace_sort_valid(s, s.len());
        lemma_join_valid(seq![], ace_sort(s), 5);
    }
    Hand { category: 9, best: get_high_card(cards) }
}

} // verus!
