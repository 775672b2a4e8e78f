use vstd::prelude::*;

use crate::card::{
    card_to_string, label, label_before, lemma_text_lt_asymmetric, rank_of, text_lt, valid_card,
};
use crate::classify::{best_hand, category, classify};
use crate::compare::{first_wins, lemma_full_tie_goes_first, tie_break};
use crate::pool::all_valid;
use vstd::seq_lib::to_multiset_update;

verus! {

/// A deal: nine valid cards.
pub open spec fn valid_deal(d: Seq<u32>) -> bool {
    d.len() == 9 && all_valid(d)
}

/// The first player's pool: cards 0 and 2, then the five shared cards 4 to 8.
pub open spec fn pool_a(d: Seq<u32>) -> Seq<u32> {
    seq![d[0], d[2]] + d.subrange(4, 9)
}

/// The second player's pool: cards 1 and 3, then the five shared cards 4 to 8.
pub open spec fn pool_b(d: Seq<u32>) -> Seq<u32> {
    seq![d[1], d[3]] + d.subrange(4, 9)
}

/// The best hand that wins the deal: the stronger category, else the
/// card-by-card comparison, which gives a full tie to the first player.
pub open spec fn winning_hand(d: Seq<u32>) -> Seq<u32> {
    let a = pool_a(d);
    let b = pool_b(d);
    if category(a) < category(b) {
        best_hand(a)
    } else if category(a) > category(b) {
        best_hand(b)
    } else if first_wins(best_hand(a), best_hand(b)) {
        best_hand(a)
    } else {
        best_hand(b)
    }
}

/// The cards' labels never fall in lexicographic order from one to the next.
pub open spec fn labels_sorted(s: Seq<u32>) -> bool {
    forall|k: int| 0 <= k < s.len() - 1 ==> !text_lt(#[trigger] label(s[k + 1]), label(s[k]))
}

/// The strings never fall in lexicographic order from one to the next.
pub open spec fn texts_sorted(r: Seq<String>) -> bool {
    forall|k: int| 0 <= k < r.len() - 1 ==> !text_lt(#[trigger] r[k + 1]@, r[k]@)
}

/// The strings are the labels of the cards, each card once, in some order.
pub open spec fn labels_of(r: Seq<String>, cards: Seq<u32>) -> bool {
    exists|order: Seq<u32>|
        #[trigger] order.to_multiset() == cards.to_multiset() && order.len() == r.len() && (forall|
            i: int,
        | 0 <= i < r.len() ==> r[i]@ == label(order[i]))
}

/// Splits a deal into the two players' pools.
pub fn split(pool: &[u32; 9]) -> (res: (Vec<u32>, Vec<u32>))
    ensures
        res.0@ == pool_a(pool@),
        res.1@ == pool_b(pool@),
{
    let mut first: Vec<u32> = Vec::new();
    let mut second: Vec<u32> = Vec::new();
    first.push(pool[0]);
    first.push(pool[2]);
    second.push(pool[1]);
    second.push(pool[3]);
    let mut i: usize = 4;
    while i < 9
        invariant
            4 <= i <= 9,
            first@ == seq![pool@[0], pool@[2]] + pool@.subrange(4, i as int),
            second@ == seq![pool@[1], pool@[3]] + pool@.subrange(4, i as int),
        decreases 9 - i,
    {
        first.push(pool[i]);
        second.push(pool[i]);
        i = i + 1;
        assert(first@ =~= seq![pool@[0], pool@[2]] + pool@.subrange(4, i as int));
        assert(second@ =~= seq![pool@[1], pool@[3]] + pool@.subrange(4, i as int));
    }
    (first, second)
}

/// The cards ordered by their labels, lexicographically.
fn sort_by_label(cards: &Vec<u32>) -> (v: Vec<u32>)
    requires
        all_valid(cards@),
    ensures
        v@.to_multiset() == cards@.to_multiset(),
        v@.len() == cards@.len(),
        all_valid(v@),
        labels_sorted(v@),
{
    let mut v = cards.clone();
    let n = v.len();
    let mut i: usize = 1;
    while i < n
        invariant
            1 <= i,
            n == v@.len(),
            n == cards@.len(),
            all_valid(v@),
            v@.to_multiset() == cards@.to_multiset(),
            forall|k: int| 0 <= k < i - 1 && k < n - 1 ==> !text_lt(#[trigger] label(v@[k + 1]), label(v@[k])),
        decreases n - i,
    {
        let mut j: usize = i;
        loop
            invariant
                0 <= j <= i < n,
                n == v@.len(),
                n == cards@.len(),
                all_valid(v@),
                v@.to_multiset() == cards@.to_multiset(),
                forall|k: int| 0 <= k < i && k != j - 1 ==> !text_lt(#[trigger] label(v@[k + 1]), label(v@[k])),
                0 < j < i ==> !text_lt(label(v@[j + 1]), label(v@[j - 1])),
            ensures
                forall|k: int| 0 <= k < i ==> !text_lt(#[trigger] label(v@[k + 1]), label(v@[k])),
                n == v@.len(),
                all_valid(v@),
                v@.to_multiset() == cards@.to_multiset(),
            decreases j,
        {
            if j == 0 {
                break;
            }
            if !label_before(v[j], v[j - 1]) {
                break;
            }
            let x = v[j];
            let y = v[j - 1];
            let ghost s0 = v@;
            v.set(j, y);
            let ghost s1 = v@;
            v.set(j - 1, x);
            proof {
                lemma_text_lt_asymmetric(label(x), label(y));
                if j >= 2 {
                    let k = j - 2;
                    assert(!text_lt(label(s0[k + 1]), label(s0[k])));
                }
                to_multiset_update(s0, j as int, y);
                to_multiset_update(s1, j - 1, x);
                assert(s1[j - 1] == y);
                assert(s0.to_multiset().count(x) > 0) by {
                    broadcast use vstd::seq_lib::to_multiset_contains;
                    assert(s0.contains(x));
                }
                assert(v@.to_multiset() =~= s0.to_multiset()) by {
                    broadcast use vstd::multiset::group_multiset_axioms;
                }
                assert forall|k: int| 0 <= k < v@.len() implies valid_card(#[trigger] v@[k]) by {
                    assert(valid_card(s0[k]));
                }
            }
            j = j - 1;
        }
        i = i + 1;
    }
    v
}

/// The five labels of a best hand, sorted lexicographically.
pub fn pop(cards: &Vec<u32>) -> (r: [String; 5])
    requires
        cards@.len() == 5,
        all_valid(cards@),
    ensures
        texts_sorted(r@),
        labels_of(r@, cards@),
{
    let v = sort_by_label(cards);
    let r = [
        card_to_string(v[0]),
        card_to_string(v[1]),
        card_to_string(v[2]),
        card_to_string(v[3]),
        card_to_string(v[4]),
    ];
    assert(forall|i: int| 0 <= i < 5 ==> r@[i]@ == label(v@[i]));
    assert(labels_of(r@, cards@)) by {
        assert(v@.to_multiset() == cards@.to_multiset());
    }
    r
}

/// Evaluates a deal of nine cards and returns the labels of the winning
/// five-card hand, sorted lexicographically.
pub fn deal(perm: [u32; 9]) -> (r: [String; 5])
    requires
        valid_deal(perm@),
    ensures
        texts_sorted(r@),
        labels_of(r@, winning_hand(perm@)),
{
    let (first, second) = split(&perm);
    let p1 = classify(&first);
    let p2 = classify(&second);
    if p1.category > p2.category {
        pop(&p2.best)
    } else if p1.category < p2.category {
        pop(&p1.best)
    } else if tie_break(&p1.best, &p2.best) == 1 {
        pop(&p1.best)
    } else {
        pop(&p2.best)
    }
}

/// When both players' best hands are of one category and hold the same rank
/// at every position, the first player's hand wins.
pub proof fn lemma_full_tie_first_player(d: Seq<u32>)
    requires
        category(pool_a(d)) == category(pool_b(d)),
        forall|i: int|
            0 <= i < 5 ==> rank_of(#[trigger] best_hand(pool_a(d))[i]) == rank_of(
                best_hand(pool_b(d))[i],
            ),
    ensures
        winning_hand(d) == best_hand(pool_a(d)),
{
    lemma_full_tie_goes_first(best_hand(pool_a(d)), best_hand(pool_b(d)));
}

/// Why a deal was refused.
#[derive(Debug, Clone, Copy, PartialEq, Eq, Structural)]
pub enum DealError {
    /// The deal does not hold exactly nine cards.
    MalformedDeal,
    /// A card lies outside 1 to 52.
    InvalidCardValue,
    /// A card occurs twice.
    DuplicateCard,
}

/// No card occurs twice.
pub open spec fn no_repeats(s: Seq<u32>) -> bool {
    forall|i: int, j: int| 0 <= i < j < s.len() ==> s[i] != s[j]
}

fn all_cards_valid(cards: &Vec<u32>) -> (b: bool)
    ensures
        b == all_valid(cards@),
{
    let mut i: usize = 0;
    while i < cards.len()
        invariant
            i <= cards@.len(),
            forall|k: int| 0 <= k < i ==> valid_card(#[trigger] cards@[k]),
        decreases cards@.len() - i,
    {
        if cards[i] < 1 || cards[i] > 52 {
            return false;
        }
        i = i + 1;
    }
    true
}

fn has_repeat(cards: &Vec<u32>) -> (b: bool)
    ensures
        b == !no_repeats(cards@),
{
    let mut i: usize = 0;
    while i < cards.len()
        invariant
            i <= cards@.len(),
            forall|a: int, b: int| 0 <= a < i && a < b < cards@.len() ==> cards@[a] != cards@[b],
        decreases cards@.len() - i,
    {
        let mut j: usize = i + 1;
        while j < cards.len()
            invariant
                i < cards@.len(),
                i + 1 <= j <= cards@.len(),
                forall|a: int, b: int| 0 <= a < i && a < b < cards@.len() ==> cards@[a] != cards@[b],
                forall|b: int| i < b < j ==> cards@[i as int] != cards@[b],
            decreases cards@.len() - j,
        {
            if cards[i] == cards[j] {
                return true;
            }
            j = j + 1;
        }
        i = i + 1;
    }
    false
}

/// Checks a deal, then evaluates it: the sorted labels of the winning hand.
/// A deal must hold nine cards, each from 1 to 52, none twice; the first
/// failed check gives the error.
pub fn evaluate(cards: &Vec<u32>) -> (r: Result<[String; 5], DealError>)
    ensures
        cards@.len() != 9 <==> r == Err::<[String; 5], DealError>(DealError::MalformedDeal),
        r == Err::<[String; 5], DealError>(DealError::InvalidCardValue) <==> (cards@.len() == 9
            && !all_valid(cards@)),
        r == Err::<[String; 5], DealError>(DealError::DuplicateCard) <==> (valid_deal(cards@)
            && !no_repeats(cards@)),
        r is Ok <==> (valid_deal(cards@) && no_repeats(cards@)),
        match r {
            Ok(labels) => texts_sorted(labels@) && labels_of(labels@, winning_hand(cards@)),
            Err(_) => true,
        },
{
    if cards.len() != 9 {
        return Err(DealError::MalformedDeal);
    }
    if !all_cards_valid(cards) {
        return Err(DealError::InvalidCardValue);
    }
    if has_repeat(cards) {
        return Err(DealError::DuplicateCard);
    }
    let perm: [u32; 9] = [
        cards[0],
        cards[1],
        cards[2],
        cards[3],
        cards[4],
        cards[5],
        cards[6],
        cards[7],
        cards[8],
    ];
    assert(perm@ =~= cards@);
    Ok(deal(perm))
}

} // verus!
