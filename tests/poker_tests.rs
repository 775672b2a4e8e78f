use poker::card::{card_to_string, get_rank, get_suit, label_before};
use poker::classify::{classify, flush_suit_of, straight_top_in};
use poker::compare::tie_break;
use poker::deal::{deal, evaluate, pop, split, DealError};
use poker::pool::ace_sort_cards;

fn labels(xs: &[&str]) -> [String; 5] {
    [
        xs[0].to_string(),
        xs[1].to_string(),
        xs[2].to_string(),
        xs[3].to_string(),
        xs[4].to_string(),
    ]
}

#[test]
fn card_rank_and_suit() {
    assert_eq!(get_rank(1), 1);
    assert_eq!(get_rank(13), 13);
    assert_eq!(get_rank(14), 1);
    assert_eq!(get_rank(52), 13);
    assert_eq!(get_suit(1), 0);
    assert_eq!(get_suit(13), 0);
    assert_eq!(get_suit(14), 1);
    assert_eq!(get_suit(27), 2);
    assert_eq!(get_suit(52), 3);
}

#[test]
fn card_labels() {
    assert_eq!(card_to_string(1), "1C");
    assert_eq!(card_to_string(10), "10C");
    assert_eq!(card_to_string(13), "13C");
    assert_eq!(card_to_string(14), "1D");
    assert_eq!(card_to_string(37), "11H");
    assert_eq!(card_to_string(40), "1S");
    assert_eq!(card_to_string(52), "13S");
}

#[test]
fn labels_compare_as_strings() {
    // "10C" comes before "2D": '1' is below '2'.
    assert!(label_before(10, 15));
    assert!(!label_before(15, 10));
    // "13C" comes before "1D".
    assert!(label_before(13, 14));
    assert!(!label_before(14, 14));
}

#[test]
fn ace_sort_puts_aces_first() {
    assert_eq!(ace_sort_cards(&vec![2, 14, 39, 40, 5]), vec![14, 40, 39, 5, 2]);
    assert_eq!(ace_sort_cards(&vec![13, 1]), vec![1, 13]);
    // Equal ranks other than the Ace come in reverse order.
    assert_eq!(ace_sort_cards(&vec![5, 18, 9]), vec![9, 18, 5]);
    assert_eq!(ace_sort_cards(&vec![]), Vec::<u32>::new());
}

#[test]
fn split_deal() {
    let (a, b) = split(&[1, 2, 3, 4, 5, 6, 7, 8, 9]);
    assert_eq!(a, vec![1, 3, 5, 6, 7, 8, 9]);
    assert_eq!(b, vec![2, 4, 5, 6, 7, 8, 9]);
}

#[test]
fn classify_straight_flush() {
    let h = classify(&vec![5, 6, 7, 8, 9, 10, 15]);
    assert_eq!(h.category, 1);
    assert_eq!(h.best, vec![6, 7, 8, 9, 10]);
}

#[test]
fn classify_ace_high_straight_flush_wins_over_lower_run() {
    let h = classify(&vec![1, 10, 11, 12, 13, 9, 15]);
    assert_eq!(h.category, 1);
    assert_eq!(h.best, vec![1, 10, 11, 12, 13]);
}

#[test]
fn classify_four_of_a_kind() {
    let h = classify(&vec![6, 19, 32, 45, 27, 13, 15]);
    assert_eq!(h.category, 2);
    assert_eq!(h.best, vec![6, 19, 32, 45, 27]);
}

#[test]
fn classify_full_house_two_triples() {
    let h = classify(&vec![2, 15, 28, 5, 18, 31, 9]);
    assert_eq!(h.category, 3);
    assert_eq!(h.best, vec![5, 18, 31, 2, 15]);
}

#[test]
fn classify_full_house_highest_pair() {
    let h = classify(&vec![13, 26, 39, 1, 14, 3, 16]);
    assert_eq!(h.category, 3);
    assert_eq!(h.best, vec![13, 26, 39, 1, 14]);
}

#[test]
fn classify_flush_over_triple_with_five_ranks() {
    // Three Twos and five Hearts, but five distinct ranks: a flush.
    let pool = vec![28, 31, 33, 35, 39, 2, 15];
    assert_eq!(flush_suit_of(&pool), 2);
    let h = classify(&pool);
    assert_eq!(h.category, 4);
    assert_eq!(h.best, vec![39, 35, 33, 31, 28]);
}

#[test]
fn classify_straight() {
    let pool = vec![2, 16, 30, 44, 6, 20, 39];
    assert_eq!(straight_top_in(&pool, 4), 7);
    let h = classify(&pool);
    assert_eq!(h.category, 5);
    assert_eq!(h.best, vec![16, 30, 44, 6, 20]);
}

#[test]
fn wheel_is_not_a_straight() {
    // Ace, 2, 3, 4, 5 in mixed suits, with an 8 and a Jack.
    let pool = vec![1, 15, 29, 43, 5, 21, 37];
    assert_eq!(straight_top_in(&pool, 4), 0);
    let h = classify(&pool);
    assert_eq!(h.category, 9);
    assert_eq!(h.best, vec![1, 37, 21, 5, 43]);
}

#[test]
fn classify_three_of_a_kind() {
    let h = classify(&vec![7, 20, 33, 40, 10, 16, 31]);
    assert_eq!(h.category, 6);
    assert_eq!(h.best, vec![7, 20, 33, 40, 10]);
}

#[test]
fn classify_two_pair_of_three() {
    let h = classify(&vec![2, 15, 5, 18, 1, 14, 13]);
    assert_eq!(h.category, 7);
    assert_eq!(h.best, vec![1, 14, 5, 18, 13]);
}

#[test]
fn classify_pair() {
    let h = classify(&vec![4, 17, 38, 1, 45, 8, 15]);
    assert_eq!(h.category, 8);
    assert_eq!(h.best, vec![4, 17, 1, 38, 8]);
}

#[test]
fn tie_break_by_position() {
    assert_eq!(tie_break(&vec![13, 9, 8, 7, 5], &vec![1, 2, 3, 4, 6]), 2);
    assert_eq!(tie_break(&vec![1, 2, 3, 4, 6], &vec![13, 9, 8, 7, 5]), 1);
    assert_eq!(tie_break(&vec![13, 9, 8, 7, 5], &vec![26, 9, 8, 7, 4]), 1);
    assert_eq!(tie_break(&vec![13, 9, 8, 7, 4], &vec![26, 9, 8, 7, 5]), 2);
}

#[test]
fn tie_break_full_tie_goes_to_first() {
    assert_eq!(tie_break(&vec![13, 9, 8, 7, 5], &vec![26, 22, 21, 20, 18]), 1);
    assert_eq!(tie_break(&vec![26, 22, 21, 20, 18], &vec![13, 9, 8, 7, 5]), 1);
}

#[test]
fn pop_sorts_labels_as_strings() {
    assert_eq!(pop(&vec![15, 10, 40, 52, 3]), labels(&["10C", "13S", "1S", "2D", "3C"]));
}

#[test]
fn deal_ace_high_straight_beats_pair() {
    let r = deal([14, 28, 13, 41, 10, 24, 38, 42, 7]);
    assert_eq!(r, labels(&["10C", "11D", "12H", "13C", "1D"]));
}

#[test]
fn deal_higher_flush_wins() {
    let r = deal([27, 39, 30, 33, 28, 31, 35, 3, 51]);
    assert_eq!(r, labels(&["1H", "2H", "4H", "5H", "9H"]));
}

#[test]
fn deal_tied_four_of_a_kind_goes_to_first() {
    let r = deal([26, 39, 2, 3, 9, 22, 35, 48, 5]);
    assert_eq!(r, labels(&["13D", "9C", "9D", "9H", "9S"]));
}

#[test]
fn deal_second_player_wins() {
    // The first player holds a pair of Twos, the second an ace-high straight.
    let r = deal([28, 14, 41, 13, 10, 24, 38, 42, 7]);
    assert_eq!(r, labels(&["10C", "11D", "12H", "13C", "1D"]));
}

#[test]
fn evaluate_errors() {
    assert_eq!(evaluate(&vec![1, 2, 3]), Err(DealError::MalformedDeal));
    assert_eq!(
        evaluate(&vec![1, 2, 3, 4, 5, 6, 7, 8, 9, 10]),
        Err(DealError::MalformedDeal)
    );
    assert_eq!(
        evaluate(&vec![14, 28, 13, 41, 10, 24, 38, 42, 53]),
        Err(DealError::InvalidCardValue)
    );
    assert_eq!(
        evaluate(&vec![0, 28, 13, 41, 10, 24, 38, 42, 7]),
        Err(DealError::InvalidCardValue)
    );
    assert_eq!(
        evaluate(&vec![14, 28, 13, 41, 10, 24, 38, 42, 14]),
        Err(DealError::DuplicateCard)
    );
}

#[test]
fn evaluate_valid_deal() {
    assert_eq!(
        evaluate(&vec![14, 28, 13, 41, 10, 24, 38, 42, 7]),
        Ok(labels(&["10C", "11D", "12H", "13C", "1D"]))
    );
}
