use vstd::prelude::*;
use vstd::string::*;

verus! {

/// A card is an integer from 1 to 52.
pub open spec fn valid_card(c: u32) -> bool {
    1 <= c <= 52
}

/// Rank of a card: 1 is the Ace, 11 to 13 are Jack, Queen and King.
pub open spec fn rank_of(c: u32) -> int {
    if c % 13 == 0 {
        13
    } else {
        (c % 13) as int
    }
}

/// Suit of a card, 0 to 3, standing for the letters C, D, H and S.
pub open spec fn suit_of(c: u32) -> int {
    (c as int - 1) / 13
}

/// Value of a rank when the Ace counts above the King.
pub open spec fn high_value(r: int) -> int {
    if r == 1 {
        14
    } else {
        r
    }
}

/// Rank of a card, 1 to 13.
pub fn get_rank(card: u32) -> (r: u32)
    ensures
        r == rank_of(card),
        1 <= r <= 13,
{
    if card % 13 == 0 {
        13
    } else {
        card % 13
    }
}

/// Suit of a card, 0 to 3.
pub fn get_suit(card: u32) -> (s: u32)
    requires
        valid_card(card),
    ensures
        s == suit_of(card),
        s < 4,
{
    (card - 1) / 13
}

/// Decimal digit character for a value from 0 to 9.
pub open spec fn digit(d: int) -> char {
    if d == 0 { '0' } else if d == 1 { '1' } else if d == 2 { '2' } else if d == 3 { '3' }
    else if d == 4 { '4' } else if d == 5 { '5' } else if d == 6 { '6' } else if d == 7 { '7' }
    else if d == 8 { '8' } else { '9' }
}

/// Rank written in decimal, without padding.
pub open spec fn rank_text(r: int) -> Seq<char> {
    if r < 10 {
        seq![digit(r)]
    } else {
        seq!['1', digit(r - 10)]
    }
}

/// Letter of a suit: C, D, H, S in suit order.
pub open spec fn suit_letter(s: int) -> char {
    if s == 0 { 'C' } else if s == 1 { 'D' } else if s == 2 { 'H' } else { 'S' }
}

/// Label of a card: its rank in decimal followed by its suit letter.
pub open spec fn label(c: u32) -> Seq<char> {
    rank_text(rank_of(c)).push(suit_letter(suit_of(c)))
}

/// Strict lexicographic order on texts, character by character.
pub open spec fn text_lt(a: Seq<char>, b: Seq<char>) -> bool
    decreases a.len(),
{
    if a.len() == 0 {
        b.len() > 0
    } else if b.len() == 0 {
        false
    } else if a[0] != b[0] {
        (a[0] as u32) < (b[0] as u32)
    } else {
        text_lt(a.drop_first(), b.drop_first())
    }
}

/// No text comes before another text that comes before it.
pub proof fn lemma_text_lt_asymmetric(a: Seq<char>, b: Seq<char>)
    ensures
        text_lt(a, b) ==> !text_lt(b, a),
    decreases a.len(),
{
    if a.len() > 0 && b.len() > 0 && a[0] == b[0] {
        lemma_text_lt_asymmetric(a.drop_first(), b.drop_first());
    }
}

fn digit_char(d: u32) -> (c: char)
    requires
        d < 10,
    ensures
        c == digit(d as int),
{
    if d == 0 { '0' } else if d == 1 { '1' } else if d == 2 { '2' } else if d == 3 { '3' }
    else if d == 4 { '4' } else if d == 5 { '5' } else if d == 6 { '6' } else if d == 7 { '7' }
    else if d == 8 { '8' } else { '9' }
}

fn suit_char(s: u32) -> (c: char)
    ensures
        c == suit_letter(s as int),
{
    if s == 0 { 'C' } else if s == 1 { 'D' } else if s == 2 { 'H' } else { 'S' }
}

/// The characters of a card's label.
pub fn label_chars(card: u32) -> (v: Vec<char>)
    requires
        valid_card(card),
    ensures
        v@ == label(card),
{
    let r = get_rank(card);
    let s = get_suit(card);
    if r < 10 {
        let v = vec![digit_char(r), suit_char(s)];
        assert(v@ =~= label(card));
        v
    } else {
        let v = vec!['1', digit_char(r - 10), suit_char(s)];
        assert(v@ =~= label(card));
        v
    }
}

fn text_lt_from(a: &Vec<char>, b: &Vec<char>, i: usize) -> (r: bool)
    requires
        i <= a@.len(),
        i <= b@.len(),
    ensures
        r == text_lt(a@.skip(i as int), b@.skip(i as int)),
    decreases a@.len() - i,
{
    if i == a.len() {
        i < b.len()
    } else if i == b.len() {
        false
    } else if a[i] != b[i] {
        (a[i] as u32) < (b[i] as u32)
    } else {
        assert(a@.skip(i as int).drop_first() =~= a@.skip(i + 1));
        assert(b@.skip(i as int).drop_first() =~= b@.skip(i + 1));
        text_lt_from(a, b, i + 1)
    }
}

/// Whether the label of `a` comes strictly before the label of `b`.
pub fn label_before(a: u32, b: u32) -> (r: bool)
    requires
        valid_card(a),
        valid_card(b),
    ensures
        r == text_lt(label(a), label(b)),
{
    let la = label_chars(a);
    let lb = label_chars(b);
    assert(la@.skip(0) =~= la@);
    assert(lb@.skip(0) =~= lb@);
    text_lt_from(&la, &lb, 0)
}

fn rank_str(r: u32) -> (s: &'static str)
    requires
        1 <= r <= 13,
    ensures
        s@ == rank_text(r as int),
{
    if r == 1 {
        proof {
            reveal_strlit("1");
        }
        "1"
    } else if r == 2 {
        proof {
            reveal_strlit("2");
        }
        "2"
    } else if r == 3 {
        proof {
            reveal_strlit("3");
        }
        "3"
    } else if r == 4 {
        proof {
            reveal_strlit("4");
        }
        "4"
    } else if r == 5 {
        proof {
            reveal_strlit("5");
        }
        "5"
    } else if r == 6 {
        proof {
            reveal_strlit("6");
        }
        "6"
    } else if r == 7 {
        proof {
            reveal_strlit("7");
        }
        "7"
    } else if r == 8 {
        proof {
            reveal_strlit("8");
        }
        "8"
    } else if r == 9 {
        proof {
            reveal_strlit("9");
        }
        "9"
    } else if r == 10 {
        proof {
            reveal_strlit("10");
        }
        "10"
    } else if r == 11 {
        proof {
            reveal_strlit("11");
        }
        "11"
    } else if r == 12 {
        proof {
            reveal_strlit("12");
        }
        "12"
    } else if r == 13 {
        proof {
            reveal_strlit("13");
        }
        "13"
    } else {
        "0"
    }
}

fn suit_str(s: u32) -> (t: &'static str)
    ensures
        t@ == seq![suit_letter(s as int)],
{
    if s == 0 {
        proof {
            reveal_strlit("C");
        }
        "C"
    } else if s == 1 {
        proof {
            reveal_strlit("D");
        }
        "D"
    } else if s == 2 {
        proof {
            reveal_strlit("H");
        }
        "H"
    } else {
        proof {
            reveal_strlit("S");
        }
        "S"
    }
}

/// The label of a card as a string, such as "10C" or "1S".
pub fn card_to_string(card: u32) -> (t: String)
    requires
        valid_card(card),
    ensures
        t@ == label(card),
{
    let mut t = String::from_str(rank_str(get_rank(card)));
    t.append(suit_str(get_suit(card)));
    assert(t@ =~= label(card));
    t
}

} // verus!
