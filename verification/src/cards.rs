//! Card and board primitives: 52-card identifiers, rank/suit codecs,
//! board strings and 64-bit board masks.
//!
//! A card is an integer `0..52` with `rank = card / 4` (0 = deuce, 12 = ace)
//! and `suit = card % 4` (0 = clubs, 1 = diamonds, 2 = hearts, 3 = spades).
//! A board string is a sequence of two-character cards such as `"QsJh2h"`:
//! three cards for a flop, four for a turn, five for a river.

use vstd::prelude::*;

verus! {

/// Rank of a card: 0 for a deuce up to 12 for an ace.
pub open spec fn card_rank(c: u8) -> u8 {
    (c / 4) as u8
}

/// Suit of a card: 0 = clubs, 1 = diamonds, 2 = hearts, 3 = spades.
pub open spec fn card_suit(c: u8) -> u8 {
    (c % 4) as u8
}

/// The rank denoted by a character, accepting both cases for letters.
pub open spec fn spec_char_to_rank(c: char) -> Option<u8> {
    if c == '2' {
        Some(0u8)
    } else if c == '3' {
        Some(1u8)
    } else if c == '4' {
        Some(2u8)
    } else if c == '5' {
        Some(3u8)
    } else if c == '6' {
        Some(4u8)
    } else if c == '7' {
        Some(5u8)
    } else if c == '8' {
        Some(6u8)
    } else if c == '9' {
        Some(7u8)
    } else if c == 'T' || c == 't' {
        Some(8u8)
    } else if c == 'J' || c == 'j' {
        Some(9u8)
    } else if c == 'Q' || c == 'q' {
        Some(10u8)
    } else if c == 'K' || c == 'k' {
        Some(11u8)
    } else if c == 'A' || c == 'a' {
        Some(12u8)
    } else {
        None
    }
}

/// The suit denoted by a character, accepting both cases.
pub open spec fn spec_char_to_suit(c: char) -> Option<u8> {
    if c == 'c' || c == 'C' {
        Some(0u8)
    } else if c == 'd' || c == 'D' {
        Some(1u8)
    } else if c == 'h' || c == 'H' {
        Some(2u8)
    } else if c == 's' || c == 'S' {
        Some(3u8)
    } else {
        None
    }
}

/// The canonical character of a rank (upper case, as in `"QsJh2h"`).
pub open spec fn spec_rank_to_char(r: u8) -> char {
    if r == 0 {
        '2'
    } else if r == 1 {
        '3'
    } else if r == 2 {
        '4'
    } else if r == 3 {
        '5'
    } else if r == 4 {
        '6'
    } else if r == 5 {
        '7'
    } else if r == 6 {
        '8'
    } else if r == 7 {
        '9'
    } else if r == 8 {
        'T'
    } else if r == 9 {
        'J'
    } else if r == 10 {
        'Q'
    } else if r == 11 {
        'K'
    } else {
        'A'
    }
}

/// The canonical character of a suit (lower case).
pub open spec fn spec_suit_to_char(s: u8) -> char {
    if s == 0 {
        'c'
    } else if s == 1 {
        'd'
    } else if s == 2 {
        'h'
    } else {
        's'
    }
}

pub fn char_to_rank(c: char) -> (r: Option<u8>)
    ensures
        r == spec_char_to_rank(c),
{
    match c {
        '2' => Some(0),
        '3' => Some(1),
        '4' => Some(2),
        '5' => Some(3),
        '6' => Some(4),
        '7' => Some(5),
        '8' => Some(6),
        '9' => Some(7),
        'T' | 't' => Some(8),
        'J' | 'j' => Some(9),
        'Q' | 'q' => Some(10),
        'K' | 'k' => Some(11),
        'A' | 'a' => Some(12),
        _ => None,
    }
}

pub fn char_to_suit(c: char) -> (r: Option<u8>)
    ensures
        r == spec_char_to_suit(c),
{
    match c {
        'c' | 'C' => Some(0),
        'd' | 'D' => Some(1),
        'h' | 'H' => Some(2),
        's' | 'S' => Some(3),
        _ => None,
    }
}

pub fn rank_to_char(r: u8) -> (c: char)
    requires
        r < 13,
    ensures
        c == spec_rank_to_char(r),
{
    match r {
        0 => '2',
        1 => '3',
        2 => '4',
        3 => '5',
        4 => '6',
        5 => '7',
        6 => '8',
        7 => '9',
        8 => 'T',
        9 => 'J',
        10 => 'Q',
        11 => 'K',
        _ => 'A',
    }
}

pub fn suit_to_char(s: u8) -> (c: char)
    requires
        s < 4,
    ensures
        c == spec_suit_to_char(s),
{
    match s {
        0 => 'c',
        1 => 'd',
        2 => 'h',
        _ => 's',
    }
}

/// The card denoted by the `i`-th character pair of a card string.
pub open spec fn spec_card_at(s: Seq<char>, i: int) -> Option<u8> {
    match (spec_char_to_rank(s[2 * i]), spec_char_to_suit(s[2 * i + 1])) {
        (Some(r), Some(su)) => Some((r * 4 + su) as u8),
        _ => None,
    }
}

/// A string is a card string when it consists of valid two-character cards.
pub open spec fn valid_card_string(s: Seq<char>) -> bool {
    &&& s.len() % 2 == 0
    &&& forall|i: int| 0 <= i < s.len() / 2 ==> #[trigger] spec_card_at(s, i) is Some
}

/// The cards denoted by a card string.
pub open spec fn spec_cards_of(s: Seq<char>) -> Seq<u8> {
    Seq::new((s.len() / 2) as nat, |i: int| spec_card_at(s, i)->Some_0)
}

/// No card occurs twice.
pub open spec fn distinct_cards(cards: Seq<u8>) -> bool {
    forall|i: int, j: int| 0 <= i < j < cards.len() ==> cards[i] != cards[j]
}

/// A valid board string: a flop, turn or river of pairwise distinct cards.
pub open spec fn valid_board_string(s: Seq<char>) -> bool {
    &&& (s.len() == 6 || s.len() == 8 || s.len() == 10)
    &&& valid_card_string(s)
    &&& distinct_cards(spec_cards_of(s))
}

/// Every card decoded from a valid card string is below 52.
pub proof fn lemma_cards_of_bounds(s: Seq<char>)
    requires
        valid_card_string(s),
    ensures
        forall|i: int| 0 <= i < spec_cards_of(s).len() ==> #[trigger] spec_cards_of(s)[i] < 52,
{
    assert forall|i: int| 0 <= i < spec_cards_of(s).len() implies #[trigger] spec_cards_of(s)[i]
        < 52 by {
        assert(spec_card_at(s, i) is Some);
    }
}

/// Decode a card string into card identifiers, two characters per card.
pub fn board_to_u8(board: &str) -> (r: Option<Vec<u8>>)
    ensures
        match r {
            Some(v) => valid_card_string(board@) && v@ == spec_cards_of(board@),
            None => !valid_card_string(board@),
        },
{
    let len = board.unicode_len();
    if len % 2 != 0 {
        return None;
    }
    let n = len / 2;
    assert(2 * n <= len);
    let mut cards: Vec<u8> = Vec::new();
    let mut i: usize = 0;
    while i < n
        invariant
            0 <= i <= n,
            n == board@.len() / 2,
            2 * n <= board@.len(),
            2 * n <= usize::MAX,
            cards@.len() == i,
            forall|k: int| 0 <= k < i ==> #[trigger] spec_card_at(board@, k) is Some,
            forall|k: int| 0 <= k < i ==> cards@[k] == spec_card_at(board@, k)->Some_0,
        decreases n - i,
    {
        let rc = board.get_char(2 * i);
        let sc = board.get_char(2 * i + 1);
        let r = char_to_rank(rc);
        let s = char_to_suit(sc);
        match (r, s) {
            (Some(rv), Some(sv)) => {
                cards.push(rv * 4 + sv);
            },
            _ => {
                assert(spec_card_at(board@, i as int) is None);
                return None;
            },
        }
        i = i + 1;
    }
    assert(cards@ =~= spec_cards_of(board@));
    Some(cards)
}

/// The two-character text of a card: rank character then suit character.
pub open spec fn spec_card_chars(c: u8) -> Seq<char> {
    seq![spec_rank_to_char(card_rank(c)), spec_suit_to_char(card_suit(c))]
}

/// The text of a board: the cards' characters in order.
pub open spec fn spec_board_string(cards: Seq<u8>) -> Seq<char>
    decreases cards.len(),
{
    if cards.len() == 0 {
        Seq::empty()
    } else {
        spec_board_string(cards.drop_last()) + spec_card_chars(cards.last())
    }
}

/// Relies on `String::push`: appends exactly the one character.
#[verifier::external_body]
fn push_char(s: &mut String, c: char)
    ensures
        final(s)@ == old(s)@.push(c),
{
    s.push(c);
}

/// Encode cards back into board text, two characters per card.
pub fn u8_to_board(u8_board: Vec<u8>) -> (r: String)
    requires
        forall|i: int| 0 <= i < u8_board@.len() ==> #[trigger] u8_board@[i] < 52,
    ensures
        r@ == spec_board_string(u8_board@),
{
    let mut board = String::new();
    let n = u8_board.len();
    let mut i: usize = 0;
    while i < n
        invariant
            0 <= i <= n,
            n == u8_board@.len(),
            forall|k: int| 0 <= k < n ==> #[trigger] u8_board@[k] < 52,
            board@ == spec_board_string(u8_board@.take(i as int)),
        decreases n - i,
    {
        let c = u8_board[i];
        let rank = c >> 2;
        let suit = c & 3;
        proof {
            assert(rank == card_rank(c) && suit == card_suit(c)) by (bit_vector)
                requires rank == c >> 2, suit == c & 3, c < 52
            ;
            assert(u8_board@.take(i + 1).drop_last() =~= u8_board@.take(i as int));
            assert(u8_board@.take(i + 1).last() == u8_board@[i as int]);
        }
        push_char(&mut board, rank_to_char(rank));
        push_char(&mut board, suit_to_char(suit));
        i = i + 1;
    }
    proof {
        assert(u8_board@.take(n as int) =~= u8_board@);
    }
    board
}

/// The canonical 1326-combo order: one entry per unordered pair of cards,
/// the higher card first within each entry, pairs ordered by higher card
/// and then by lower card.  Entry `a * (a - 1) / 2 + b` names the pair
/// `(a, b)` with `b < a`.
pub fn canonical_hand_order() -> (r: Vec<String>)
    ensures
        r@.len() == 1326,
        forall|a: int, b: int|
            0 <= b < a < 52 ==> #[trigger] r@[a * (a - 1) / 2 + b]@ == spec_card_chars(a as u8)
                + spec_card_chars(b as u8),
{
    broadcast use crate::hand_range::lemma_pair_index_bounds;

    let mut order: Vec<String> = Vec::new();
    let mut a: usize = 1;
    let mut k: usize = 0;
    while a < 52
        invariant
            1 <= a <= 52,
            k == a * (a - 1) / 2,
            0 <= k <= 1326,
            a < 52 ==> a * (a - 1) / 2 + a <= 1326,
            order@.len() == k,
            forall|x: int, y: int|
                0 <= y < x < a ==> #[trigger] order@[x * (x - 1) / 2 + y]@ == spec_card_chars(
                    x as u8,
                ) + spec_card_chars(y as u8),
        decreases 52 - a,
    {
        let mut b: usize = 0;
        while b < a
            invariant
                1 <= a < 52,
                0 <= b <= a,
                k == a * (a - 1) / 2 + b,
                a * (a - 1) / 2 + a <= 1326,
                order@.len() == k,
                forall|x: int, y: int|
                    0 <= y < x < 52 && (x < a || (x == a && y < b))
                        ==> #[trigger] order@[x * (x - 1) / 2 + y]@ == spec_card_chars(x as u8)
                        + spec_card_chars(y as u8),
            decreases a - b,
        {
            let ar = (a as u8) >> 2;
            let asu = (a as u8) & 3;
            let br = (b as u8) >> 2;
            let bsu = (b as u8) & 3;
            proof {
                assert(ar == card_rank(a as u8) && asu == card_suit(a as u8) && br == card_rank(
                    b as u8,
                ) && bsu == card_suit(b as u8) && ar < 13 && asu < 4 && br < 13 && bsu < 4)
                    by (bit_vector)
                    requires
                        a < 52,
                        b < 52,
                        ar == (a as u8) >> 2,
                        asu == (a as u8) & 3,
                        br == (b as u8) >> 2,
                        bsu == (b as u8) & 3,
                ;
            }
            let mut s = String::new();
            push_char(&mut s, rank_to_char(ar));
            push_char(&mut s, suit_to_char(asu));
            push_char(&mut s, rank_to_char(br));
            push_char(&mut s, suit_to_char(bsu));
            proof {
                assert(s@ =~= spec_card_chars(a as u8) + spec_card_chars(b as u8));
            }
            let ghost pre = order@;
            order.push(s);
            proof {
                assert(crate::hand_range::pair_index(a as int, b as int) == k as int);
                assert(order@[k as int]@ == spec_card_chars(a as u8) + spec_card_chars(b as u8));
                assert forall|x: int, y: int|
                    0 <= y < x < 52 && (x < a || (x == a && y < b + 1)) implies #[trigger] order@[x
                    * (x - 1) / 2 + y]@ == spec_card_chars(x as u8) + spec_card_chars(y as u8) by {
                    if x == a && y == b {
                    } else {
                        assert(x * (x - 1) / 2 + y < k) by (nonlinear_arith)
                            requires
                                0 <= y < x < 52,
                                (x < a || (x == a && y < b)),
                                1 <= a < 52,
                                b < a,
                                k == a * (a - 1) / 2 + b,
                        ;
                        assert(x * (x - 1) / 2 + y >= 0) by (nonlinear_arith)
                            requires 0 <= y < x
                        ;
                        assert(order@[x * (x - 1) / 2 + y] == pre[x * (x - 1) / 2 + y]);
                    }
                }
            }
            k = k + 1;
            b = b + 1;
        }
        proof {
            assert((a + 1) * (a + 1 - 1) / 2 == a * (a - 1) / 2 + a) by (nonlinear_arith);
            assert((a + 1 < 52) ==> (a + 1) * (a + 1 - 1) / 2 + (a + 1) <= 1326)
                by (nonlinear_arith)
                requires 1 <= a < 52
            ;
            assert(a == 51 ==> 52 * 51 / 2 == 1326) by (nonlinear_arith);
        }
        a = a + 1;
    }
    order
}

/// Whether all cards in a list are pairwise distinct.
pub fn cards_distinct(cards: &Vec<u8>) -> (r: bool)
    ensures
        r == distinct_cards(cards@),
{
    let n = cards.len();
    let mut i: usize = 0;
    while i < n
        invariant
            0 <= i <= n,
            n == cards@.len(),
            forall|p: int, q: int| 0 <= p < q < cards@.len() && p < i ==> cards@[p] != cards@[q],
        decreases n - i,
    {
        let mut j: usize = i + 1;
        while j < n
            invariant
                i < j <= n,
                n == cards@.len(),
                forall|q: int| i < q < j ==> cards@[i as int] != cards@[q],
            decreases n - j,
        {
            if cards[i] == cards[j] {
                return false;
            }
            j = j + 1;
        }
        i = i + 1;
    }
    true
}

} // verus!
