//! Suit-texture classification and the suit-isomorphism hooks.
//!
//! The solver keeps a hook for collapsing suit-symmetric boards: a mapping
//! from each suit character to the suit it is identified with.  Suits mapped
//! to themselves are fixed; a suit mapped elsewhere would be redundant and
//! its combos could be dropped from the ranges.  The reduction itself is
//! switched off: [`isomorphism_mapping`] returns the identity mapping and
//! [`normalize_flop`] returns the board unchanged, so every suit is kept and
//! chance nodes enumerate the full residual deck.

use vstd::prelude::*;
use crate::cards::{board_to_u8, card_suit, spec_cards_of, valid_board_string};

verus! {

/// Suit texture of a flop: one, two or three distinct suits.
#[derive(Debug, Clone, Copy, PartialEq, Eq, Structural)]
pub enum FlopType {
    Monotone,
    TwoTone,
    Rainbow,
}

/// How many distinct values occur among three suits.
pub open spec fn spec_distinct_suit_count(s0: u8, s1: u8, s2: u8) -> int {
    if s0 == s1 && s1 == s2 {
        1int
    } else if s0 == s1 || s1 == s2 || s0 == s2 {
        2int
    } else {
        3int
    }
}

/// The texture of the flop that starts a board string.
pub open spec fn spec_flop_type(s: Seq<char>) -> FlopType {
    let cards = spec_cards_of(s);
    let n = spec_distinct_suit_count(
        card_suit(cards[0]),
        card_suit(cards[1]),
        card_suit(cards[2]),
    );
    if n == 1 {
        FlopType::Monotone
    } else if n == 2 {
        FlopType::TwoTone
    } else {
        FlopType::Rainbow
    }
}

/// Classify the flop of a board by its number of distinct suits:
/// one suit is monotone, two is two-tone, three is rainbow.
pub fn flop_type(board: &String) -> (t: FlopType)
    requires
        valid_board_string(board@),
    ensures
        t == spec_flop_type(board@),
{
    let cards = match board_to_u8(board.as_str()) {
        Some(v) => v,
        None => {
            // unreachable: the board string is valid
            return FlopType::Rainbow;
        },
    };
    let s0 = cards[0] % 4;
    let s1 = cards[1] % 4;
    let s2 = cards[2] % 4;
    if s0 == s1 && s1 == s2 {
        FlopType::Monotone
    } else if s0 == s1 || s1 == s2 || s0 == s2 {
        FlopType::TwoTone
    } else {
        FlopType::Rainbow
    }
}

/// Canonical form of a flop board.  Suit canonicalization is switched off,
/// so the board comes back exactly as given.
pub fn normalize_flop(board: &String) -> (r: String)
    ensures
        r@ == board@,
{
    board.clone()
}

/// The suit-identification mapping for a board.  With the reduction switched
/// off this is the identity on the four suit characters, so no combo and no
/// deck card is ever dropped as suit-redundant.
pub fn isomorphism_mapping(board: &String) -> (r: Vec<(char, char)>)
    ensures
        r@ =~= seq![('h', 'h'), ('d', 'd'), ('s', 's'), ('c', 'c')],
{
    let mut mapping: Vec<(char, char)> = Vec::new();
    mapping.push(('h', 'h'));
    mapping.push(('d', 'd'));
    mapping.push(('s', 's'));
    mapping.push(('c', 'c'));
    mapping
}

} // verus!
