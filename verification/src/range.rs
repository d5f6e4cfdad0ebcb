//! The range manager: per-board hand ranges for every board the tree can
//! reach, reach mappings between parent and child boards, residual decks,
//! showdown ranks and joint indices.
//!
//! Boards are keyed by their 64-bit mask together with an optional
//! previous-board mask: the option disambiguates river boards reached
//! through different turns when solving from a flop.

use vstd::prelude::*;
use crate::cards::{board_to_u8, distinct_cards, spec_cards_of, valid_board_string};
use crate::hand_range::{
    clear_pred, combo_clear_of, combo_wf, range_wf, same_pair, Combo, HandRange,
};

verus! {

/// The board mask of a card sequence: one set bit per card identifier.
pub open spec fn mask_of(cards: Seq<u8>) -> u64
    decreases cards.len(),
{
    if cards.len() == 0 {
        0u64
    } else {
        mask_of(cards.drop_last()) | (1u64 << cards.last())
    }
}

/// Whether a mask has the bit of a card set.
pub open spec fn mask_has(m: u64, c: u8) -> bool {
    (m >> c) & 1u64 == 1u64
}

/// A mask has exactly the bits of the cards it was built from.
pub proof fn lemma_mask_of_membership(cards: Seq<u8>, c: u8)
    requires
        forall|i: int| 0 <= i < cards.len() ==> #[trigger] cards[i] < 52,
        c < 52,
    ensures
        mask_has(mask_of(cards), c) <==> cards.contains(c),
    decreases cards.len(),
{
    if cards.len() == 0 {
        assert((0u64 >> c) & 1u64 == 0u64) by (bit_vector);
    } else {
        let rest = cards.drop_last();
        let x = cards.last();
        lemma_mask_of_membership(rest, c);
        let m = mask_of(rest);
        assert(((m | (1u64 << x)) >> c) & 1u64 == 1u64 <==> (c == x || (m >> c) & 1u64 == 1u64))
            by (bit_vector)
            requires c < 52, x < 52
        ;
        if cards.contains(c) {
            let i = choose|i: int| 0 <= i < cards.len() && cards[i] == c;
            if i < cards.len() - 1 {
                assert(rest[i] == c);
                assert(rest.contains(c));
            }
        }
        if rest.contains(c) {
            let i = choose|i: int| 0 <= i < rest.len() && rest[i] == c;
            assert(cards[i] == c);
        }
    }
}

/// Extending a board by two different fresh cards gives two different masks.
pub proof fn lemma_mask_extend_distinct(base: Seq<u8>, c1: u8, c2: u8)
    requires
        forall|i: int| 0 <= i < base.len() ==> #[trigger] base[i] < 52,
        c1 < 52,
        c2 < 52,
        c1 != c2,
        !base.contains(c1),
    ensures
        mask_of(base.push(c1)) != mask_of(base.push(c2)),
{
    let s1 = base.push(c1);
    let s2 = base.push(c2);
    assert(forall|i: int| 0 <= i < s1.len() ==> #[trigger] s1[i] < 52);
    assert(forall|i: int| 0 <= i < s2.len() ==> #[trigger] s2[i] < 52);
    lemma_mask_of_membership(s1, c1);
    lemma_mask_of_membership(s2, c1);
    assert(s1.contains(c1)) by {
        assert(s1[s1.len() - 1] == c1);
    }
    if s2.contains(c1) {
        let i = choose|i: int| 0 <= i < s2.len() && s2[i] == c1;
        assert(i < base.len());
        assert(base[i] == c1);
    }
}

/// Extending a board by a fresh card changes its mask.
pub proof fn lemma_mask_extend_changes(base: Seq<u8>, c: u8)
    requires
        forall|i: int| 0 <= i < base.len() ==> #[trigger] base[i] < 52,
        c < 52,
        !base.contains(c),
    ensures
        mask_of(base.push(c)) != mask_of(base),
{
    let s = base.push(c);
    assert(forall|i: int| 0 <= i < s.len() ==> #[trigger] s[i] < 52);
    lemma_mask_of_membership(s, c);
    lemma_mask_of_membership(base, c);
    assert(s[s.len() - 1] == c);
    assert(s.contains(c));
}

/// Compute the board mask of a card list.
pub fn mask_of_cards(cards: &Vec<u8>) -> (m: u64)
    requires
        forall|i: int| 0 <= i < cards@.len() ==> #[trigger] cards@[i] < 52,
    ensures
        m == mask_of(cards@),
{
    let n = cards.len();
    let mut m: u64 = 0;
    let mut i: usize = 0;
    while i < n
        invariant
            0 <= i <= n,
            n == cards@.len(),
            forall|k: int| 0 <= k < cards@.len() ==> #[trigger] cards@[k] < 52,
            m == mask_of(cards@.take(i as int)),
        decreases n - i,
    {
        let c = cards[i];
        proof {
            assert(cards@.take(i + 1).drop_last() =~= cards@.take(i as int));
            assert(cards@.take(i + 1).last() == cards@[i as int]);
        }
        m = m | (1u64 << c);
        i = i + 1;
    }
    proof {
        assert(cards@.take(n as int) =~= cards@);
    }
    m
}

/// Among the first `i` card values, how many appear in `cards`.
pub open spec fn count_lt(cards: Seq<u8>, i: int) -> int
    decreases cards.len(),
{
    if cards.len() == 0 {
        0
    } else {
        count_lt(cards.drop_last(), i) + if cards.last() < i {
            1int
        } else {
            0int
        }
    }
}

/// Raising the bound by one adds exactly the card equal to the old bound.
pub proof fn lemma_count_lt_step(cards: Seq<u8>, i: int)
    requires
        distinct_cards(cards),
        0 <= i < 255,
    ensures
        count_lt(cards, i + 1) == count_lt(cards, i) + if cards.contains(i as u8) {
            1int
        } else {
            0int
        },
    decreases cards.len(),
{
    if cards.len() == 0 {
    } else {
        let rest = cards.drop_last();
        let x = cards.last();
        assert(distinct_cards(rest));
        lemma_count_lt_step(rest, i);
        if x == i as u8 {
            if rest.contains(i as u8) {
                let j = choose|j: int| 0 <= j < rest.len() && rest[j] == i as u8;
                assert(cards[j] == cards[cards.len() - 1]);
                assert(false);
            }
            assert(cards[cards.len() - 1] == i as u8);
            assert(cards.contains(i as u8));
        } else {
            if cards.contains(i as u8) {
                let j = choose|j: int| 0 <= j < cards.len() && cards[j] == i as u8;
                assert(j < rest.len());
                assert(rest[j] == i as u8);
                assert(rest.contains(i as u8));
            }
            if rest.contains(i as u8) {
                let j = choose|j: int| 0 <= j < rest.len() && rest[j] == i as u8;
                assert(cards[j] == i as u8);
            }
        }
    }
}

/// With every card below 52, the count below 52 is the whole list.
pub proof fn lemma_count_lt_all(cards: Seq<u8>)
    requires
        forall|i: int| 0 <= i < cards.len() ==> #[trigger] cards[i] < 52,
    ensures
        count_lt(cards, 52) == cards.len(),
    decreases cards.len(),
{
    if cards.len() > 0 {
        let rest = cards.drop_last();
        assert(forall|i: int| 0 <= i < rest.len() ==> #[trigger] rest[i] < 52) by {
            assert(forall|i: int| 0 <= i < rest.len() ==> rest[i] == cards[i]);
        }
        lemma_count_lt_all(rest);
    }
}

/// Nothing is below a bound of zero.
pub proof fn lemma_count_lt_zero(cards: Seq<u8>)
    ensures
        count_lt(cards, 0) == 0,
    decreases cards.len(),
{
    if cards.len() > 0 {
        lemma_count_lt_zero(cards.drop_last());
    }
}

/// The cards of a 52-card deck that are not on the given board, ascending.
pub fn make_deck(cards: &Vec<u8>) -> (deck: Vec<u8>)
    requires
        forall|i: int| 0 <= i < cards@.len() ==> #[trigger] cards@[i] < 52,
        distinct_cards(cards@),
    ensures
        forall|i: int, j: int| 0 <= i < j < deck@.len() ==> deck@[i] < deck@[j],
        forall|c: u8| deck@.contains(c) <==> (c < 52 && !cards@.contains(c)),
        deck@.len() + cards@.len() == 52,
{
    let mut deck: Vec<u8> = Vec::new();
    let mut skipped: usize = 0;
    let mut c: u8 = 0;
    proof {
        lemma_count_lt_zero(cards@);
    }
    while c < 52
        invariant
            0 <= c <= 52,
            skipped == count_lt(cards@, c as int),
            deck@.len() + skipped == c,
            forall|i: int| 0 <= i < cards@.len() ==> #[trigger] cards@[i] < 52,
            distinct_cards(cards@),
            forall|i: int, j: int| 0 <= i < j < deck@.len() ==> deck@[i] < deck@[j],
            forall|i: int| 0 <= i < deck@.len() ==> #[trigger] deck@[i] < c,
            forall|x: u8| deck@.contains(x) <==> (x < c && !cards@.contains(x)),
        decreases 52 - c,
    {
        let ghost pre = deck@;
        proof {
            lemma_count_lt_step(cards@, c as int);
        }
        if !crate::hand_range::cards_contain(cards, c) {
            deck.push(c);
        } else {
            skipped = skipped + 1;
        }
        proof {
            assert forall|x: u8| deck@.contains(x) <==> (x < c + 1 && !cards@.contains(x)) by {
                if deck@.contains(x) {
                    let j = choose|j: int| 0 <= j < deck@.len() && deck@[j] == x;
                    if j < pre.len() {
                        assert(pre[j] == x);
                        assert(pre.contains(x));
                    }
                }
                if x < c + 1 && !cards@.contains(x) {
                    if x < c {
                        assert(pre.contains(x));
                        let j = choose|j: int| 0 <= j < pre.len() && pre[j] == x;
                        assert(deck@[j] == x);
                    } else {
                        assert(deck@[deck@.len() - 1] == x);
                    }
                }
            }
        }
        c = c + 1;
    }
    proof {
        lemma_count_lt_all(cards@);
    }
    deck
}

/// The residual deck of one board: the cards not on it, ascending.
#[derive(Debug, Clone)]
pub struct DeckEntry {
    /// Mask of the board this deck belongs to.
    pub board: u64,
    /// The board's cards.
    pub cards: Vec<u8>,
    /// The remaining cards, in ascending order.
    pub deck: Vec<u8>,
}

/// The ranges and reach mappings stored for one board key.
#[derive(Debug, Clone)]
pub struct BoardEntry {
    /// Mask of this board.
    pub board: u64,
    /// Mask of the previous street's board, for river boards reached
    /// through a turn when solving from a flop.
    pub prev: Option<u64>,
    /// The board's cards, initial board first, dealt cards after.
    pub cards: Vec<u8>,
    /// Out-of-position player's range on this board.
    pub oop_hands: HandRange,
    /// In-position player's range on this board.
    pub ip_hands: HandRange,
    /// Reach mapping for the out-of-position range: combo `i` here was
    /// combo `oop_mapping[i]` of the parent board's range.
    pub oop_mapping: Vec<u16>,
    /// Reach mapping for the in-position range.
    pub ip_mapping: Vec<u16>,
}

/// Per-board ranges and bookkeeping for a whole tree.
#[derive(Debug)]
pub struct RangeManager {
    /// One entry per reachable board key.
    pub entries: Vec<BoardEntry>,
    /// One residual deck per flop or turn board.
    pub decks: Vec<DeckEntry>,
    /// The board the tree starts on, as text.
    pub initial_board: String,
    /// The board the tree starts on, as cards.
    pub initial_cards: Vec<u8>,
}

/// Keys of two board entries are equal.
pub open spec fn same_key(e: BoardEntry, board: u64, prev: Option<u64>) -> bool {
    e.board == board && e.prev == prev
}

/// A deck lists exactly the cards missing from its board, ascending.
pub open spec fn deck_wf(d: DeckEntry) -> bool {
    &&& d.board == mask_of(d.cards@)
    &&& forall|i: int| 0 <= i < d.cards@.len() ==> #[trigger] d.cards@[i] < 52
    &&& forall|i: int, j: int| 0 <= i < j < d.deck@.len() ==> d.deck@[i] < d.deck@[j]
    &&& forall|c: u8| d.deck@.contains(c) <==> (c < 52 && !d.cards@.contains(c))
    &&& d.cards@.len() + d.deck@.len() == 52
}

/// The previous-board component of the key for a board with the given
/// cards, when the solve starts from a board of `initial_len` cards.
pub open spec fn spec_prev_key(initial_len: int, cards: Seq<u8>) -> Option<u64> {
    if cards.len() == 5 && initial_len == 3 {
        Some(mask_of(cards.take(4)))
    } else {
        None
    }
}

/// A single board entry is well-formed relative to the initial board.
pub open spec fn entry_wf(e: BoardEntry, initial: Seq<u8>) -> bool {
    &&& e.board == mask_of(e.cards@)
    &&& e.prev == spec_prev_key(initial.len() as int, e.cards@)
    &&& initial.len() <= e.cards@.len() <= 5
    &&& e.cards@.take(initial.len() as int) == initial
    &&& forall|i: int| 0 <= i < e.cards@.len() ==> #[trigger] e.cards@[i] < 52
    &&& distinct_cards(e.cards@)
    &&& range_wf(e.oop_hands)
    &&& range_wf(e.ip_hands)
}

/// The range a side holds in an entry.
pub open spec fn side_of(e: BoardEntry, oop: bool) -> HandRange {
    if oop {
        e.oop_hands
    } else {
        e.ip_hands
    }
}

/// The reach mapping a side holds in an entry.
pub open spec fn mapping_of(e: BoardEntry, oop: bool) -> Seq<u16> {
    if oop {
        e.oop_mapping@
    } else {
        e.ip_mapping@
    }
}

/// Every combo of a range avoids the given board cards.
pub open spec fn range_all_clear(r: HandRange, cards: Seq<u8>) -> bool {
    forall|k: int| 0 <= k < r.hands@.len() ==> combo_clear_of(#[trigger] r.hands@[k], cards)
}

/// A reach mapping is valid between a child and a parent combo list: one
/// parent position per child combo, all distinct, carrying the same two
/// cards and the same weight.
pub open spec fn mapping_ok(m: Seq<u16>, child: Seq<Combo>, parent: Seq<Combo>) -> bool {
    &&& m.len() == child.len()
    &&& forall|i: int| 0 <= i < m.len() ==> (#[trigger] m[i]) < parent.len()
    &&& forall|i: int|
        0 <= i < m.len() ==> {
            let pc = parent[(#[trigger] m[i]) as int];
            &&& pc.a == child[i].a
            &&& pc.b == child[i].b
            &&& pc.weight == child[i].weight
        }
    &&& forall|i: int, j: int| 0 <= i < j < m.len() ==> m[i] != m[j]
}

/// Entry `p` carries mappings that point back at some parent entry whose
/// board is its own board without the last card.
pub open spec fn entry_mapped_in(es: Seq<BoardEntry>, p: int) -> bool {
    exists|q: int|
        0 <= q < es.len() && {
            let par = #[trigger] es[q];
            &&& par.cards@ == es[p].cards@.drop_last()
            &&& mapping_ok(es[p].oop_mapping@, es[p].oop_hands.hands@, par.oop_hands.hands@)
            &&& mapping_ok(es[p].ip_mapping@, es[p].ip_hands.hands@, par.ip_hands.hands@)
        }
}

/// Entry `p` is freshly filtered from some parent entry: its ranges are
/// the parent's ranges restricted to its board, and its mappings point
/// back at the parent.
pub open spec fn entry_linked_in(es: Seq<BoardEntry>, p: int) -> bool {
    exists|q: int|
        0 <= q < es.len() && {
            let par = #[trigger] es[q];
            &&& par.cards@ == es[p].cards@.drop_last()
            &&& es[p].oop_hands.hands@ == par.oop_hands.hands@.filter(clear_pred(es[p].cards@))
            &&& es[p].ip_hands.hands@ == par.ip_hands.hands@.filter(clear_pred(es[p].cards@))
            &&& mapping_ok(es[p].oop_mapping@, es[p].oop_hands.hands@, par.oop_hands.hands@)
            &&& mapping_ok(es[p].ip_mapping@, es[p].ip_hands.hands@, par.ip_hands.hands@)
        }
}

/// A fresh link is in particular a mapped link.
pub proof fn lemma_linked_is_mapped(es: Seq<BoardEntry>, p: int)
    requires
        entry_linked_in(es, p),
    ensures
        entry_mapped_in(es, p),
{
    let q = choose|q: int|
        0 <= q < es.len() && {
            let par = #[trigger] es[q];
            &&& par.cards@ == es[p].cards@.drop_last()
            &&& es[p].oop_hands.hands@ == par.oop_hands.hands@.filter(clear_pred(es[p].cards@))
            &&& es[p].ip_hands.hands@ == par.ip_hands.hands@.filter(clear_pred(es[p].cards@))
            &&& mapping_ok(es[p].oop_mapping@, es[p].oop_hands.hands@, par.oop_hands.hands@)
            &&& mapping_ok(es[p].ip_mapping@, es[p].ip_hands.hands@, par.ip_hands.hands@)
        };
    assert(0 <= q < es.len() && {
        let par = es[q];
        &&& par.cards@ == es[p].cards@.drop_last()
        &&& mapping_ok(es[p].oop_mapping@, es[p].oop_hands.hands@, par.oop_hands.hands@)
        &&& mapping_ok(es[p].ip_mapping@, es[p].ip_hands.hands@, par.ip_hands.hands@)
    });
}


/// The river entry at `rpos` extends the turn board `init + c` by `c2` and
/// is filtered and mapped from the turn entry at `tpos`.
pub open spec fn river_entry_ok(
    es: Seq<BoardEntry>,
    init: Seq<u8>,
    c: u8,
    c2: u8,
    tpos: int,
    rpos: int,
) -> bool {
    &&& 0 <= tpos < es.len()
    &&& 0 <= rpos < es.len()
    &&& es[rpos].cards@ == init.push(c).push(c2)
    &&& es[rpos].board == mask_of(init.push(c).push(c2))
    &&& es[rpos].prev == Some(mask_of(init.push(c)))
    &&& es[rpos].oop_hands.hands@ == es[tpos].oop_hands.hands@.filter(
        clear_pred(init.push(c).push(c2)),
    )
    &&& es[rpos].ip_hands.hands@ == es[tpos].ip_hands.hands@.filter(
        clear_pred(init.push(c).push(c2)),
    )
    &&& mapping_ok(es[rpos].oop_mapping@, es[rpos].oop_hands.hands@, es[tpos].oop_hands.hands@)
    &&& mapping_ok(es[rpos].ip_mapping@, es[rpos].ip_hands.hands@, es[tpos].ip_hands.hands@)
}

/// The turn entry at `tpos` extends the flop `init` by `c`, is filtered and
/// mapped from the entry at position zero, and its first `u` river children
/// sit right after it.
pub open spec fn turn_block_ok(
    es: Seq<BoardEntry>,
    deck_t: Seq<u8>,
    init: Seq<u8>,
    c: u8,
    tpos: int,
    u: int,
) -> bool {
    &&& 0 < tpos < es.len()
    &&& es[tpos].cards@ == init.push(c)
    &&& es[tpos].board == mask_of(init.push(c))
    &&& es[tpos].prev is None
    &&& es[tpos].oop_hands.hands@ == es[0].oop_hands.hands@.filter(clear_pred(init.push(c)))
    &&& es[tpos].ip_hands.hands@ == es[0].ip_hands.hands@.filter(clear_pred(init.push(c)))
    &&& mapping_ok(es[tpos].oop_mapping@, es[tpos].oop_hands.hands@, es[0].oop_hands.hands@)
    &&& mapping_ok(es[tpos].ip_mapping@, es[tpos].ip_hands.hands@, es[0].ip_hands.hands@)
    &&& tpos + 1 + u <= es.len()
    &&& forall|v: int|
        0 <= v < u ==> river_entry_ok(es, init, c, #[trigger] deck_t[v], tpos, tpos + 1 + v)
}

/// The river entry at `rpos` extends the initial turn board by `c` and is
/// filtered and mapped from the entry at position zero.
pub open spec fn river_of_initial_ok(es: Seq<BoardEntry>, init: Seq<u8>, c: u8, rpos: int) -> bool {
    &&& 0 < rpos < es.len()
    &&& es[rpos].cards@ == init.push(c)
    &&& es[rpos].board == mask_of(init.push(c))
    &&& es[rpos].prev is None
    &&& es[rpos].oop_hands.hands@ == es[0].oop_hands.hands@.filter(clear_pred(init.push(c)))
    &&& es[rpos].ip_hands.hands@ == es[0].ip_hands.hands@.filter(clear_pred(init.push(c)))
    &&& mapping_ok(es[rpos].oop_mapping@, es[rpos].oop_hands.hands@, es[0].oop_hands.hands@)
    &&& mapping_ok(es[rpos].ip_mapping@, es[rpos].ip_hands.hands@, es[0].ip_hands.hands@)
}

/// Everything a filter keeps satisfies the filter's predicate.
pub proof fn lemma_clear_of_filter(parent: Seq<Combo>, child: Seq<Combo>, cards: Seq<u8>)
    requires
        child == parent.filter(clear_pred(cards)),
    ensures
        forall|k: int| 0 <= k < child.len() ==> combo_clear_of(#[trigger] child[k], cards),
{
    assert forall|k: int| 0 <= k < child.len() implies combo_clear_of(
        #[trigger] child[k],
        cards,
    ) by {
        parent.lemma_filter_pred(clear_pred(cards), k);
    }
}

/// The combos of `newh` are the combos of `oldh` with showdown ranks
/// assigned from `ranks` and stably sorted ascending by rank; `sig` is the
/// sort permutation: position `i` of the new order was position `sig[i]`.
pub open spec fn rank_sort_rel(
    newh: Seq<Combo>,
    oldh: Seq<Combo>,
    ranks: Seq<u16>,
    sig: Seq<int>,
) -> bool {
    &&& sig.len() == oldh.len()
    &&& newh.len() == oldh.len()
    &&& ranks.len() == oldh.len()
    &&& forall|i: int| 0 <= i < sig.len() ==> 0 <= #[trigger] sig[i] < oldh.len()
    &&& forall|i: int, j: int| 0 <= i < j < sig.len() ==> sig[i] != sig[j]
    &&& forall|i: int|
        0 <= i < newh.len() ==> #[trigger] newh[i] == (Combo { rank: ranks[sig[i]], ..oldh[sig[i]] })
    &&& forall|i: int, j: int| 0 <= i < j < newh.len() ==> newh[i].rank <= newh[j].rank
    &&& forall|i: int, j: int|
        0 <= i < j < newh.len() && newh[i].rank == newh[j].rank ==> sig[i] < sig[j]
}

/// The combos of `newh` are the combos of `oldh` with the joint index set:
/// the position in `other` of the combo carrying the same two cards, or
/// `None` when `other` has no such combo.
pub open spec fn joint_set_ok(nc: Combo, oc: Combo, other: Seq<Combo>) -> bool {
    &&& nc.a == oc.a
    &&& nc.b == oc.b
    &&& nc.weight == oc.weight
    &&& nc.rank == oc.rank
    &&& match nc.joint {
        Some(j) => j < other.len() && other[j as int].a == oc.a && other[j as int].b == oc.b,
        None => forall|j: int|
            0 <= j < other.len() ==> !((#[trigger] other[j]).a == oc.a && other[j].b == oc.b),
    }
}

/// See [`joint_set_ok`]: every new combo is the old combo with its joint
/// index set against `other`.
pub open spec fn joints_rel(newh: Seq<Combo>, oldh: Seq<Combo>, other: Seq<Combo>) -> bool {
    &&& newh.len() == oldh.len()
    &&& forall|k: int| 0 <= k < newh.len() ==> joint_set_ok(#[trigger] newh[k], oldh[k], other)
}

/// An entry after the joint pass: everything unchanged except that both
/// sides' combos carry the joint index into the opposing range.
pub open spec fn entry_joints_done(en: BoardEntry, eo: BoardEntry) -> bool {
    &&& en.board == eo.board
    &&& en.prev == eo.prev
    &&& en.cards@ == eo.cards@
    &&& en.oop_mapping@ == eo.oop_mapping@
    &&& en.ip_mapping@ == eo.ip_mapping@
    &&& joints_rel(en.oop_hands.hands@, eo.oop_hands.hands@, eo.ip_hands.hands@)
    &&& joints_rel(en.ip_hands.hands@, eo.ip_hands.hands@, eo.oop_hands.hands@)
}

/// The first matching index only depends on the stored keys.
pub proof fn lemma_first_key_stable(
    es1: Seq<BoardEntry>,
    es2: Seq<BoardEntry>,
    board: u64,
    prev: Option<u64>,
)
    requires
        es1.len() == es2.len(),
        forall|i: int|
            0 <= i < es1.len() ==> ((#[trigger] es2[i]).board == (#[trigger] es1[i]).board
                && es2[i].prev == es1[i].prev),
    ensures
        first_key(es1, board, prev) == first_key(es2, board, prev),
    decreases es1.len(),
{
    if es1.len() > 0 {
        let r1 = es1.skip(1);
        let r2 = es2.skip(1);
        assert(forall|i: int| 0 <= i < r1.len() ==> #[trigger] r1[i] == es1[i + 1]);
        assert(forall|i: int| 0 <= i < r2.len() ==> #[trigger] r2[i] == es2[i + 1]);
        lemma_first_key_stable(r1, r2, board, prev);
        assert(same_key(es1[0], board, prev) == same_key(es2[0], board, prev));
    }
}

/// The sort permutation of a list of rank keys, as produced by a stable
/// ascending sort: position `i` of the sorted order was position `idx[i]`.
///
/// Relies on `permutation::sort` and `Permutation::apply_slice`: `sort`
/// builds the identity index list and stably sorts it by the keys, and
/// `apply_slice` applied to the identity list reads those indices back.
#[verifier::external_body]
fn sort_indices(keys: &Vec<u16>) -> (idx: Vec<usize>)
    ensures
        idx@.len() == keys@.len(),
        forall|i: int| 0 <= i < idx@.len() ==> (#[trigger] idx@[i]) < keys@.len(),
        forall|i: int, j: int| 0 <= i < j < idx@.len() ==> idx@[i] != idx@[j],
        forall|i: int, j: int|
            0 <= i < j < idx@.len() ==> keys@[idx@[i] as int] <= keys@[idx@[j] as int],
        forall|i: int, j: int|
            0 <= i < j < idx@.len() && keys@[idx@[i] as int] == keys@[idx@[j] as int]
                ==> idx@[i] < idx@[j],
{
    let perm = permutation::sort(keys.as_slice());
    let identity: Vec<usize> = (0..keys.len()).collect();
    perm.apply_slice(&identity)
}


/// Index of the first entry with the given key, or `-1` when there is none.
pub open spec fn first_key(entries: Seq<BoardEntry>, board: u64, prev: Option<u64>) -> int
    decreases entries.len(),
{
    if entries.len() == 0 {
        -1
    } else if same_key(entries[0], board, prev) {
        0
    } else {
        let r = first_key(entries.skip(1), board, prev);
        if r == -1 {
            -1
        } else {
            r + 1
        }
    }
}

/// What the first matching index satisfies.
pub proof fn lemma_first_key_props(entries: Seq<BoardEntry>, board: u64, prev: Option<u64>)
    ensures
        first_key(entries, board, prev) >= -1,
        first_key(entries, board, prev) == -1 ==> forall|i: int|
            0 <= i < entries.len() ==> !same_key(#[trigger] entries[i], board, prev),
        first_key(entries, board, prev) >= 0 ==> {
            let f = first_key(entries, board, prev);
            &&& f < entries.len()
            &&& same_key(entries[f], board, prev)
            &&& forall|k: int| 0 <= k < f ==> !same_key(#[trigger] entries[k], board, prev)
        },
    decreases entries.len(),
{
    if entries.len() > 0 {
        let rest = entries.skip(1);
        lemma_first_key_props(rest, board, prev);
        assert(forall|i: int| 0 <= i < rest.len() ==> #[trigger] rest[i] == entries[i + 1]);
        if !same_key(entries[0], board, prev) {
            let r = first_key(rest, board, prev);
            assert(first_key(entries, board, prev) == if r == -1 {
                -1int
            } else {
                r + 1
            });
            assert(r >= 0 ==> r < rest.len() && same_key(rest[r], board, prev));
            if r == -1 {
                assert forall|i: int| 0 <= i < entries.len() implies !same_key(
                    #[trigger] entries[i],
                    board,
                    prev,
                ) by {
                    if i > 0 {
                        assert(rest[i - 1] == entries[i]);
                    }
                }
            } else {
                assert(first_key(entries, board, prev) == r + 1);
                assert(rest[r] == entries[r + 1]);
                assert forall|k: int| 0 <= k < r + 1 implies !same_key(
                    #[trigger] entries[k],
                    board,
                    prev,
                ) by {
                    if k > 0 {
                        assert(rest[k - 1] == entries[k]);
                    }
                }
            }
        }
    }
}

/// Index of the first deck for the given board mask, or `-1`.
pub open spec fn first_deck(decks: Seq<DeckEntry>, board: u64) -> int
    decreases decks.len(),
{
    if decks.len() == 0 {
        -1
    } else if decks[0].board == board {
        0
    } else {
        let r = first_deck(decks.skip(1), board);
        if r == -1 {
            -1
        } else {
            r + 1
        }
    }
}

/// What the first matching deck index satisfies.
pub proof fn lemma_first_deck_props(decks: Seq<DeckEntry>, board: u64)
    ensures
        first_deck(decks, board) >= -1,
        first_deck(decks, board) == -1 ==> forall|i: int|
            0 <= i < decks.len() ==> (#[trigger] decks[i]).board != board,
        first_deck(decks, board) >= 0 ==> {
            let f = first_deck(decks, board);
            &&& f < decks.len()
            &&& decks[f].board == board
            &&& forall|k: int| 0 <= k < f ==> (#[trigger] decks[k]).board != board
        },
    decreases decks.len(),
{
    if decks.len() > 0 {
        let rest = decks.skip(1);
        lemma_first_deck_props(rest, board);
        assert(forall|i: int| 0 <= i < rest.len() ==> #[trigger] rest[i] == decks[i + 1]);
        if decks[0].board != board {
            let r = first_deck(rest, board);
            if r == -1 {
                assert forall|i: int| 0 <= i < decks.len() implies (#[trigger] decks[i]).board
                    != board by {
                    if i > 0 {
                        assert(rest[i - 1] == decks[i]);
                    }
                }
            } else {
                assert(first_deck(decks, board) == r + 1);
                assert(rest[r] == decks[r + 1]);
                assert forall|k: int| 0 <= k < r + 1 implies (#[trigger] decks[k]).board
                    != board by {
                    if k > 0 {
                        assert(rest[k - 1] == decks[k]);
                    }
                }
            }
        }
    }
}

impl RangeManager {
    /// There is an entry under the given key.
    pub open spec fn has_key(self, board: u64, prev: Option<u64>) -> bool {
        first_key(self.entries@, board, prev) >= 0
    }

    /// The entry stored under a key: the first one that matches.
    pub open spec fn entry_of(self, board: u64, prev: Option<u64>) -> BoardEntry {
        self.entries@[first_key(self.entries@, board, prev)]
    }

    /// There is a deck stored for the given board mask.
    pub open spec fn has_deck(self, board: u64) -> bool {
        first_deck(self.decks@, board) >= 0
    }

    /// The deck stored for a board mask: the first one that matches.
    pub open spec fn deck_of(self, board: u64) -> DeckEntry {
        self.decks@[first_deck(self.decks@, board)]
    }

    /// A matching entry with no earlier match is the stored one.
    pub proof fn lemma_entry_at(self, i: int, board: u64, prev: Option<u64>)
        requires
            0 <= i < self.entries@.len(),
            same_key(self.entries@[i], board, prev),
            forall|k: int| 0 <= k < i ==> !same_key(#[trigger] self.entries@[k], board, prev),
        ensures
            self.has_key(board, prev),
            first_key(self.entries@, board, prev) == i,
            self.entry_of(board, prev) == self.entries@[i],
    {
        lemma_first_key_props(self.entries@, board, prev);
        let f = first_key(self.entries@, board, prev);
        if f == -1 {
            assert(!same_key(self.entries@[i], board, prev));
        } else {
            if f < i {
                assert(!same_key(self.entries@[f], board, prev));
            }
            if i < f {
                assert(!same_key(self.entries@[i], board, prev));
            }
        }
    }

    /// Some matching entry means the key is present.
    pub proof fn lemma_has_key_exists(self, board: u64, prev: Option<u64>)
        requires
            exists|i: int|
                0 <= i < self.entries@.len() && same_key(#[trigger] self.entries@[i], board, prev),
        ensures
            self.has_key(board, prev),
            0 <= first_key(self.entries@, board, prev) < self.entries@.len(),
            same_key(self.entry_of(board, prev), board, prev),
    {
        lemma_first_key_props(self.entries@, board, prev);
        if first_key(self.entries@, board, prev) == -1 {
            let i = choose|i: int|
                0 <= i < self.entries@.len() && same_key(
                    #[trigger] self.entries@[i],
                    board,
                    prev,
                );
            assert(!same_key(self.entries@[i], board, prev));
        }
    }

    /// A matching deck with no earlier match is the stored one.
    pub proof fn lemma_deck_at(self, i: int, board: u64)
        requires
            0 <= i < self.decks@.len(),
            self.decks@[i].board == board,
            forall|k: int| 0 <= k < i ==> (#[trigger] self.decks@[k]).board != board,
        ensures
            self.has_deck(board),
            first_deck(self.decks@, board) == i,
            self.deck_of(board) == self.decks@[i],
    {
        lemma_first_deck_props(self.decks@, board);
        let f = first_deck(self.decks@, board);
        if f == -1 {
            assert(self.decks@[i].board != board);
        } else {
            if f < i {
                assert(self.decks@[f].board != board);
            }
            if i < f {
                assert(self.decks@[i].board != board);
            }
        }
    }

    /// Some matching deck means the deck is present.
    pub proof fn lemma_has_deck_exists(self, board: u64)
        requires
            exists|i: int|
                0 <= i < self.decks@.len() && (#[trigger] self.decks@[i]).board == board,
        ensures
            self.has_deck(board),
            0 <= first_deck(self.decks@, board) < self.decks@.len(),
            self.deck_of(board).board == board,
    {
        lemma_first_deck_props(self.decks@, board);
        if first_deck(self.decks@, board) == -1 {
            let i = choose|i: int|
                0 <= i < self.decks@.len() && (#[trigger] self.decks@[i]).board == board;
            assert(self.decks@[i].board != board);
        }
    }

    /// Basic well-formedness: every entry and deck is well-formed and
    /// extends the initial board, which is a valid flop, turn or river.
    pub open spec fn wf(self) -> bool {
        &&& valid_board_string(self.initial_board@)
        &&& self.initial_cards@ == spec_cards_of(self.initial_board@)
        &&& forall|i: int|
            0 <= i < self.entries@.len() ==> entry_wf(
                #[trigger] self.entries@[i],
                self.initial_cards@,
            )
        &&& forall|i: int| 0 <= i < self.decks@.len() ==> deck_wf(#[trigger] self.decks@[i])
    }

    /// Law: in a ready range manager, every board entry below the initial
    /// street is tied to a parent entry holding its board minus the last
    /// dealt card, and each side's reach mapping sends each combo, one to
    /// one, to a parent combo with the same two cards and the same weight.
    /// The rank sort of [`RangeManager::update_ranks`] keeps this: it
    /// permutes a river range and its mapping together.
    pub proof fn lemma_reach_mappings_sound(self, p: int)
        requires
            self.ready(),
            0 <= p < self.entries@.len(),
            self.entries@[p].cards@.len() > self.initial_cards@.len(),
        ensures
            entry_mapped_in(self.entries@, p),
    {
    }

    /// Find the position of the entry with the given key.
    fn find_entry(&self, board: u64, previous_board: Option<u64>) -> (r: Option<usize>)
        ensures
            match r {
                Some(i) => {
                    &&& 0 <= i < self.entries@.len()
                    &&& same_key(self.entries@[i as int], board, previous_board)
                    &&& first_key(self.entries@, board, previous_board) == i
                    &&& self.entry_of(board, previous_board) == self.entries@[i as int]
                },
                None => !self.has_key(board, previous_board),
            },
    {
        let n = self.entries.len();
        let mut i: usize = 0;
        while i < n
            invariant
                0 <= i <= n,
                n == self.entries@.len(),
                forall|k: int|
                    0 <= k < i ==> !same_key(#[trigger] self.entries@[k], board, previous_board),
            decreases n - i,
        {
            let e = &self.entries[i];
            let prev_matches = match (&e.prev, &previous_board) {
                (Option::None, Option::None) => true,
                (Option::Some(x), Option::Some(y)) => *x == *y,
                _ => false,
            };
            if e.board == board && prev_matches {
                proof {
                    self.lemma_entry_at(i as int, board, previous_board);
                }
                return Some(i);
            }
            i = i + 1;
        }
        proof {
            lemma_first_key_props(self.entries@, board, previous_board);
            if first_key(self.entries@, board, previous_board) >= 0 {
                let f = first_key(self.entries@, board, previous_board);
                assert(!same_key(self.entries@[f], board, previous_board));
            }
        }
        None
    }

    /// The stored range of one side on one board key.
    pub fn get_range(&self, oop: bool, board: u64, previous_board: Option<u64>) -> (r: &HandRange)
        requires
            self.has_key(board, previous_board),
        ensures
            *r == side_of(self.entry_of(board, previous_board), oop),
    {
        let idx = self.find_entry(board, previous_board);
        match idx {
            Some(i) => {
                if oop {
                    &self.entries[i].oop_hands
                } else {
                    &self.entries[i].ip_hands
                }
            },
            None => {
                // unreachable: the key is present
                proof {
                    assert(false);
                }
                &self.entries[0].oop_hands
            },
        }
    }

    /// Number of combos one side holds on one board key.
    pub fn get_num_hands(&self, oop: bool, board: u64, previous_board: Option<u64>) -> (n: usize)
        requires
            self.has_key(board, previous_board),
        ensures
            n == side_of(self.entry_of(board, previous_board), oop).hands@.len(),
    {
        self.get_range(oop, board, previous_board).hands.len()
    }

    /// The reach mapping of one side on one board key.
    pub fn get_reach_mapping(&self, oop: bool, board: u64, previous_board: Option<u64>) -> (r:
        &Vec<u16>)
        requires
            self.has_key(board, previous_board),
        ensures
            r@ == mapping_of(self.entry_of(board, previous_board), oop),
    {
        let idx = self.find_entry(board, previous_board);
        match idx {
            Some(i) => {
                if oop {
                    &self.entries[i].oop_mapping
                } else {
                    &self.entries[i].ip_mapping
                }
            },
            None => {
                proof {
                    assert(false);
                }
                &self.entries[0].oop_mapping
            },
        }
    }

    /// The residual deck of a flop or turn board.
    pub fn get_board_deck(&self, board: u64) -> (r: &Vec<u8>)
        requires
            self.has_deck(board),
        ensures
            r@ == self.deck_of(board).deck@,
    {
        let n = self.decks.len();
        let mut i: usize = 0;
        while i < n
            invariant
                0 <= i <= n,
                n == self.decks@.len(),
                self.has_deck(board),
                forall|k: int| 0 <= k < i ==> (#[trigger] self.decks@[k]).board != board,
            decreases n - i,
        {
            if self.decks[i].board == board {
                proof {
                    self.lemma_deck_at(i as int, board);
                }
                return &self.decks[i].deck;
            }
            i = i + 1;
        }
        proof {
            lemma_first_deck_props(self.decks@, board);
            let f = first_deck(self.decks@, board);
            assert(!(self.decks@[f].board == board));
            assert(false);
        }
        &self.decks[0].deck
    }

    /// Every deck belongs to the initial board or to one of its turn
    /// extensions, and is well-formed.
    pub open spec fn decks_shape(self) -> bool {
        forall|i: int|
            0 <= i < self.decks@.len() ==> {
                let d = #[trigger] self.decks@[i];
                &&& deck_wf(d)
                &&& distinct_cards(d.cards@)
                &&& d.cards@.take(self.initial_cards@.len() as int) == self.initial_cards@
                &&& (d.cards@.len() == self.initial_cards@.len() || (self.initial_cards@.len() == 3
                    && d.cards@.len() == 4))
            }
    }

    /// The decks the tree builder needs are present: one for the initial
    /// board when it is a flop or turn, and one per turn board when it is
    /// a flop.
    pub open spec fn decks_ready(self) -> bool {
        let init = self.initial_cards@;
        &&& (init.len() <= 4 ==> self.has_deck(mask_of(init)))
        &&& (init.len() == 3 ==> forall|q: int|
            0 <= q < self.deck_of(mask_of(init)).deck@.len() ==> self.has_deck(
                mask_of(init.push(#[trigger] self.deck_of(mask_of(init)).deck@[q])),
            ))
    }

    /// Under `decks_shape`, the deck stored for the initial board's mask
    /// belongs to the initial board.
    pub proof fn lemma_deck_of_initial(self)
        requires
            self.decks_shape(),
            self.has_deck(mask_of(self.initial_cards@)),
            forall|i: int| 0 <= i < self.initial_cards@.len() ==> #[trigger] self.initial_cards@[i] < 52,
            self.initial_cards@.len() >= 3,
        ensures
            self.deck_of(mask_of(self.initial_cards@)).cards@ == self.initial_cards@,
    {
        let init = self.initial_cards@;
        let m0 = mask_of(init);
        lemma_first_deck_props(self.decks@, m0);
        let d = self.deck_of(m0);
        assert(d.board == m0);
        if d.cards@.len() == init.len() {
            assert(d.cards@ =~= init);
        } else {
            let x = d.cards@[init.len() as int];
            assert(d.cards@ =~= init.push(x));
            assert(!init.contains(x)) by {
                if init.contains(x) {
                    let j = choose|j: int| 0 <= j < init.len() && init[j] == x;
                    assert(d.cards@[j] == init[j]);
                    assert(distinct_cards(d.cards@));
                    assert(d.cards@[j] == d.cards@[init.len() as int]);
                }
            }
            assert(d.cards@[init.len() as int] < 52);
            lemma_mask_extend_changes(init, x);
            assert(false);
        }
    }

    /// Under `decks_shape`, the deck stored for a turn extension's mask
    /// belongs to exactly that turn board.
    pub proof fn lemma_deck_of_turn(self, c: u8)
        requires
            self.decks_shape(),
            self.initial_cards@.len() == 3,
            forall|i: int| 0 <= i < self.initial_cards@.len() ==> #[trigger] self.initial_cards@[i] < 52,
            c < 52,
            !self.initial_cards@.contains(c),
            self.has_deck(mask_of(self.initial_cards@.push(c))),
        ensures
            self.deck_of(mask_of(self.initial_cards@.push(c))).cards@
                == self.initial_cards@.push(c),
    {
        let init = self.initial_cards@;
        let mt = mask_of(init.push(c));
        lemma_first_deck_props(self.decks@, mt);
        let d = self.deck_of(mt);
        assert(d.board == mt);
        if d.cards@.len() == init.len() {
            assert(d.cards@ =~= init);
            lemma_mask_extend_changes(init, c);
            assert(false);
        } else {
            let x = d.cards@[3];
            assert(d.cards@ =~= init.push(x));
            assert(!init.contains(x)) by {
                if init.contains(x) {
                    let j = choose|j: int| 0 <= j < init.len() && init[j] == x;
                    assert(d.cards@[j] == init[j]);
                    assert(d.cards@[j] == d.cards@[3]);
                }
            }
            assert(x < 52);
            if x != c {
                lemma_mask_extend_distinct(init, x, c);
                assert(false);
            }
        }
    }

    /// Every range stored in every entry is clear of that entry's board.
    pub open spec fn ranges_clear(self) -> bool {
        forall|i: int|
            0 <= i < self.entries@.len() ==> {
                let e = #[trigger] self.entries@[i];
                &&& range_all_clear(e.oop_hands, e.cards@)
                &&& range_all_clear(e.ip_hands, e.cards@)
            }
    }

    /// Every entry below the initial street has its ranges freshly filtered
    /// from a parent entry, with the reach mappings pointing back at it.
    pub open spec fn links_fresh(self) -> bool {
        forall|p: int|
            0 <= p < self.entries@.len() && (#[trigger] self.entries@[p]).cards@.len()
                > self.initial_cards@.len() ==> entry_linked_in(self.entries@, p)
    }

    /// Every entry below the initial street has reach mappings pointing
    /// back at a parent entry; this survives the rank sort of a river
    /// entry, which permutes its combos and its mapping together.
    pub open spec fn links_mapped(self) -> bool {
        forall|p: int|
            0 <= p < self.entries@.len() && (#[trigger] self.entries@[p]).cards@.len()
                > self.initial_cards@.len() ==> entry_mapped_in(self.entries@, p)
    }

    /// Every board key the tree builder can ask for is present: the initial
    /// board, every turn extension of a flop and every river extension of
    /// those turns, or every river extension of an initial turn.
    pub open spec fn expanded(self) -> bool {
        let init = self.initial_cards@;
        &&& self.has_key(mask_of(init), None)
        &&& (init.len() == 3 ==> {
            let d0 = self.deck_of(mask_of(init));
            forall|q: int|
                0 <= q < d0.deck@.len() ==> {
                    let tcards = init.push(#[trigger] d0.deck@[q]);
                    &&& self.has_key(mask_of(tcards), None)
                    &&& {
                        let dt = self.deck_of(mask_of(tcards));
                        forall|u: int|
                            0 <= u < dt.deck@.len() ==> self.has_key(
                                mask_of(tcards.push(#[trigger] dt.deck@[u])),
                                Some(mask_of(tcards)),
                            )
                    }
                }
        })
        &&& (init.len() == 4 ==> {
            let d0 = self.deck_of(mask_of(init));
            forall|q: int|
                0 <= q < d0.deck@.len() ==> self.has_key(
                    mask_of(init.push(#[trigger] d0.deck@[q])),
                    None,
                )
        })
    }

    /// A board the tree can stand on: the initial board, a turn extension
    /// of an initial flop, a river extension of such a turn, or a river
    /// extension of an initial turn.
    pub open spec fn board_reachable(self, cards: Seq<u8>) -> bool {
        let init = self.initial_cards@;
        ||| cards == init
        ||| (init.len() == 3 && exists|q: int|
            0 <= q < self.deck_of(mask_of(init)).deck@.len() && cards == init.push(
                #[trigger] self.deck_of(mask_of(init)).deck@[q],
            ))
        ||| (init.len() == 3 && exists|q: int, u: int|
            {
                &&& 0 <= q < self.deck_of(mask_of(init)).deck@.len()
                &&& 0 <= u < self.deck_of(
                    mask_of(init.push(#[trigger] self.deck_of(mask_of(init)).deck@[q])),
                ).deck@.len()
                &&& cards == init.push(self.deck_of(mask_of(init)).deck@[q]).push(
                    #[trigger] self.deck_of(
                        mask_of(init.push(self.deck_of(mask_of(init)).deck@[q])),
                    ).deck@[u],
                )
            })
        ||| (init.len() == 4 && exists|q: int|
            0 <= q < self.deck_of(mask_of(init)).deck@.len() && cards == init.push(
                #[trigger] self.deck_of(mask_of(init)).deck@[q],
            ))
    }

    /// What a reachable board guarantees: its key is stored, its cards are
    /// a valid partial board, and below the river its residual deck is
    /// stored and every deck card leads to another reachable board.
    pub proof fn lemma_reachable(self, cards: Seq<u8>)
        requires
            self.ready(),
            self.board_reachable(cards),
        ensures
            self.has_key(
                mask_of(cards),
                spec_prev_key(self.initial_cards@.len() as int, cards),
            ),
            self.initial_cards@.len() <= cards.len() <= 5,
            3 <= self.initial_cards@.len() <= 5,
            cards.take(self.initial_cards@.len() as int) == self.initial_cards@,
            forall|i: int| 0 <= i < cards.len() ==> #[trigger] cards[i] < 52,
            distinct_cards(cards),
            cards.len() < 5 ==> {
                &&& self.has_deck(mask_of(cards))
                &&& self.deck_of(mask_of(cards)).cards@ == cards
                &&& deck_wf(self.deck_of(mask_of(cards)))
                &&& cards.len() + self.deck_of(mask_of(cards)).deck@.len() == 52
                &&& forall|q: int|
                    0 <= q < self.deck_of(mask_of(cards)).deck@.len()
                        ==> self.board_reachable(
                        cards.push(#[trigger] self.deck_of(mask_of(cards)).deck@[q]),
                    )
            },
    {
        let init = self.initial_cards@;
        crate::cards::lemma_cards_of_bounds(self.initial_board@);
        assert(valid_board_string(self.initial_board@));
        assert(distinct_cards(init));
        assert(3 <= init.len() <= 5);
        let m0 = mask_of(init);
        if cards == init {
            assert(cards.take(init.len() as int) =~= init);
            assert(self.has_key(mask_of(init), None));
            assert(spec_prev_key(init.len() as int, cards) == None::<u64>);
            if init.len() < 5 {
                self.lemma_deck_of_initial();
                lemma_first_deck_props(self.decks@, m0);
                assert(deck_wf(self.deck_of(m0)));
            }
        } else if init.len() == 3 && cards.len() == 4 {
            let q = choose|q: int|
                0 <= q < self.deck_of(m0).deck@.len() && cards == init.push(
                    #[trigger] self.deck_of(m0).deck@[q],
                );
            let c = self.deck_of(m0).deck@[q];
            self.lemma_deck_of_initial();
            lemma_first_deck_props(self.decks@, m0);
            assert(deck_wf(self.deck_of(m0)));
            assert(self.deck_of(m0).deck@.contains(c)) by {
                assert(self.deck_of(m0).deck@[q] == c);
            }
            assert(c < 52 && !init.contains(c));
            assert(cards.take(3) =~= init);
            assert(distinct_cards(cards)) by {
                assert(forall|i: int| 0 <= i < init.len() ==> cards[i] == init[i]);
            }
            assert(self.has_key(mask_of(cards), None));
            assert(spec_prev_key(init.len() as int, cards) == None::<u64>);
            self.lemma_deck_of_turn(c);
            lemma_first_deck_props(self.decks@, mask_of(cards));
            assert(deck_wf(self.deck_of(mask_of(cards))));
            let dt = self.deck_of(mask_of(cards));
            assert forall|u: int| 0 <= u < dt.deck@.len() implies self.board_reachable(
                cards.push(#[trigger] dt.deck@[u]),
            ) by {
                assert(0 <= q < self.deck_of(m0).deck@.len() && 0 <= u < self.deck_of(
                    mask_of(init.push(self.deck_of(m0).deck@[q])),
                ).deck@.len() && cards.push(dt.deck@[u]) == init.push(
                    self.deck_of(m0).deck@[q],
                ).push(self.deck_of(mask_of(init.push(self.deck_of(m0).deck@[q]))).deck@[u]));
            }
        } else if init.len() == 3 && cards.len() == 5 {
            let (q, u) = choose|q: int, u: int|
                {
                    &&& 0 <= q < self.deck_of(mask_of(init)).deck@.len()
                    &&& 0 <= u < self.deck_of(
                        mask_of(init.push(#[trigger] self.deck_of(mask_of(init)).deck@[q])),
                    ).deck@.len()
                    &&& cards == init.push(self.deck_of(mask_of(init)).deck@[q]).push(
                        #[trigger] self.deck_of(
                            mask_of(init.push(self.deck_of(mask_of(init)).deck@[q])),
                        ).deck@[u],
                    )
                };
            let c = self.deck_of(m0).deck@[q];
            let tcards = init.push(c);
            self.lemma_deck_of_initial();
            lemma_first_deck_props(self.decks@, m0);
            assert(self.deck_of(m0).deck@.contains(c)) by {
                assert(self.deck_of(m0).deck@[q] == c);
            }
            assert(c < 52 && !init.contains(c));
            self.lemma_deck_of_turn(c);
            lemma_first_deck_props(self.decks@, mask_of(tcards));
            assert(deck_wf(self.deck_of(mask_of(tcards))));
            let dt = self.deck_of(mask_of(tcards));
            let c2 = dt.deck@[u];
            assert(dt.deck@.contains(c2)) by {
                assert(dt.deck@[u] == c2);
            }
            assert(c2 < 52 && !tcards.contains(c2));
            assert(cards == tcards.push(c2));
            assert(cards.take(3) =~= init);
            assert(cards.take(4) =~= tcards);
            assert(distinct_cards(tcards)) by {
                assert(forall|i: int| 0 <= i < init.len() ==> tcards[i] == init[i]);
            }
            assert(distinct_cards(cards)) by {
                assert(forall|i: int| 0 <= i < tcards.len() ==> cards[i] == tcards[i]);
            }
            assert(self.has_key(mask_of(cards), Some(mask_of(tcards))));
            assert(spec_prev_key(init.len() as int, cards) == Some(mask_of(cards.take(4))));
            assert(mask_of(cards.take(4)) == mask_of(tcards));
        } else {
            assert(init.len() == 4 && cards.len() == 5);
            let q = choose|q: int|
                0 <= q < self.deck_of(m0).deck@.len() && cards == init.push(
                    #[trigger] self.deck_of(m0).deck@[q],
                );
            let c = self.deck_of(m0).deck@[q];
            self.lemma_deck_of_initial();
            lemma_first_deck_props(self.decks@, m0);
            assert(self.deck_of(m0).deck@.contains(c)) by {
                assert(self.deck_of(m0).deck@[q] == c);
            }
            assert(c < 52 && !init.contains(c));
            assert(cards.take(4) =~= init);
            assert(distinct_cards(cards)) by {
                assert(forall|i: int| 0 <= i < init.len() ==> cards[i] == init[i]);
            }
            assert(self.has_key(mask_of(cards), None));
            assert(spec_prev_key(init.len() as int, cards) == None::<u64>);
        }
    }

    /// The state the tree builder and the trainer require.
    pub open spec fn ready(self) -> bool {
        &&& self.wf()
        &&& self.decks_shape()
        &&& self.decks_ready()
        &&& self.ranges_clear()
        &&& self.links_mapped()
        &&& self.expanded()
    }

    /// Remove the combos that conflict with the initial board and expand
    /// the stored ranges to every reachable child board: every turn and
    /// river of a flop solve, or every river of a turn solve.  Each child
    /// entry holds the parent's range filtered to its board together with
    /// the reach mapping back into the parent range.
    pub fn initialize_ranges(&mut self)
        requires
            old(self).wf(),
            old(self).decks_shape(),
            old(self).decks_ready(),
            old(self).entries@.len() == 1,
            old(self).entries@[0].cards@ == old(self).initial_cards@,
            old(self).entries@[0].board == mask_of(old(self).initial_cards@),
            old(self).entries@[0].prev is None,
        ensures
            final(self).ready(),
            final(self).links_fresh(),
            final(self).decks@ == old(self).decks@,
            final(self).initial_board@ == old(self).initial_board@,
            final(self).initial_cards@ == old(self).initial_cards@,
            final(self).entries@.len() >= 1,
            final(self).entries@[0].cards@ == final(self).initial_cards@,
            final(self).entries@[0].board == mask_of(final(self).initial_cards@),
            final(self).entries@[0].prev is None,
            final(self).entries@[0].oop_mapping@.len() == 0,
            final(self).entries@[0].ip_mapping@.len() == 0,
            final(self).entries@[0].oop_hands.hands@ == old(
                self,
            ).entries@[0].oop_hands.hands@.filter(clear_pred(final(self).initial_cards@)),
            final(self).entries@[0].ip_hands.hands@ == old(
                self,
            ).entries@[0].ip_hands.hands@.filter(clear_pred(final(self).initial_cards@)),
    {
        let ghost init = old(self).initial_cards@;
        proof {
            crate::cards::lemma_cards_of_bounds(self.initial_board@);
        }
        let init_cards = self.initial_cards.clone();
        let m0 = mask_of_cards(&init_cards);
        let street0 = init_cards.len();
        let (oop0, _om) = self.entries[0].oop_hands.filter_with_mapping(&init_cards);
        let (ip0, _im) = self.entries[0].ip_hands.filter_with_mapping(&init_cards);
        let mut es: Vec<BoardEntry> = Vec::new();
        es.push(
            BoardEntry {
                board: m0,
                prev: None,
                cards: init_cards.clone(),
                oop_hands: oop0,
                ip_hands: ip0,
                oop_mapping: Vec::new(),
                ip_mapping: Vec::new(),
            },
        );
        let ghost e0 = es@[0];
        proof {
            assert(e0.cards@.take(init.len() as int) =~= init);
            assert(entry_wf(e0, init));
            assert(range_all_clear(e0.oop_hands, e0.cards@) && range_all_clear(
                e0.ip_hands,
                e0.cards@,
            )) by {
                assert forall|k: int| 0 <= k < e0.oop_hands.hands@.len() implies combo_clear_of(
                    #[trigger] e0.oop_hands.hands@[k],
                    e0.cards@,
                ) by {
                    old(self).entries@[0].oop_hands.hands@.lemma_filter_pred(
                        clear_pred(init),
                        k,
                    );
                }
                assert forall|k: int| 0 <= k < e0.ip_hands.hands@.len() implies combo_clear_of(
                    #[trigger] e0.ip_hands.hands@[k],
                    e0.cards@,
                ) by {
                    old(self).entries@[0].ip_hands.hands@.lemma_filter_pred(clear_pred(init), k);
                }
            }
        }
        if street0 == 3 {
            let deck0 = self.get_board_deck(m0).clone();
            proof {
                self.lemma_deck_of_initial();
            }
            let n = deck0.len();
            proof {
                lemma_first_deck_props(self.decks@, m0);
                assert(deck_wf(self.deck_of(m0)));
                assert(n == 49);
            }
            let mut q: usize = 0;
            while q < n
                invariant
                    0 <= q <= n,
                    n == 49,
                    *self == *old(self),
                    self.wf(),
                    self.decks_shape(),
                    self.decks_ready(),
                    init == self.initial_cards@,
                    init.len() == 3,
                    forall|i: int| 0 <= i < init.len() ==> #[trigger] init[i] < 52,
                    distinct_cards(init),
                    init_cards@ == init,
                    m0 == mask_of(init),
                    self.has_deck(m0),
                    deck0@ == self.deck_of(m0).deck@,
                    self.deck_of(m0).cards@ == init,
                    deck_wf(self.deck_of(m0)),
                    n == deck0@.len(),
                    es@.len() == 1 + q * 49,
                    es@[0] == e0,
                    forall|i: int| 0 <= i < es@.len() ==> entry_wf(#[trigger] es@[i], init),
                    forall|i: int|
                        0 <= i < es@.len() ==> range_all_clear(
                            (#[trigger] es@[i]).oop_hands,
                            es@[i].cards@,
                        ) && range_all_clear(es@[i].ip_hands, es@[i].cards@),
                    forall|p: int|
                        0 <= p < q ==> turn_block_ok(
                            es@,
                            self.deck_of(mask_of(init.push(#[trigger] deck0@[p]))).deck@,
                            init,
                            deck0@[p],
                            1 + p * 49,
                            48,
                        ),
                    forall|p: int|
                        0 <= p < q ==> self.deck_of(
                            mask_of(init.push(#[trigger] deck0@[p])),
                        ).deck@.len() == 48,
                decreases n - q,
            {
                let c = deck0[q];
                proof {
                    assert(deck0@.contains(c)) by {
                        assert(deck0@[q as int] == c);
                    }
                    assert(c < 52 && !init.contains(c));
                }
                let mut tcards = init_cards.clone();
                tcards.push(c);
                proof {
                    assert(tcards@ == init.push(c));
                    assert(distinct_cards(tcards@)) by {
                        assert(forall|i: int| 0 <= i < init.len() ==> tcards@[i] == init[i]);
                    }
                    assert(forall|i: int| 0 <= i < tcards@.len() ==> #[trigger] tcards@[i] < 52);
                    assert(tcards@.take(3) =~= init);
                    assert(tcards@.drop_last() =~= init);
                }
                let mt = mask_of_cards(&tcards);
                let (toop, tmo) = es[0].oop_hands.filter_with_mapping(&tcards);
                let (tip, tmi) = es[0].ip_hands.filter_with_mapping(&tcards);
                let tpos = es.len();
                es.push(
                    BoardEntry {
                        board: mt,
                        prev: None,
                        cards: tcards.clone(),
                        oop_hands: toop,
                        ip_hands: tip,
                        oop_mapping: tmo,
                        ip_mapping: tmi,
                    },
                );
                let ghost te = es@[tpos as int];
                proof {
                    assert(te.cards@.take(3) =~= init);
                    assert(entry_wf(te, init)) by {
                        assert(te.prev == spec_prev_key(3, te.cards@));
                    }
                    lemma_clear_of_filter(e0.oop_hands.hands@, te.oop_hands.hands@, te.cards@);
                    lemma_clear_of_filter(e0.ip_hands.hands@, te.ip_hands.hands@, te.cards@);
                }
                let deck_t = self.get_board_deck(mt).clone();
                proof {
                    self.lemma_deck_of_turn(c);
                    lemma_first_deck_props(self.decks@, mt);
                    assert(deck_wf(self.deck_of(mt)));
                    assert(self.deck_of(mt).deck@.len() == 48);
                }
                let rn = deck_t.len();
                let mut u: usize = 0;
                while u < rn
                    invariant
                        0 <= u <= rn,
                        rn == 48,
                        *self == *old(self),
                        self.wf(),
                        self.decks_shape(),
                        self.decks_ready(),
                        init == self.initial_cards@,
                        init.len() == 3,
                        forall|i: int| 0 <= i < init.len() ==> #[trigger] init[i] < 52,
                        distinct_cards(init),
                        init_cards@ == init,
                        m0 == mask_of(init),
                        self.has_deck(m0),
                        deck0@ == self.deck_of(m0).deck@,
                        self.deck_of(m0).cards@ == init,
                        deck_wf(self.deck_of(m0)),
                        n == deck0@.len(),
                        n == 49,
                        q < n,
                        c == deck0@[q as int],
                        c < 52,
                        !init.contains(c),
                        tcards@ == init.push(c),
                        mt == mask_of(tcards@),
                        self.has_deck(mt),
                        deck_t@ == self.deck_of(mt).deck@,
                        self.deck_of(mt).cards@ == tcards@,
                        deck_wf(self.deck_of(mt)),
                        rn == deck_t@.len(),
                        tpos == 1 + q * 49,
                        es@.len() == tpos + 1 + u,
                        es@[0] == e0,
                        es@[tpos as int] == te,
                        te.cards@ == tcards@,
                        te.board == mt,
                        te.prev is None,
                        te.oop_hands.hands@ == e0.oop_hands.hands@.filter(clear_pred(tcards@)),
                        te.ip_hands.hands@ == e0.ip_hands.hands@.filter(clear_pred(tcards@)),
                        mapping_ok(te.oop_mapping@, te.oop_hands.hands@, e0.oop_hands.hands@),
                        mapping_ok(te.ip_mapping@, te.ip_hands.hands@, e0.ip_hands.hands@),
                        forall|i: int| 0 <= i < es@.len() ==> entry_wf(#[trigger] es@[i], init),
                        forall|i: int|
                            0 <= i < es@.len() ==> range_all_clear(
                                (#[trigger] es@[i]).oop_hands,
                                es@[i].cards@,
                            ) && range_all_clear(es@[i].ip_hands, es@[i].cards@),
                        forall|p: int|
                            0 <= p < q ==> turn_block_ok(
                                es@,
                                self.deck_of(mask_of(init.push(#[trigger] deck0@[p]))).deck@,
                                init,
                                deck0@[p],
                                1 + p * 49,
                                48,
                            ),
                        forall|p: int|
                            0 <= p < q ==> self.deck_of(
                                mask_of(init.push(#[trigger] deck0@[p])),
                            ).deck@.len() == 48,
                        turn_block_ok(es@, deck_t@, init, c, tpos as int, u as int),
                    decreases rn - u,
                {
                    let c2 = deck_t[u];
                    proof {
                        assert(deck_t@.contains(c2)) by {
                            assert(deck_t@[u as int] == c2);
                        }
                        assert(c2 < 52 && !tcards@.contains(c2));
                    }
                    let mut rcards = tcards.clone();
                    rcards.push(c2);
                    proof {
                        assert(rcards@ == tcards@.push(c2));
                        assert(distinct_cards(rcards@)) by {
                            assert(forall|i: int|
                                0 <= i < tcards@.len() ==> rcards@[i] == tcards@[i]);
                        }
                        assert(forall|i: int|
                            0 <= i < rcards@.len() ==> #[trigger] rcards@[i] < 52);
                        assert(rcards@.take(3) =~= init);
                        assert(rcards@.take(4) =~= tcards@);
                        assert(rcards@.drop_last() =~= tcards@);
                    }
                    let mr = mask_of_cards(&rcards);
                    let (roop, rmo) = es[tpos].oop_hands.filter_with_mapping(&rcards);
                    let (rip, rmi) = es[tpos].ip_hands.filter_with_mapping(&rcards);
                    es.push(
                        BoardEntry {
                            board: mr,
                            prev: Some(mt),
                            cards: rcards.clone(),
                            oop_hands: roop,
                            ip_hands: rip,
                            oop_mapping: rmo,
                            ip_mapping: rmi,
                        },
                    );
                    let ghost re = es@[es@.len() - 1];
                    proof {
                        assert(re.cards@.take(3) =~= init);
                        assert(entry_wf(re, init)) by {
                            assert(spec_prev_key(3, re.cards@) == Some(mask_of(re.cards@.take(4))));
                            assert(mask_of(re.cards@.take(4)) == mt);
                        }
                        lemma_clear_of_filter(te.oop_hands.hands@, re.oop_hands.hands@, re.cards@);
                        lemma_clear_of_filter(te.ip_hands.hands@, re.ip_hands.hands@, re.cards@);
                        assert(turn_block_ok(es@, deck_t@, init, c, tpos as int, u + 1)) by {
                            assert(es@[tpos as int] == te);
                            assert forall|v: int| 0 <= v < u + 1 implies river_entry_ok(
                                es@,
                                init,
                                c,
                                #[trigger] deck_t@[v],
                                tpos as int,
                                tpos as int + 1 + v,
                            ) by {
                                if v == u {
                                    assert(es@[tpos as int + 1 + v] == re);
                                    assert(re.cards@ == init.push(c).push(deck_t@[v]));
                                }
                            }
                        }
                    }
                    u = u + 1;
                }
                q = q + 1;
            }
            self.entries = es;
            proof {
                let fes = self.entries@;
                let nn = n as int;
                assert forall|p: int|
                    0 <= p < fes.len() && (#[trigger] fes[p]).cards@.len() > init.len() implies (
                entry_linked_in(fes, p) && entry_mapped_in(fes, p)) by {
                    assert(p >= 1);
                    let pp = (p - 1) / 49;
                    let rr = (p - 1) % 49;
                    assert(p - 1 == 49 * pp + rr && 0 <= rr < 49 && 0 <= pp < nn)
                        by (nonlinear_arith)
                        requires
                            1 <= p < 1 + nn * 49,
                            pp == (p - 1) / 49,
                            rr == (p - 1) % 49,
                    ;
                    let c = deck0@[pp];
                    let dtp = self.deck_of(mask_of(init.push(c))).deck@;
                    assert(turn_block_ok(fes, dtp, init, c, 1 + pp * 49, 48));
                    let tpos = 1 + pp * 49;
                    if rr == 0 {
                        assert(p == tpos);
                        assert(fes[p].cards@ == init.push(c));
                        assert(fes[p].cards@.drop_last() =~= init);
                        assert(fes[0] == e0);
                        assert(0 <= 0 < fes.len() && {
                            let par = fes[0];
                            &&& par.cards@ == fes[p].cards@.drop_last()
                            &&& fes[p].oop_hands.hands@ == par.oop_hands.hands@.filter(
                                clear_pred(fes[p].cards@),
                            )
                            &&& fes[p].ip_hands.hands@ == par.ip_hands.hands@.filter(
                                clear_pred(fes[p].cards@),
                            )
                            &&& mapping_ok(
                                fes[p].oop_mapping@,
                                fes[p].oop_hands.hands@,
                                par.oop_hands.hands@,
                            )
                            &&& mapping_ok(
                                fes[p].ip_mapping@,
                                fes[p].ip_hands.hands@,
                                par.ip_hands.hands@,
                            )
                        });
                        assert(entry_linked_in(fes, p));
                    } else {
                        let v = rr - 1;
                        assert(river_entry_ok(fes, init, c, dtp[v], tpos, tpos + 1 + v));
                        assert(p == tpos + 1 + v);
                        assert(fes[p].cards@ == init.push(c).push(dtp[v]));
                        assert(fes[p].cards@.drop_last() =~= init.push(c));
                        assert(fes[tpos].cards@ == init.push(c));
                        assert(0 <= tpos < fes.len() && {
                            let par = fes[tpos];
                            &&& par.cards@ == fes[p].cards@.drop_last()
                            &&& fes[p].oop_hands.hands@ == par.oop_hands.hands@.filter(
                                clear_pred(fes[p].cards@),
                            )
                            &&& fes[p].ip_hands.hands@ == par.ip_hands.hands@.filter(
                                clear_pred(fes[p].cards@),
                            )
                            &&& mapping_ok(
                                fes[p].oop_mapping@,
                                fes[p].oop_hands.hands@,
                                par.oop_hands.hands@,
                            )
                            &&& mapping_ok(
                                fes[p].ip_mapping@,
                                fes[p].ip_hands.hands@,
                                par.ip_hands.hands@,
                            )
                        });
                        assert(entry_linked_in(fes, p));
                    }
                    lemma_linked_is_mapped(fes, p);
                }
                assert(exists|i: int|
                    0 <= i < fes.len() && same_key(#[trigger] fes[i], m0, None)) by {
                    assert(same_key(fes[0], m0, None));
                }
                self.lemma_has_key_exists(m0, None);
                let d0 = self.deck_of(m0);
                assert(d0.deck@ == deck0@);
                assert forall|qq: int| 0 <= qq < d0.deck@.len() implies {
                    let tcards = init.push(#[trigger] d0.deck@[qq]);
                    &&& self.has_key(mask_of(tcards), None)
                    &&& {
                        let dt = self.deck_of(mask_of(tcards));
                        forall|u: int|
                            0 <= u < dt.deck@.len() ==> self.has_key(
                                mask_of(tcards.push(#[trigger] dt.deck@[u])),
                                Some(mask_of(tcards)),
                            )
                    }
                } by {
                    let c = d0.deck@[qq];
                    let tcards = init.push(c);
                    let dtp = self.deck_of(mask_of(tcards)).deck@;
                    assert(turn_block_ok(fes, dtp, init, c, 1 + qq * 49, 48));
                    let tpos = 1 + qq * 49;
                    assert(same_key(fes[tpos], mask_of(tcards), None));
                    assert(exists|i: int|
                        0 <= i < fes.len() && same_key(
                            #[trigger] fes[i],
                            mask_of(tcards),
                            None,
                        )) by {
                        assert(same_key(fes[tpos], mask_of(tcards), None));
                    }
                    self.lemma_has_key_exists(mask_of(tcards), None);
                    let dt = self.deck_of(mask_of(tcards));
                    assert(dt.deck@.len() == 48);
                    assert forall|u: int| 0 <= u < dt.deck@.len() implies self.has_key(
                        mask_of(tcards.push(#[trigger] dt.deck@[u])),
                        Some(mask_of(tcards)),
                    ) by {
                        assert(river_entry_ok(fes, init, c, dt.deck@[u], tpos, tpos + 1 + u));
                        assert(same_key(
                            fes[tpos + 1 + u],
                            mask_of(tcards.push(dt.deck@[u])),
                            Some(mask_of(tcards)),
                        ));
                        assert(exists|i: int|
                            0 <= i < fes.len() && same_key(
                                #[trigger] fes[i],
                                mask_of(tcards.push(dt.deck@[u])),
                                Some(mask_of(tcards)),
                            )) by {
                            assert(same_key(
                                fes[tpos + 1 + u],
                                mask_of(tcards.push(dt.deck@[u])),
                                Some(mask_of(tcards)),
                            ));
                        }
                        self.lemma_has_key_exists(
                            mask_of(tcards.push(dt.deck@[u])),
                            Some(mask_of(tcards)),
                        );
                    }
                }
            }
        } else if street0 == 4 {
            let deck0 = self.get_board_deck(m0).clone();
            proof {
                self.lemma_deck_of_initial();
                lemma_first_deck_props(self.decks@, m0);
                assert(deck_wf(self.deck_of(m0)));
            }
            let n = deck0.len();
            let mut q: usize = 0;
            while q < n
                invariant
                    0 <= q <= n,
                    *self == *old(self),
                    self.wf(),
                    self.decks_shape(),
                    self.decks_ready(),
                    init == self.initial_cards@,
                    init.len() == 4,
                    forall|i: int| 0 <= i < init.len() ==> #[trigger] init[i] < 52,
                    distinct_cards(init),
                    init_cards@ == init,
                    m0 == mask_of(init),
                    self.has_deck(m0),
                    deck0@ == self.deck_of(m0).deck@,
                    self.deck_of(m0).cards@ == init,
                    deck_wf(self.deck_of(m0)),
                    n == deck0@.len(),
                    es@.len() == 1 + q,
                    es@[0] == e0,
                    forall|i: int| 0 <= i < es@.len() ==> entry_wf(#[trigger] es@[i], init),
                    forall|i: int|
                        0 <= i < es@.len() ==> range_all_clear(
                            (#[trigger] es@[i]).oop_hands,
                            es@[i].cards@,
                        ) && range_all_clear(es@[i].ip_hands, es@[i].cards@),
                    forall|p: int|
                        0 <= p < q ==> river_of_initial_ok(
                            es@,
                            init,
                            #[trigger] deck0@[p],
                            1 + p,
                        ),
                decreases n - q,
            {
                let c = deck0[q];
                proof {
                    assert(deck0@.contains(c)) by {
                        assert(deck0@[q as int] == c);
                    }
                    assert(c < 52 && !init.contains(c));
                }
                let mut rcards = init_cards.clone();
                rcards.push(c);
                proof {
                    assert(rcards@ == init.push(c));
                    assert(distinct_cards(rcards@)) by {
                        assert(forall|i: int| 0 <= i < init.len() ==> rcards@[i] == init[i]);
                    }
                    assert(forall|i: int| 0 <= i < rcards@.len() ==> #[trigger] rcards@[i] < 52);
                    assert(rcards@.take(4) =~= init);
                    assert(rcards@.drop_last() =~= init);
                }
                let mr = mask_of_cards(&rcards);
                let (roop, rmo) = es[0].oop_hands.filter_with_mapping(&rcards);
                let (rip, rmi) = es[0].ip_hands.filter_with_mapping(&rcards);
                es.push(
                    BoardEntry {
                        board: mr,
                        prev: None,
                        cards: rcards.clone(),
                        oop_hands: roop,
                        ip_hands: rip,
                        oop_mapping: rmo,
                        ip_mapping: rmi,
                    },
                );
                let ghost re = es@[es@.len() - 1];
                proof {
                    assert(re.cards@.take(4) =~= init);
                    assert(entry_wf(re, init)) by {
                        assert(re.prev == spec_prev_key(4, re.cards@));
                    }
                    lemma_clear_of_filter(e0.oop_hands.hands@, re.oop_hands.hands@, re.cards@);
                    lemma_clear_of_filter(e0.ip_hands.hands@, re.ip_hands.hands@, re.cards@);
                    assert(river_of_initial_ok(es@, init, deck0@[q as int], 1 + q as int)) by {
                        assert(es@[1 + q as int] == re);
                        assert(re.cards@ == init.push(deck0@[q as int]));
                    }
                }
                q = q + 1;
            }
            self.entries = es;
            proof {
                let fes = self.entries@;
                assert forall|p: int|
                    0 <= p < fes.len() && (#[trigger] fes[p]).cards@.len() > init.len() implies (
                entry_linked_in(fes, p) && entry_mapped_in(fes, p)) by {
                    assert(p >= 1);
                    let c = deck0@[p - 1];
                    assert(river_of_initial_ok(fes, init, c, p));
                    assert(fes[p].cards@ == init.push(c));
                    assert(fes[p].cards@.drop_last() =~= init);
                    assert(fes[0] == e0);
                    assert(0 <= 0 < fes.len() && {
                        let par = fes[0];
                        &&& par.cards@ == fes[p].cards@.drop_last()
                        &&& fes[p].oop_hands.hands@ == par.oop_hands.hands@.filter(
                            clear_pred(fes[p].cards@),
                        )
                        &&& fes[p].ip_hands.hands@ == par.ip_hands.hands@.filter(
                            clear_pred(fes[p].cards@),
                        )
                        &&& mapping_ok(
                            fes[p].oop_mapping@,
                            fes[p].oop_hands.hands@,
                            par.oop_hands.hands@,
                        )
                        &&& mapping_ok(
                            fes[p].ip_mapping@,
                            fes[p].ip_hands.hands@,
                            par.ip_hands.hands@,
                        )
                    });
                    assert(entry_linked_in(fes, p));
                    lemma_linked_is_mapped(fes, p);
                }
                assert(exists|i: int|
                    0 <= i < fes.len() && same_key(#[trigger] fes[i], m0, None)) by {
                    assert(same_key(fes[0], m0, None));
                }
                self.lemma_has_key_exists(m0, None);
                let d0 = self.deck_of(m0);
                assert(d0.deck@ == deck0@);
                assert forall|qq: int| 0 <= qq < d0.deck@.len() implies self.has_key(
                    mask_of(init.push(#[trigger] d0.deck@[qq])),
                    None,
                ) by {
                    let c = d0.deck@[qq];
                    assert(river_of_initial_ok(fes, init, c, 1 + qq));
                    assert(same_key(fes[1 + qq], mask_of(init.push(c)), None));
                    assert(exists|i: int|
                        0 <= i < fes.len() && same_key(
                            #[trigger] fes[i],
                            mask_of(init.push(c)),
                            None,
                        )) by {
                        assert(same_key(fes[1 + qq], mask_of(init.push(c)), None));
                    }
                    self.lemma_has_key_exists(mask_of(init.push(c)), None);
                }
            }
        } else {
            self.entries = es;
            proof {
                let fes = self.entries@;
                assert(fes.len() == 1);
                assert forall|p: int|
                    0 <= p < fes.len() && (#[trigger] fes[p]).cards@.len() > init.len() implies (
                entry_linked_in(fes, p) && entry_mapped_in(fes, p)) by {
                    assert(fes[p].cards@.len() == init.len());
                }
                assert(exists|i: int|
                    0 <= i < fes.len() && same_key(#[trigger] fes[i], m0, None)) by {
                    assert(same_key(fes[0], m0, None));
                }
                self.lemma_has_key_exists(m0, None);
                assert(init.len() == 5) by {
                    assert(valid_board_string(self.initial_board@));
                }
            }
        }
    }

    /// Assign showdown ranks to one side of one river board and sort that
    /// side ascending by rank, permuting its reach mapping along so that
    /// each combo keeps pointing at its parent-board position.
    ///
    /// `ranks[k]` is the showdown rank of combo `k` of the stored range,
    /// as the external seven-card evaluator reports it for that combo on
    /// this board; higher rank wins.
    pub fn update_ranks(
        &mut self,
        oop: bool,
        board: u64,
        previous_board: Option<u64>,
        ranks: &Vec<u16>,
    )
        requires
            old(self).ready(),
            old(self).has_key(board, previous_board),
            old(self).entry_of(board, previous_board).cards@.len() == 5,
            ranks@.len() == side_of(old(self).entry_of(board, previous_board), oop).hands@.len(),
        ensures
            final(self).ready(),
            final(self).decks@ == old(self).decks@,
            final(self).initial_board@ == old(self).initial_board@,
            final(self).initial_cards@ == old(self).initial_cards@,
            final(self).entries@.len() == old(self).entries@.len(),
            forall|i: int|
                0 <= i < old(self).entries@.len() && i != first_key(
                    old(self).entries@,
                    board,
                    previous_board,
                ) ==> final(self).entries@[i] == old(self).entries@[i],
            final(self).has_key(board, previous_board),
            first_key(final(self).entries@, board, previous_board) == first_key(
                old(self).entries@,
                board,
                previous_board,
            ),
            ({
                let eo = old(self).entry_of(board, previous_board);
                let en = final(self).entry_of(board, previous_board);
                &&& en.board == eo.board
                &&& en.prev == eo.prev
                &&& en.cards@ == eo.cards@
                &&& side_of(en, !oop).hands@ == side_of(eo, !oop).hands@
                &&& mapping_of(en, !oop) == mapping_of(eo, !oop)
                &&& exists|sig: Seq<int>|
                    {
                        &&& #[trigger] rank_sort_rel(
                            side_of(en, oop).hands@,
                            side_of(eo, oop).hands@,
                            ranks@,
                            sig,
                        )
                        &&& mapping_of(eo, oop).len() == side_of(eo, oop).hands@.len()
                            ==> mapping_of(en, oop).len() == mapping_of(eo, oop).len() && forall|
                            k: int,
                        |
                            0 <= k < sig.len() ==> mapping_of(en, oop)[k] == mapping_of(
                                eo,
                                oop,
                            )[sig[k]]
                        &&& mapping_of(eo, oop).len() != side_of(eo, oop).hands@.len()
                            ==> mapping_of(en, oop) == mapping_of(eo, oop)
                    }
            }),
    {
        let idx_opt = self.find_entry(board, previous_board);
        let i = match idx_opt {
            Some(i) => i,
            None => {
                proof {
                    assert(false);
                }
                0
            },
        };
        let ghost eo = self.entries@[i as int];
        let n = ranks.len();
        let mut ranked: Vec<Combo> = Vec::new();
        let mut k: usize = 0;
        while k < n
            invariant
                0 <= k <= n,
                i < self.entries@.len(),
                self.entries@[i as int] == eo,
                n == ranks@.len(),
                n == side_of(eo, oop).hands@.len(),
                ranked@.len() == k,
                forall|t: int|
                    0 <= t < k ==> #[trigger] ranked@[t] == (Combo {
                        rank: ranks@[t],
                        ..side_of(eo, oop).hands@[t]
                    }),
            decreases n - k,
        {
            let mut c = if oop {
                self.entries[i].oop_hands.hands[k]
            } else {
                self.entries[i].ip_hands.hands[k]
            };
            c.rank = ranks[k];
            ranked.push(c);
            k = k + 1;
        }
        let sidx = sort_indices(ranks);
        let mut newh: Vec<Combo> = Vec::new();
        let mut k2: usize = 0;
        while k2 < n
            invariant
                0 <= k2 <= n,
                n == ranks@.len(),
                sidx@.len() == n,
                forall|t: int| 0 <= t < sidx@.len() ==> (#[trigger] sidx@[t]) < n,
                ranked@.len() == n,
                newh@.len() == k2,
                forall|t: int| 0 <= t < k2 ==> #[trigger] newh@[t] == ranked@[sidx@[t] as int],
            decreases n - k2,
        {
            newh.push(ranked[sidx[k2]]);
            k2 = k2 + 1;
        }
        let old_mapping_len = if oop {
            self.entries[i].oop_mapping.len()
        } else {
            self.entries[i].ip_mapping.len()
        };
        let mut newm: Vec<u16> = Vec::new();
        if old_mapping_len == n {
            let mut k3: usize = 0;
            while k3 < n
                invariant
                    0 <= k3 <= n,
                    i < self.entries@.len(),
                    self.entries@[i as int] == eo,
                    n == ranks@.len(),
                    sidx@.len() == n,
                    forall|t: int| 0 <= t < sidx@.len() ==> (#[trigger] sidx@[t]) < n,
                    mapping_of(eo, oop).len() == n,
                    newm@.len() == k3,
                    forall|t: int|
                        0 <= t < k3 ==> #[trigger] newm@[t] == mapping_of(eo, oop)[sidx@[t] as int],
                decreases n - k3,
            {
                let mv = if oop {
                    self.entries[i].oop_mapping[sidx[k3]]
                } else {
                    self.entries[i].ip_mapping[sidx[k3]]
                };
                newm.push(mv);
                k3 = k3 + 1;
            }
        } else {
            newm = if oop {
                self.entries[i].oop_mapping.clone()
            } else {
                self.entries[i].ip_mapping.clone()
            };
        }
        let new_entry = if oop {
            BoardEntry {
                board: self.entries[i].board,
                prev: self.entries[i].prev,
                cards: self.entries[i].cards.clone(),
                oop_hands: HandRange { hands: newh },
                ip_hands: HandRange { hands: self.entries[i].ip_hands.hands.clone() },
                oop_mapping: newm,
                ip_mapping: self.entries[i].ip_mapping.clone(),
            }
        } else {
            BoardEntry {
                board: self.entries[i].board,
                prev: self.entries[i].prev,
                cards: self.entries[i].cards.clone(),
                oop_hands: HandRange { hands: self.entries[i].oop_hands.hands.clone() },
                ip_hands: HandRange { hands: newh },
                oop_mapping: self.entries[i].oop_mapping.clone(),
                ip_mapping: newm,
            }
        };
        self.entries[i] = new_entry;
        proof {
            let on = old(self).entries@;
            let fes = self.entries@;
            let sig = Seq::new(n as nat, |t: int| sidx@[t] as int);
            let init = self.initial_cards@;
            assert(forall|j: int| 0 <= j < on.len() && j != i ==> fes[j] == on[j]);
            assert(fes[i as int] == new_entry);
            lemma_first_key_stable(on, fes, board, previous_board);
            assert(first_key(fes, board, previous_board) == i);
            let oldh = side_of(eo, oop).hands@;
            let oldm = mapping_of(eo, oop);
            assert(rank_sort_rel(newh@, oldh, ranks@, sig)) by {
                assert forall|t: int| 0 <= t < newh@.len() implies {
                    let s = #[trigger] sig[t];
                    newh@[t] == Combo { rank: ranks@[s], ..oldh[s] }
                } by {
                    assert(newh@[t] == ranked@[sidx@[t] as int]);
                }
                assert forall|t: int, u: int|
                    0 <= t < u < newh@.len() implies newh@[t].rank <= newh@[u].rank by {
                    assert(newh@[t] == ranked@[sidx@[t] as int]);
                    assert(newh@[u] == ranked@[sidx@[u] as int]);
                }
            }
            assert(entry_wf(new_entry, init)) by {
                assert(new_entry.cards@ == eo.cards@);
                assert(range_wf(side_of(new_entry, oop))) by {
                    assert(range_wf(side_of(eo, oop)));
                    assert forall|t: int|
                        0 <= t < newh@.len() implies combo_wf(#[trigger] newh@[t]) by {
                        assert(newh@[t] == Combo { rank: ranks@[sig[t]], ..oldh[sig[t]] });
                        assert(combo_wf(oldh[sig[t]]));
                    }
                    assert forall|t: int, u: int|
                        0 <= t < u < newh@.len() implies !same_pair(newh@[t], newh@[u]) by {
                        assert(newh@[t] == Combo { rank: ranks@[sig[t]], ..oldh[sig[t]] });
                        assert(newh@[u] == Combo { rank: ranks@[sig[u]], ..oldh[sig[u]] });
                        if sig[t] < sig[u] {
                            assert(!same_pair(oldh[sig[t]], oldh[sig[u]]));
                        } else {
                            assert(sig[u] < sig[t]);
                            assert(!same_pair(oldh[sig[u]], oldh[sig[t]]));
                        }
                    }
                }
                assert(range_wf(side_of(new_entry, !oop))) by {
                    assert(side_of(new_entry, !oop).hands@ == side_of(eo, !oop).hands@);
                    assert(range_wf(side_of(eo, !oop)));
                }
            }
            assert(self.wf()) by {
                assert forall|j: int| 0 <= j < fes.len() implies entry_wf(
                    #[trigger] fes[j],
                    init,
                ) by {
                    if j != i {
                        assert(fes[j] == on[j]);
                    }
                }
            }
            assert(self.ranges_clear()) by {
                assert forall|j: int| 0 <= j < fes.len() implies range_all_clear(
                    (#[trigger] fes[j]).oop_hands,
                    fes[j].cards@,
                ) && range_all_clear(fes[j].ip_hands, fes[j].cards@) by {
                    if j != i {
                        assert(fes[j] == on[j]);
                    } else {
                        assert forall|t: int|
                            0 <= t < newh@.len() implies combo_clear_of(
                            #[trigger] newh@[t],
                            new_entry.cards@,
                        ) by {
                            assert(newh@[t] == Combo { rank: ranks@[sig[t]], ..oldh[sig[t]] });
                            assert(combo_clear_of(oldh[sig[t]], eo.cards@));
                        }
                    }
                }
            }
            assert(self.links_mapped()) by {
                assert forall|p: int|
                    0 <= p < fes.len() && (#[trigger] fes[p]).cards@.len() > init.len() implies
                entry_mapped_in(fes, p) by {
                    assert(on[p].cards@.len() > init.len()) by {
                        if p == i {
                            assert(fes[p].cards@ == eo.cards@);
                        }
                    }
                    assert(entry_mapped_in(on, p));
                    let q = choose|q: int|
                        0 <= q < on.len() && {
                            let par = #[trigger] on[q];
                            &&& par.cards@ == on[p].cards@.drop_last()
                            &&& mapping_ok(
                                on[p].oop_mapping@,
                                on[p].oop_hands.hands@,
                                par.oop_hands.hands@,
                            )
                            &&& mapping_ok(
                                on[p].ip_mapping@,
                                on[p].ip_hands.hands@,
                                par.ip_hands.hands@,
                            )
                        };
                    assert(on[q].cards@.len() < 5);
                    assert(q != i) by {
                        assert(on[i as int].cards@.len() == 5);
                    }
                    assert(fes[q] == on[q]);
                    if p != i {
                        assert(fes[p] == on[p]);
                        assert(0 <= q < fes.len() && {
                            let par = fes[q];
                            &&& par.cards@ == fes[p].cards@.drop_last()
                            &&& mapping_ok(
                                fes[p].oop_mapping@,
                                fes[p].oop_hands.hands@,
                                par.oop_hands.hands@,
                            )
                            &&& mapping_ok(
                                fes[p].ip_mapping@,
                                fes[p].ip_hands.hands@,
                                par.ip_hands.hands@,
                            )
                        });
                    } else {
                        assert(mapping_ok(oldm, oldh, side_of(on[q], oop).hands@));
                        assert(oldm.len() == oldh.len());
                        assert(old_mapping_len == n);
                        let newmv = mapping_of(new_entry, oop);
                        assert(newmv.len() == n);
                        assert forall|t: int| 0 <= t < newmv.len() implies (#[trigger] newmv[t])
                            < side_of(on[q], oop).hands@.len() by {
                            assert(newmv[t] == oldm[sig[t]]);
                        }
                        assert(mapping_ok(newmv, newh@, side_of(on[q], oop).hands@)) by {
                            assert forall|t: int| 0 <= t < newmv.len() implies {
                                let pc = side_of(on[q], oop).hands@[(#[trigger] newmv[t]) as int];
                                &&& pc.a == newh@[t].a
                                &&& pc.b == newh@[t].b
                                &&& pc.weight == newh@[t].weight
                            } by {
                                assert(newmv[t] == oldm[sig[t]]);
                                assert(newh@[t] == Combo { rank: ranks@[sig[t]], ..oldh[sig[t]] });
                            }
                            assert forall|t: int, u: int|
                                0 <= t < u < newmv.len() implies newmv[t] != newmv[u] by {
                                assert(newmv[t] == oldm[sig[t]]);
                                assert(newmv[u] == oldm[sig[u]]);
                                assert(sig[t] != sig[u]);
                                if sig[t] < sig[u] {
                                    assert(oldm[sig[t]] != oldm[sig[u]]);
                                } else {
                                    assert(oldm[sig[u]] != oldm[sig[t]]);
                                }
                            }
                        }
                        assert(0 <= q < fes.len() && {
                            let par = fes[q];
                            &&& par.cards@ == fes[p].cards@.drop_last()
                            &&& mapping_ok(
                                fes[p].oop_mapping@,
                                fes[p].oop_hands.hands@,
                                par.oop_hands.hands@,
                            )
                            &&& mapping_ok(
                                fes[p].ip_mapping@,
                                fes[p].ip_hands.hands@,
                                par.ip_hands.hands@,
                            )
                        });
                    }
                }
            }
            assert(self.decks@ == old(self).decks@);
            assert(self.decks_shape());
            assert(self.decks_ready()) by {
                let m0x = mask_of(init);
                assert(self.deck_of(m0x) == old(self).deck_of(m0x));
                if init.len() == 3 {
                    let d0 = self.deck_of(m0x);
                    assert forall|qz: int| 0 <= qz < d0.deck@.len() implies self.has_deck(
                        mask_of(init.push(#[trigger] d0.deck@[qz])),
                    ) by {
                        assert(old(self).has_deck(mask_of(init.push(d0.deck@[qz]))));
                    }
                }
            }
            let en = self.entry_of(board, previous_board);
            assert(side_of(en, !oop).hands@ =~= side_of(eo, !oop).hands@);
            assert(mapping_of(en, !oop) =~= mapping_of(eo, !oop));
            assert(en.cards@ =~= eo.cards@);
            assert(en == new_entry);
            assert(side_of(en, oop).hands@ == newh@);
            assert(rank_sort_rel(side_of(en, oop).hands@, side_of(eo, oop).hands@, ranks@, sig));
            assert(oldm.len() == oldh.len() ==> mapping_of(en, oop).len() == oldm.len()
                && forall|t: int|
                0 <= t < sig.len() ==> mapping_of(en, oop)[t] == oldm[sig[t]]);
            assert(oldm.len() != oldh.len() ==> mapping_of(en, oop) == oldm) by {
                if oldm.len() != oldh.len() {
                    assert(old_mapping_len != n);
                    assert(mapping_of(en, oop) =~= oldm);
                }
            }
            assert(self.expanded()) by {
                assert(self.decks@ == old(self).decks@);
                let m0x = mask_of(init);
                lemma_first_key_stable(on, fes, m0x, None);
                if init.len() == 3 {
                    let d0 = self.deck_of(m0x);
                    assert(d0 == old(self).deck_of(m0x));
                    assert forall|qq: int| 0 <= qq < d0.deck@.len() implies {
                        let tcards = init.push(#[trigger] d0.deck@[qq]);
                        &&& self.has_key(mask_of(tcards), None)
                        &&& {
                            let dt = self.deck_of(mask_of(tcards));
                            forall|u: int|
                                0 <= u < dt.deck@.len() ==> self.has_key(
                                    mask_of(tcards.push(#[trigger] dt.deck@[u])),
                                    Some(mask_of(tcards)),
                                )
                        }
                    } by {
                        let tcards = init.push(d0.deck@[qq]);
                        lemma_first_key_stable(on, fes, mask_of(tcards), None);
                        let dt = self.deck_of(mask_of(tcards));
                        assert(dt == old(self).deck_of(mask_of(tcards)));
                        assert forall|u: int| 0 <= u < dt.deck@.len() implies self.has_key(
                            mask_of(tcards.push(#[trigger] dt.deck@[u])),
                            Some(mask_of(tcards)),
                        ) by {
                            lemma_first_key_stable(
                                on,
                                fes,
                                mask_of(tcards.push(dt.deck@[u])),
                                Some(mask_of(tcards)),
                            );
                        }
                    }
                }
                if init.len() == 4 {
                    let d0 = self.deck_of(m0x);
                    assert(d0 == old(self).deck_of(m0x));
                    assert forall|qq: int| 0 <= qq < d0.deck@.len() implies self.has_key(
                        mask_of(init.push(#[trigger] d0.deck@[qq])),
                        None,
                    ) by {
                        lemma_first_key_stable(
                            on,
                            fes,
                            mask_of(init.push(d0.deck@[qq])),
                            None,
                        );
                    }
                }
            }
        }
    }

    /// Fill in the joint index of every combo on every river board: for
    /// each side, each combo records the position of the combo with the
    /// same two cards in the opposing range on the same board, if any.
    /// The fold payoff uses it to re-add the one villain combo that both
    /// card-blocker sums subtracted.
    pub fn update_joints(&mut self)
        requires
            old(self).ready(),
        ensures
            final(self).ready(),
            final(self).decks@ == old(self).decks@,
            final(self).initial_board@ == old(self).initial_board@,
            final(self).initial_cards@ == old(self).initial_cards@,
            final(self).entries@.len() == old(self).entries@.len(),
            forall|j: int|
                0 <= j < old(self).entries@.len() && (#[trigger] old(self).entries@[j]).cards@.len()
                    != 5 ==> final(self).entries@[j] == old(self).entries@[j],
            forall|j: int|
                0 <= j < old(self).entries@.len() && (#[trigger] old(self).entries@[j]).cards@.len()
                    == 5 ==> entry_joints_done(final(self).entries@[j], old(self).entries@[j]),
    {
        let n = self.entries.len();
        let mut i: usize = 0;
        while i < n
            invariant
                0 <= i <= n,
                n == self.entries@.len(),
                n == old(self).entries@.len(),
                self.decks@ == old(self).decks@,
                self.initial_board@ == old(self).initial_board@,
                self.initial_cards@ == old(self).initial_cards@,
                old(self).ready(),
                forall|j: int|
                    i <= j < n ==> #[trigger] self.entries@[j] == old(self).entries@[j],
                forall|j: int|
                    0 <= j < i && (#[trigger] old(self).entries@[j]).cards@.len() != 5
                        ==> self.entries@[j] == old(self).entries@[j],
                forall|j: int|
                    0 <= j < i && (#[trigger] old(self).entries@[j]).cards@.len() == 5
                        ==> entry_joints_done(self.entries@[j], old(self).entries@[j]),
            decreases n - i,
        {
            let clen = self.entries[i].cards.len();
            if clen == 5 {
                let ghost eo = self.entries@[i as int];
                proof {
                    assert(eo == old(self).entries@[i as int]);
                    assert(entry_wf(eo, old(self).initial_cards@));
                }
                let hn = self.entries[i].oop_hands.hands.len();
                let mut new_oop: Vec<Combo> = Vec::new();
                let mut k: usize = 0;
                while k < hn
                    invariant
                        0 <= k <= hn,
                        i < self.entries@.len(),
                        self.entries@[i as int] == eo,
                        hn == eo.oop_hands.hands@.len(),
                        range_wf(eo.ip_hands),
                        new_oop@.len() == k,
                        forall|t: int|
                            0 <= t < k ==> joint_set_ok(
                                #[trigger] new_oop@[t],
                                eo.oop_hands.hands@[t],
                                eo.ip_hands.hands@,
                            ),
                    decreases hn - k,
                {
                    let mut c = self.entries[i].oop_hands.hands[k];
                    c.joint = self.entries[i].ip_hands.find_pair_index(c.a, c.b);
                    new_oop.push(c);
                    k = k + 1;
                }
                let hm = self.entries[i].ip_hands.hands.len();
                let mut new_ip: Vec<Combo> = Vec::new();
                let mut k2: usize = 0;
                while k2 < hm
                    invariant
                        0 <= k2 <= hm,
                        i < self.entries@.len(),
                        self.entries@[i as int] == eo,
                        hm == eo.ip_hands.hands@.len(),
                        range_wf(eo.oop_hands),
                        new_ip@.len() == k2,
                        forall|t: int|
                            0 <= t < k2 ==> joint_set_ok(
                                #[trigger] new_ip@[t],
                                eo.ip_hands.hands@[t],
                                eo.oop_hands.hands@,
                            ),
                    decreases hm - k2,
                {
                    let mut c = self.entries[i].ip_hands.hands[k2];
                    c.joint = self.entries[i].oop_hands.find_pair_index(c.a, c.b);
                    new_ip.push(c);
                    k2 = k2 + 1;
                }
                let new_entry = BoardEntry {
                    board: self.entries[i].board,
                    prev: self.entries[i].prev,
                    cards: self.entries[i].cards.clone(),
                    oop_hands: HandRange { hands: new_oop },
                    ip_hands: HandRange { hands: new_ip },
                    oop_mapping: self.entries[i].oop_mapping.clone(),
                    ip_mapping: self.entries[i].ip_mapping.clone(),
                };
                self.entries[i] = new_entry;
                proof {
                    assert(entry_joints_done(self.entries@[i as int], eo));
                }
            }
            i = i + 1;
        }
        proof {
            let on = old(self).entries@;
            let fes = self.entries@;
            let init = self.initial_cards@;
            assert forall|j: int| 0 <= j < fes.len() implies ((#[trigger] fes[j]).board
                == on[j].board && fes[j].prev == on[j].prev && fes[j].cards@ == on[j].cards@
                && fes[j].oop_hands.hands@.len() == on[j].oop_hands.hands@.len()
                && fes[j].ip_hands.hands@.len() == on[j].ip_hands.hands@.len()
                && fes[j].oop_mapping@ == on[j].oop_mapping@ && fes[j].ip_mapping@
                == on[j].ip_mapping@ && (forall|t: int|
                0 <= t < fes[j].oop_hands.hands@.len() ==> ((#[trigger] fes[j].oop_hands.hands@[t]).a
                    == on[j].oop_hands.hands@[t].a && fes[j].oop_hands.hands@[t].b
                    == on[j].oop_hands.hands@[t].b && fes[j].oop_hands.hands@[t].weight
                    == on[j].oop_hands.hands@[t].weight)) && (forall|t: int|
                0 <= t < fes[j].ip_hands.hands@.len() ==> ((#[trigger] fes[j].ip_hands.hands@[t]).a
                    == on[j].ip_hands.hands@[t].a && fes[j].ip_hands.hands@[t].b
                    == on[j].ip_hands.hands@[t].b && fes[j].ip_hands.hands@[t].weight
                    == on[j].ip_hands.hands@[t].weight))) by {
                if on[j].cards@.len() != 5 {
                    assert(fes[j] == on[j]);
                } else {
                    assert(entry_joints_done(fes[j], on[j]));
                }
            }
            assert(self.wf()) by {
                assert forall|j: int| 0 <= j < fes.len() implies entry_wf(
                    #[trigger] fes[j],
                    init,
                ) by {
                    assert(entry_wf(on[j], init));
                    assert(range_wf(fes[j].oop_hands)) by {
                        assert forall|t: int, u: int|
                            0 <= t < u < fes[j].oop_hands.hands@.len() implies !same_pair(
                            fes[j].oop_hands.hands@[t],
                            fes[j].oop_hands.hands@[u],
                        ) by {
                            assert(!same_pair(
                                on[j].oop_hands.hands@[t],
                                on[j].oop_hands.hands@[u],
                            ));
                        }
                    }
                    assert(range_wf(fes[j].ip_hands)) by {
                        assert forall|t: int, u: int|
                            0 <= t < u < fes[j].ip_hands.hands@.len() implies !same_pair(
                            fes[j].ip_hands.hands@[t],
                            fes[j].ip_hands.hands@[u],
                        ) by {
                            assert(!same_pair(on[j].ip_hands.hands@[t], on[j].ip_hands.hands@[u]));
                        }
                    }
                }
            }
            assert(self.ranges_clear()) by {
                assert forall|j: int| 0 <= j < fes.len() implies range_all_clear(
                    (#[trigger] fes[j]).oop_hands,
                    fes[j].cards@,
                ) && range_all_clear(fes[j].ip_hands, fes[j].cards@) by {
                    assert(range_all_clear(on[j].oop_hands, on[j].cards@));
                    assert(range_all_clear(on[j].ip_hands, on[j].cards@));
                }
            }
            assert(self.links_mapped()) by {
                assert forall|p: int|
                    0 <= p < fes.len() && (#[trigger] fes[p]).cards@.len() > init.len() implies
                entry_mapped_in(fes, p) by {
                    assert(on[p].cards@.len() > init.len());
                    assert(entry_mapped_in(on, p));
                    let q = choose|q: int|
                        0 <= q < on.len() && {
                            let par = #[trigger] on[q];
                            &&& par.cards@ == on[p].cards@.drop_last()
                            &&& mapping_ok(
                                on[p].oop_mapping@,
                                on[p].oop_hands.hands@,
                                par.oop_hands.hands@,
                            )
                            &&& mapping_ok(
                                on[p].ip_mapping@,
                                on[p].ip_hands.hands@,
                                par.ip_hands.hands@,
                            )
                        };
                    assert(on[q].cards@.len() < 5) by {
                        assert(on[q].cards@.len() == on[p].cards@.len() - 1);
                        assert(entry_wf(on[p], init));
                    }
                    assert(fes[q] == on[q]);
                    assert(0 <= q < fes.len() && {
                        let par = fes[q];
                        &&& par.cards@ == fes[p].cards@.drop_last()
                        &&& mapping_ok(
                            fes[p].oop_mapping@,
                            fes[p].oop_hands.hands@,
                            par.oop_hands.hands@,
                        )
                        &&& mapping_ok(
                            fes[p].ip_mapping@,
                            fes[p].ip_hands.hands@,
                            par.ip_hands.hands@,
                        )
                    });
                }
            }
            assert(self.decks_ready()) by {
                let m0x = mask_of(init);
                assert(self.deck_of(m0x) == old(self).deck_of(m0x));
                if init.len() == 3 {
                    let d0 = self.deck_of(m0x);
                    assert forall|qz: int| 0 <= qz < d0.deck@.len() implies self.has_deck(
                        mask_of(init.push(#[trigger] d0.deck@[qz])),
                    ) by {
                        assert(old(self).has_deck(mask_of(init.push(d0.deck@[qz]))));
                    }
                }
            }
            assert(self.expanded()) by {
                let m0x = mask_of(init);
                lemma_first_key_stable(on, fes, m0x, None);
                if init.len() == 3 {
                    let d0 = self.deck_of(m0x);
                    assert(d0 == old(self).deck_of(m0x));
                    assert forall|qq: int| 0 <= qq < d0.deck@.len() implies {
                        let tcards = init.push(#[trigger] d0.deck@[qq]);
                        &&& self.has_key(mask_of(tcards), None)
                        &&& {
                            let dt = self.deck_of(mask_of(tcards));
                            forall|u: int|
                                0 <= u < dt.deck@.len() ==> self.has_key(
                                    mask_of(tcards.push(#[trigger] dt.deck@[u])),
                                    Some(mask_of(tcards)),
                                )
                        }
                    } by {
                        let tcards = init.push(d0.deck@[qq]);
                        lemma_first_key_stable(on, fes, mask_of(tcards), None);
                        let dt = self.deck_of(mask_of(tcards));
                        assert(dt == old(self).deck_of(mask_of(tcards)));
                        assert forall|u: int| 0 <= u < dt.deck@.len() implies self.has_key(
                            mask_of(tcards.push(#[trigger] dt.deck@[u])),
                            Some(mask_of(tcards)),
                        ) by {
                            lemma_first_key_stable(
                                on,
                                fes,
                                mask_of(tcards.push(dt.deck@[u])),
                                Some(mask_of(tcards)),
                            );
                        }
                    }
                }
                if init.len() == 4 {
                    let d0 = self.deck_of(m0x);
                    assert(d0 == old(self).deck_of(m0x));
                    assert forall|qq: int| 0 <= qq < d0.deck@.len() implies self.has_key(
                        mask_of(init.push(#[trigger] d0.deck@[qq])),
                        None,
                    ) by {
                        lemma_first_key_stable(on, fes, mask_of(init.push(d0.deck@[qq])), None);
                    }
                }
            }
        }
    }

    /// Create a range manager holding the two starting ranges on the given
    /// board, together with the residual decks of every board a chance node
    /// can deal from.  The ranges are stored as given;
    /// [`RangeManager::initialize_ranges`] removes conflicting combos and
    /// expands to the child streets.
    pub fn new(
        oop_starting_hands: HandRange,
        ip_starting_hands: HandRange,
        initial_board: String,
    ) -> (r: RangeManager)
        requires
            valid_board_string(initial_board@),
            range_wf(oop_starting_hands),
            range_wf(ip_starting_hands),
        ensures
            r.wf(),
            r.decks_shape(),
            r.decks_ready(),
            r.initial_board@ == initial_board@,
            r.initial_cards@ == spec_cards_of(initial_board@),
            r.entries@.len() == 1,
            r.entries@[0].cards@ == r.initial_cards@,
            r.entries@[0].board == mask_of(r.initial_cards@),
            r.entries@[0].prev is None,
            r.entries@[0].oop_hands == oop_starting_hands,
            r.entries@[0].ip_hands == ip_starting_hands,
            r.entries@[0].oop_mapping@.len() == 0,
            r.entries@[0].ip_mapping@.len() == 0,
    {
        let initial_board = if initial_board.as_str().unicode_len() == 6 {
            crate::isomorphism::normalize_flop(&initial_board)
        } else {
            initial_board
        };
        let cards = match board_to_u8(initial_board.as_str()) {
            Some(v) => v,
            None => {
                proof {
                    assert(false);
                }
                Vec::new()
            },
        };
        let m0 = mask_of_cards(&cards);
        let mut entries: Vec<BoardEntry> = Vec::new();
        entries.push(
            BoardEntry {
                board: m0,
                prev: None,
                cards: cards.clone(),
                oop_hands: oop_starting_hands,
                ip_hands: ip_starting_hands,
                oop_mapping: Vec::new(),
                ip_mapping: Vec::new(),
            },
        );
        let mut decks: Vec<DeckEntry> = Vec::new();
        if cards.len() <= 4 {
            let deck0 = make_deck(&cards);
            decks.push(DeckEntry { board: m0, cards: cards.clone(), deck: deck0.clone() });
            if cards.len() == 3 {
                proof {
                    assert forall|i: int| 0 <= i < deck0@.len() implies #[trigger] deck0@[i]
                        < 52 by {
                        assert(deck0@.contains(deck0@[i]));
                    }
                }
                let n = deck0.len();
                let mut q: usize = 0;
                while q < n
                    invariant
                        0 <= q <= n,
                        n == deck0@.len(),
                        cards@.len() == 3,
                        forall|i: int| 0 <= i < cards@.len() ==> #[trigger] cards@[i] < 52,
                        distinct_cards(cards@),
                        forall|c: u8| deck0@.contains(c) <==> (c < 52 && !cards@.contains(c)),
                        forall|i: int| 0 <= i < deck0@.len() ==> #[trigger] deck0@[i] < 52,
                        m0 == mask_of(cards@),
                        decks@.len() == q + 1,
                        decks@[0].board == m0,
                        decks@[0].cards@ == cards@,
                        decks@[0].deck@ == deck0@,
                        forall|i: int|
                            0 <= i < decks@.len() ==> {
                                let d = #[trigger] decks@[i];
                                &&& deck_wf(d)
                                &&& distinct_cards(d.cards@)
                                &&& d.cards@.take(3) == cards@
                                &&& (d.cards@.len() == 3 || d.cards@.len() == 4)
                            },
                        forall|p: int|
                            0 <= p < q ==> exists|i: int|
                                0 <= i < decks@.len() && (#[trigger] decks@[i]).board == mask_of(
                                    cards@.push(#[trigger] deck0@[p]),
                                ),
                    decreases n - q,
                {
                    let c = deck0[q];
                    let mut tcards = cards.clone();
                    tcards.push(c);
                    proof {
                        assert(deck0@.contains(c)) by {
                            assert(deck0@[q as int] == c);
                        }
                        assert(tcards@ == cards@.push(c));
                        assert(distinct_cards(tcards@)) by {
                            assert(forall|i: int|
                                0 <= i < cards@.len() ==> tcards@[i] == cards@[i]);
                        }
                        assert(tcards@.take(3) =~= cards@);
                    }
                    let mt = mask_of_cards(&tcards);
                    let tdeck = make_deck(&tcards);
                    let ghost pre = decks@;
                    let ghost tview = tcards@;
                    decks.push(DeckEntry { board: mt, cards: tcards, deck: tdeck });
                    proof {
                        assert forall|p: int| 0 <= p < q + 1 implies exists|i: int|
                            0 <= i < decks@.len() && (#[trigger] decks@[i]).board == mask_of(
                                cards@.push(#[trigger] deck0@[p]),
                            ) by {
                            if p == q {
                                assert(decks@[decks@.len() - 1].board == mt);
                                assert(tview == cards@.push(deck0@[p]));
                            } else {
                                let i = choose|i: int|
                                    0 <= i < pre.len() && (#[trigger] pre[i]).board == mask_of(
                                        cards@.push(deck0@[p]),
                                    );
                                assert(decks@[i].board == mask_of(cards@.push(deck0@[p])));
                            }
                        }
                    }
                    q = q + 1;
                }
            }
        }
        let r = RangeManager {
            entries,
            decks,
            initial_board,
            initial_cards: cards,
        };
        proof {
            crate::cards::lemma_cards_of_bounds(initial_board@);
            assert(r.entries@[0].cards@.take(r.initial_cards@.len() as int)
                =~= r.initial_cards@);
            assert(entry_wf(r.entries@[0], r.initial_cards@));
            if r.initial_cards@.len() <= 4 {
                assert(r.decks@[0].board == mask_of(r.initial_cards@));
                r.lemma_deck_at(0, mask_of(r.initial_cards@));
                if r.initial_cards@.len() == 3 {
                    let d0 = r.deck_of(mask_of(r.initial_cards@));
                    assert(d0 == r.decks@[0]);
                    assert forall|qq: int|
                        0 <= qq < d0.deck@.len() implies r.has_deck(
                        mask_of(r.initial_cards@.push(#[trigger] d0.deck@[qq])),
                    ) by {
                        r.lemma_has_deck_exists(
                            mask_of(r.initial_cards@.push(d0.deck@[qq])),
                        );
                    }
                }
            }
        }
        r
    }
}

} // verus!
