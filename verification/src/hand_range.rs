//! Hole-card combinations and weighted hand ranges.
//!
//! A [`Combo`] is a specific two-card holding: the higher card identifier
//! first, a weight in percent, a showdown rank (filled in on river boards)
//! and the joint index of the numerically identical combo in the opposing
//! range, if present.  A [`HandRange`] is an ordered list of combos.

use vstd::prelude::*;

verus! {

/// A specific two-card holding with its weight and bookkeeping fields.
#[derive(Debug, Clone, Copy)]
pub struct Combo {
    /// Higher card of the pair.
    pub a: u8,
    /// Lower card of the pair.
    pub b: u8,
    /// Weight in percent, `1..=100`.
    pub weight: u8,
    /// Showdown rank on a river board; higher beats lower.  Zero until set.
    pub rank: u16,
    /// Index of the combo with the same two cards in the opposing range.
    pub joint: Option<u32>,
}

/// A weighted, ordered list of combos.
#[derive(Debug, Clone)]
pub struct HandRange {
    pub hands: Vec<Combo>,
}

/// A well-formed combo: two distinct cards, higher first, weight `1..=100`.
pub open spec fn combo_wf(c: Combo) -> bool {
    &&& c.b < c.a < 52
    &&& 1 <= c.weight <= 100
}

/// Two combos share a card and therefore block each other.
pub open spec fn spec_overlap(x: Combo, y: Combo) -> bool {
    x.a == y.a || x.a == y.b || x.b == y.a || x.b == y.b
}

/// Combos carry the same two cards.
pub open spec fn same_pair(x: Combo, y: Combo) -> bool {
    x.a == y.a && x.b == y.b
}

/// A well-formed range: well-formed combos, no pair listed twice, and at
/// most one combo per unordered pair of 52 cards.
pub open spec fn range_wf(r: HandRange) -> bool {
    &&& forall|i: int| 0 <= i < r.hands@.len() ==> combo_wf(#[trigger] r.hands@[i])
    &&& forall|i: int, j: int|
        0 <= i < j < r.hands@.len() ==> !same_pair(r.hands@[i], r.hands@[j])
    &&& r.hands@.len() <= 1326
}

/// A combo is compatible with a board when neither of its cards is on it.
pub open spec fn combo_clear_of(c: Combo, board: Seq<u8>) -> bool {
    !board.contains(c.a) && !board.contains(c.b)
}

/// The predicate "clear of this board", as a function value, so that equal
/// boards give one and the same predicate.
pub open spec fn clear_pred(board: Seq<u8>) -> spec_fn(Combo) -> bool {
    |c: Combo| combo_clear_of(c, board)
}

/// `Seq::filter` unrolled one push at a time; used by the removal loops.
pub proof fn lemma_filter_push<A>(s: Seq<A>, x: A, pred: spec_fn(A) -> bool)
    ensures
        s.push(x).filter(pred) == if pred(x) {
            s.filter(pred).push(x)
        } else {
            s.filter(pred)
        },
{
    reveal(Seq::filter);
    assert(s.push(x).drop_last() =~= s);
    assert(s.push(x).last() == x);
}

/// Position of the unordered pair `(a, b)` with `b < a` in the canonical
/// 1326-combo enumeration: pairs ordered by higher card, then lower card.
pub open spec fn pair_index(a: int, b: int) -> int {
    a * (a - 1) / 2 + b
}

/// The canonical pair position of a pair of cards is within the 1326 entries.
pub broadcast proof fn lemma_pair_index_bounds(x: int, y: int)
    requires
        0 <= y < x < 52,
    ensures
        0 <= #[trigger] pair_index(x, y) < 1326,
{
    assert(0 <= x * (x - 1) / 2 + y < 1326) by (nonlinear_arith)
        requires 0 <= y < x < 52
    ;
}

/// Weight sum of the combos in a list that do not share a card with `{a, b}`.
pub open spec fn spec_unblocked_sum(hands: Seq<Combo>, a: u8, b: u8) -> int
    decreases hands.len(),
{
    if hands.len() == 0 {
        0
    } else {
        spec_unblocked_sum(hands.drop_last(), a, b) + if hands.last().a == a || hands.last().a == b
            || hands.last().b == a || hands.last().b == b {
            0
        } else {
            hands.last().weight as int
        }
    }
}

/// Whether two combos share a card.
pub fn overlap_combos(hero_combo: Combo, villain_combo: Combo) -> (r: bool)
    ensures
        r == spec_overlap(hero_combo, villain_combo),
{
    hero_combo.a == villain_combo.a || hero_combo.a == villain_combo.b || hero_combo.b
        == villain_combo.a || hero_combo.b == villain_combo.b
}

/// Whether a card list contains a given card.
pub fn cards_contain(cards: &Vec<u8>, c: u8) -> (r: bool)
    ensures
        r == cards@.contains(c),
{
    let n = cards.len();
    let mut i: usize = 0;
    while i < n
        invariant
            0 <= i <= n,
            n == cards@.len(),
            forall|k: int| 0 <= k < i ==> cards@[k] != c,
        decreases n - i,
    {
        if cards[i] == c {
            return true;
        }
        i = i + 1;
    }
    false
}

impl HandRange {
    /// An empty range.
    pub fn new() -> (r: HandRange)
        ensures
            r.hands@ =~= Seq::<Combo>::empty(),
            range_wf(r),
    {
        HandRange { hands: Vec::new() }
    }

    /// Drop every combo that intersects the given board cards, keeping the
    /// order of the remaining combos.
    pub fn remove_conflicting_combos(&mut self, board: &Vec<u8>)
        ensures
            final(self).hands@ == old(self).hands@.filter(clear_pred(board@)),
            range_wf(*old(self)) ==> range_wf(*final(self)),
    {
        let ghost orig = self.hands@;
        let ghost pred = clear_pred(board@);
        let n = self.hands.len();
        let mut kept: Vec<Combo> = Vec::new();
        let ghost mut idx: Seq<int> = Seq::empty();
        let mut i: usize = 0;
        proof {
            assert(orig.take(0) =~= Seq::<Combo>::empty());
            reveal(Seq::filter);
        }
        while i < n
            invariant
                0 <= i <= n,
                n == orig.len(),
                self.hands@ == orig,
                pred == clear_pred(board@),
                kept@ == orig.take(i as int).filter(pred),
                idx.len() == kept@.len(),
                forall|p: int| 0 <= p < idx.len() ==> 0 <= #[trigger] idx[p] < i,
                forall|p: int, q: int| 0 <= p < q < idx.len() ==> idx[p] < idx[q],
                forall|p: int| 0 <= p < idx.len() ==> kept@[p] == orig[#[trigger] idx[p]],
            decreases n - i,
        {
            let c = self.hands[i];
            let keep = !cards_contain(board, c.a) && !cards_contain(board, c.b);
            proof {
                assert(orig.take(i + 1).drop_last() =~= orig.take(i as int));
                assert(orig.take(i + 1) =~= orig.take(i as int).push(orig[i as int]));
                lemma_filter_push(orig.take(i as int), orig[i as int], pred);
            }
            if keep {
                kept.push(c);
                proof {
                    idx = idx.push(i as int);
                }
            }
            i = i + 1;
        }
        proof {
            assert(orig.take(n as int) =~= orig);
        }
        self.hands = kept;
        proof {
            if range_wf(*old(self)) {
                assert forall|k: int| 0 <= k < self.hands@.len() implies combo_wf(
                    #[trigger] self.hands@[k],
                ) by {
                    assert(self.hands@[k] == orig[idx[k]]);
                }
                assert forall|p: int, q: int|
                    0 <= p < q < self.hands@.len() implies !same_pair(
                    self.hands@[p],
                    self.hands@[q],
                ) by {
                    assert(self.hands@[p] == orig[idx[p]]);
                    assert(self.hands@[q] == orig[idx[q]]);
                    assert(idx[p] < idx[q]);
                }
            }
        }
    }
    /// Restrict this range to a child board: keep exactly the combos clear
    /// of the board, in order, and return alongside the new range the reach
    /// mapping: position `i` of the child range was position `mapping[i]`
    /// of this range.
    pub fn filter_with_mapping(&self, board: &Vec<u8>) -> (r: (HandRange, Vec<u16>))
        requires
            self.hands@.len() <= 1326,
        ensures
            r.0.hands@ == self.hands@.filter(clear_pred(board@)),
            r.1@.len() == r.0.hands@.len(),
            forall|i: int| 0 <= i < r.1@.len() ==> #[trigger] r.1@[i] < self.hands@.len(),
            forall|i: int|
                0 <= i < r.1@.len() ==> self.hands@[#[trigger] r.1@[i] as int] == r.0.hands@[i],
            forall|i: int, j: int| 0 <= i < j < r.1@.len() ==> r.1@[i] < r.1@[j],
            range_wf(*self) ==> range_wf(r.0),
    {
        let ghost orig = self.hands@;
        let ghost pred = clear_pred(board@);
        let n = self.hands.len();
        let mut kept: Vec<Combo> = Vec::new();
        let mut mapping: Vec<u16> = Vec::new();
        let mut i: usize = 0;
        proof {
            assert(orig.take(0) =~= Seq::<Combo>::empty());
            reveal(Seq::filter);
        }
        while i < n
            invariant
                0 <= i <= n,
                n == orig.len() <= 1326,
                self.hands@ == orig,
                pred == clear_pred(board@),
                kept@ == orig.take(i as int).filter(pred),
                mapping@.len() == kept@.len(),
                forall|p: int| 0 <= p < mapping@.len() ==> #[trigger] mapping@[p] < i,
                forall|p: int, q: int| 0 <= p < q < mapping@.len() ==> mapping@[p] < mapping@[q],
                forall|p: int|
                    0 <= p < mapping@.len() ==> orig[#[trigger] mapping@[p] as int] == kept@[p],
            decreases n - i,
        {
            let c = self.hands[i];
            let keep = !cards_contain(board, c.a) && !cards_contain(board, c.b);
            proof {
                assert(orig.take(i + 1).drop_last() =~= orig.take(i as int));
                assert(orig.take(i + 1) =~= orig.take(i as int).push(orig[i as int]));
                lemma_filter_push(orig.take(i as int), orig[i as int], pred);
            }
            if keep {
                kept.push(c);
                mapping.push(i as u16);
            }
            i = i + 1;
        }
        proof {
            assert(orig.take(n as int) =~= orig);
        }
        let out = HandRange { hands: kept };
        proof {
            if range_wf(*self) {
                assert forall|k: int| 0 <= k < out.hands@.len() implies combo_wf(
                    #[trigger] out.hands@[k],
                ) by {
                    assert(out.hands@[k] == orig[mapping@[k] as int]);
                }
                assert forall|p: int, q: int|
                    0 <= p < q < out.hands@.len() implies !same_pair(
                    out.hands@[p],
                    out.hands@[q],
                ) by {
                    assert(out.hands@[p] == orig[mapping@[p] as int]);
                    assert(out.hands@[q] == orig[mapping@[q] as int]);
                    assert(mapping@[p] < mapping@[q]);
                }
            }
        }
        (out, mapping)
    }

    /// Build a range from the canonical 1326-entry weight vector: one entry
    /// per unordered pair of cards, higher-card-major order.  Pairs with a
    /// zero weight are left out.
    pub fn from_weights(weights: &Vec<u8>) -> (r: HandRange)
        requires
            weights@.len() == 1326,
            forall|k: int| 0 <= k < 1326 ==> #[trigger] weights@[k] <= 100,
        ensures
            range_wf(r),
            forall|i: int, j: int|
                0 <= i < j < r.hands@.len() ==> (r.hands@[i].a < r.hands@[j].a || (r.hands@[i].a
                    == r.hands@[j].a && r.hands@[i].b < r.hands@[j].b)),
            forall|i: int|
                0 <= i < r.hands@.len() ==> {
                    let c = #[trigger] r.hands@[i];
                    &&& c.b < c.a < 52
                    &&& c.weight == weights@[pair_index(c.a as int, c.b as int)]
                    &&& c.weight > 0
                    &&& c.rank == 0
                    &&& c.joint is None
                },
            forall|a: int, b: int|
                0 <= b < a < 52 && weights@[#[trigger] pair_index(a, b)] > 0 ==> exists|i: int|
                    0 <= i < r.hands@.len() && r.hands@[i].a == a && r.hands@[i].b == b,
    {
        broadcast use lemma_pair_index_bounds;

        let mut hands: Vec<Combo> = Vec::new();
        let mut a: usize = 1;
        let mut k: usize = 0;
        while a < 52
            invariant
                1 <= a <= 52,
                k == pair_index(a as int, 0),
                0 <= k <= 1326,
                a < 52 ==> pair_index(a as int, 0) + a <= 1326,
                weights@.len() == 1326,
                forall|t: int| 0 <= t < 1326 ==> #[trigger] weights@[t] <= 100,
                forall|i: int, j: int|
                    0 <= i < j < hands@.len() ==> (hands@[i].a < hands@[j].a || (hands@[i].a
                        == hands@[j].a && hands@[i].b < hands@[j].b)),
                forall|i: int|
                    0 <= i < hands@.len() ==> {
                        let c = #[trigger] hands@[i];
                        &&& c.b < c.a < a
                        &&& c.weight == weights@[pair_index(c.a as int, c.b as int)]
                        &&& c.weight > 0
                        &&& c.rank == 0
                        &&& c.joint is None
                    },
                forall|x: int, y: int|
                    0 <= y < x < a && weights@[#[trigger] pair_index(x, y)] > 0 ==> exists|i: int|
                        0 <= i < hands@.len() && hands@[i].a == x && hands@[i].b == y,
                hands@.len() <= k,
            decreases 52 - a,
        {
            let mut b: usize = 0;
            while b < a
                invariant
                    1 <= a < 52,
                    0 <= b <= a,
                    k == pair_index(a as int, 0) + b,
                    0 <= k <= 1326,
                    pair_index(a as int, 0) + a <= 1326,
                    weights@.len() == 1326,
                    forall|t: int| 0 <= t < 1326 ==> #[trigger] weights@[t] <= 100,
                    forall|i: int, j: int|
                        0 <= i < j < hands@.len() ==> (hands@[i].a < hands@[j].a || (hands@[i].a
                            == hands@[j].a && hands@[i].b < hands@[j].b)),
                    forall|i: int|
                        0 <= i < hands@.len() ==> {
                            let c = #[trigger] hands@[i];
                            &&& c.b < c.a < 52
                            &&& (c.a < a || (c.a == a && c.b < b))
                            &&& c.weight == weights@[pair_index(c.a as int, c.b as int)]
                            &&& c.weight > 0
                            &&& c.rank == 0
                            &&& c.joint is None
                        },
                    forall|x: int, y: int|
                        0 <= y < x < 52 && (x < a || (x == a && y < b)) && weights@[#[trigger] pair_index(
                            x,
                            y,
                        )] > 0 ==> exists|i: int|
                            0 <= i < hands@.len() && hands@[i].a == x && hands@[i].b == y,
                    hands@.len() <= k,
                decreases a - b,
            {
                let w = weights[k];
                let ghost pre = hands@;
                proof {
                    assert(pair_index(a as int, b as int) == k as int);
                }
                if w > 0 {
                    hands.push(
                        Combo { a: a as u8, b: b as u8, weight: w, rank: 0, joint: None },
                    );
                    proof {
                        assert(hands@[hands@.len() - 1].a == a && hands@[hands@.len() - 1].b
                            == b);
                    }
                }
                proof {
                    assert forall|x: int, y: int|
                        0 <= y < x < 52 && (x < a || (x == a && y < b + 1)) && weights@[
                            #[trigger] pair_index(x, y)
                        ] > 0 implies exists|i: int|
                        0 <= i < hands@.len() && hands@[i].a == x && hands@[i].b == y by {
                        if x == a && y == b {
                            assert(weights@[pair_index(x, y)] == w);
                            assert(w > 0);
                            assert(hands@[hands@.len() - 1].a == x && hands@[hands@.len() - 1].b
                                == y);
                        } else {
                            let i = choose|i: int|
                                0 <= i < pre.len() && pre[i].a == x && pre[i].b == y;
                            assert(hands@[i].a == x && hands@[i].b == y);
                        }
                    }
                }
                k = k + 1;
                b = b + 1;
            }
            proof {
                assert((a + 1) * (a + 1 - 1) / 2 == a * (a - 1) / 2 + a) by (nonlinear_arith);
                assert((a + 1 < 52) ==> (a + 1) * (a + 1 - 1) / 2 + (a + 1) <= 1326)
                    by (nonlinear_arith)
                    requires 1 <= a < 52
                ;
                assert(a == 51 ==> pair_index(52, 0) == 1326) by (nonlinear_arith);
            }
            a = a + 1;
        }
        let r = HandRange { hands };
        proof {
            assert forall|i: int, j: int|
                0 <= i < j < r.hands@.len() implies !same_pair(r.hands@[i], r.hands@[j]) by {
                assert(r.hands@[i].a < r.hands@[j].a || (r.hands@[i].a == r.hands@[j].a
                    && r.hands@[i].b < r.hands@[j].b));
            }
        }
        r
    }

    /// Look up the combo with exactly the cards `(a, b)`; the result is its
    /// position, or `None` when no combo carries that pair.
    pub fn find_pair_index(&self, a: u8, b: u8) -> (r: Option<u32>)
        requires
            self.hands@.len() <= 1326,
        ensures
            match r {
                Some(i) => 0 <= i < self.hands@.len() && self.hands@[i as int].a == a
                    && self.hands@[i as int].b == b,
                None => forall|j: int|
                    0 <= j < self.hands@.len() ==> !(#[trigger] self.hands@[j].a == a
                        && self.hands@[j].b == b),
            },
    {
        let n = self.hands.len();
        let mut i: usize = 0;
        while i < n
            invariant
                0 <= i <= n,
                n == self.hands@.len() <= 1326,
                forall|j: int|
                    0 <= j < i ==> !(#[trigger] self.hands@[j].a == a && self.hands@[j].b == b),
            decreases n - i,
        {
            let c = self.hands[i];
            if c.a == a && c.b == b {
                return Some(i as u32);
            }
            i = i + 1;
        }
        None
    }

    /// Total weight of the combos that do not share a card with `{a, b}`.
    pub fn unblocked_weight_sum(&self, a: u8, b: u8) -> (r: u32)
        requires
            range_wf(*self),
        ensures
            r == spec_unblocked_sum(self.hands@, a, b),
    {
        let n = self.hands.len();
        let mut sum: u32 = 0;
        let mut i: usize = 0;
        while i < n
            invariant
                0 <= i <= n,
                n == self.hands@.len(),
                range_wf(*self),
                sum == spec_unblocked_sum(self.hands@.take(i as int), a, b),
                sum <= 100 * i,
            decreases n - i,
        {
            let c = self.hands[i];
            proof {
                assert(self.hands@.take(i + 1).drop_last() =~= self.hands@.take(i as int));
                assert(self.hands@.take(i + 1).last() == self.hands@[i as int]);
                assert(combo_wf(self.hands@[i as int]));
            }
            if !(c.a == a || c.a == b || c.b == a || c.b == b) {
                sum = sum + c.weight as u32;
            }
            i = i + 1;
        }
        proof {
            assert(self.hands@.take(n as int) =~= self.hands@);
        }
        sum
    }
}

} // verus!
