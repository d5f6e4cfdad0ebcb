use opensolver::cards::{board_to_u8, cards_distinct, char_to_rank, char_to_suit, rank_to_char, suit_to_char};
use opensolver::hand_range::{overlap_combos, Combo, HandRange};
use opensolver::isomorphism::{flop_type, isomorphism_mapping, normalize_flop, FlopType};
use opensolver::range::{mask_of_cards, make_deck, RangeManager};

fn weights_for(pairs: &[(u8, u8)], w: u8) -> Vec<u8> {
    let mut v = vec![0u8; 1326];
    for &(a, b) in pairs {
        assert!(b < a);
        let idx = (a as usize) * (a as usize - 1) / 2 + b as usize;
        v[idx] = w;
    }
    v
}

// the six ace pairs: ace of clubs is card 48, spades 51
fn aa_pairs() -> Vec<(u8, u8)> {
    let aces = [48u8, 49, 50, 51];
    let mut out = vec![];
    for i in 0..4 {
        for j in 0..i {
            out.push((aces[i], aces[j]));
        }
    }
    out
}

fn kk_pairs() -> Vec<(u8, u8)> {
    let kings = [44u8, 45, 46, 47];
    let mut out = vec![];
    for i in 0..4 {
        for j in 0..i {
            out.push((kings[i], kings[j]));
        }
    }
    out
}

#[test]
fn card_codec_decodes_boards() {
    // Q = rank 10, s = suit 3 -> 43; J = 9, h = 2 -> 38; 2h -> 2
    let cards = board_to_u8("QsJh2h").unwrap();
    assert_eq!(cards, vec![43, 38, 2]);
    let cards = board_to_u8("QsJh2h8d2c").unwrap();
    assert_eq!(cards, vec![43, 38, 2, 25, 0]);
    assert!(board_to_u8("Qs Jh").is_none());
    assert!(board_to_u8("QsJ").is_none());
    assert!(board_to_u8("XxYy").is_none());
}

#[test]
fn card_codec_round_trips_chars() {
    for r in 0..13u8 {
        let c = rank_to_char(r);
        assert_eq!(char_to_rank(c), Some(r));
    }
    for s in 0..4u8 {
        let c = suit_to_char(s);
        assert_eq!(char_to_suit(c), Some(s));
    }
}

#[test]
fn distinctness_is_checked() {
    assert!(cards_distinct(&vec![1, 2, 3]));
    assert!(!cards_distinct(&vec![1, 2, 1]));
}

#[test]
fn flop_types_follow_suit_counts() {
    assert_eq!(flop_type(&"2h3h4h".to_string()), FlopType::Monotone);
    assert_eq!(flop_type(&"QsJh2h".to_string()), FlopType::TwoTone);
    assert_eq!(flop_type(&"2c2d2h".to_string()), FlopType::Rainbow);
}

#[test]
fn isomorphism_is_switched_off() {
    let b = "QsJh2h".to_string();
    assert_eq!(normalize_flop(&b), "QsJh2h".to_string());
    let mapping = isomorphism_mapping(&b);
    assert_eq!(mapping, vec![('h', 'h'), ('d', 'd'), ('s', 's'), ('c', 'c')]);
}

#[test]
fn from_weights_builds_canonical_combos() {
    let w = weights_for(&aa_pairs(), 100);
    let r = HandRange::from_weights(&w);
    assert_eq!(r.hands.len(), 6);
    // ordered by higher card then lower card
    let pairs: Vec<(u8, u8)> = r.hands.iter().map(|c| (c.a, c.b)).collect();
    assert_eq!(
        pairs,
        vec![(49, 48), (50, 48), (50, 49), (51, 48), (51, 49), (51, 50)]
    );
    for c in &r.hands {
        assert_eq!(c.weight, 100);
        assert_eq!(c.rank, 0);
        assert!(c.joint.is_none());
    }
}

#[test]
fn overlap_and_unblocked_sums() {
    let w = weights_for(&aa_pairs(), 100);
    let r = HandRange::from_weights(&w);
    let c0 = r.hands[0];
    let c5 = r.hands[5];
    // (49,48) and (51,50) share no card
    assert!(!overlap_combos(c0, c5));
    assert!(overlap_combos(c0, r.hands[1]));
    // for (49,48): unblocked are (51,50) only -> 100
    assert_eq!(r.unblocked_weight_sum(c0.a, c0.b), 100);
    // a combo with no ace blocks nothing: all six stay
    assert_eq!(r.unblocked_weight_sum(0, 1), 600);
}

#[test]
fn deck_complements_board() {
    let cards = board_to_u8("QsJh2h").unwrap();
    let deck = make_deck(&cards);
    assert_eq!(deck.len(), 49);
    assert!(!deck.contains(&43));
    assert!(!deck.contains(&38));
    assert!(!deck.contains(&2));
    let mut prev = None;
    for &c in &deck {
        if let Some(p) = prev {
            assert!(p < c);
        }
        prev = Some(c);
    }
}

#[test]
fn river_manager_holds_one_entry() {
    let w = weights_for(&aa_pairs(), 100);
    let oop = HandRange::from_weights(&w);
    let ip = HandRange::from_weights(&w);
    let mut rm = RangeManager::new(oop, ip, "QsJh2h8d2c".to_string());
    rm.initialize_ranges();
    assert_eq!(rm.entries.len(), 1);
    let cards = board_to_u8("QsJh2h8d2c").unwrap();
    let m = mask_of_cards(&cards);
    assert_eq!(rm.get_num_hands(true, m, None), 6);
    assert_eq!(rm.get_num_hands(false, m, None), 6);
}

#[test]
fn conflicting_combos_are_removed() {
    // board holds the ace of clubs: every AA combo using card 48 dies
    let w = weights_for(&aa_pairs(), 100);
    let oop = HandRange::from_weights(&w);
    let ip = HandRange::from_weights(&w);
    let mut rm = RangeManager::new(oop, ip, "AcJh2h8d2c".to_string());
    rm.initialize_ranges();
    let cards = board_to_u8("AcJh2h8d2c").unwrap();
    let m = mask_of_cards(&cards);
    // combos left: (50,49), (51,49), (51,50)
    assert_eq!(rm.get_num_hands(true, m, None), 3);
    let r = rm.get_range(true, m, None);
    let pairs: Vec<(u8, u8)> = r.hands.iter().map(|c| (c.a, c.b)).collect();
    assert_eq!(pairs, vec![(50, 49), (51, 49), (51, 50)]);
}

#[test]
fn ranks_sort_rivers_ascending() {
    let mut pairs = aa_pairs();
    pairs.extend(kk_pairs());
    let w = weights_for(&pairs, 100);
    let oop = HandRange::from_weights(&w);
    let ip = HandRange::from_weights(&w);
    let mut rm = RangeManager::new(oop, ip, "QsJh2h8d2c".to_string());
    rm.initialize_ranges();
    let cards = board_to_u8("QsJh2h8d2c").unwrap();
    let m = mask_of_cards(&cards);
    let n = rm.get_num_hands(true, m, None);
    assert_eq!(n, 12);
    // the stored order is kings first (44..47 < 48..51): give aces the
    // higher showdown rank
    let pre = rm.get_range(true, m, None).hands.clone();
    let ranks: Vec<u16> = pre
        .iter()
        .map(|c| if c.a >= 48 { 900u16 } else { 400u16 })
        .collect();
    rm.update_ranks(true, m, None, &ranks);
    let post = rm.get_range(true, m, None).hands.clone();
    assert_eq!(post.len(), 12);
    for i in 1..post.len() {
        assert!(post[i - 1].rank <= post[i].rank);
    }
    // stable: kings keep their relative order in front, aces behind
    let post_pairs: Vec<(u8, u8)> = post.iter().map(|c| (c.a, c.b)).collect();
    let kk: Vec<(u8, u8)> = pre.iter().filter(|c| c.a < 48).map(|c| (c.a, c.b)).collect();
    let aa: Vec<(u8, u8)> = pre.iter().filter(|c| c.a >= 48).map(|c| (c.a, c.b)).collect();
    let expected: Vec<(u8, u8)> = kk.into_iter().chain(aa.into_iter()).collect();
    assert_eq!(post_pairs, expected);
}

#[test]
fn joints_point_at_matching_combos() {
    let w = weights_for(&aa_pairs(), 100);
    let oop = HandRange::from_weights(&w);
    let ip = HandRange::from_weights(&w);
    let mut rm = RangeManager::new(oop, ip, "QsJh2h8d2c".to_string());
    rm.initialize_ranges();
    rm.update_joints();
    let cards = board_to_u8("QsJh2h8d2c").unwrap();
    let m = mask_of_cards(&cards);
    let oop_range = rm.get_range(true, m, None);
    let ip_range = rm.get_range(false, m, None);
    for (k, c) in oop_range.hands.iter().enumerate() {
        let j = c.joint.expect("identical ranges: every combo has a twin");
        let twin = ip_range.hands[j as usize];
        assert_eq!((twin.a, twin.b), (c.a, c.b));
        // identical ranges stored in the same order
        assert_eq!(j as usize, k);
    }
}

#[test]
fn turn_solve_expands_to_rivers_with_mappings() {
    let mut pairs = aa_pairs();
    pairs.extend(kk_pairs());
    let w = weights_for(&pairs, 100);
    let oop = HandRange::from_weights(&w);
    let ip = HandRange::from_weights(&w);
    let mut rm = RangeManager::new(oop, ip, "QsJh2h8d".to_string());
    rm.initialize_ranges();
    let turn_cards = board_to_u8("QsJh2h8d").unwrap();
    let tm = mask_of_cards(&turn_cards);
    // one turn entry plus 48 rivers
    assert_eq!(rm.entries.len(), 49);
    assert_eq!(rm.get_board_deck(tm).len(), 48);
    // the river dealing the ace of spades (51) kills three AA combos
    let mut river_cards = turn_cards.clone();
    river_cards.push(51);
    let rmask = mask_of_cards(&river_cards);
    assert_eq!(rm.get_num_hands(true, rmask, None), 9);
    let mapping = rm.get_reach_mapping(true, rmask, None).clone();
    assert_eq!(mapping.len(), 9);
    let parent = rm.get_range(true, tm, None).hands.clone();
    let child = rm.get_range(true, rmask, None).hands.clone();
    for (i, c) in child.iter().enumerate() {
        let p = parent[mapping[i] as usize];
        assert_eq!((p.a, p.b, p.weight), (c.a, c.b, c.weight));
    }
}

#[test]
fn hand_order_matches_documented_ends() {
    let order = opensolver::cards::canonical_hand_order();
    assert_eq!(order.len(), 1326);
    assert_eq!(order[0], "2d2c");
    assert_eq!(order[1], "2h2c");
    assert_eq!(order[2], "2h2d");
    assert_eq!(order[3], "2s2c");
    assert_eq!(order[1325], "AsAh");
}

#[test]
fn trim_newline_strips_line_endings() {
    let mut s = "go 5 steps\r\n".to_string();
    opensolver::upi::trim_newline(&mut s);
    assert_eq!(s, "go 5 steps");
    let mut s2 = "exit\n".to_string();
    opensolver::upi::trim_newline(&mut s2);
    assert_eq!(s2, "exit");
    let mut s3 = "plain".to_string();
    opensolver::upi::trim_newline(&mut s3);
    assert_eq!(s3, "plain");
}

#[test]
fn board_text_round_trips() {
    let cards = board_to_u8("QsJh2h8d2c").unwrap();
    assert_eq!(opensolver::cards::u8_to_board(cards), "QsJh2h8d2c".to_string());
}
