use opensolver::cards::board_to_u8;
use opensolver::hand_range::HandRange;
use opensolver::postfloptree::{get_sizings, ActionType, LineStep, Node, NodeTag, NodeType, TerminalType};
use opensolver::upi::parse_line_steps;
use opensolver::range::RangeManager;
use opensolver::trainer::Trainer;

fn weights_for(pairs: &[(u8, u8)], w: u8) -> Vec<u8> {
    let mut v = vec![0u8; 1326];
    for &(a, b) in pairs {
        assert!(b < a);
        let idx = (a as usize) * (a as usize - 1) / 2 + b as usize;
        v[idx] = w;
    }
    v
}

fn aa_pairs() -> Vec<(u8, u8)> {
    let aces = [48u8, 49, 50, 51];
    let mut out = vec![];
    for i in 0..4 {
        for j in 0..i {
            out.push((aces[i], aces[j]));
        }
    }
    out
}

fn river_manager(board: &str) -> RangeManager {
    let w = weights_for(&aa_pairs(), 100);
    let oop = HandRange::from_weights(&w);
    let ip = HandRange::from_weights(&w);
    let mut rm = RangeManager::new(oop, ip, board.to_string());
    rm.initialize_ranges();
    let cards = board_to_u8(board).unwrap();
    let m = opensolver::range::mask_of_cards(&cards);
    let n = rm.get_num_hands(true, m, None);
    let ranks = vec![500u16; n];
    rm.update_ranks(true, m, None, &ranks);
    let n2 = rm.get_num_hands(false, m, None);
    let ranks2 = vec![500u16; n2];
    rm.update_ranks(false, m, None, &ranks2);
    rm.update_joints();
    rm
}

#[test]
fn sizing_lines_become_bets_and_raises() {
    let map = get_sizings(vec![vec![100, 300]]);
    let root: Vec<ActionType> = vec![];
    let at_root = map.lookup(&root).expect("root line configured");
    assert_eq!(at_root.clone(), vec![ActionType::Bet(100)]);
    let after_bet = vec![ActionType::Bet(100)];
    let raises = map.lookup(&after_bet).expect("raise line configured");
    assert_eq!(raises.clone(), vec![ActionType::Raise { sizing: 300 }]);
}

#[test]
fn checked_line_keys_ip_bets() {
    let map = get_sizings(vec![vec![0, 100]]);
    let after_check = vec![ActionType::Check];
    let bets = map.lookup(&after_check).expect("post-check line configured");
    assert_eq!(bets.clone(), vec![ActionType::Bet(100)]);
    assert!(map.lookup(&vec![]).is_none());
}

#[test]
fn river_tree_without_sizings_is_check_check_showdown() {
    let rm = river_manager("QsJh2h8d2c");
    let trainer = Trainer::new(rm, vec![], 1000, 100);
    let root = &trainer.root;
    assert!(matches!(root.node_type, NodeType::ChanceNode(0)));
    assert_eq!(root.children.len(), 1);
    let card = &root.children[0];
    assert!(matches!(card.node_type, NodeType::ChanceNodeCard(_)));
    assert_eq!(card.children.len(), 1);
    let oop_dec = &card.children[0];
    match &oop_dec.node_type {
        NodeType::ActionNode(info) => {
            assert!(info.oop);
            assert_eq!(info.actions.clone(), vec![ActionType::Check]);
            assert_eq!(info.hands_num, 6);
        },
        _ => panic!("expected the out-of-position decision"),
    }
    let ip_dec = &oop_dec.children[0];
    match &ip_dec.node_type {
        NodeType::ActionNode(info) => {
            assert!(!info.oop);
            assert_eq!(info.actions.clone(), vec![ActionType::Check]);
        },
        _ => panic!("expected the in-position decision"),
    }
    let end = &ip_dec.children[0];
    assert!(matches!(
        end.node_type,
        NodeType::TerminalNode(TerminalType::TerminalShowdown)
    ));
    assert_eq!(end.pot_size, 100);
    assert_eq!(end.children.len(), 0);
}

#[test]
fn river_bet_line_builds_fold_call_and_pots() {
    let rm = river_manager("QsJh2h8d2c");
    let trainer = Trainer::new(rm, vec![vec![100]], 1000, 100);
    let oop_dec = &trainer.root.children[0].children[0];
    let actions = match &oop_dec.node_type {
        NodeType::ActionNode(info) => info.actions.clone(),
        _ => panic!("expected a decision"),
    };
    assert_eq!(actions, vec![ActionType::Check, ActionType::Bet(100)]);
    let bet_child = &oop_dec.children[1];
    assert_eq!(bet_child.pot_size, 200);
    assert_eq!(bet_child.oop_invested, 100);
    assert_eq!(bet_child.ip_invested, 0);
    let facing = match &bet_child.node_type {
        NodeType::ActionNode(info) => {
            assert!(!info.oop);
            info.actions.clone()
        },
        _ => panic!("expected the facing decision"),
    };
    assert_eq!(facing, vec![ActionType::Fold, ActionType::Call]);
    let fold_end = &bet_child.children[0];
    assert!(matches!(
        fold_end.node_type,
        NodeType::TerminalNode(TerminalType::TerminalFold(false))
    ));
    assert_eq!(fold_end.pot_size, 100);
    let call_end = &bet_child.children[1];
    assert!(matches!(
        call_end.node_type,
        NodeType::TerminalNode(TerminalType::TerminalShowdown)
    ));
    assert_eq!(call_end.pot_size, 300);
}

#[test]
fn raise_line_tracks_street_targets() {
    let rm = river_manager("QsJh2h8d2c");
    let trainer = Trainer::new(rm, vec![vec![100, 300]], 1000, 100);
    let oop_dec = &trainer.root.children[0].children[0];
    let bet_child = &oop_dec.children[1];
    let facing = match &bet_child.node_type {
        NodeType::ActionNode(info) => info.actions.clone(),
        _ => panic!("expected the facing decision"),
    };
    assert_eq!(
        facing,
        vec![ActionType::Fold, ActionType::Call, ActionType::Raise { sizing: 300 }]
    );
    let raise_child = &bet_child.children[2];
    // pot 100 + oop 100 + ip 300
    assert_eq!(raise_child.pot_size, 500);
    assert_eq!(raise_child.oop_invested, 100);
    assert_eq!(raise_child.ip_invested, 300);
    let reraise_fold = &raise_child.children[0];
    // oop folds: the uncalled 200 goes back, pot 100 + 100 + 100
    assert!(matches!(
        reraise_fold.node_type,
        NodeType::TerminalNode(TerminalType::TerminalFold(true))
    ));
    assert_eq!(reraise_fold.pot_size, 300);
    let reraise_call = &raise_child.children[1];
    assert_eq!(reraise_call.pot_size, 700);
}

#[test]
fn oversized_and_undersized_sizings_are_dropped() {
    let rm = river_manager("QsJh2h8d2c");
    // a bet beyond the stack and a zero bet both vanish
    let trainer = Trainer::new(rm, vec![vec![5000]], 1000, 100);
    let oop_dec = &trainer.root.children[0].children[0];
    let actions = match &oop_dec.node_type {
        NodeType::ActionNode(info) => info.actions.clone(),
        _ => panic!("expected a decision"),
    };
    assert_eq!(actions, vec![ActionType::Check]);
}

#[test]
fn all_in_bet_offers_no_reraise() {
    let rm = river_manager("QsJh2h8d2c");
    let trainer = Trainer::new(rm, vec![vec![1000, 1000]], 1000, 100);
    let oop_dec = &trainer.root.children[0].children[0];
    let bet_child = &oop_dec.children[1];
    let facing = match &bet_child.node_type {
        NodeType::ActionNode(info) => info.actions.clone(),
        _ => panic!("expected the facing decision"),
    };
    assert_eq!(facing, vec![ActionType::Fold, ActionType::Call]);
}

fn same_shape(a: &Node, b: &Node) -> bool {
    let kinds_match = match (&a.node_type, &b.node_type) {
        (NodeType::ActionNode(x), NodeType::ActionNode(y)) => {
            x.oop == y.oop && x.actions == y.actions && x.hands_num == y.hands_num
        },
        (NodeType::TerminalNode(x), NodeType::TerminalNode(y)) => x == y,
        (NodeType::ChanceNode(x), NodeType::ChanceNode(y)) => x == y,
        (NodeType::ChanceNodeCard(x), NodeType::ChanceNodeCard(y)) => x == y,
        _ => false,
    };
    kinds_match
        && a.pot_size == b.pot_size
        && a.chance_start_stack == b.chance_start_stack
        && a.oop_invested == b.oop_invested
        && a.ip_invested == b.ip_invested
        && a.chance_start_pot == b.chance_start_pot
        && a.children.len() == b.children.len()
        && a.children.iter().zip(b.children.iter()).all(|(x, y)| same_shape(x, y))
}

#[test]
fn building_twice_gives_identical_trees() {
    let t1 = Trainer::new(river_manager("QsJh2h8d2c"), vec![vec![100, 300]], 1000, 100);
    let t2 = Trainer::new(river_manager("QsJh2h8d2c"), vec![vec![100, 300]], 1000, 100);
    assert!(same_shape(&t1.root, &t2.root));
}

#[test]
fn turn_tree_deals_every_river() {
    let w = weights_for(&aa_pairs(), 100);
    let oop = HandRange::from_weights(&w);
    let ip = HandRange::from_weights(&w);
    let mut rm = RangeManager::new(oop, ip, "QsJh2h8d".to_string());
    rm.initialize_ranges();
    // rank every river so showdown order is defined everywhere
    let turn_cards = board_to_u8("QsJh2h8d").unwrap();
    let tm = opensolver::range::mask_of_cards(&turn_cards);
    let deck = rm.get_board_deck(tm).clone();
    for c in deck {
        let mut river = turn_cards.clone();
        river.push(c);
        let rmask = opensolver::range::mask_of_cards(&river);
        for oop_side in [true, false] {
            let n = rm.get_num_hands(oop_side, rmask, None);
            let ranks = vec![500u16; n];
            rm.update_ranks(oop_side, rmask, None, &ranks);
        }
    }
    rm.update_joints();
    let trainer = Trainer::new(rm, vec![], 1000, 100);
    let oop_dec = &trainer.root.children[0].children[0];
    let ip_dec = &oop_dec.children[0];
    // check-check on the turn leads to the river chance layer
    let chance = &ip_dec.children[0];
    match &chance.node_type {
        NodeType::ChanceNode(d) => assert_eq!(*d, 44),
        _ => panic!("expected the river chance layer"),
    }
    assert_eq!(chance.children.len(), 48);
    for card_node in &chance.children {
        assert!(matches!(card_node.node_type, NodeType::ChanceNodeCard(_)));
        // stacks carry over unchanged after a checked street
        assert_eq!(card_node.chance_start_stack, 1000);
        assert_eq!(card_node.chance_start_pot, 100);
    }
}

#[test]
fn line_walker_reaches_terminals() {
    let rm = river_manager("QsJh2h8d2c");
    let trainer = Trainer::new(rm, vec![vec![100]], 1000, 100);
    let start = &trainer.root.children[0].children[0];
    let (node, path, matched) = start
        .find_node(&vec![LineStep::BetTo(100), LineStep::Passive])
        .expect("bet then call exists");
    assert!(matches!(
        node.node_type,
        NodeType::TerminalNode(TerminalType::TerminalShowdown)
    ));
    assert_eq!(node.pot_size, 300);
    assert_eq!(path, vec![1, 1]);
    // both sides matched 100 after the call
    assert_eq!(matched, 100);
    let (fold_node, _, _) = start
        .find_node(&vec![LineStep::BetTo(100), LineStep::Fold])
        .expect("bet then fold exists");
    assert!(matches!(
        fold_node.node_type,
        NodeType::TerminalNode(TerminalType::TerminalFold(false))
    ));
    assert!(start.find_node(&vec![LineStep::BetTo(50)]).is_none());
}

#[test]
fn line_walker_descends_through_cards() {
    let w = weights_for(&aa_pairs(), 100);
    let oop = HandRange::from_weights(&w);
    let ip = HandRange::from_weights(&w);
    let mut rm = RangeManager::new(oop, ip, "QsJh2h8d".to_string());
    rm.initialize_ranges();
    let turn_cards = board_to_u8("QsJh2h8d").unwrap();
    let tm = opensolver::range::mask_of_cards(&turn_cards);
    let deck = rm.get_board_deck(tm).clone();
    for c in deck {
        let mut river = turn_cards.clone();
        river.push(c);
        let rmask = opensolver::range::mask_of_cards(&river);
        for oop_side in [true, false] {
            let n = rm.get_num_hands(oop_side, rmask, None);
            let ranks = vec![500u16; n];
            rm.update_ranks(oop_side, rmask, None, &ranks);
        }
    }
    rm.update_joints();
    let trainer = Trainer::new(rm, vec![], 1000, 100);
    let start = &trainer.root.children[0].children[0];
    // check, check behind, deal the deuce of diamonds (card 1)
    let (node, path, matched) = start
        .find_node(&vec![LineStep::Passive, LineStep::Passive, LineStep::Card(1)])
        .expect("checked-through river exists");
    assert_eq!(matched, 0);
    match &node.node_type {
        NodeType::ActionNode(info) => assert!(info.oop),
        _ => panic!("expected the river decision"),
    }
    assert_eq!(path.len(), 4);
}

#[test]
fn flop_bet_call_carries_stacks_to_the_turn() {
    let w = weights_for(&aa_pairs(), 100);
    let oop = HandRange::from_weights(&w);
    let ip = HandRange::from_weights(&w);
    let mut rm = RangeManager::new(oop, ip, "QsJh2h".to_string());
    rm.initialize_ranges();
    // one turn entry per turn card plus its rivers
    assert_eq!(rm.entries.len(), 1 + 49 * 49);
    let river_keys: Vec<(u64, Option<u64>)> = rm
        .entries
        .iter()
        .filter(|e| e.cards.len() == 5)
        .map(|e| (e.board, e.prev))
        .collect();
    for (board, prev) in river_keys {
        for oop_side in [true, false] {
            let n = rm.get_num_hands(oop_side, board, prev);
            let ranks = vec![500u16; n];
            rm.update_ranks(oop_side, board, prev, &ranks);
        }
    }
    rm.update_joints();
    // flop bet to 100, called
    let trainer = Trainer::new(rm, vec![vec![100, 100]], 1000, 100);
    let oop_dec = &trainer.root.children[0].children[0];
    let bet_child = &oop_dec.children[1];
    let call_chance = &bet_child.children[1];
    match &call_chance.node_type {
        NodeType::ChanceNode(d) => assert_eq!(*d, 45),
        _ => panic!("expected the turn chance layer"),
    }
    assert_eq!(call_chance.pot_size, 300);
    assert_eq!(call_chance.children.len(), 49);
    for turn_card in &call_chance.children {
        // each side paid 100 on the flop
        assert_eq!(turn_card.chance_start_stack, 900);
        assert_eq!(turn_card.chance_start_pot, 300);
        assert_eq!(turn_card.pot_size, 300);
    }
}

#[test]
fn checked_flop_gives_the_bet_to_the_in_position_player() {
    let rm = river_manager("QsJh2h8d2c");
    let trainer = Trainer::new(rm, vec![vec![0, 100]], 1000, 100);
    let oop_dec = &trainer.root.children[0].children[0];
    let oop_actions = match &oop_dec.node_type {
        NodeType::ActionNode(info) => info.actions.clone(),
        _ => panic!("expected a decision"),
    };
    assert_eq!(oop_actions, vec![ActionType::Check]);
    let ip_dec = &oop_dec.children[0];
    let ip_actions = match &ip_dec.node_type {
        NodeType::ActionNode(info) => {
            assert!(!info.oop);
            info.actions.clone()
        },
        _ => panic!("expected the in-position decision"),
    };
    assert_eq!(ip_actions, vec![ActionType::Check, ActionType::Bet(100)]);
    let bet_child = &ip_dec.children[1];
    assert_eq!(bet_child.ip_invested, 100);
    assert_eq!(bet_child.oop_invested, 0);
    assert_eq!(bet_child.pot_size, 200);
}

#[test]
fn line_text_parses_into_steps() {
    assert_eq!(parse_line_steps("r"), Some(vec![]));
    let steps = parse_line_steps("r:0:b100:c:8d:b300").expect("well-formed line");
    assert_eq!(
        steps,
        vec![
            LineStep::BetTo(100),
            LineStep::Passive,
            LineStep::Card(25),
            LineStep::BetTo(300)
        ]
    );
    assert_eq!(
        parse_line_steps("r:0:x:f"),
        Some(vec![LineStep::Passive, LineStep::Fold])
    );
    assert!(parse_line_steps("q").is_none());
    assert!(parse_line_steps("r:1:c").is_none());
    assert!(parse_line_steps("r:0:bx").is_none());
    assert!(parse_line_steps("r:0:99999999999").is_none());
    assert!(parse_line_steps("r:0:b4294967295").is_some());
    assert!(parse_line_steps("r:0:b4294967296").is_none());
}

#[test]
fn children_listings_carry_pot_totals() {
    let rm = river_manager("QsJh2h8d2c");
    let trainer = Trainer::new(rm, vec![vec![100, 300]], 1000, 100);
    let board = board_to_u8("QsJh2h8d2c").unwrap();
    let oop_dec = &trainer.root.children[0].children[0];
    let rows = oop_dec.describe_children(0, &board).expect("listable");
    assert_eq!(rows.len(), 2);
    assert_eq!(rows[0].step, Some(LineStep::Passive));
    assert_eq!(rows[0].tag, NodeTag::IpDecision);
    assert_eq!((rows[0].oop_total, rows[0].ip_total), (0, 0));
    assert_eq!(rows[1].step, Some(LineStep::BetTo(100)));
    assert_eq!(rows[1].tag, NodeTag::IpDecision);
    assert_eq!((rows[1].oop_total, rows[1].ip_total), (100, 0));
    // facing the bet: fold keeps totals, call equalizes, raise moves to 300
    let bet_child = &oop_dec.children[1];
    let facing_rows = bet_child.describe_children(0, &board).expect("listable");
    assert_eq!(facing_rows.len(), 3);
    assert_eq!(facing_rows[0].step, Some(LineStep::Fold));
    assert_eq!(facing_rows[0].tag, NodeTag::EndNode);
    assert_eq!((facing_rows[0].oop_total, facing_rows[0].ip_total), (100, 0));
    assert_eq!(facing_rows[1].step, Some(LineStep::Passive));
    assert_eq!((facing_rows[1].oop_total, facing_rows[1].ip_total), (100, 100));
    assert_eq!(facing_rows[2].step, Some(LineStep::BetTo(300)));
    assert_eq!((facing_rows[2].oop_total, facing_rows[2].ip_total), (100, 300));
}
