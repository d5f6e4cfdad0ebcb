//! The trainer's verified half: assembling the betting tree over an
//! initialized range manager.  Running the discounted-regret iterations
//! and the exploitability checks is floating-point work that a driver
//! performs against this structure.

use vstd::prelude::*;
use crate::postfloptree::{
    built_ok, get_sizings, node_wf, recursive_build, spec_sizings, ActionType, Node, NodeType,
};
use crate::range::{mask_of_cards, RangeManager};

verus! {

/// When a training run stops, beyond reaching the accuracy target:
/// after a wall-clock budget, after a number of iterations, or never.
#[derive(Debug, Clone, Copy, PartialEq, Eq, Structural)]
pub enum TrainFinish {
    Seconds(u64),
    Iterations(u64),
    Indefinite,
}

/// A solver instance: the per-board ranges and the built tree.
#[derive(Debug)]
pub struct Trainer {
    pub range_manager: RangeManager,
    pub root: Node,
}

impl Trainer {
    /// Build the full tree for the given sizing lines over an initialized
    /// range manager: the root is a pass-through chance layer on the
    /// initial board holding the starting pot and the effective stack.
    pub fn new(
        range_manager: RangeManager,
        lines: Vec<Vec<u32>>,
        eff_stack: u32,
        pot_size: u32,
    ) -> (r: Trainer)
        requires
            range_manager.ready(),
            pot_size + 2 * eff_stack <= u32::MAX,
        ensures
            node_wf(r.root),
            built_ok(
                None,
                spec_sizings(lines@.map_values(|v: Vec<u32>| v@)),
                Seq::<ActionType>::empty(),
                r.root,
                range_manager,
                range_manager.initial_cards@,
            ),
            r.root.node_type matches NodeType::ChanceNode(d) && d == 0,
            r.root.pot_size == pot_size,
            r.root.chance_start_pot == pot_size,
            r.root.chance_start_stack == eff_stack,
            r.root.oop_invested == 0,
            r.root.ip_invested == 0,
            r.range_manager == range_manager,
    {
        let sizing_mapping = get_sizings(lines);
        proof {
            range_manager.lemma_reachable(range_manager.initial_cards@);
        }
        let board = range_manager.initial_cards.clone();
        let m0 = mask_of_cards(&board);
        let prev: Option<u64> = None;
        proof {
            assert(crate::range::spec_prev_key(
                range_manager.initial_cards@.len() as int,
                board@,
            ) is None);
        }
        let oop_num_hands = range_manager.get_num_hands(true, m0, prev);
        let ip_num_hands = range_manager.get_num_hands(false, m0, prev);
        let mut root = Node::new_root(eff_stack, pot_size, oop_num_hands, ip_num_hands);
        let empty_line: Vec<ActionType> = Vec::new();
        recursive_build(
            None,
            &sizing_mapping,
            &empty_line,
            &mut root,
            &range_manager,
            &board,
        );
        proof {
            assert(empty_line@ =~= Seq::<ActionType>::empty());
            assert(board@ == range_manager.initial_cards@);
        }
        Trainer { range_manager, root }
    }
}

} // verus!
