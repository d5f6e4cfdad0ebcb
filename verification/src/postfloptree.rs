//! The betting tree: chance, dealt-card, action and terminal nodes, the
//! sizing scheme that configures bets and raises per line, and the builder
//! that turns a range manager and a sizing scheme into the full tree.
//!
//! Chip amounts on a street are "invested-to" targets: a bet or raise names
//! the total a player has put in on the current street once the action is
//! taken.  The pot and stack bookkeeping keeps the invariant that a node's
//! pot equals the street-start pot plus both players' street investments,
//! and never exceeds the street-start pot plus two effective stacks.

use vstd::prelude::*;
use crate::range::{mask_of, mask_of_cards, side_of, spec_prev_key, RangeManager};

verus! {

/// The street-invested-to target of the action a node faces, zero when it
/// faces none.
pub open spec fn latest_target(latest: Option<ActionType>) -> u32 {
    match latest {
        Some(ActionType::Bet(s)) => s,
        Some(ActionType::Raise { sizing }) => sizing,
        _ => 0,
    }
}

/// Whether a node faces a live bet or raise.
pub open spec fn facing_bet_of(latest: Option<ActionType>) -> bool {
    latest matches Some(ActionType::Bet(_)) || latest matches Some(ActionType::Raise { .. })
}

/// Ordering rank of a build step within one street and one target; used
/// only for termination of the builder.
pub open spec fn build_phase(n: Node, latest: Option<ActionType>) -> int {
    match n.node_type {
        NodeType::ChanceNode(_) => 7,
        NodeType::ChanceNodeCard(_) => 6,
        NodeType::ActionNode(_) => match latest {
            None => 5,
            Some(ActionType::Check) => 4,
            _ => 1,
        },
        NodeType::TerminalNode(_) => 0,
    }
}

/// What the builder requires of a freshly made node before it fills in
/// its children, given the action that leads to it.
pub open spec fn build_pre(latest: Option<ActionType>, n: Node) -> bool {
    &&& n.children@.len() == 0
    &&& n.chance_start_pot + 2 * n.chance_start_stack <= u32::MAX
    &&& match n.node_type {
        NodeType::ChanceNode(d) => {
            &&& latest is None
            &&& d == 0
            &&& n.oop_invested == 0
            &&& n.ip_invested == 0
            &&& n.pot_size == n.chance_start_pot
        },
        NodeType::ChanceNodeCard(_) => {
            &&& latest is None
            &&& n.oop_invested == 0
            &&& n.ip_invested == 0
            &&& n.pot_size == n.chance_start_pot
        },
        NodeType::ActionNode(info) => {
            &&& info.actions_num == info.actions@.len()
            &&& info.actions@.len() >= 1
            &&& info.hands_num == if info.oop {
                n.oop_num_hands
            } else {
                n.ip_num_hands
            }
            &&& n.pot_size == n.chance_start_pot + n.oop_invested + n.ip_invested
            &&& n.oop_invested <= n.chance_start_stack
            &&& n.ip_invested <= n.chance_start_stack
            &&& match latest {
                None => info.oop && n.oop_invested == 0 && n.ip_invested == 0,
                Some(ActionType::Check) => !info.oop && n.oop_invested == 0 && n.ip_invested
                    == 0,
                Some(ActionType::Bet(s)) => 1 <= s <= n.chance_start_stack && if info.oop {
                    n.ip_invested == s && n.oop_invested <= s
                } else {
                    n.oop_invested == s && n.ip_invested <= s
                },
                Some(ActionType::Raise { sizing }) => 1 <= sizing <= n.chance_start_stack
                    && if info.oop {
                    n.ip_invested == sizing && n.oop_invested <= sizing
                } else {
                    n.oop_invested == sizing && n.ip_invested <= sizing
                },
                _ => false,
            }
            &&& forall|i: int|
                0 <= i < info.actions@.len() ==> action_ok(
                    #[trigger] info.actions@[i],
                    latest_target(latest),
                    n.chance_start_stack,
                ) && action_kind_ok(info.actions@[i], facing_bet_of(latest))
        },
        NodeType::TerminalNode(_) => false,
    }
}

/// How a hand ends: a showdown, or a fold by the given side
/// (`true` = out of position folded).
#[derive(Debug, Clone, Copy, PartialEq, Eq, Structural)]
pub enum TerminalType {
    TerminalShowdown,
    TerminalFold(bool),
}

/// One available move.  `Bet` and `Raise` carry the street-invested-to
/// target in chips; a raise is any bet after the first one of a street.
#[derive(Debug, Clone, Copy, PartialEq, Eq, Structural)]
pub enum ActionType {
    Fold,
    Check,
    Call,
    Bet(u32),
    Raise { sizing: u32 },
}

/// The decision data of an action node: who acts and which moves exist.
/// The regret and strategy tables that a trainer accumulates are owned by
/// the trainer, indexed per action node in tree order.
#[derive(Debug, Clone)]
pub struct ActionNodeInfo {
    /// Whether the out-of-position player acts here.
    pub oop: bool,
    /// The legal moves, in order.
    pub actions: Vec<ActionType>,
    /// Number of moves; equals `actions.len()`.
    pub actions_num: usize,
    /// Number of combos the acting player holds on this board.
    pub hands_num: usize,
}

impl ActionNodeInfo {
    /// Package a decision point.
    pub fn new(oop: bool, actions: Vec<ActionType>, hands_num: usize) -> (r: ActionNodeInfo)
        ensures
            r.oop == oop,
            r.actions@ == actions@,
            r.actions_num == actions@.len(),
            r.hands_num == hands_num,
    {
        let actions_num = actions.len();
        ActionNodeInfo { oop, actions, actions_num, hands_num }
    }
}

/// The kind of a tree node.
#[derive(Debug)]
pub enum NodeType {
    /// A decision point.
    ActionNode(ActionNodeInfo),
    /// A leaf; the pot is won at showdown or by the non-folding side.
    TerminalNode(TerminalType),
    /// The root of a chance layer; the payload is the number of deck
    /// cards left minus the four hole cards, the divisor of each child's
    /// reach weight.  Zero marks the root pass-through layer.
    ChanceNode(u8),
    /// One dealt card: the child board's mask and, for river boards dealt
    /// after a turn in a flop solve, the turn board's mask.
    ChanceNodeCard((u64, Option<u64>)),
}

/// A node of the betting tree.
#[derive(Debug)]
pub struct Node {
    pub node_type: NodeType,
    pub children: Vec<Node>,
    /// Chips in the pot at this node.
    pub pot_size: u32,
    /// Effective stack at the most recent street transition.
    pub chance_start_stack: u32,
    /// Chips the out-of-position player has put in on this street.
    pub oop_invested: u32,
    /// Chips the in-position player has put in on this street.
    pub ip_invested: u32,
    /// Pot at the most recent street transition.
    pub chance_start_pot: u32,
    /// Combos the out-of-position player holds on this node's board.
    pub oop_num_hands: usize,
    /// Combos the in-position player holds on this node's board.
    pub ip_num_hands: usize,
}

/// Structural well-formedness of a built subtree: terminals are leaves,
/// each dealt card carries exactly one decision child, a chance layer has
/// one child per dealt card (or a single pass-through child at the root),
/// and each decision node has one child per action, a balanced pot, and
/// investments within the effective stack.
pub open spec fn node_wf(n: Node) -> bool
    decreases n,
{
    &&& n.pot_size <= n.chance_start_pot + 2 * n.chance_start_stack
    &&& match n.node_type {
        NodeType::TerminalNode(_) => n.children@.len() == 0,
        NodeType::ChanceNodeCard(_) => n.children@.len() == 1 && (n.children@[0].node_type matches
        NodeType::ActionNode(info) && info.oop == true),
        NodeType::ChanceNode(d) => {
            &&& (d == 0 ==> n.children@.len() == 1)
            &&& (d > 0 ==> n.children@.len() == d + 4)
            &&& forall|i: int|
                0 <= i < n.children@.len() ==> (#[trigger] n.children@[i]).node_type matches
                    NodeType::ChanceNodeCard(_)
        },
        NodeType::ActionNode(info) => {
            &&& n.children@.len() == info.actions@.len()
            &&& info.actions_num == info.actions@.len()
            &&& info.actions@.len() >= 1
            &&& info.hands_num == if info.oop {
                n.oop_num_hands
            } else {
                n.ip_num_hands
            }
            &&& n.pot_size == n.chance_start_pot + n.oop_invested + n.ip_invested
            &&& n.oop_invested <= n.chance_start_stack
            &&& n.ip_invested <= n.chance_start_stack
        },
    }
    &&& forall|i: int| 0 <= i < n.children@.len() ==> node_wf(#[trigger] n.children@[i])
}

/// One configured decision point: the betting line that reaches it and the
/// extra bet or raise actions available there.
#[derive(Debug, Clone)]
pub struct SizingEntry {
    /// The betting line, one token per action taken since the root.
    pub line: Vec<ActionType>,
    /// The configured bets or raises at that line.
    pub actions: Vec<ActionType>,
}

/// The sizing scheme: for each betting line, the bets or raises the tree
/// offers there beyond the always-available check or fold and call.
#[derive(Debug, Clone)]
pub struct SizingMap {
    pub entries: Vec<SizingEntry>,
}

/// Whether two betting lines are the same token sequence.
pub fn line_eq(a: &Vec<ActionType>, b: &Vec<ActionType>) -> (r: bool)
    ensures
        r <==> a@ == b@,
{
    if a.len() != b.len() {
        proof {
            assert(a@ != b@);
        }
        return false;
    }
    let n = a.len();
    let mut i: usize = 0;
    while i < n
        invariant
            0 <= i <= n,
            n == a@.len(),
            n == b@.len(),
            forall|k: int| 0 <= k < i ==> a@[k] == b@[k],
        decreases n - i,
    {
        if !(a[i] == b[i]) {
            proof {
                assert(a@[i as int] != b@[i as int]);
            }
            return false;
        }
        i = i + 1;
    }
    proof {
        assert(a@ =~= b@);
    }
    true
}

/// The sizing scheme as a mathematical value: each entry's betting line
/// and configured actions, in storage order.
pub open spec fn sizing_model_of(m: SizingMap) -> Seq<(Seq<ActionType>, Seq<ActionType>)> {
    m.entries@.map_values(|e: SizingEntry| (e.line@, e.actions@))
}

/// Index of the first model entry with the given line, or `-1`.
pub open spec fn first_line(
    model: Seq<(Seq<ActionType>, Seq<ActionType>)>,
    line: Seq<ActionType>,
) -> int
    decreases model.len(),
{
    if model.len() == 0 {
        -1
    } else if model[0].0 == line {
        0
    } else {
        let r = first_line(model.skip(1), line);
        if r == -1 {
            -1
        } else {
            r + 1
        }
    }
}

/// What the first matching model index satisfies.
pub proof fn lemma_first_line_props(
    model: Seq<(Seq<ActionType>, Seq<ActionType>)>,
    line: Seq<ActionType>,
)
    ensures
        first_line(model, line) >= -1,
        first_line(model, line) == -1 ==> forall|i: int|
            0 <= i < model.len() ==> (#[trigger] model[i]).0 != line,
        first_line(model, line) >= 0 ==> {
            let f = first_line(model, line);
            &&& f < model.len()
            &&& model[f].0 == line
            &&& forall|k: int| 0 <= k < f ==> (#[trigger] model[k]).0 != line
        },
    decreases model.len(),
{
    if model.len() > 0 {
        let rest = model.skip(1);
        lemma_first_line_props(rest, line);
        assert(forall|i: int| 0 <= i < rest.len() ==> #[trigger] rest[i] == model[i + 1]);
        if model[0].0 != line {
            let r = first_line(rest, line);
            if r == -1 {
                assert forall|i: int| 0 <= i < model.len() implies (#[trigger] model[i]).0
                    != line by {
                    if i > 0 {
                        assert(rest[i - 1] == model[i]);
                    }
                }
            } else {
                assert(rest[r] == model[r + 1]);
                assert forall|k: int| 0 <= k < r + 1 implies (#[trigger] model[k]).0 != line by {
                    if k > 0 {
                        assert(rest[k - 1] == model[k]);
                    }
                }
            }
        }
    }
}

/// The configured extra actions at a line of the scheme, if any.
pub open spec fn spec_lookup(
    model: Seq<(Seq<ActionType>, Seq<ActionType>)>,
    line: Seq<ActionType>,
) -> Option<Seq<ActionType>> {
    let f = first_line(model, line);
    if f >= 0 {
        Some(model[f].1)
    } else {
        None
    }
}

impl SizingMap {
    /// An empty scheme: no bets or raises anywhere.
    pub fn new() -> (r: SizingMap)
        ensures
            r.entries@.len() == 0,
            sizing_model_of(r) =~= Seq::<(Seq<ActionType>, Seq<ActionType>)>::empty(),
    {
        SizingMap { entries: Vec::new() }
    }

    /// The configured extra actions at the first entry matching a line.
    pub fn lookup(&self, line: &Vec<ActionType>) -> (r: Option<&Vec<ActionType>>)
        ensures
            match r {
                Some(v) => spec_lookup(sizing_model_of(*self), line@) == Some(v@),
                None => spec_lookup(sizing_model_of(*self), line@) is None,
            },
    {
        let n = self.entries.len();
        let mut i: usize = 0;
        while i < n
            invariant
                0 <= i <= n,
                n == self.entries@.len(),
                forall|k: int| 0 <= k < i ==> (#[trigger] self.entries@[k]).line@ != line@,
            decreases n - i,
        {
            if line_eq(&self.entries[i].line, line) {
                proof {
                    lemma_first_line_props(sizing_model_of(*self), line@);
                    let model = sizing_model_of(*self);
                    assert(model[i as int].0 == line@);
                    assert(forall|k: int| 0 <= k < i ==> (#[trigger] model[k]).0 != line@);
                    let f = first_line(model, line@);
                    if f != i as int {
                        if f == -1 {
                            assert(model[i as int].0 != line@);
                        } else if f < i as int {
                            assert(model[f].0 != line@);
                        } else {
                            assert(model[i as int].0 != line@);
                        }
                    }
                }
                return Some(&self.entries[i].actions);
            }
            i = i + 1;
        }
        proof {
            lemma_first_line_props(sizing_model_of(*self), line@);
            let model = sizing_model_of(*self);
            let f = first_line(model, line@);
            if f >= 0 {
                assert(self.entries@[f].line@ != line@);
                assert(model[f].0 == line@);
            }
        }
        None
    }
}

/// A bet or raise is within bounds at a node: strictly above the amount to
/// match and at most the effective stack.
pub open spec fn action_ok(a: ActionType, target: u32, stack: u32) -> bool {
    match a {
        ActionType::Bet(s) => target < s <= stack,
        ActionType::Raise { sizing } => target < sizing <= stack,
        _ => true,
    }
}

/// An action is of the kind a node can offer: facing a bet, only fold,
/// call or raise; otherwise only check or bet.
pub open spec fn action_kind_ok(a: ActionType, facing_bet: bool) -> bool {
    if facing_bet {
        a matches ActionType::Fold || a matches ActionType::Call || a matches ActionType::Raise {
            ..
        }
    } else {
        a matches ActionType::Check || a matches ActionType::Bet(_)
    }
}

/// Whether one configured sizing is kept: a bet at a street open, or a
/// raise facing a bet, strictly above the amount to match and at most the
/// effective stack.
pub open spec fn keep_cfg(a: ActionType, target: u32, stack: u32, facing_bet: bool) -> bool {
    match a {
        ActionType::Bet(s) => !facing_bet && target < s && s <= stack,
        ActionType::Raise { sizing } => facing_bet && target < sizing && sizing <= stack,
        _ => false,
    }
}

/// Append the configured sizings from position `i` on: each kept sizing
/// is added unless it repeats the list's last element.
pub open spec fn append_cfg(
    out: Seq<ActionType>,
    v: Seq<ActionType>,
    i: int,
    target: u32,
    stack: u32,
    facing_bet: bool,
) -> Seq<ActionType>
    decreases v.len() - i,
{
    if i < 0 || i >= v.len() {
        out
    } else {
        let out2 = if keep_cfg(v[i], target, stack, facing_bet) && (out.len() == 0 || out.last()
            != v[i]) {
            out.push(v[i])
        } else {
            out
        };
        append_cfg(out2, v, i + 1, target, stack, facing_bet)
    }
}

/// A node's whole action list: the base actions, then the scheme's
/// in-range sizings of the right kind, consecutive duplicates collapsed.
pub open spec fn spec_next_actions(
    base: Seq<ActionType>,
    extra: Option<Seq<ActionType>>,
    target: u32,
    stack: u32,
    facing_bet: bool,
) -> Seq<ActionType> {
    match extra {
        Some(v) => append_cfg(base, v, 0, target, stack, facing_bet),
        None => base,
    }
}


/// Assemble a node's action list: the base actions plus the configured
/// sizings that are of the right kind and within bounds, with consecutive
/// duplicates collapsed.  Out-of-range or zero sizings are dropped.
fn next_actions(
    base: Vec<ActionType>,
    extra: Option<&Vec<ActionType>>,
    target: u32,
    stack: u32,
    facing_bet: bool,
) -> (r: Vec<ActionType>)
    requires
        base@.len() >= 1,
        forall|i: int|
            0 <= i < base@.len() ==> action_ok(#[trigger] base@[i], target, stack) && action_kind_ok(
                base@[i],
                facing_bet,
            ),
    ensures
        r@.len() >= 1,
        forall|i: int|
            0 <= i < r@.len() ==> action_ok(#[trigger] r@[i], target, stack) && action_kind_ok(
                r@[i],
                facing_bet,
            ),
        r@ == spec_next_actions(
            base@,
            match extra {
                Some(v) => Some(v@),
                None => None::<Seq<ActionType>>,
            },
            target,
            stack,
            facing_bet,
        ),
{
    let ghost base_view = base@;
    let mut out = base;
    match extra {
        Some(v) => {
            let n = v.len();
            let mut i: usize = 0;
            while i < n
                invariant
                    0 <= i <= n,
                    n == v@.len(),
                    out@.len() >= 1,
                    forall|k: int|
                        0 <= k < out@.len() ==> action_ok(#[trigger] out@[k], target, stack)
                            && action_kind_ok(out@[k], facing_bet),
                    append_cfg(out@, v@, i as int, target, stack, facing_bet) == append_cfg(
                        base_view,
                        v@,
                        0,
                        target,
                        stack,
                        facing_bet,
                    ),
                decreases n - i,
            {
                let a = v[i];
                let keep = match a {
                    ActionType::Bet(s) => !facing_bet && target < s && s <= stack,
                    ActionType::Raise { sizing } => facing_bet && target < sizing && sizing
                        <= stack,
                    _ => false,
                };
                proof {
                    assert(keep == keep_cfg(v@[i as int], target, stack, facing_bet));
                }
                if keep {
                    let last = out[out.len() - 1];
                    if !(last == a) {
                        out.push(a);
                    }
                }
                i = i + 1;
            }
            proof {
                assert(append_cfg(out@, v@, n as int, target, stack, facing_bet) == out@);
            }
        },
        None => {},
    }
    out
}

impl Node {
    /// The root of a new tree: a pass-through chance layer over the
    /// initial board, with the whole pot and both stacks ahead.
    pub fn new_root(
        chance_start_stack: u32,
        pot_size: u32,
        oop_num_hands: usize,
        ip_num_hands: usize,
    ) -> (r: Node)
        ensures
            r.node_type matches NodeType::ChanceNode(d) && d == 0,
            r.children@.len() == 0,
            r.pot_size == pot_size,
            r.chance_start_stack == chance_start_stack,
            r.oop_invested == 0,
            r.ip_invested == 0,
            r.chance_start_pot == pot_size,
            r.oop_num_hands == oop_num_hands,
            r.ip_num_hands == ip_num_hands,
    {
        Node {
            node_type: NodeType::ChanceNode(0),
            children: Vec::new(),
            pot_size,
            chance_start_stack,
            oop_invested: 0,
            ip_invested: 0,
            chance_start_pot: pot_size,
            oop_num_hands,
            ip_num_hands,
        }
    }
}

/// The previous-board component of a board's key, as the range manager
/// keys it: the turn board's mask for a river reached in a flop solve.
fn board_prev(range_manager: &RangeManager, board: &Vec<u8>) -> (r: Option<u64>)
    requires
        forall|i: int| 0 <= i < board@.len() ==> #[trigger] board@[i] < 52,
        board@.len() <= 5,
    ensures
        r == spec_prev_key(range_manager.initial_cards@.len() as int, board@),
{
    if range_manager.initial_cards.len() == 3 && board.len() == 5 {
        let mut t: Vec<u8> = Vec::new();
        t.push(board[0]);
        t.push(board[1]);
        t.push(board[2]);
        t.push(board[3]);
        proof {
            assert(t@ =~= board@.take(4));
        }
        Some(mask_of_cards(&t))
    } else {
        None
    }
}

/// Record one configured action in the scheme's model: appended to the
/// first entry with the line, or as a new entry at the end.
pub open spec fn model_push(
    model: Seq<(Seq<ActionType>, Seq<ActionType>)>,
    line: Seq<ActionType>,
    a: ActionType,
) -> Seq<(Seq<ActionType>, Seq<ActionType>)> {
    let f = first_line(model, line);
    if f >= 0 {
        model.update(f, (model[f].0, model[f].1.push(a)))
    } else {
        model.push((line, seq![a]))
    }
}

/// The line's last token is a bet or raise.
pub open spec fn last_tok_aggressive(node_line: Seq<ActionType>) -> bool {
    node_line.len() > 0 && (node_line.last() matches ActionType::Bet(_) || node_line.last()
        matches ActionType::Raise { .. })
}

/// The line's last token is a check or call.
pub open spec fn last_tok_passive(node_line: Seq<ActionType>) -> bool {
    node_line.len() > 0 && (node_line.last() matches ActionType::Check || node_line.last()
        matches ActionType::Call)
}

/// Process one configured line of street-invested-to totals from position
/// `i`, threading the model, the latest total, the betting line reached so
/// far and the total matched at the last call.  A leading zero is a check;
/// a new nonzero total announces a bet, or a raise when the line's last
/// token is already a bet or raise, sized relative to the matched total;
/// a repeated total is the opponent checking behind or calling.
pub open spec fn process_line(
    model: Seq<(Seq<ActionType>, Seq<ActionType>)>,
    line: Seq<u32>,
    i: int,
    latest: u32,
    node_line: Seq<ActionType>,
    prev: u32,
) -> Seq<(Seq<ActionType>, Seq<ActionType>)>
    decreases line.len() - i,
{
    if i < 0 || i >= line.len() {
        model
    } else {
        let action = line[i];
        if i == 0 && action != 0 {
            process_line(
                model_push(model, node_line, ActionType::Bet(action)),
                line,
                i + 1,
                action,
                node_line.push(ActionType::Bet(action)),
                prev,
            )
        } else if i != 0 && action != 0 {
            if latest != action {
                if action > prev {
                    if last_tok_aggressive(node_line) {
                        process_line(
                            model_push(
                                model,
                                node_line,
                                ActionType::Raise { sizing: (action - prev) as u32 },
                            ),
                            line,
                            i + 1,
                            action,
                            node_line.push(ActionType::Raise { sizing: (action - prev) as u32 }),
                            prev,
                        )
                    } else {
                        process_line(
                            model_push(model, node_line, ActionType::Bet((action - prev) as u32)),
                            line,
                            i + 1,
                            action,
                            node_line.push(ActionType::Bet((action - prev) as u32)),
                            prev,
                        )
                    }
                } else {
                    process_line(model, line, i + 1, action, node_line, prev)
                }
            } else {
                if last_tok_passive(node_line) {
                    process_line(model, line, i + 1, action, node_line.push(ActionType::Check), prev)
                } else {
                    process_line(
                        model,
                        line,
                        i + 1,
                        action,
                        node_line.push(ActionType::Call),
                        action,
                    )
                }
            }
        } else if latest == 0 {
            process_line(model, line, i + 1, action, node_line.push(ActionType::Check), prev)
        } else {
            process_line(model, line, i + 1, action, node_line, prev)
        }
    }
}

/// Process the configured lines from position `i` on.
pub open spec fn process_lines(
    model: Seq<(Seq<ActionType>, Seq<ActionType>)>,
    lines: Seq<Seq<u32>>,
    i: int,
) -> Seq<(Seq<ActionType>, Seq<ActionType>)>
    decreases lines.len() - i,
{
    if i < 0 || i >= lines.len() {
        model
    } else {
        process_lines(
            process_line(model, lines[i], 0, 0, Seq::empty(), 0),
            lines,
            i + 1,
        )
    }
}

/// The sizing scheme the configured lines announce, as a model value.
pub open spec fn spec_sizings(lines: Seq<Seq<u32>>) -> Seq<(Seq<ActionType>, Seq<ActionType>)> {
    process_lines(Seq::empty(), lines, 0)
}

/// All betting lines stored in a scheme are pairwise distinct.
pub open spec fn sizing_lines_distinct(m: SizingMap) -> bool {
    forall|i: int, j: int|
        0 <= i < j < m.entries@.len() ==> (#[trigger] m.entries@[i]).line@ != (
        #[trigger] m.entries@[j]).line@
}

/// A scheme stores only bets and raises.
pub open spec fn sizing_actions_aggressive(m: SizingMap) -> bool {
    forall|i: int, j: int|
        0 <= i < m.entries@.len() && 0 <= j < (#[trigger] m.entries@[i]).actions@.len() ==> ((
        #[trigger] m.entries@[i].actions@[j]) matches ActionType::Bet(_)
            || m.entries@[i].actions@[j] matches ActionType::Raise { .. })
}

/// Number of combos a side holds on the key of a board, as the range
/// manager stores it.
pub open spec fn spec_count(rm: RangeManager, board: Seq<u8>, oop: bool) -> int {
    side_of(
        rm.entry_of(mask_of(board), spec_prev_key(rm.initial_cards@.len() as int, board)),
        oop,
    ).hands@.len() as int
}

/// The street-open decision's action list at a line: a check plus the
/// scheme's in-range bets.
pub open spec fn spec_open_actions(
    model: Seq<(Seq<ActionType>, Seq<ActionType>)>,
    line: Seq<ActionType>,
    stack: u32,
) -> Seq<ActionType> {
    spec_next_actions(seq![ActionType::Check], spec_lookup(model, line), 0, stack, false)
}

/// The responder's action list facing a bet or raise to `s`: fold and
/// call plus the scheme's in-range raises, none when `s` is all-in.
pub open spec fn spec_facing_actions(
    model: Seq<(Seq<ActionType>, Seq<ActionType>)>,
    line: Seq<ActionType>,
    s: u32,
    stack: u32,
) -> Seq<ActionType> {
    spec_next_actions(
        seq![ActionType::Fold, ActionType::Call],
        spec_lookup(model, line),
        s,
        stack,
        true,
    )
}

/// The fields of a dealt-card node under a chance layer: the child
/// board's key, the chance layer's pot as the new street-start pot, the
/// next street's effective stack, and the child board's hand counts.
pub open spec fn card_fields_ok(
    child: Node,
    rm: RangeManager,
    cboard: Seq<u8>,
    pot: u32,
    stack: u32,
) -> bool {
    &&& child.node_type == NodeType::ChanceNodeCard(
        (mask_of(cboard), spec_prev_key(rm.initial_cards@.len() as int, cboard)),
    )
    &&& child.pot_size == pot
    &&& child.chance_start_stack == stack
    &&& child.oop_invested == 0
    &&& child.ip_invested == 0
    &&& child.chance_start_pot == pot
    &&& child.oop_num_hands == spec_count(rm, cboard, true)
    &&& child.ip_num_hands == spec_count(rm, cboard, false)
}

/// The child a decision node's action produces, field by field, following
/// the betting state machine: a check at a street open
/// hands the decision over; a check behind or a call closes the street
/// into a showdown on the river or the next chance layer; a fold ends the
/// hand with the uncalled part returned; a bet or raise yields the
/// opponent's response node with the configured raises.
pub open spec fn action_child_fields(
    latest: Option<ActionType>,
    model: Seq<(Seq<ActionType>, Seq<ActionType>)>,
    line: Seq<ActionType>,
    parent: Node,
    actor_oop: bool,
    a: ActionType,
    child: Node,
    rm: RangeManager,
    board: Seq<u8>,
) -> bool {
    let t = latest_target(latest);
    let paid = if parent.oop_invested < parent.ip_invested {
        parent.oop_invested
    } else {
        parent.ip_invested
    };
    &&& child.chance_start_stack == parent.chance_start_stack
    &&& child.chance_start_pot == parent.chance_start_pot
    &&& child.oop_num_hands == spec_count(rm, board, true)
    &&& child.ip_num_hands == spec_count(rm, board, false)
    &&& match a {
        ActionType::Check => match latest {
            Option::None => {
            &&& child.node_type matches NodeType::ActionNode(ci) && ci.oop == false
                && ci.actions@ == spec_open_actions(
                model,
                line.push(ActionType::Check),
                parent.chance_start_stack,
            ) && ci.actions_num == ci.actions@.len() && ci.hands_num == spec_count(
                rm,
                board,
                false,
            )
            &&& child.pot_size == parent.pot_size
            &&& child.oop_invested == 0
            &&& child.ip_invested == 0
            },
            _ => {
                if board.len() == 5 {
                    &&& child.node_type == NodeType::TerminalNode(TerminalType::TerminalShowdown)
                    &&& child.pot_size == parent.pot_size
                    &&& child.oop_invested == 0
                    &&& child.ip_invested == 0
                } else {
                    &&& child.node_type matches NodeType::ChanceNode(d) && d + 4 == 52
                        - board.len()
                    &&& child.pot_size == parent.pot_size
                    &&& child.oop_invested == 0
                    &&& child.ip_invested == 0
                }
            },
        },
        ActionType::Bet(s) => {
            &&& child.node_type matches NodeType::ActionNode(ci) && ci.oop == !actor_oop
                && ci.actions@ == spec_facing_actions(
                model,
                line.push(ActionType::Bet(s)),
                s,
                parent.chance_start_stack,
            ) && ci.actions_num == ci.actions@.len() && ci.hands_num == spec_count(
                rm,
                board,
                !actor_oop,
            )
            &&& child.pot_size == parent.pot_size + s
            &&& child.oop_invested == if actor_oop {
                s
            } else {
                0
            }
            &&& child.ip_invested == if actor_oop {
                0
            } else {
                s
            }
        },
        ActionType::Fold => {
            &&& child.node_type == NodeType::TerminalNode(TerminalType::TerminalFold(actor_oop))
            &&& child.pot_size == parent.pot_size - (t - paid)
            &&& child.oop_invested == 0
            &&& child.ip_invested == 0
        },
        ActionType::Call => {
            if board.len() == 5 {
                &&& child.node_type == NodeType::TerminalNode(TerminalType::TerminalShowdown)
                &&& child.pot_size == parent.pot_size + (t - paid)
                &&& child.oop_invested == 0
                &&& child.ip_invested == 0
            } else {
                &&& child.node_type matches NodeType::ChanceNode(d) && d + 4 == 52 - board.len()
                &&& child.pot_size == parent.pot_size + (t - paid)
                &&& child.oop_invested == 0
                &&& child.ip_invested == 0
            }
        },
        ActionType::Raise { sizing: s2 } => {
            &&& child.node_type matches NodeType::ActionNode(ci) && ci.oop == !actor_oop
                && ci.actions@ == spec_facing_actions(
                model,
                line.push(ActionType::Raise { sizing: s2 }),
                s2,
                parent.chance_start_stack,
            ) && ci.actions_num == ci.actions@.len() && ci.hands_num == spec_count(
                rm,
                board,
                !actor_oop,
            )
            &&& child.pot_size == parent.pot_size - (if actor_oop {
                parent.oop_invested
            } else {
                parent.ip_invested
            }) + s2
            &&& child.oop_invested == if actor_oop {
                s2
            } else {
                parent.oop_invested
            }
            &&& child.ip_invested == if actor_oop {
                parent.ip_invested
            } else {
                s2
            }
        },
    }
}

/// The complete content of a built subtree, child by child.  A chance
/// layer carries one dealt-card child per residual-deck card, in deck
/// order; a dealt card carries the street-opening decision with the
/// scheme's bets; a decision node carries, for each of its actions,
/// exactly the child [`action_child_fields`] names, whose own subtree is
/// built for the line extended by that action.  Together with the top
/// node's fields this determines the tree (see [`lemma_built_tree_unique`]).
pub open spec fn built_ok(
    latest: Option<ActionType>,
    model: Seq<(Seq<ActionType>, Seq<ActionType>)>,
    line: Seq<ActionType>,
    n: Node,
    rm: RangeManager,
    board: Seq<u8>,
) -> bool
    decreases n,
{
    match n.node_type {
        NodeType::TerminalNode(_) => n.children@.len() == 0,
        NodeType::ChanceNode(d) => {
            if d == 0 {
                &&& n.children@.len() == 1
                &&& card_fields_ok(
                    n.children@[0],
                    rm,
                    board,
                    n.pot_size,
                    n.chance_start_stack,
                )
                &&& built_ok(None, model, line, n.children@[0], rm, board)
            } else {
                let deck = rm.deck_of(mask_of(board)).deck@;
                &&& d + 4 == deck.len()
                &&& n.children@.len() == deck.len()
                &&& forall|q: int|
                    0 <= q < deck.len() ==> card_fields_ok(
                        #[trigger] n.children@[q],
                        rm,
                        board.push(deck[q]),
                        n.pot_size,
                        (n.chance_start_stack - (n.pot_size - n.chance_start_pot) / 2) as u32,
                    )
                &&& forall|q: int|
                    0 <= q < deck.len() ==> built_ok(
                        None,
                        model,
                        line,
                        #[trigger] n.children@[q],
                        rm,
                        board.push(deck[q]),
                    )
            }
        },
        NodeType::ChanceNodeCard(_) => {
            &&& n.children@.len() == 1
            &&& {
                let dec = n.children@[0];
                &&& dec.node_type matches NodeType::ActionNode(ci) && ci.oop == true
                    && ci.actions@ == spec_open_actions(model, line, n.chance_start_stack)
                    && ci.actions_num == ci.actions@.len() && ci.hands_num == spec_count(
                    rm,
                    board,
                    true,
                )
                &&& dec.pot_size == n.pot_size
                &&& dec.chance_start_stack == n.chance_start_stack
                &&& dec.oop_invested == 0
                &&& dec.ip_invested == 0
                &&& dec.chance_start_pot == n.chance_start_pot
                &&& dec.oop_num_hands == spec_count(rm, board, true)
                &&& dec.ip_num_hands == spec_count(rm, board, false)
            }
            &&& built_ok(None, model, line, n.children@[0], rm, board)
        },
        NodeType::ActionNode(info) => {
            &&& n.children@.len() == info.actions@.len()
            &&& forall|k: int|
                0 <= k < info.actions@.len() ==> action_child_fields(
                    latest,
                    model,
                    line,
                    n,
                    info.oop,
                    #[trigger] info.actions@[k],
                    n.children@[k],
                    rm,
                    board,
                )
            &&& forall|k: int|
                0 <= k < info.actions@.len() ==> built_ok(
                    Some(#[trigger] info.actions@[k]),
                    model,
                    line.push(info.actions@[k]),
                    n.children@[k],
                    rm,
                    board,
                )
        },
    }
}

/// Two node kinds agree, action lists compared element by element.
pub open spec fn kind_same(a: NodeType, b: NodeType) -> bool {
    match (a, b) {
        (NodeType::ActionNode(x), NodeType::ActionNode(y)) => x.oop == y.oop && x.actions@
            == y.actions@ && x.actions_num == y.actions_num && x.hands_num == y.hands_num,
        (NodeType::TerminalNode(x), NodeType::TerminalNode(y)) => x == y,
        (NodeType::ChanceNode(x), NodeType::ChanceNode(y)) => x == y,
        (NodeType::ChanceNodeCard(x), NodeType::ChanceNodeCard(y)) => x == y,
        _ => false,
    }
}

/// Two trees agree node for node: same kind, same chip and count fields,
/// same children, recursively.
pub open spec fn node_same(a: Node, b: Node) -> bool
    decreases a,
{
    &&& kind_same(a.node_type, b.node_type)
    &&& a.pot_size == b.pot_size
    &&& a.chance_start_stack == b.chance_start_stack
    &&& a.oop_invested == b.oop_invested
    &&& a.ip_invested == b.ip_invested
    &&& a.chance_start_pot == b.chance_start_pot
    &&& a.oop_num_hands == b.oop_num_hands
    &&& a.ip_num_hands == b.ip_num_hands
    &&& a.children@.len() == b.children@.len()
    &&& forall|i: int|
        0 <= i < a.children@.len() ==> node_same(#[trigger] a.children@[i], b.children@[i])
}

/// Law: the built tree is a function of its inputs.  Any two trees that
/// satisfy [`built_ok`] for the same sizing scheme, line, range manager
/// and board, and agree at the top node, agree everywhere: in particular,
/// two trainers assembled from the same ranges, sizing lines, effective
/// stack and pot hold the same tree.
pub proof fn lemma_built_tree_unique(
    latest: Option<ActionType>,
    model: Seq<(Seq<ActionType>, Seq<ActionType>)>,
    line: Seq<ActionType>,
    t1: Node,
    t2: Node,
    rm: RangeManager,
    board: Seq<u8>,
)
    requires
        built_ok(latest, model, line, t1, rm, board),
        built_ok(latest, model, line, t2, rm, board),
        kind_same(t1.node_type, t2.node_type),
        t1.pot_size == t2.pot_size,
        t1.chance_start_stack == t2.chance_start_stack,
        t1.oop_invested == t2.oop_invested,
        t1.ip_invested == t2.ip_invested,
        t1.chance_start_pot == t2.chance_start_pot,
        t1.oop_num_hands == t2.oop_num_hands,
        t1.ip_num_hands == t2.ip_num_hands,
    ensures
        node_same(t1, t2),
    decreases t1,
{
    match t1.node_type {
        NodeType::TerminalNode(_) => {},
        NodeType::ChanceNode(d) => {
            if d == 0 {
                lemma_built_tree_unique(
                    None,
                    model,
                    line,
                    t1.children@[0],
                    t2.children@[0],
                    rm,
                    board,
                );
            } else {
                let deck = rm.deck_of(mask_of(board)).deck@;
                assert forall|q: int| 0 <= q < t1.children@.len() implies node_same(
                    #[trigger] t1.children@[q],
                    t2.children@[q],
                ) by {
                    assert(card_fields_ok(
                        t1.children@[q],
                        rm,
                        board.push(deck[q]),
                        t1.pot_size,
                        (t1.chance_start_stack - (t1.pot_size - t1.chance_start_pot) / 2) as u32,
                    ));
                    assert(card_fields_ok(
                        t2.children@[q],
                        rm,
                        board.push(deck[q]),
                        t2.pot_size,
                        (t2.chance_start_stack - (t2.pot_size - t2.chance_start_pot) / 2) as u32,
                    ));
                    lemma_built_tree_unique(
                        None,
                        model,
                        line,
                        t1.children@[q],
                        t2.children@[q],
                        rm,
                        board.push(deck[q]),
                    );
                }
            }
        },
        NodeType::ChanceNodeCard(_) => {
            lemma_built_tree_unique(
                None,
                model,
                line,
                t1.children@[0],
                t2.children@[0],
                rm,
                board,
            );
        },
        NodeType::ActionNode(info) => {
            assert forall|k: int| 0 <= k < t1.children@.len() implies node_same(
                #[trigger] t1.children@[k],
                t2.children@[k],
            ) by {
                let a = info.actions@[k];
                assert(action_child_fields(
                    latest,
                    model,
                    line,
                    t1,
                    info.oop,
                    a,
                    t1.children@[k],
                    rm,
                    board,
                ));
                match t2.node_type {
                    NodeType::ActionNode(info2) => {
                        assert(info2.actions@[k] == a);
                        assert(action_child_fields(
                            latest,
                            model,
                            line,
                            t2,
                            info2.oop,
                            a,
                            t2.children@[k],
                            rm,
                            board,
                        ));
                        assert(built_ok(
                            Some(a),
                            model,
                            line.push(a),
                            t2.children@[k],
                            rm,
                            board,
                        ));
                    },
                    _ => {
                        assert(false);
                    },
                }
                lemma_built_tree_unique(
                    Some(a),
                    model,
                    line.push(a),
                    t1.children@[k],
                    t2.children@[k],
                    rm,
                    board,
                );
            }
        },
    }
}

/// One step of a betting line as the text protocol writes it: a passive
/// move (a check, or a call when a bet is live), a fold, a bet or raise
/// given by the cumulative chips-invested-to total, or a dealt card.
#[derive(Debug, Clone, Copy, PartialEq, Eq, Structural)]
pub enum LineStep {
    Passive,
    Fold,
    BetTo(u32),
    Card(u8),
}

/// The tree action a textual step denotes.  `previous_invested` is the
/// cumulative total both sides had matched before the current street's
/// bet, `latest_bet` the cumulative total of the live bet, if any.
pub open spec fn spec_step_action(
    step: LineStep,
    previous_invested: u32,
    latest_bet: u32,
) -> Option<ActionType> {
    match step {
        LineStep::Fold => Some(ActionType::Fold),
        LineStep::Passive => if latest_bet > previous_invested {
            Some(ActionType::Call)
        } else {
            Some(ActionType::Check)
        },
        LineStep::BetTo(total) => if total >= previous_invested {
            if latest_bet > previous_invested {
                Some(ActionType::Raise { sizing: (total - previous_invested) as u32 })
            } else {
                Some(ActionType::Bet((total - previous_invested) as u32))
            }
        } else {
            None
        },
        LineStep::Card(_) => None,
    }
}

/// The cumulative total a bet-to step names; any other step keeps the
/// running value.
pub open spec fn spec_step_total(step: LineStep, latest_bet: u32) -> u32 {
    match step {
        LineStep::BetTo(total) => total,
        _ => latest_bet,
    }
}

/// Index of the first action equal to the given one, or `-1`.
pub open spec fn first_action(actions: Seq<ActionType>, a: ActionType) -> int
    decreases actions.len(),
{
    if actions.len() == 0 {
        -1
    } else if actions[0] == a {
        0
    } else {
        let r = first_action(actions.skip(1), a);
        if r == -1 {
            -1
        } else {
            r + 1
        }
    }
}

/// Index of the first dealt-card child whose board holds the card.
pub open spec fn first_card_child(children: Seq<Node>, c: u8) -> int
    decreases children.len(),
{
    if children.len() == 0 {
        -1
    } else if (children[0].node_type matches NodeType::ChanceNodeCard(k) && crate::range::mask_has(
        k.0,
        c,
    )) {
        0
    } else {
        let r = first_card_child(children.skip(1), c);
        if r == -1 {
            -1
        } else {
            r + 1
        }
    }
}

/// The node a sequence of line steps leads to from `n`, together with the
/// cumulative chip total both sides had matched on arrival; the walk takes
/// one child per decision step and descends through the dealt card and its
/// single decision child on a card step.  `None` when the line does not
/// fit the tree.
pub open spec fn spec_walk(
    n: Node,
    steps: Seq<LineStep>,
    i: int,
    previous_invested: u32,
    latest_bet: u32,
) -> Option<(Node, u32)>
    decreases steps.len() - i,
{
    if i >= steps.len() {
        Some((n, previous_invested))
    } else {
        match steps[i] {
            LineStep::Card(c) => {
                let j = first_card_child(n.children@, c);
                if j == -1 {
                    None
                } else if n.children@[j].children@.len() == 0 {
                    None
                } else {
                    spec_walk(
                        n.children@[j].children@[0],
                        steps,
                        i + 1,
                        previous_invested,
                        latest_bet,
                    )
                }
            },
            step => {
                match n.node_type {
                    NodeType::ActionNode(info) => {
                        match spec_step_action(step, previous_invested, latest_bet) {
                            None => None,
                            Some(a) => {
                                let k = first_action(info.actions@, a);
                                if k == -1 || k >= n.children@.len() {
                                    None
                                } else {
                                    let new_latest = match a {
                                        ActionType::Bet(_) => spec_step_total(step, latest_bet),
                                        ActionType::Raise { .. } => spec_step_total(
                                            step,
                                            latest_bet,
                                        ),
                                        _ => latest_bet,
                                    };
                                    let new_prev = match a {
                                        ActionType::Call => latest_bet,
                                        _ => previous_invested,
                                    };
                                    spec_walk(n.children@[k], steps, i + 1, new_prev, new_latest)
                                }
                            },
                        }
                    },
                    _ => None,
                }
            },
        }
    }
}

/// The node an explicit child-index path leads to, stepping one child at
/// a time; `None` when an index is out of range.
pub open spec fn follow_path(n: Node, path: Seq<int>, j: int) -> Option<Node>
    decreases path.len() - j,
{
    if j >= path.len() {
        Some(n)
    } else if 0 <= path[j] < n.children@.len() {
        follow_path(n.children@[path[j]], path, j + 1)
    } else {
        None
    }
}

/// Appending one index to a path steps once more from wherever the path
/// led.
pub proof fn lemma_follow_push(n: Node, path: Seq<int>, j: int, k: int)
    requires
        0 <= j <= path.len(),
    ensures
        follow_path(n, path.push(k), j) == match follow_path(n, path, j) {
            Some(m) => if 0 <= k < m.children@.len() {
                Some(m.children@[k])
            } else {
                None::<Node>
            },
            None => None::<Node>,
        },
    decreases path.len() - j,
{
    let p2 = path.push(k);
    if j >= path.len() {
        assert(p2[j] == k);
        assert(follow_path(n, path, j) == Some(n));
        if 0 <= k < n.children@.len() {
            assert(follow_path(n, p2, j) == follow_path(n.children@[k], p2, j + 1));
            assert(follow_path(n.children@[k], p2, j + 1) == Some(n.children@[k]));
        } else {
            assert(follow_path(n, p2, j) is None);
        }
    } else {
        assert(p2[j] == path[j]);
        if 0 <= path[j] < n.children@.len() {
            lemma_follow_push(n.children@[path[j]], path, j + 1, k);
        }
    }
}

impl Node {
    /// Follow a betting line from this node: each decision step selects
    /// the child of the matching action, each card step descends through
    /// the dealt card into its decision child.  Chip totals in the steps
    /// are cumulative invested-to amounts across streets.  Besides the
    /// node, the walk reports the child-index path that reaches it, so a
    /// caller can walk a parallel structure the same way.
    pub fn find_node<'a>(&'a self, steps: &Vec<LineStep>) -> (r: Option<
        (&'a Node, Vec<usize>, u32),
    >)
        requires
            forall|t: int|
                0 <= t < steps@.len() ==> ((#[trigger] steps@[t]) matches LineStep::Card(c)
                    ==> c < 52),
        ensures
            match r {
                Some(found) => spec_walk(*self, steps@, 0, 0, 0) == Some((*found.0, found.2))
                    && follow_path(*self, found.1@.map_values(|x: usize| x as int), 0) == Some(
                    *found.0,
                ),
                None => spec_walk(*self, steps@, 0, 0, 0) is None,
            },
    {
        let n = steps.len();
        let mut cur: &Node = self;
        let mut path: Vec<usize> = Vec::new();
        let mut previous_invested: u32 = 0;
        let mut latest_bet: u32 = 0;
        let mut i: usize = 0;
        while i < n
            invariant
                0 <= i <= n,
                n == steps@.len(),
                forall|t: int|
                    0 <= t < steps@.len() ==> ((#[trigger] steps@[t]) matches LineStep::Card(c)
                        ==> c < 52),
                spec_walk(*self, steps@, 0, 0, 0) == spec_walk(
                    *cur,
                    steps@,
                    i as int,
                    previous_invested,
                    latest_bet,
                ),
                follow_path(*self, path@.map_values(|x: usize| x as int), 0) == Some(*cur),
            decreases n - i,
        {
            let step = steps[i];
            match step {
                LineStep::Card(c) => {
                    proof {
                        assert(steps@[i as int] matches LineStep::Card(cc) && cc < 52);
                    }
                    let cn = cur.children.len();
                    let mut j: usize = 0;
                    let mut found: Option<usize> = None;
                    while j < cn
                        invariant
                            0 <= j <= cn,
                            cn == cur.children@.len(),
                            c < 52,
                            match found {
                                Some(f) => f < cn && first_card_child(cur.children@, c) == f,
                                None => forall|k: int|
                                    0 <= k < j ==> !((#[trigger] cur.children@[k]).node_type
                                        matches NodeType::ChanceNodeCard(key)
                                        && crate::range::mask_has(key.0, c)),
                            },
                        decreases cn - j,
                    {
                        if found.is_none() {
                            let is_match = match &cur.children[j].node_type {
                                NodeType::ChanceNodeCard((m, _)) => (*m >> c) & 1u64 == 1u64,
                                _ => false,
                            };
                            if is_match {
                                proof {
                                    lemma_first_card_child_at(cur.children@, c, j as int);
                                }
                                found = Some(j);
                            }
                        }
                        j = j + 1;
                    }
                    match found {
                        Some(f) => {
                            if cur.children[f].children.len() == 0 {
                                proof {
                                    assert(spec_walk(
                                        *cur,
                                        steps@,
                                        i as int,
                                        previous_invested,
                                        latest_bet,
                                    ) is None);
                                }
                                return None;
                            }
                            proof {
                                lemma_follow_push(
                                    *self,
                                    path@.map_values(|x: usize| x as int),
                                    0,
                                    f as int,
                                );
                                assert(path@.push(f).map_values(|x: usize| x as int)
                                    =~= path@.map_values(|x: usize| x as int).push(f as int));
                                lemma_follow_push(
                                    *self,
                                    path@.push(f).map_values(|x: usize| x as int),
                                    0,
                                    0,
                                );
                                assert(path@.push(f).push(0usize).map_values(
                                    |x: usize| x as int,
                                ) =~= path@.push(f).map_values(|x: usize| x as int).push(0));
                            }
                            path.push(f);
                            path.push(0);
                            cur = &cur.children[f].children[0];
                        },
                        None => {
                            proof {
                                lemma_first_card_child_none(cur.children@, c);
                            }
                            return None;
                        },
                    }
                },
                _ => {
                    let wanted = match step {
                        LineStep::Fold => ActionType::Fold,
                        LineStep::Passive => {
                            if latest_bet > previous_invested {
                                ActionType::Call
                            } else {
                                ActionType::Check
                            }
                        },
                        LineStep::BetTo(total) => {
                            if total < previous_invested {
                                return None;
                            }
                            if latest_bet > previous_invested {
                                ActionType::Raise { sizing: total - previous_invested }
                            } else {
                                ActionType::Bet(total - previous_invested)
                            }
                        },
                        LineStep::Card(_) => {
                            proof {
                                assert(false);
                            }
                            ActionType::Fold
                        },
                    };
                    let actions = match &cur.node_type {
                        NodeType::ActionNode(info) => &info.actions,
                        _ => {
                            return None;
                        },
                    };
                    let an = actions.len();
                    let mut k: usize = 0;
                    let mut pos: Option<usize> = None;
                    while k < an
                        invariant
                            0 <= k <= an,
                            an == actions@.len(),
                            match pos {
                                Some(p) => p < an && first_action(actions@, wanted) == p,
                                None => forall|t: int| 0 <= t < k ==> actions@[t] != wanted,
                            },
                        decreases an - k,
                    {
                        if pos.is_none() && actions[k] == wanted {
                            proof {
                                lemma_first_action_at(actions@, wanted, k as int);
                            }
                            pos = Some(k);
                        }
                        k = k + 1;
                    }
                    match pos {
                        Some(p) => {
                            if p >= cur.children.len() {
                                return None;
                            }
                            proof {
                                lemma_follow_push(
                                    *self,
                                    path@.map_values(|x: usize| x as int),
                                    0,
                                    p as int,
                                );
                                assert(path@.push(p).map_values(|x: usize| x as int)
                                    =~= path@.map_values(|x: usize| x as int).push(p as int));
                            }
                            path.push(p);
                            match wanted {
                                ActionType::Bet(_) | ActionType::Raise { .. } => {
                                    latest_bet = match step {
                                        LineStep::BetTo(total) => total,
                                        _ => latest_bet,
                                    };
                                },
                                ActionType::Call => {
                                    previous_invested = latest_bet;
                                },
                                _ => {},
                            }
                            cur = &cur.children[p];
                        },
                        None => {
                            proof {
                                lemma_first_action_none(actions@, wanted);
                            }
                            return None;
                        },
                    }
                },
            }
            i = i + 1;
        }
        Some((cur, path, previous_invested))
    }
}

/// A match with no earlier match is the first one.
proof fn lemma_first_action_at(actions: Seq<ActionType>, a: ActionType, i: int)
    requires
        0 <= i < actions.len(),
        actions[i] == a,
        forall|t: int| 0 <= t < i ==> actions[t] != a,
    ensures
        first_action(actions, a) == i,
    decreases actions.len(),
{
    if actions.len() > 0 {
        let rest = actions.skip(1);
        assert(forall|t: int| 0 <= t < rest.len() ==> #[trigger] rest[t] == actions[t + 1]);
        if actions[0] != a {
            lemma_first_action_at(rest, a, i - 1);
        }
    }
}

/// No match anywhere means no first match.
proof fn lemma_first_action_none(actions: Seq<ActionType>, a: ActionType)
    requires
        forall|t: int| 0 <= t < actions.len() ==> actions[t] != a,
    ensures
        first_action(actions, a) == -1,
    decreases actions.len(),
{
    if actions.len() > 0 {
        let rest = actions.skip(1);
        assert(forall|t: int| 0 <= t < rest.len() ==> #[trigger] rest[t] == actions[t + 1]);
        lemma_first_action_none(rest, a);
    }
}

/// A dealt-card match with no earlier match is the first one.
proof fn lemma_first_card_child_at(children: Seq<Node>, c: u8, i: int)
    requires
        0 <= i < children.len(),
        children[i].node_type matches NodeType::ChanceNodeCard(key) && crate::range::mask_has(
            key.0,
            c,
        ),
        forall|k: int|
            0 <= k < i ==> !((#[trigger] children[k]).node_type matches NodeType::ChanceNodeCard(
                key,
            ) && crate::range::mask_has(key.0, c)),
    ensures
        first_card_child(children, c) == i,
    decreases children.len(),
{
    if children.len() > 0 {
        let rest = children.skip(1);
        assert(forall|t: int| 0 <= t < rest.len() ==> #[trigger] rest[t] == children[t + 1]);
        if !(children[0].node_type matches NodeType::ChanceNodeCard(key)
            && crate::range::mask_has(key.0, c)) {
            lemma_first_card_child_at(rest, c, i - 1);
        }
    }
}

/// No dealt-card match anywhere means no first match.
proof fn lemma_first_card_child_none(children: Seq<Node>, c: u8)
    requires
        forall|k: int|
            0 <= k < children.len() ==> !((#[trigger] children[k]).node_type matches
                NodeType::ChanceNodeCard(key) && crate::range::mask_has(key.0, c)),
    ensures
        first_card_child(children, c) == -1,
    decreases children.len(),
{
    if children.len() > 0 {
        let rest = children.skip(1);
        assert(forall|t: int| 0 <= t < rest.len() ==> #[trigger] rest[t] == children[t + 1]);
        lemma_first_card_child_none(rest, c);
    }
}

/// The tag a children listing prints for a node.
#[derive(Debug, Clone, Copy, PartialEq, Eq, Structural)]
pub enum NodeTag {
    Root,
    OopDecision,
    IpDecision,
    SplitNode,
    EndNode,
}

/// One row of a children listing: the token that extends the line (bets
/// and raises as cumulative chip totals, `None` only for the root's one
/// child), the child's tag, both sides' cumulative chip totals once the
/// step is taken, and the child's own child count (a chance layer reports
/// its reach-weight divisor, as the listing shows it).
#[derive(Debug, Clone, Copy, PartialEq, Eq, Structural)]
pub struct ChildSummary {
    pub step: Option<LineStep>,
    pub tag: NodeTag,
    pub oop_total: u64,
    pub ip_total: u64,
    pub children_count: u64,
}

/// The child count a listing reports for a node.
pub open spec fn spec_count_of(t: NodeType, children_len: int) -> int {
    match t {
        NodeType::ActionNode(_) => children_len,
        NodeType::TerminalNode(_) => 0,
        NodeType::ChanceNode(d) => d as int,
        NodeType::ChanceNodeCard(_) => children_len,
    }
}

/// The row an action child is listed with: checks and calls print as the
/// passive token, a call or a closed street equalizes both totals, and a
/// bet or raise moves the actor's total to the cumulative target.
pub open spec fn spec_action_child_summary(
    parent: Node,
    prev: u32,
    actor_oop: bool,
    a: ActionType,
    child: Node,
) -> ChildSummary {
    let oop0 = prev + parent.oop_invested;
    let ip0 = prev + parent.ip_invested;
    let eq = if oop0 < ip0 {
        ip0
    } else {
        oop0
    };
    let cnt = spec_count_of(child.node_type, child.children@.len() as int);
    match a {
        ActionType::Check => ChildSummary {
            step: Some(LineStep::Passive),
            tag: spec_tag_of(child.node_type),
            oop_total: oop0 as u64,
            ip_total: ip0 as u64,
            children_count: cnt as u64,
        },
        ActionType::Call => ChildSummary {
            step: Some(LineStep::Passive),
            tag: spec_tag_of(child.node_type),
            oop_total: eq as u64,
            ip_total: eq as u64,
            children_count: cnt as u64,
        },
        ActionType::Fold => ChildSummary {
            step: Some(LineStep::Fold),
            tag: spec_tag_of(child.node_type),
            oop_total: oop0 as u64,
            ip_total: ip0 as u64,
            children_count: cnt as u64,
        },
        ActionType::Bet(s) => ChildSummary {
            step: Some(LineStep::BetTo((prev + s) as u32)),
            tag: spec_tag_of(child.node_type),
            oop_total: if actor_oop {
                (prev + s) as u64
            } else {
                oop0 as u64
            },
            ip_total: if actor_oop {
                ip0 as u64
            } else {
                (prev + s) as u64
            },
            children_count: cnt as u64,
        },
        ActionType::Raise { sizing } => ChildSummary {
            step: Some(LineStep::BetTo((prev + sizing) as u32)),
            tag: spec_tag_of(child.node_type),
            oop_total: if actor_oop {
                (prev + sizing) as u64
            } else {
                oop0 as u64
            },
            ip_total: if actor_oop {
                ip0 as u64
            } else {
                (prev + sizing) as u64
            },
            children_count: cnt as u64,
        },
    }
}

/// The tag of a node as a listing reports it.
pub open spec fn spec_tag_of(t: NodeType) -> NodeTag {
    match t {
        NodeType::ActionNode(info) => if info.oop {
            NodeTag::OopDecision
        } else {
            NodeTag::IpDecision
        },
        NodeType::TerminalNode(_) => NodeTag::EndNode,
        NodeType::ChanceNode(_) => NodeTag::SplitNode,
        NodeType::ChanceNodeCard(_) => NodeTag::Root,
    }
}

/// Whether this node's children can be listed: a decision node needs one
/// child per action and in-range cumulative totals, a chance layer needs
/// a nameable fresh card and a decision below every dealt card, and the
/// root's pass-through card needs its decision child.
pub open spec fn spec_describable(n: Node, prev: u32, board: Seq<u8>) -> bool {
    match n.node_type {
        NodeType::TerminalNode(_) => true,
        NodeType::ActionNode(info) => {
            &&& n.children@.len() == info.actions@.len()
            &&& prev + n.oop_invested <= u32::MAX
            &&& prev + n.ip_invested <= u32::MAX
            &&& forall|k: int|
                0 <= k < info.actions@.len() ==> latest_target(
                    Some(#[trigger] info.actions@[k]),
                ) + prev <= u32::MAX
        },
        NodeType::ChanceNode(_) => forall|q: int|
            0 <= q < n.children@.len() ==> ((#[trigger] n.children@[q]).node_type matches
                NodeType::ChanceNodeCard(key) && (exists|c: u8|
                c < 52 && crate::range::mask_has(key.0, c) && !board.contains(c))
                && n.children@[q].children@.len() >= 1),
        NodeType::ChanceNodeCard(_) => n.children@.len() >= 1,
    }
}

impl Node {
    /// List this node's children for the text protocol, given the
    /// cumulative total `prev` both sides had matched before this street
    /// and the current board's cards (used to name a chance layer's dealt
    /// cards).  A decision node yields one row per action, as
    /// [`spec_action_child_summary`] fixes it; a chance layer yields one
    /// dealt-card row per child, tagged as the decision it leads to; the
    /// root's pass-through card yields its single decision row.
    pub fn describe_children(&self, prev: u32, board: &Vec<u8>) -> (r: Option<Vec<ChildSummary>>)
        ensures
            r is Some <==> spec_describable(*self, prev, board@),
            match r {
                Some(v) => match self.node_type {
                    NodeType::TerminalNode(_) => v@.len() == 0,
                    NodeType::ActionNode(info) => {
                        &&& v@.len() == info.actions@.len()
                        &&& forall|k: int|
                            0 <= k < v@.len() ==> #[trigger] v@[k] == spec_action_child_summary(
                                *self,
                                prev,
                                info.oop,
                                info.actions@[k],
                                self.children@[k],
                            )
                    },
                    NodeType::ChanceNode(_) => {
                        &&& v@.len() == self.children@.len()
                        &&& forall|q: int|
                            0 <= q < v@.len() ==> {
                                let row = #[trigger] v@[q];
                                &&& (self.children@[q].node_type matches
                                    NodeType::ChanceNodeCard(key) && (row.step matches Some(
                                    st,
                                ) && st matches LineStep::Card(c) && c < 52
                                    && crate::range::mask_has(key.0, c) && !board@.contains(c)))
                                &&& row.tag == NodeTag::OopDecision
                                &&& row.oop_total == prev
                                &&& row.ip_total == prev
                                &&& row.children_count
                                    == self.children@[q].children@[0].children@.len()
                            }
                    },
                    NodeType::ChanceNodeCard(_) => {
                        &&& v@.len() == 1
                        &&& v@[0] == (ChildSummary {
                            step: None,
                            tag: NodeTag::OopDecision,
                            oop_total: prev as u64,
                            ip_total: prev as u64,
                            children_count: self.children@[0].children@.len() as u64,
                        })
                    },
                },
                None => true,
            },
    {
        match &self.node_type {
            NodeType::TerminalNode(_) => Some(Vec::new()),
            NodeType::ChanceNodeCard(_) => {
                if self.children.len() < 1 {
                    return None;
                }
                let mut out: Vec<ChildSummary> = Vec::new();
                out.push(
                    ChildSummary {
                        step: None,
                        tag: NodeTag::OopDecision,
                        oop_total: prev as u64,
                        ip_total: prev as u64,
                        children_count: self.children[0].children.len() as u64,
                    },
                );
                Some(out)
            },
            NodeType::ChanceNode(_) => {
                let n = self.children.len();
                let mut out: Vec<ChildSummary> = Vec::new();
                let mut q: usize = 0;
                while q < n
                    invariant
                        0 <= q <= n,
                        n == self.children@.len(),
                        self.node_type matches NodeType::ChanceNode(_),
                        out@.len() == q,
                        forall|i: int|
                            0 <= i < q ==> ((#[trigger] self.children@[i]).node_type matches
                                NodeType::ChanceNodeCard(key) && (exists|c: u8|
                                c < 52 && crate::range::mask_has(key.0, c) && !board@.contains(
                                    c,
                                )) && self.children@[i].children@.len() >= 1),
                        forall|i: int|
                            0 <= i < q ==> {
                                let row = #[trigger] out@[i];
                                &&& (self.children@[i].node_type matches
                                    NodeType::ChanceNodeCard(key) && (row.step matches Some(
                                    st,
                                ) && st matches LineStep::Card(c) && c < 52
                                    && crate::range::mask_has(key.0, c) && !board@.contains(c)))
                                &&& row.tag == NodeTag::OopDecision
                                &&& row.oop_total == prev
                                &&& row.ip_total == prev
                                &&& row.children_count
                                    == self.children@[i].children@[0].children@.len()
                            },
                    decreases n - q,
                {
                    let child = &self.children[q];
                    let key_mask = match &child.node_type {
                        NodeType::ChanceNodeCard((km, _)) => *km,
                        _ => {
                            proof {
                                if spec_describable(*self, prev, board@) {
                                    assert((self.children@[q as int]).node_type matches
                                        NodeType::ChanceNodeCard(key) && (exists|c: u8|
                                        c < 52 && crate::range::mask_has(key.0, c)
                                            && !board@.contains(c))
                                        && self.children@[q as int].children@.len() >= 1);
                                    assert(false);
                                }
                            }
                            return None;
                        },
                    };
                    if child.children.len() < 1 {
                        proof {
                            if spec_describable(*self, prev, board@) {
                                assert((self.children@[q as int]).node_type matches
                                    NodeType::ChanceNodeCard(key) && (exists|c: u8|
                                    c < 52 && crate::range::mask_has(key.0, c)
                                        && !board@.contains(c))
                                    && self.children@[q as int].children@.len() >= 1);
                                assert(false);
                            }
                        }
                        return None;
                    }
                    let mut found: Option<u8> = None;
                    let mut c: u8 = 0;
                    while c < 52
                        invariant
                            0 <= c <= 52,
                            match found {
                                Some(fc) => fc < 52 && crate::range::mask_has(key_mask, fc)
                                    && !board@.contains(fc),
                                None => forall|d: u8|
                                    d < c ==> !(crate::range::mask_has(key_mask, d)
                                        && !board@.contains(d)),
                            },
                        decreases 52 - c,
                    {
                        if found.is_none() {
                            let bit = (key_mask >> c) & 1u64 == 1u64;
                            if bit && !crate::hand_range::cards_contain(board, c) {
                                found = Some(c);
                            }
                        }
                        c = c + 1;
                    }
                    match found {
                        Some(fc) => {
                            out.push(
                                ChildSummary {
                                    step: Some(LineStep::Card(fc)),
                                    tag: NodeTag::OopDecision,
                                    oop_total: prev as u64,
                                    ip_total: prev as u64,
                                    children_count: child.children[0].children.len() as u64,
                                },
                            );
                        },
                        None => {
                            proof {
                                assert forall|cc: u8| !(cc < 52 && crate::range::mask_has(
                                    key_mask,
                                    cc,
                                ) && !board@.contains(cc)) by {
                                    if cc < 52 {
                                        assert(!(crate::range::mask_has(key_mask, cc)
                                            && !board@.contains(cc)));
                                    }
                                }
                                if spec_describable(*self, prev, board@) {
                                    assert((self.children@[q as int]).node_type matches
                                        NodeType::ChanceNodeCard(key) && (exists|c: u8|
                                        c < 52 && crate::range::mask_has(key.0, c)
                                            && !board@.contains(c))
                                        && self.children@[q as int].children@.len() >= 1);
                                    let wc = choose|c: u8|
                                        c < 52 && crate::range::mask_has(key_mask, c)
                                            && !board@.contains(c);
                                    assert(!(wc < 52 && crate::range::mask_has(key_mask, wc)
                                        && !board@.contains(wc)));
                                    assert(false);
                                }
                            }
                            return None;
                        },
                    }
                    q = q + 1;
                }
                Some(out)
            },
            NodeType::ActionNode(info) => {
                if self.children.len() != info.actions.len() {
                    return None;
                }
                if prev as u64 + self.oop_invested as u64 > u32::MAX as u64 || prev as u64
                    + self.ip_invested as u64 > u32::MAX as u64 {
                    return None;
                }
                let n = info.actions.len();
                let mut out: Vec<ChildSummary> = Vec::new();
                let mut k: usize = 0;
                while k < n
                    invariant
                        0 <= k <= n,
                        n == info.actions@.len(),
                        self.node_type matches NodeType::ActionNode(i2) && i2 == info,
                        self.children@.len() == n,
                        prev + self.oop_invested <= u32::MAX,
                        prev + self.ip_invested <= u32::MAX,
                        out@.len() == k,
                        forall|i: int|
                            0 <= i < k ==> latest_target(Some(#[trigger] info.actions@[i]))
                                + prev <= u32::MAX,
                        forall|i: int|
                            0 <= i < k ==> #[trigger] out@[i] == spec_action_child_summary(
                                *self,
                                prev,
                                info.oop,
                                info.actions@[i],
                                self.children@[i],
                            ),
                    decreases n - k,
                {
                    let a = info.actions[k];
                    let target: u32 = match a {
                        ActionType::Bet(s) => s,
                        ActionType::Raise { sizing } => sizing,
                        _ => 0,
                    };
                    if target as u64 + prev as u64 > u32::MAX as u64 {
                        proof {
                            assert(latest_target(Some(info.actions@[k as int])) + prev
                                > u32::MAX);
                        }
                        return None;
                    }
                    let child = &self.children[k];
                    let cnt: u64 = match &child.node_type {
                        NodeType::ActionNode(_) => child.children.len() as u64,
                        NodeType::TerminalNode(_) => 0,
                        NodeType::ChanceNode(d) => *d as u64,
                        NodeType::ChanceNodeCard(_) => child.children.len() as u64,
                    };
                    let tag = match &child.node_type {
                        NodeType::ActionNode(ci) => if ci.oop {
                            NodeTag::OopDecision
                        } else {
                            NodeTag::IpDecision
                        },
                        NodeType::TerminalNode(_) => NodeTag::EndNode,
                        NodeType::ChanceNode(_) => NodeTag::SplitNode,
                        NodeType::ChanceNodeCard(_) => NodeTag::Root,
                    };
                    let oop0 = prev + self.oop_invested;
                    let ip0 = prev + self.ip_invested;
                    let eq = if oop0 < ip0 {
                        ip0
                    } else {
                        oop0
                    };
                    let row = match a {
                        ActionType::Check => ChildSummary {
                            step: Some(LineStep::Passive),
                            tag,
                            oop_total: oop0 as u64,
                            ip_total: ip0 as u64,
                            children_count: cnt,
                        },
                        ActionType::Call => ChildSummary {
                            step: Some(LineStep::Passive),
                            tag,
                            oop_total: eq as u64,
                            ip_total: eq as u64,
                            children_count: cnt,
                        },
                        ActionType::Fold => ChildSummary {
                            step: Some(LineStep::Fold),
                            tag,
                            oop_total: oop0 as u64,
                            ip_total: ip0 as u64,
                            children_count: cnt,
                        },
                        ActionType::Bet(s) => ChildSummary {
                            step: Some(LineStep::BetTo(prev + s)),
                            tag,
                            oop_total: if info.oop {
                                (prev + s) as u64
                            } else {
                                oop0 as u64
                            },
                            ip_total: if info.oop {
                                ip0 as u64
                            } else {
                                (prev + s) as u64
                            },
                            children_count: cnt,
                        },
                        ActionType::Raise { sizing } => ChildSummary {
                            step: Some(LineStep::BetTo(prev + sizing)),
                            tag,
                            oop_total: if info.oop {
                                (prev + sizing) as u64
                            } else {
                                oop0 as u64
                            },
                            ip_total: if info.oop {
                                ip0 as u64
                            } else {
                                (prev + sizing) as u64
                            },
                            children_count: cnt,
                        },
                    };
                    out.push(row);
                    k = k + 1;
                }
                Some(out)
            },
        }
    }
}

/// Push one configured action onto the entry of a line, creating the entry
/// when the line is new; lines stay pairwise distinct.
fn sizing_map_push(map: &mut SizingMap, line: &Vec<ActionType>, action: ActionType)
    requires
        sizing_lines_distinct(*old(map)),
        sizing_actions_aggressive(*old(map)),
        action matches ActionType::Bet(_) || action matches ActionType::Raise { .. },
    ensures
        sizing_lines_distinct(*final(map)),
        sizing_actions_aggressive(*final(map)),
        sizing_model_of(*final(map)) == model_push(sizing_model_of(*old(map)), line@, action),
{
    let n = map.entries.len();
    let mut i: usize = 0;
    while i < n
        invariant
            0 <= i <= n,
            n == map.entries@.len(),
            *map == *old(map),
            sizing_lines_distinct(*old(map)),
            sizing_actions_aggressive(*old(map)),
            action matches ActionType::Bet(_) || action matches ActionType::Raise { .. },
            forall|k: int| 0 <= k < i ==> (#[trigger] map.entries@[k]).line@ != line@,
        decreases n - i,
    {
        if line_eq(&map.entries[i].line, line) {
            let mut acts = map.entries[i].actions.clone();
            acts.push(action);
            let new_entry = SizingEntry { line: map.entries[i].line.clone(), actions: acts };
            proof {
                assert(new_entry.line@ == old(map).entries@[i as int].line@);
            }
            let ghost old_actions = old(map).entries@[i as int].actions@;
            map.entries[i] = new_entry;
            proof {
                assert(map.entries@ == old(map).entries@.update(i as int, new_entry));
                assert(map.entries@.len() == old(map).entries@.len());
                assert(map.entries@[i as int] == new_entry);
                assert forall|p: int, q: int|
                    0 <= p < q < map.entries@.len() implies (#[trigger] map.entries@[p]).line@
                    != (#[trigger] map.entries@[q]).line@ by {
                    if p == i {
                        assert(map.entries@[p].line@ == old(map).entries@[p].line@);
                    } else {
                        assert(map.entries@[p] == old(map).entries@[p]);
                    }
                    if q == i {
                        assert(map.entries@[q].line@ == old(map).entries@[q].line@);
                    } else {
                        assert(map.entries@[q] == old(map).entries@[q]);
                    }
                }
                assert forall|p: int, q: int|
                    0 <= p < map.entries@.len() && 0 <= q < (
                    #[trigger] map.entries@[p]).actions@.len() implies ((
                    #[trigger] map.entries@[p].actions@[q]) matches ActionType::Bet(_)
                        || map.entries@[p].actions@[q] matches ActionType::Raise { .. }) by {
                    if p == i {
                        assert(map.entries@[p].actions@ == old_actions.push(action));
                        if q < old_actions.len() {
                            assert(map.entries@[p].actions@[q] == old_actions[q]);
                        } else {
                            assert(map.entries@[p].actions@[q] == action);
                        }
                    } else {
                        assert(map.entries@[p] == old(map).entries@[p]);
                    }
                }
                let model_old = sizing_model_of(*old(map));
                lemma_first_line_props(model_old, line@);
                assert(model_old[i as int].0 == line@);
                assert(forall|t: int| 0 <= t < i ==> (#[trigger] model_old[t]).0 != line@) by {
                    assert(forall|t: int|
                        0 <= t < i ==> (#[trigger] old(map).entries@[t]).line@ != line@);
                }
                let f = first_line(model_old, line@);
                assert(f == i) by {
                    if f != i as int {
                        if f == -1 {
                            assert(model_old[i as int].0 != line@);
                        } else if f < i as int {
                            assert(model_old[f].0 != line@);
                        } else {
                            assert(model_old[i as int].0 != line@);
                        }
                    }
                }
                assert(sizing_model_of(*map) =~= model_push(model_old, line@, action)) by {
                    assert forall|t: int|
                        0 <= t < map.entries@.len() implies sizing_model_of(*map)[t]
                        == model_push(model_old, line@, action)[t] by {
                        if t != i {
                            assert(map.entries@[t] == old(map).entries@[t]);
                        } else {
                            assert(map.entries@[t] == new_entry);
                            assert(new_entry.actions@ == old_actions.push(action));
                        }
                    }
                }
            }
            return ;
        }
        i = i + 1;
    }
    let mut acts: Vec<ActionType> = Vec::new();
    acts.push(action);
    let mut new_line: Vec<ActionType> = Vec::new();
    let ln = line.len();
    let mut t: usize = 0;
    while t < ln
        invariant
            0 <= t <= ln,
            ln == line@.len(),
            new_line@ == line@.take(t as int),
        decreases ln - t,
    {
        new_line.push(line[t]);
        proof {
            assert(line@.take(t + 1) =~= line@.take(t as int).push(line@[t as int]));
        }
        t = t + 1;
    }
    proof {
        assert(line@.take(ln as int) =~= line@);
    }
    let ghost acts_view = acts@;
    let ghost new_line_view = new_line@;
    map.entries.push(SizingEntry { line: new_line, actions: acts });
    proof {
        let model_old = sizing_model_of(*old(map));
        lemma_first_line_props(model_old, line@);
        assert(forall|t: int| 0 <= t < model_old.len() ==> (#[trigger] model_old[t]).0 != line@)
            by {
            assert(forall|t: int|
                0 <= t < old(map).entries@.len() ==> (#[trigger] old(map).entries@[t]).line@
                    != line@);
        }
        let f = first_line(model_old, line@);
        assert(f == -1) by {
            if f >= 0 {
                assert(model_old[f].0 != line@);
            }
        }
        assert(acts_view =~= seq![action]);
        assert(sizing_model_of(*map) =~= model_push(model_old, line@, action)) by {
            assert forall|t: int|
                0 <= t < map.entries@.len() implies sizing_model_of(*map)[t] == model_push(
                model_old,
                line@,
                action,
            )[t] by {
                if t < old(map).entries@.len() {
                    assert(map.entries@[t] == old(map).entries@[t]);
                } else {
                    assert(map.entries@[t].line@ == new_line_view);
                    assert(map.entries@[t].actions@ == acts_view);
                }
            }
        }
    }
}

/// Turn the configured betting lines into the sizing scheme: each line is
/// a sequence of street-invested-to chip totals, zero standing for a check,
/// and each bet or raise it announces is recorded under the betting line
/// that reaches its decision point.  The entries' lines are pairwise
/// distinct and hold only bets and raises.
pub fn get_sizings(lines: Vec<Vec<u32>>) -> (r: SizingMap)
    ensures
        sizing_lines_distinct(r),
        sizing_actions_aggressive(r),
        sizing_model_of(r) == spec_sizings(lines@.map_values(|v: Vec<u32>| v@)),
{
    let ghost lines_model = lines@.map_values(|v: Vec<u32>| v@);
    let mut map = SizingMap::new();
    let nl = lines.len();
    let mut li: usize = 0;
    while li < nl
        invariant
            0 <= li <= nl,
            nl == lines@.len(),
            lines_model == lines@.map_values(|v: Vec<u32>| v@),
            sizing_lines_distinct(map),
            sizing_actions_aggressive(map),
            process_lines(sizing_model_of(map), lines_model, li as int) == spec_sizings(
                lines_model,
            ),
        decreases nl - li,
    {
        let line = &lines[li];
        let mut latest_action: u32 = 0;
        let mut node_line: Vec<ActionType> = Vec::new();
        let mut previous_invested: u32 = 0;
        let n = line.len();
        let mut i: usize = 0;
        proof {
            assert(lines_model[li as int] == line@);
            assert(node_line@ =~= Seq::<ActionType>::empty());
        }
        while i < n
            invariant
                0 <= i <= n,
                n == line@.len(),
                li < nl,
                nl == lines@.len(),
                lines_model == lines@.map_values(|v: Vec<u32>| v@),
                lines_model[li as int] == line@,
                sizing_lines_distinct(map),
                sizing_actions_aggressive(map),
                process_lines(
                    process_line(
                        sizing_model_of(map),
                        line@,
                        i as int,
                        latest_action,
                        node_line@,
                        previous_invested,
                    ),
                    lines_model,
                    li + 1,
                ) == spec_sizings(lines_model),
            decreases n - i,
        {
            let ghost model_pre = sizing_model_of(map);
            let ghost nl_pre = node_line@;
            let ghost latest_pre = latest_action;
            let ghost prev_pre = previous_invested;
            let action = line[i];
            if i == 0 && action != 0 {
                sizing_map_push(&mut map, &node_line, ActionType::Bet(action));
                node_line.push(ActionType::Bet(action));
            } else if i != 0 && action != 0 {
                if latest_action != action {
                    if action > previous_invested {
                        let new_sizing = action - previous_invested;
                        let after_bet = if node_line.len() == 0 {
                            false
                        } else {
                            match node_line[node_line.len() - 1] {
                                ActionType::Bet(_) => true,
                                ActionType::Raise { .. } => true,
                                _ => false,
                            }
                        };
                        proof {
                            assert(after_bet == last_tok_aggressive(nl_pre));
                        }
                        if after_bet {
                            sizing_map_push(
                                &mut map,
                                &node_line,
                                ActionType::Raise { sizing: new_sizing },
                            );
                            node_line.push(ActionType::Raise { sizing: new_sizing });
                        } else {
                            sizing_map_push(&mut map, &node_line, ActionType::Bet(new_sizing));
                            node_line.push(ActionType::Bet(new_sizing));
                        }
                    }
                } else {
                    let after_passive = if node_line.len() == 0 {
                        false
                    } else {
                        match node_line[node_line.len() - 1] {
                            ActionType::Check => true,
                            ActionType::Call => true,
                            _ => false,
                        }
                    };
                    proof {
                        assert(after_passive == last_tok_passive(nl_pre));
                    }
                    if after_passive {
                        node_line.push(ActionType::Check);
                    } else {
                        node_line.push(ActionType::Call);
                        previous_invested = action;
                    }
                }
            } else if latest_action == 0 {
                node_line.push(ActionType::Check);
            }
            latest_action = action;
            i = i + 1;
            proof {
                assert(process_line(model_pre, line@, i - 1, latest_pre, nl_pre, prev_pre)
                    == process_line(
                    sizing_model_of(map),
                    line@,
                    i as int,
                    latest_action,
                    node_line@,
                    previous_invested,
                ));
            }
        }
        proof {
            assert(process_line(
                sizing_model_of(map),
                line@,
                n as int,
                latest_action,
                node_line@,
                previous_invested,
            ) == sizing_model_of(map));
        }
        li = li + 1;
    }
    proof {
        assert(process_lines(sizing_model_of(map), lines_model, nl as int) == sizing_model_of(
            map,
        ));
    }
    map
}

/// Fill in the children of a mid-tree chance node: one dealt-card child
/// per card of the residual deck, each with the next street's effective
/// stack, and below each dealt card the next street's betting.
fn expand_chance(
    sizing_mapping: &SizingMap,
    action_line: &Vec<ActionType>,
    current_node: &mut Node,
    range_manager: &RangeManager,
    current_board: &Vec<u8>,
)
    requires
        range_manager.ready(),
        range_manager.board_reachable(current_board@),
        current_board@.len() < 5,
        old(current_node).children@.len() == 0,
        old(current_node).node_type matches NodeType::ChanceNode(d) && d > 0 && d + 4 == 52
            - current_board@.len(),
        old(current_node).oop_invested == 0,
        old(current_node).ip_invested == 0,
        old(current_node).chance_start_pot <= old(current_node).pot_size,
        old(current_node).pot_size - old(current_node).chance_start_pot <= 2 * old(
            current_node,
        ).chance_start_stack,
        (old(current_node).pot_size - old(current_node).chance_start_pot) % 2 == 0,
        old(current_node).chance_start_pot + 2 * old(current_node).chance_start_stack
            <= u32::MAX,
    ensures
        node_wf(*final(current_node)),
        built_ok(
            None,
            sizing_model_of(*sizing_mapping),
            action_line@,
            *final(current_node),
            *range_manager,
            current_board@,
        ),
        final(current_node).node_type == old(current_node).node_type,
        final(current_node).pot_size == old(current_node).pot_size,
        final(current_node).chance_start_stack == old(current_node).chance_start_stack,
        final(current_node).oop_invested == old(current_node).oop_invested,
        final(current_node).ip_invested == old(current_node).ip_invested,
        final(current_node).chance_start_pot == old(current_node).chance_start_pot,
        final(current_node).oop_num_hands == old(current_node).oop_num_hands,
        final(current_node).ip_num_hands == old(current_node).ip_num_hands,
    decreases 5 - current_board@.len(), 0int, 0int,
{
    proof {
        range_manager.lemma_reachable(current_board@);
    }
    let m = mask_of_cards(current_board);
    let deck = range_manager.get_board_deck(m).clone();
    let street_paid = (current_node.pot_size - current_node.chance_start_pot) / 2;
    let new_stack = current_node.chance_start_stack - street_paid;
    let n = deck.len();
    let mut q: usize = 0;
    while q < n
        invariant
            0 <= q <= n,
            range_manager.ready(),
            range_manager.board_reachable(current_board@),
            current_board@.len() < 5,
            deck@ == range_manager.deck_of(mask_of(current_board@)).deck@,
            n == deck@.len(),
            n == 52 - current_board@.len(),
            m == mask_of(current_board@),
            current_node.node_type == old(current_node).node_type,
            current_node.pot_size == old(current_node).pot_size,
            current_node.chance_start_stack == old(current_node).chance_start_stack,
            current_node.oop_invested == old(current_node).oop_invested,
            current_node.ip_invested == old(current_node).ip_invested,
            current_node.chance_start_pot == old(current_node).chance_start_pot,
            current_node.oop_num_hands == old(current_node).oop_num_hands,
            current_node.ip_num_hands == old(current_node).ip_num_hands,
            old(current_node).chance_start_pot <= old(current_node).pot_size,
            old(current_node).pot_size - old(current_node).chance_start_pot <= 2 * old(
                current_node,
            ).chance_start_stack,
            old(current_node).chance_start_pot + 2 * old(current_node).chance_start_stack
                <= u32::MAX,
            new_stack <= old(current_node).chance_start_stack,
            old(current_node).pot_size + 2 * new_stack <= u32::MAX,
            current_node.children@.len() == q,
            forall|i: int|
                0 <= i < current_node.children@.len() ==> node_wf(
                    #[trigger] current_node.children@[i],
                ),
            forall|i: int|
                0 <= i < current_node.children@.len()
                    ==> (#[trigger] current_node.children@[i]).node_type matches
                    NodeType::ChanceNodeCard(_),
            forall|i: int|
                0 <= i < current_node.children@.len() ==> card_fields_ok(
                    #[trigger] current_node.children@[i],
                    *range_manager,
                    current_board@.push(deck@[i]),
                    old(current_node).pot_size,
                    new_stack,
                ),
            forall|i: int|
                0 <= i < current_node.children@.len() ==> built_ok(
                    None,
                    sizing_model_of(*sizing_mapping),
                    action_line@,
                    #[trigger] current_node.children@[i],
                    *range_manager,
                    current_board@.push(deck@[i]),
                ),
        decreases n - q,
    {
        let c = deck[q];
        proof {
            range_manager.lemma_reachable(current_board@);
            assert(deck@.contains(c)) by {
                assert(deck@[q as int] == c);
            }
        }
        let mut child_board = current_board.clone();
        child_board.push(c);
        proof {
            assert(child_board@ == current_board@.push(c));
            assert(range_manager.board_reachable(child_board@));
            range_manager.lemma_reachable(child_board@);
        }
        let cm = mask_of_cards(&child_board);
        let cprev = board_prev(range_manager, &child_board);
        let oop_n = range_manager.get_num_hands(true, cm, cprev);
        let ip_n = range_manager.get_num_hands(false, cm, cprev);
        let mut child = Node {
            node_type: NodeType::ChanceNodeCard((cm, cprev)),
            children: Vec::new(),
            pot_size: current_node.pot_size,
            chance_start_stack: new_stack,
            oop_invested: 0,
            ip_invested: 0,
            chance_start_pot: current_node.pot_size,
            oop_num_hands: oop_n,
            ip_num_hands: ip_n,
        };
        recursive_build(
            None,
            sizing_mapping,
            action_line,
            &mut child,
            range_manager,
            &child_board,
        );
        proof {
            assert(card_fields_ok(
                child,
                *range_manager,
                current_board@.push(deck@[q as int]),
                old(current_node).pot_size,
                new_stack,
            ));
        }
        current_node.children.push(child);
        q = q + 1;
    }
    proof {
        range_manager.lemma_reachable(current_board@);
        let fin = *current_node;
        let deckv = range_manager.deck_of(mask_of(current_board@)).deck@;
        assert(deckv.len() == 52 - current_board@.len());
        assert(built_ok(
            None,
            sizing_model_of(*sizing_mapping),
            action_line@,
            fin,
            *range_manager,
            current_board@,
        ));
    }
}

/// Build the subtree below a freshly made node, following the sizing
/// scheme: a pass-through chance layer gets its dealt-card child, a dealt
/// card gets the street-opening decision, and a decision node gets one
/// child per action, recursing until every line ends in a terminal.
pub fn recursive_build(
    latest_action: Option<ActionType>,
    sizing_mapping: &SizingMap,
    action_line: &Vec<ActionType>,
    current_node: &mut Node,
    range_manager: &RangeManager,
    current_board: &Vec<u8>,
)
    requires
        range_manager.ready(),
        range_manager.board_reachable(current_board@),
        build_pre(latest_action, *old(current_node)),
    ensures
        node_wf(*final(current_node)),
        built_ok(
            latest_action,
            sizing_model_of(*sizing_mapping),
            action_line@,
            *final(current_node),
            *range_manager,
            current_board@,
        ),
        final(current_node).node_type == old(current_node).node_type,
        final(current_node).pot_size == old(current_node).pot_size,
        final(current_node).chance_start_stack == old(current_node).chance_start_stack,
        final(current_node).oop_invested == old(current_node).oop_invested,
        final(current_node).ip_invested == old(current_node).ip_invested,
        final(current_node).chance_start_pot == old(current_node).chance_start_pot,
        final(current_node).oop_num_hands == old(current_node).oop_num_hands,
        final(current_node).ip_num_hands == old(current_node).ip_num_hands,
    decreases
            5 - current_board@.len(),
            current_node.chance_start_stack - latest_target(latest_action),
            build_phase(*current_node, latest_action),
{
    proof {
        range_manager.lemma_reachable(current_board@);
    }
    let is_chance = match &current_node.node_type {
        NodeType::ChanceNode(_) => true,
        _ => false,
    };
    if is_chance {
        // the root pass-through layer: a single dealt-card child carrying
        // the initial board itself
        let m = mask_of_cards(current_board);
        let cprev = board_prev(range_manager, current_board);
        let oop_n = range_manager.get_num_hands(true, m, cprev);
        let ip_n = range_manager.get_num_hands(false, m, cprev);
        let mut child = Node {
            node_type: NodeType::ChanceNodeCard((m, cprev)),
            children: Vec::new(),
            pot_size: current_node.pot_size,
            chance_start_stack: current_node.chance_start_stack,
            oop_invested: 0,
            ip_invested: 0,
            chance_start_pot: current_node.chance_start_pot,
            oop_num_hands: oop_n,
            ip_num_hands: ip_n,
        };
        recursive_build(
            None,
            sizing_mapping,
            action_line,
            &mut child,
            range_manager,
            current_board,
        );
        current_node.children.push(child);
        return ;
    }
    let is_chance_card = match &current_node.node_type {
        NodeType::ChanceNodeCard(_) => true,
        _ => false,
    };
    if is_chance_card {
        // one street-opening decision for the out-of-position player
        let m = mask_of_cards(current_board);
        let cprev = board_prev(range_manager, current_board);
        let oop_n = range_manager.get_num_hands(true, m, cprev);
        let ip_n = range_manager.get_num_hands(false, m, cprev);
        let mut base: Vec<ActionType> = Vec::new();
        base.push(ActionType::Check);
        let extra = sizing_mapping.lookup(action_line);
        let actions = next_actions(base, extra, 0, current_node.chance_start_stack, false);
        let info = ActionNodeInfo::new(true, actions, oop_n);
        let mut child = Node {
            node_type: NodeType::ActionNode(info),
            children: Vec::new(),
            pot_size: current_node.pot_size,
            chance_start_stack: current_node.chance_start_stack,
            oop_invested: 0,
            ip_invested: 0,
            chance_start_pot: current_node.chance_start_pot,
            oop_num_hands: oop_n,
            ip_num_hands: ip_n,
        };
        recursive_build(
            None,
            sizing_mapping,
            action_line,
            &mut child,
            range_manager,
            current_board,
        );
        current_node.children.push(child);
        return ;
    }
    // a decision node: one child per action
    let (actor_oop, actions) = match &current_node.node_type {
        NodeType::ActionNode(info) => (info.oop, info.actions.clone()),
        _ => {
            proof {
                assert(false);
            }
            (true, Vec::new())
        },
    };
    let m = mask_of_cards(current_board);
    let cprev = board_prev(range_manager, current_board);
    let oop_n = range_manager.get_num_hands(true, m, cprev);
    let ip_n = range_manager.get_num_hands(false, m, cprev);
    let target = match latest_action {
        Some(ActionType::Bet(s)) => s,
        Some(ActionType::Raise { sizing }) => sizing,
        _ => 0u32,
    };
    let facing = match latest_action {
        Some(ActionType::Bet(_)) => true,
        Some(ActionType::Raise { .. }) => true,
        _ => false,
    };
    let na = actions.len();
    let mut k: usize = 0;
    while k < na
        invariant
            0 <= k <= na,
            range_manager.ready(),
            range_manager.board_reachable(current_board@),
            3 <= current_board@.len() <= 5,
            build_pre(latest_action, *old(current_node)),
            current_node.node_type == old(current_node).node_type,
            current_node.pot_size == old(current_node).pot_size,
            current_node.chance_start_stack == old(current_node).chance_start_stack,
            current_node.oop_invested == old(current_node).oop_invested,
            current_node.ip_invested == old(current_node).ip_invested,
            current_node.chance_start_pot == old(current_node).chance_start_pot,
            current_node.oop_num_hands == old(current_node).oop_num_hands,
            current_node.ip_num_hands == old(current_node).ip_num_hands,
            old(current_node).node_type matches NodeType::ActionNode(info) && info.oop
                == actor_oop && info.actions@ == actions@,
            na == actions@.len(),
            target == latest_target(latest_action),
            facing == facing_bet_of(latest_action),
            m == mask_of(current_board@),
            oop_n == spec_count(*range_manager, current_board@, true),
            ip_n == spec_count(*range_manager, current_board@, false),
            current_node.children@.len() == k,
            forall|i: int|
                0 <= i < current_node.children@.len() ==> node_wf(
                    #[trigger] current_node.children@[i],
                ),
            forall|i: int|
                0 <= i < current_node.children@.len() ==> action_child_fields(
                    latest_action,
                    sizing_model_of(*sizing_mapping),
                    action_line@,
                    *old(current_node),
                    actor_oop,
                    actions@[i],
                    #[trigger] current_node.children@[i],
                    *range_manager,
                    current_board@,
                ),
            forall|i: int|
                0 <= i < current_node.children@.len() ==> built_ok(
                    Some(actions@[i]),
                    sizing_model_of(*sizing_mapping),
                    action_line@.push(actions@[i]),
                    #[trigger] current_node.children@[i],
                    *range_manager,
                    current_board@,
                ),
        decreases na - k,
    {
        let a = actions[k];
        proof {
            range_manager.lemma_reachable(current_board@);
            assert(action_ok(a, target, current_node.chance_start_stack));
            assert(action_kind_ok(a, facing));
        }
        match a {
            ActionType::Check => {
                proof {
                    assert(!facing);
                }
                let mut child_line = action_line.clone();
                child_line.push(ActionType::Check);
                match latest_action {
                    None => {
                        // the in-position player's turn to open
                        let extra = sizing_mapping.lookup(&child_line);
                        let mut base: Vec<ActionType> = Vec::new();
                        base.push(ActionType::Check);
                        proof {
                            assert(base@ =~= seq![ActionType::Check]);
                            assert(child_line@ == action_line@.push(ActionType::Check));
                            assert((match extra {
                                Some(v) => Some(v@),
                                None => None::<Seq<ActionType>>,
                            }) == spec_lookup(sizing_model_of(*sizing_mapping), child_line@));
                        }
                        let cactions = next_actions(
                            base,
                            extra,
                            0,
                            current_node.chance_start_stack,
                            false,
                        );
                        let info = ActionNodeInfo::new(false, cactions, ip_n);
                        let mut child = Node {
                            node_type: NodeType::ActionNode(info),
                            children: Vec::new(),
                            pot_size: current_node.pot_size,
                            chance_start_stack: current_node.chance_start_stack,
                            oop_invested: 0,
                            ip_invested: 0,
                            chance_start_pot: current_node.chance_start_pot,
                            oop_num_hands: oop_n,
                            ip_num_hands: ip_n,
                        };
                        recursive_build(
                            Some(ActionType::Check),
                            sizing_mapping,
                            &child_line,
                            &mut child,
                            range_manager,
                            current_board,
                        );
                        proof {
                            assert(action_child_fields(
                                latest_action,
                                sizing_model_of(*sizing_mapping),
                                action_line@,
                                *old(current_node),
                                actor_oop,
                                a,
                                child,
                                *range_manager,
                                current_board@,
                            ));
                            assert(built_ok(
                                Some(a),
                                sizing_model_of(*sizing_mapping),
                                action_line@.push(a),
                                child,
                                *range_manager,
                                current_board@,
                            ));
                        }
                        current_node.children.push(child);
                    },
                    _ => {
                        // check behind: showdown on the river, or the next
                        // street's chance layer
                        if current_board.len() == 5 {
                            let child = Node {
                                node_type: NodeType::TerminalNode(
                                    TerminalType::TerminalShowdown,
                                ),
                                children: Vec::new(),
                                pot_size: current_node.pot_size,
                                chance_start_stack: current_node.chance_start_stack,
                                oop_invested: 0,
                                ip_invested: 0,
                                chance_start_pot: current_node.chance_start_pot,
                                oop_num_hands: oop_n,
                                ip_num_hands: ip_n,
                            };
                            proof {
                                assert(action_child_fields(
                                    latest_action,
                                    sizing_model_of(*sizing_mapping),
                                    action_line@,
                                    *old(current_node),
                                    actor_oop,
                                    a,
                                    child,
                                    *range_manager,
                                    current_board@,
                                ));
                                assert(built_ok(
                                    Some(a),
                                    sizing_model_of(*sizing_mapping),
                                    action_line@.push(a),
                                    child,
                                    *range_manager,
                                    current_board@,
                                ));
                            }
                            current_node.children.push(child);
                        } else {
                            let deck_len = range_manager.get_board_deck(m).len();
                            let mut child = Node {
                                node_type: NodeType::ChanceNode((deck_len - 4) as u8),
                                children: Vec::new(),
                                pot_size: current_node.pot_size,
                                chance_start_stack: current_node.chance_start_stack,
                                oop_invested: 0,
                                ip_invested: 0,
                                chance_start_pot: current_node.chance_start_pot,
                                oop_num_hands: oop_n,
                                ip_num_hands: ip_n,
                            };
                            expand_chance(
                                sizing_mapping,
                                &child_line,
                                &mut child,
                                range_manager,
                                current_board,
                            );
                            proof {
                                assert(child_line@ == action_line@.push(a));
                                assert(built_ok(
                                    Some(a),
                                    sizing_model_of(*sizing_mapping),
                                    action_line@.push(a),
                                    child,
                                    *range_manager,
                                    current_board@,
                                ));
                                assert(action_child_fields(
                                    latest_action,
                                    sizing_model_of(*sizing_mapping),
                                    action_line@,
                                    *old(current_node),
                                    actor_oop,
                                    a,
                                    child,
                                    *range_manager,
                                    current_board@,
                                ));
                            }
                            current_node.children.push(child);
                        }
                    },
                }
            },
            ActionType::Bet(s) => {
                proof {
                    assert(!facing);
                    assert(0 < s <= current_node.chance_start_stack);
                }
                let mut child_line = action_line.clone();
                child_line.push(ActionType::Bet(s));
                let extra = sizing_mapping.lookup(&child_line);
                let mut base: Vec<ActionType> = Vec::new();
                base.push(ActionType::Fold);
                base.push(ActionType::Call);
                proof {
                    assert(base@ =~= seq![ActionType::Fold, ActionType::Call]);
                    assert(child_line@ == action_line@.push(ActionType::Bet(s)));
                    assert((match extra {
                        Some(v) => Some(v@),
                        None => None::<Seq<ActionType>>,
                    }) == spec_lookup(sizing_model_of(*sizing_mapping), child_line@));
                }
                let cactions = next_actions(
                    base,
                    extra,
                    s,
                    current_node.chance_start_stack,
                    true,
                );
                let bettor_oop = actor_oop;
                let info = ActionNodeInfo::new(
                    !bettor_oop,
                    cactions,
                    if !bettor_oop {
                        oop_n
                    } else {
                        ip_n
                    },
                );
                let mut child = Node {
                    node_type: NodeType::ActionNode(info),
                    children: Vec::new(),
                    pot_size: current_node.pot_size + s,
                    chance_start_stack: current_node.chance_start_stack,
                    oop_invested: if bettor_oop {
                        s
                    } else {
                        0
                    },
                    ip_invested: if bettor_oop {
                        0
                    } else {
                        s
                    },
                    chance_start_pot: current_node.chance_start_pot,
                    oop_num_hands: oop_n,
                    ip_num_hands: ip_n,
                };
                recursive_build(
                    Some(ActionType::Bet(s)),
                    sizing_mapping,
                    &child_line,
                    &mut child,
                    range_manager,
                    current_board,
                );
                proof {
                    assert(action_child_fields(
                        latest_action,
                        sizing_model_of(*sizing_mapping),
                        action_line@,
                        *old(current_node),
                        actor_oop,
                        a,
                        child,
                        *range_manager,
                        current_board@,
                    ));
                    assert(built_ok(
                        Some(a),
                        sizing_model_of(*sizing_mapping),
                        action_line@.push(a),
                        child,
                        *range_manager,
                        current_board@,
                    ));
                }
                current_node.children.push(child);
            },
            ActionType::Fold => {
                proof {
                    assert(facing);
                }
                let paid = if current_node.oop_invested < current_node.ip_invested {
                    current_node.oop_invested
                } else {
                    current_node.ip_invested
                };
                let eff_pot = current_node.pot_size - (target - paid);
                let child = Node {
                    node_type: NodeType::TerminalNode(TerminalType::TerminalFold(actor_oop)),
                    children: Vec::new(),
                    pot_size: eff_pot,
                    chance_start_stack: current_node.chance_start_stack,
                    oop_invested: 0,
                    ip_invested: 0,
                    chance_start_pot: current_node.chance_start_pot,
                    oop_num_hands: oop_n,
                    ip_num_hands: ip_n,
                };
                proof {
                    assert(action_child_fields(
                        latest_action,
                        sizing_model_of(*sizing_mapping),
                        action_line@,
                        *old(current_node),
                        actor_oop,
                        a,
                        child,
                        *range_manager,
                        current_board@,
                    ));
                    assert(built_ok(
                        Some(a),
                        sizing_model_of(*sizing_mapping),
                        action_line@.push(a),
                        child,
                        *range_manager,
                        current_board@,
                    ));
                }
                current_node.children.push(child);
            },
            ActionType::Call => {
                proof {
                    assert(facing);
                }
                let paid = if current_node.oop_invested < current_node.ip_invested {
                    current_node.oop_invested
                } else {
                    current_node.ip_invested
                };
                let eff_pot = current_node.pot_size + (target - paid);
                let mut child_line = action_line.clone();
                child_line.push(ActionType::Call);
                if current_board.len() == 5 {
                    let child = Node {
                        node_type: NodeType::TerminalNode(TerminalType::TerminalShowdown),
                        children: Vec::new(),
                        pot_size: eff_pot,
                        chance_start_stack: current_node.chance_start_stack,
                        oop_invested: 0,
                        ip_invested: 0,
                        chance_start_pot: current_node.chance_start_pot,
                        oop_num_hands: oop_n,
                        ip_num_hands: ip_n,
                    };
                    proof {
                        assert(action_child_fields(
                            latest_action,
                            sizing_model_of(*sizing_mapping),
                            action_line@,
                            *old(current_node),
                            actor_oop,
                            a,
                            child,
                            *range_manager,
                            current_board@,
                        ));
                        assert(built_ok(
                            Some(a),
                            sizing_model_of(*sizing_mapping),
                            action_line@.push(a),
                            child,
                            *range_manager,
                            current_board@,
                        ));
                    }
                    current_node.children.push(child);
                } else {
                    let deck_len = range_manager.get_board_deck(m).len();
                    let mut child = Node {
                        node_type: NodeType::ChanceNode((deck_len - 4) as u8),
                        children: Vec::new(),
                        pot_size: eff_pot,
                        chance_start_stack: current_node.chance_start_stack,
                        oop_invested: 0,
                        ip_invested: 0,
                        chance_start_pot: current_node.chance_start_pot,
                        oop_num_hands: oop_n,
                        ip_num_hands: ip_n,
                    };
                    expand_chance(
                        sizing_mapping,
                        &child_line,
                        &mut child,
                        range_manager,
                        current_board,
                    );
                    proof {
                        assert(child_line@ == action_line@.push(a));
                        assert(built_ok(
                            Some(a),
                            sizing_model_of(*sizing_mapping),
                            action_line@.push(a),
                            child,
                            *range_manager,
                            current_board@,
                        ));
                        assert(action_child_fields(
                            latest_action,
                            sizing_model_of(*sizing_mapping),
                            action_line@,
                            *old(current_node),
                            actor_oop,
                            a,
                            child,
                            *range_manager,
                            current_board@,
                        ));
                    }
                    current_node.children.push(child);
                }
            },
            ActionType::Raise { sizing: s2 } => {
                proof {
                    assert(facing);
                    assert(target < s2 <= current_node.chance_start_stack);
                }
                let raiser_paid = if actor_oop {
                    current_node.oop_invested
                } else {
                    current_node.ip_invested
                };
                let pot_new = current_node.pot_size - raiser_paid + s2;
                let mut child_line = action_line.clone();
                child_line.push(ActionType::Raise { sizing: s2 });
                let extra = sizing_mapping.lookup(&child_line);
                let mut base: Vec<ActionType> = Vec::new();
                base.push(ActionType::Fold);
                base.push(ActionType::Call);
                proof {
                    assert(base@ =~= seq![ActionType::Fold, ActionType::Call]);
                    assert(child_line@ == action_line@.push(ActionType::Raise { sizing: s2 }));
                    assert((match extra {
                        Some(v) => Some(v@),
                        None => None::<Seq<ActionType>>,
                    }) == spec_lookup(sizing_model_of(*sizing_mapping), child_line@));
                }
                let cactions = next_actions(
                    base,
                    extra,
                    s2,
                    current_node.chance_start_stack,
                    true,
                );
                let info = ActionNodeInfo::new(
                    !actor_oop,
                    cactions,
                    if !actor_oop {
                        oop_n
                    } else {
                        ip_n
                    },
                );
                let mut child = Node {
                    node_type: NodeType::ActionNode(info),
                    children: Vec::new(),
                    pot_size: pot_new,
                    chance_start_stack: current_node.chance_start_stack,
                    oop_invested: if actor_oop {
                        s2
                    } else {
                        current_node.oop_invested
                    },
                    ip_invested: if actor_oop {
                        current_node.ip_invested
                    } else {
                        s2
                    },
                    chance_start_pot: current_node.chance_start_pot,
                    oop_num_hands: oop_n,
                    ip_num_hands: ip_n,
                };
                recursive_build(
                    Some(ActionType::Raise { sizing: s2 }),
                    sizing_mapping,
                    &child_line,
                    &mut child,
                    range_manager,
                    current_board,
                );
                proof {
                    assert(action_child_fields(
                        latest_action,
                        sizing_model_of(*sizing_mapping),
                        action_line@,
                        *old(current_node),
                        actor_oop,
                        a,
                        child,
                        *range_manager,
                        current_board@,
                    ));
                    assert(built_ok(
                        Some(a),
                        sizing_model_of(*sizing_mapping),
                        action_line@.push(a),
                        child,
                        *range_manager,
                        current_board@,
                    ));
                }
                current_node.children.push(child);
            },
        }
        k = k + 1;
    }
    proof {
        let fin = *current_node;
        let model = sizing_model_of(*sizing_mapping);
        assert forall|kk: int| 0 <= kk < actions@.len() implies action_child_fields(
            latest_action,
            model,
            action_line@,
            fin,
            actor_oop,
            actions@[kk],
            fin.children@[kk],
            *range_manager,
            current_board@,
        ) by {
            assert(action_child_fields(
                latest_action,
                model,
                action_line@,
                *old(current_node),
                actor_oop,
                actions@[kk],
                fin.children@[kk],
                *range_manager,
                current_board@,
            ));
        }
        assert(built_ok(
            latest_action,
            model,
            action_line@,
            fin,
            *range_manager,
            current_board@,
        ));
    }
}

} // verus!
