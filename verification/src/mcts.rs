//! Monte Carlo tree search: the tree, and what one playout does to it.
//!
//! A playout walks from the root to a leaf, choosing at each node the child with the
//! greatest score; the leaf is decided by the rules or handed to a network, and what
//! came out is credited to every node on the way. Scores, priors and network values
//! are floating-point numbers, computed outside; here they are the 32 bits of their
//! representation, or, for credits, integers in millionths.

use crate::bits::{first_greatest, greater_spec, is_first_greatest};
use crate::board::{Board, Color, PieceType, Position};
use crate::moves::{on_board, Move};
use crate::rules::{
    entry_of, get_legal_moves, legal_moves_spec, make_recorded_move, HistoryEntry,
    RepetitionResult, Rules,
};
use vstd::prelude::*;

verus! {

pub const VIRTUAL_LOSS: u32 = 1;

/// One whole point of value.
pub const VALUE_SCALE: i64 = 1_000_000;

/// The number of children of a node that is just being expanded.
pub const LOCKED: u32 = 0xFFFF_FFFF;

/// The bits of -1000000, below which no score is chosen.
pub const SCORE_FLOOR: u32 = 0xC974_2400;

/// The bits of 1.
pub const ONE_BITS: u32 = 0x3F80_0000;

/// A node of the tree. Threads that search one tree share it under a lock.
#[derive(Copy, Clone, Debug, PartialEq, Eq, Structural)]
pub struct AtomicMCTSNode {
    /// How often the node was entered.
    pub visits: u32,
    /// The sum of its values in millionths, for the side that moved here.
    pub total_value: i64,
    pub children_index: u32,
    /// [`LOCKED`] while a playout is expanding the node.
    pub num_children: u32,
    pub move_from_parent: u32,
    /// The bits of the prior probability.
    pub prior_prob: u32,
}

impl AtomicMCTSNode {
    pub fn new() -> (node: Self)
        ensures
            node == (AtomicMCTSNode {
                visits: 0,
                total_value: 0,
                children_index: 0,
                num_children: 0,
                move_from_parent: 0,
                prior_prob: 0,
            }),
    {
        AtomicMCTSNode {
            visits: 0,
            total_value: 0,
            children_index: 0,
            num_children: 0,
            move_from_parent: 0,
            prior_prob: 0,
        }
    }

    /// Sets the move that leads here and the bits of its prior probability.
    pub fn set_data(&mut self, move_val: u16, prior_prob: u32)
        ensures
            *final(self) == (AtomicMCTSNode {
                move_from_parent: move_val as u32,
                prior_prob,
                ..*old(self)
            }),
    {
        self.move_from_parent = move_val as u32;
        self.prior_prob = prior_prob;
    }

    /// The bits of the prior probability.
    pub fn get_prior_prob(&self) -> (bits: u32)
        ensures
            bits == self.prior_prob,
    {
        self.prior_prob
    }

    /// The move that leads here, in the lower sixteen bits.
    pub fn get_move(&self) -> (m: u16)
        ensures
            m == self.move_from_parent as u16,
    {
        self.move_from_parent as u16
    }

    /// Adds a value in millionths.
    pub fn add_value(&mut self, scaled: i64)
        requires
            i64::MIN <= old(self).total_value + scaled <= i64::MAX,
        ensures
            *final(self) == (AtomicMCTSNode {
                total_value: (old(self).total_value + scaled) as i64,
                ..*old(self)
            }),
    {
        self.total_value = self.total_value + scaled;
    }

    /// The sum of the node's values in millionths.
    pub fn get_value(&self) -> (value: i64)
        ensures
            value == self.total_value,
    {
        self.total_value
    }

    /// The node has children to choose from.
    pub open spec fn is_open(self) -> bool {
        self.num_children != 0 && self.num_children != LOCKED
    }

    /// The node after a playout has entered it: one visit more, and a lost point until
    /// the playout is credited, which keeps other threads away.
    pub open spec fn entered(self) -> AtomicMCTSNode {
        AtomicMCTSNode {
            visits: self.visits.wrapping_add(VIRTUAL_LOSS),
            total_value: (self.total_value - VALUE_SCALE) as i64,
            ..self
        }
    }

    /// The node, no longer locked.
    pub open spec fn unlocked(self) -> AtomicMCTSNode {
        AtomicMCTSNode {
            num_children: if self.num_children == LOCKED {
                0
            } else {
                self.num_children
            },
            ..self
        }
    }

    /// A node that nothing has entered yet.
    pub open spec fn fresh(m: Move, prior_prob: u32) -> AtomicMCTSNode {
        AtomicMCTSNode {
            visits: 0,
            total_value: 0,
            children_index: 0,
            num_children: 0,
            move_from_parent: m.0 as u32,
            prior_prob,
        }
    }
}

/// The tree: a pool of nodes, of which the first `next_node_idx` are in use. Node 0 is
/// the root.
pub struct MCTS {
    pub tree: Vec<AtomicMCTSNode>,
    pub next_node_idx: u32,
    pub max_nodes: usize,
    /// The position at each node in use.
    pub positions: Ghost<Seq<Position>>,
    /// How many playouts have entered the root since the tree was thrown away last.
    pub begun: Ghost<nat>,
    /// How many of them have gone on to a child of the root.
    pub passed: Ghost<nat>,
}

/// The visits of moves, added up.
pub open spec fn total_visits(moves: Seq<(Move, u32)>) -> nat
    decreases moves.len(),
{
    if moves.len() == 0 {
        0
    } else {
        total_visits(moves.drop_last()) + moves.last().1 as nat
    }
}

/// The visits of the root's children, added up.
pub open spec fn root_child_visits(tree: Seq<AtomicMCTSNode>) -> nat {
    if tree[0].is_open() {
        total_visits(root_moves(tree))
    } else {
        0
    }
}

/// The children of a node, and how often the node had been entered before (at least 1).
#[derive(Copy, Clone, Debug, PartialEq, Eq, Structural)]
pub struct Children {
    pub start: u32,
    pub count: u32,
    pub parent_visits: u32,
}

/// The children of the two nodes lie in different parts of the pool.
pub open spec fn apart(a: AtomicMCTSNode, b: AtomicMCTSNode) -> bool {
    ||| a.children_index + a.num_children <= b.children_index
    ||| b.children_index + b.num_children <= a.children_index
}

impl MCTS {
    /// The pool has the size it was made with, and the children of a node in use lie
    /// behind it, in use as well; no node is a child of two.
    pub open spec fn wf(&self) -> bool {
        &&& self.tree@.len() == self.max_nodes
        &&& self.positions@.len() == self.max_nodes
        &&& 1 <= self.next_node_idx
        &&& self.max_nodes >= 1 ==> self.next_node_idx <= self.max_nodes
        &&& forall|i: int|
            0 <= i < self.next_node_idx && i < self.max_nodes && (
            #[trigger] self.tree@[i]).is_open() ==> i < self.tree@[i].children_index
                && self.tree@[i].children_index + self.tree@[i].num_children <= self.next_node_idx
                && self.tree@[i].children_index + self.tree@[i].num_children <= self.max_nodes
        &&& forall|i: int, j: int|
            0 <= i < self.next_node_idx && i < self.max_nodes && 0 <= j < self.next_node_idx && j
                < self.max_nodes && i != j && (#[trigger] self.tree@[i]).is_open() && (
            #[trigger] self.tree@[j]).is_open() ==> apart(self.tree@[i], self.tree@[j])
    }

    /// The visits count the playouts: the root has one for each that has entered it, and
    /// its children together one for each that has gone on, as long as the counters last.
    pub open spec fn counted(&self) -> bool {
        self.max_nodes >= 1 ==> {
            &&& self.begun@ <= u32::MAX ==> self.tree@[0].visits == self.begun@
            &&& self.passed@ <= u32::MAX ==> root_child_visits(self.tree@) == self.passed@
        }
    }

    /// The node `j` is a child of `i`.
    pub open spec fn is_child(&self, i: int, j: int) -> bool {
        &&& 0 <= i < self.next_node_idx && i < self.max_nodes
        &&& self.tree@[i].is_open()
        &&& self.tree@[i].children_index <= j < self.tree@[i].children_index
            + self.tree@[i].num_children
    }

    /// The tree is a tree of play: each child is reached by a safe step of the side to move.
    pub open spec fn fits(&self) -> bool {
        &&& forall|i: int|
            0 <= i < self.next_node_idx ==> (#[trigger] self.positions@[i]).cells.len() == 256
        &&& forall|i: int, j: int| #[trigger]
            self.is_child(i, j) ==> {
                let m = Move(self.tree@[j].move_from_parent as u16);
                &&& self.positions@[i].is_safe_step(m)
                &&& self.positions@[j] == self.positions@[i].after_move(m)
            }
    }

    pub fn new(max_nodes: usize) -> (mcts: Self)
        ensures
            mcts.wf(),
            mcts.max_nodes == max_nodes,
            mcts.next_node_idx == 1,
            mcts.begun@ == 0,
            mcts.passed@ == 0,
            mcts.counted(),
            forall|i: int|
                0 <= i < max_nodes ==> #[trigger] mcts.tree@[i] == AtomicMCTSNode::fresh(Move(0), 0),
    {
        let mut tree: Vec<AtomicMCTSNode> = Vec::with_capacity(max_nodes);
        let mut i: usize = 0;
        while i < max_nodes
            invariant
                i <= max_nodes,
                tree@.len() == i,
                forall|j: int| 0 <= j < i ==> #[trigger] tree@[j] == AtomicMCTSNode::fresh(Move(0), 0),
            decreases max_nodes - i,
        {
            tree.push(AtomicMCTSNode::new());
            i += 1;
        }
        let ghost start = Position {
            cells: Seq::empty(),
            side_to_move: Color::Red,
            red_king_sq: 0,
            black_king_sq: 0,
        };
        MCTS {
            tree,
            next_node_idx: 1,
            max_nodes,
            positions: Ghost(Seq::new(max_nodes as nat, |k: int| start)),
            begun: Ghost(0),
            passed: Ghost(0),
        }
    }

    /// Takes `num` nodes out of the pool; nothing if so many are not left.
    pub fn allocate_children(&mut self, num: u32) -> (start: Option<u32>)
        requires
            old(self).next_node_idx + num <= old(self).max_nodes ==> old(self).next_node_idx + num
                <= u32::MAX,
        ensures
            final(self).tree == old(self).tree,
            final(self).max_nodes == old(self).max_nodes,
            final(self).positions == old(self).positions,
            final(self).begun == old(self).begun,
            final(self).passed == old(self).passed,
            start is Some <==> old(self).next_node_idx + num <= old(self).max_nodes,
            start is Some ==> start->0 == old(self).next_node_idx && final(self).next_node_idx
                == old(self).next_node_idx + num,
            start is None ==> final(self).next_node_idx == old(self).next_node_idx,
    {
        let current = self.next_node_idx;
        if current as usize > self.max_nodes || num as usize > self.max_nodes - current as usize {
            return None;
        }
        self.next_node_idx = current + num;
        Some(current)
    }

    /// Both trees have the same nodes in use, with the same children and moves.
    pub open spec fn same_shape(&self, other: &MCTS) -> bool {
        &&& self.tree@.len() == other.tree@.len()
        &&& self.next_node_idx == other.next_node_idx
        &&& self.max_nodes == other.max_nodes
        &&& self.positions == other.positions
        &&& forall|i: int|
            0 <= i < self.tree@.len() ==> {
                &&& (#[trigger] self.tree@[i]).children_index == other.tree@[i].children_index
                &&& self.tree@[i].num_children == other.tree@[i].num_children
                &&& self.tree@[i].move_from_parent == other.tree@[i].move_from_parent
            }
    }

    /// A tree whose visits and values alone have changed is as sound as before.
    pub proof fn law_visits_and_values_keep_the_tree_sound(&self, other: &MCTS)
        requires
            self.same_shape(other),
            other.wf(),
        ensures
            self.wf(),
            other.fits() ==> self.fits(),
    {
        assert forall|i: int|
            0 <= i < self.next_node_idx && i < self.max_nodes && (
            #[trigger] self.tree@[i]).is_open() implies i < self.tree@[i].children_index
            && self.tree@[i].children_index + self.tree@[i].num_children <= self.next_node_idx
            && self.tree@[i].children_index + self.tree@[i].num_children <= self.max_nodes by {
            assert(other.tree@[i].is_open());
        }
        assert forall|i: int, j: int|
            0 <= i < self.next_node_idx && i < self.max_nodes && 0 <= j < self.next_node_idx && j
                < self.max_nodes && i != j && (#[trigger] self.tree@[i]).is_open() && (
            #[trigger] self.tree@[j]).is_open() implies apart(self.tree@[i], self.tree@[j]) by {
            assert(other.tree@[i].is_open() && other.tree@[j].is_open());
        }
        if other.fits() {
            assert forall|i: int, j: int| #[trigger] self.is_child(i, j) implies {
                let m = Move(self.tree@[j].move_from_parent as u16);
                &&& self.positions@[i].is_safe_step(m)
                &&& self.positions@[j] == self.positions@[i].after_move(m)
            } by {
                assert(other.is_child(i, j));
                assert(other.tree@[i].is_open());
            }
        }
    }

    /// Throws the tree away and puts the root there.
    pub fn reset(&mut self, root_board: &Board)
        requires
            old(self).wf(),
            old(self).max_nodes >= 1,
        ensures
            final(self).wf(),
            final(self).tree@ == old(self).tree@.update(
                0,
                AtomicMCTSNode::fresh(Move(0), ONE_BITS),
            ),
            final(self).max_nodes == old(self).max_nodes,
            final(self).next_node_idx == 1,
            final(self).positions@[0] == root_board@,
            final(self).fits(),
            final(self).begun@ == 0,
            final(self).passed@ == 0,
            final(self).counted(),
    {
        let mut root = AtomicMCTSNode::new();
        root.set_data(0, ONE_BITS);
        self.tree[0] = root;
        self.next_node_idx = 1;
        proof {
            root_board.lemma_cells_len();
            self.positions@ = self.positions@.update(0, root_board@);
            self.begun@ = 0;
            self.passed@ = 0;
        }
    }

    /// Gives the node `idx` one child for each move, with the bits of its prior
    /// probability, and opens it. With no nodes left for them it gets no children; if it
    /// was locked it is a leaf again.
    pub fn expand(&mut self, idx: usize, moves: &Vec<Move>, priors: &Vec<u32>) -> (grown: bool)
        requires
            old(self).wf(),
            idx < old(self).next_node_idx,
            old(self).max_nodes >= 1,
            moves@.len() == priors@.len(),
            moves@.len() < LOCKED,
            old(self).next_node_idx + moves@.len() <= old(self).max_nodes
                ==> old(self).next_node_idx + moves@.len() <= u32::MAX,
        ensures
            final(self).wf(),
            final(self).max_nodes == old(self).max_nodes,
            grown <==> old(self).next_node_idx + moves@.len() <= old(self).max_nodes,
            !grown ==> {
                &&& final(self).tree@ == old(self).tree@.update(
                    idx as int,
                    old(self).tree@[idx as int].unlocked(),
                )
                &&& final(self).next_node_idx == old(self).next_node_idx
                &&& final(self).positions == old(self).positions
            },
            grown ==> {
                let start = old(self).next_node_idx;
                &&& final(self).next_node_idx == start + moves@.len()
                &&& final(self).tree@[idx as int] == (AtomicMCTSNode {
                    children_index: start,
                    num_children: moves@.len() as u32,
                    ..old(self).tree@[idx as int]
                })
                &&& forall|k: int|
                    0 <= k < moves@.len() ==> #[trigger] final(self).tree@[start + k]
                        == AtomicMCTSNode::fresh(moves@[k], priors@[k])
                &&& forall|i: int|
                    0 <= i < old(self).max_nodes && i != idx && !(start <= i < start + moves@.len())
                        ==> #[trigger] final(self).tree@[i] == old(self).tree@[i]
            },
            forall|i: int|
                0 <= i < old(self).next_node_idx ==> #[trigger] final(self).positions@[i] == old(
                    self,
                ).positions@[i],
            final(self).begun == old(self).begun,
            final(self).passed == old(self).passed,
            old(self).counted() && (idx != 0 || old(self).passed@ == 0) ==> final(self).counted(),
            old(self).fits() && (forall|k: int|
                0 <= k < moves@.len() ==> old(self).positions@[idx as int].is_safe_step(
                    #[trigger] moves@[k],
                )) ==> final(self).fits(),
    {
        let ghost before = *self;
        let start = match self.allocate_children(moves.len() as u32) {
            None => {
                let mut leaf = self.tree[idx];
                if leaf.num_children == LOCKED {
                    leaf.num_children = 0;
                }
                self.tree[idx] = leaf;
                proof {
                    assert(self.tree@ =~= before.tree@.update(
                        idx as int,
                        before.tree@[idx as int].unlocked(),
                    ));
                    assert forall|i: int, j: int| #[trigger]
                        self.is_child(i, j) implies before.is_child(i, j) && j < before.max_nodes by {
                        assert(before.tree@[i].is_open());
                    }
                    if before.tree@[0].is_open() {
                        lemma_same_visits(before.tree@, self.tree@);
                    }
                }
                return false;
            },
            Some(start) => start,
        };
        let mut k: usize = 0;
        while k < moves.len()
            invariant
                k <= moves@.len(),
                moves@.len() == priors@.len(),
                start == before.next_node_idx,
                start + moves@.len() <= before.max_nodes,
                before.tree@.len() == before.max_nodes,
                self.tree@.len() == before.max_nodes,
                self.max_nodes == before.max_nodes,
                self.next_node_idx == start + moves@.len(),
                self.positions == before.positions,
                self.begun == before.begun,
                self.passed == before.passed,
                forall|j: int|
                    0 <= j < k ==> #[trigger] self.tree@[start + j] == AtomicMCTSNode::fresh(
                        moves@[j],
                        priors@[j],
                    ),
                forall|i: int|
                    0 <= i < before.max_nodes && !(start <= i < start + k)
                        ==> #[trigger] self.tree@[i] == before.tree@[i],
            decreases moves@.len() - k,
        {
            let mut child = AtomicMCTSNode::new();
            child.set_data(moves[k].0, priors[k]);
            self.tree[start as usize + k] = child;
            k += 1;
        }
        let mut node = self.tree[idx];
        node.children_index = start;
        node.num_children = moves.len() as u32;
        self.tree[idx] = node;
        proof {
            let here = before.positions@[idx as int];
            self.positions@ = Seq::new(
                before.positions@.len(),
                |i: int|
                    if start <= i < start + moves@.len() {
                        here.after_move(moves@[i - start])
                    } else {
                        before.positions@[i]
                    },
            );
            assert forall|k: int| 0 <= k < moves@.len() implies #[trigger] self.tree@[start + k]
                == AtomicMCTSNode::fresh(moves@[k], priors@[k]) by {}
            lemma_expanded(&before, &*self, idx as int, moves@, priors@);
            if idx != 0 {
                assert(self.tree@[0] == before.tree@[0]);
                if before.tree@[0].is_open() {
                    lemma_same_visits(before.tree@, self.tree@);
                }
            } else {
                assert forall|i: int| start <= i < start + moves@.len() implies (
                #[trigger] self.tree@[i]).visits == 0 by {
                    assert(self.tree@[start + (i - start)] == AtomicMCTSNode::fresh(
                        moves@[i - start],
                        priors@[i - start],
                    ));
                }
                lemma_no_visits(self.tree@);
            }
        }
        true
    }
}

/// What giving a node its children keeps.
proof fn lemma_expanded(
    before: &MCTS,
    after: &MCTS,
    idx: int,
    moves: Seq<Move>,
    priors: Seq<u32>,
)
    requires
        before.wf(),
        0 <= idx < before.next_node_idx,
        before.next_node_idx + moves.len() <= before.max_nodes,
        moves.len() == priors.len(),
        moves.len() < LOCKED,
        after.max_nodes == before.max_nodes,
        after.tree@.len() == before.max_nodes,
        after.positions@.len() == before.max_nodes,
        after.next_node_idx == before.next_node_idx + moves.len(),
        after.tree@[idx] == (AtomicMCTSNode {
            children_index: before.next_node_idx,
            num_children: moves.len() as u32,
            ..before.tree@[idx]
        }),
        forall|k: int|
            0 <= k < moves.len() ==> #[trigger] after.tree@[before.next_node_idx + k]
                == AtomicMCTSNode::fresh(moves[k], priors[k]),
        forall|i: int|
            0 <= i < before.max_nodes && i != idx && !(before.next_node_idx <= i
                < before.next_node_idx + moves.len()) ==> #[trigger] after.tree@[i]
                == before.tree@[i],
        forall|i: int|
            0 <= i < before.max_nodes ==> #[trigger] after.positions@[i] == (if before.next_node_idx
                <= i < before.next_node_idx + moves.len() {
                before.positions@[idx].after_move(moves[i - before.next_node_idx])
            } else {
                before.positions@[i]
            }),
    ensures
        after.wf(),
        before.fits() && (forall|k: int|
            0 <= k < moves.len() ==> before.positions@[idx].is_safe_step(#[trigger] moves[k]))
            ==> after.fits(),
{
    let start = before.next_node_idx as int;
    assert forall|i: int|
        0 <= i < after.next_node_idx && i < after.max_nodes && (
        #[trigger] after.tree@[i]).is_open() implies i < after.tree@[i].children_index
        && after.tree@[i].children_index + after.tree@[i].num_children <= after.next_node_idx
        && after.tree@[i].children_index + after.tree@[i].num_children <= after.max_nodes by {
        if i >= start {
            assert(after.tree@[start + (i - start)] == AtomicMCTSNode::fresh(
                moves[i - start],
                priors[i - start],
            ));
        } else if i != idx {
            assert(before.tree@[i].is_open());
        }
    }
    assert forall|i: int, j: int|
        0 <= i < after.next_node_idx && i < after.max_nodes && 0 <= j < after.next_node_idx && j
            < after.max_nodes && i != j && (#[trigger] after.tree@[i]).is_open() && (
        #[trigger] after.tree@[j]).is_open() implies apart(after.tree@[i], after.tree@[j]) by {
        if i >= start {
            assert(after.tree@[start + (i - start)] == AtomicMCTSNode::fresh(
                moves[i - start],
                priors[i - start],
            ));
        } else if j >= start {
            assert(after.tree@[start + (j - start)] == AtomicMCTSNode::fresh(
                moves[j - start],
                priors[j - start],
            ));
        } else if i != idx {
            assert(before.tree@[i].is_open());
            if j != idx {
                assert(before.tree@[j].is_open());
            }
        } else {
            assert(before.tree@[j].is_open());
        }
    }
    if before.fits() && (forall|k: int|
        0 <= k < moves.len() ==> before.positions@[idx].is_safe_step(#[trigger] moves[k])) {
        assert forall|i: int| 0 <= i < after.next_node_idx implies (
        #[trigger] after.positions@[i]).cells.len() == 256 by {
            if i >= start {
                assert(before.positions@[idx].is_safe_step(moves[i - start]));
                before.positions@[idx].lemma_step_keeps(moves[i - start]);
            } else {
                assert(before.positions@[i].cells.len() == 256);
            }
        }
        assert forall|i: int, j: int| #[trigger] after.is_child(i, j) implies {
            let m = Move(after.tree@[j].move_from_parent as u16);
            &&& after.positions@[i].is_safe_step(m)
            &&& after.positions@[j] == after.positions@[i].after_move(m)
        } by {
            if i >= start {
                assert(after.tree@[start + (i - start)] == AtomicMCTSNode::fresh(
                    moves[i - start],
                    priors[i - start],
                ));
            } else if i == idx {
                let k = j - start;
                assert(after.tree@[start + k] == AtomicMCTSNode::fresh(moves[k], priors[k]));
                assert(before.positions@[idx].is_safe_step(moves[k]));
            } else {
                assert(before.is_child(i, j));
                assert(before.tree@[i].is_open());
                assert(j < start);
                assert(after.positions@[j] == before.positions@[j]);
                if j != idx {
                    assert(after.tree@[j] == before.tree@[j]);
                }
            }
        }
    }
}

/// The root has the same children with the same visits.
proof fn lemma_same_visits(before: Seq<AtomicMCTSNode>, after: Seq<AtomicMCTSNode>)
    requires
        before[0].is_open(),
        after[0].is_open(),
        before[0].children_index == after[0].children_index,
        before[0].num_children == after[0].num_children,
        forall|i: int|
            before[0].children_index <= i < before[0].children_index + before[0].num_children ==> (
            #[trigger] after[i]).visits == before[i].visits,
    ensures
        root_child_visits(after) == root_child_visits(before),
{
    lemma_same_total(root_moves(before), root_moves(after));
}

/// Moves with the same visits have the same total.
proof fn lemma_same_total(a: Seq<(Move, u32)>, b: Seq<(Move, u32)>)
    requires
        a.len() == b.len(),
        forall|k: int| 0 <= k < a.len() ==> (#[trigger] a[k]).1 == b[k].1,
    ensures
        total_visits(a) == total_visits(b),
    decreases a.len(),
{
    if a.len() > 0 {
        let (x, y) = (a.drop_last(), b.drop_last());
        assert forall|k: int| 0 <= k < x.len() implies (#[trigger] x[k]).1 == y[k].1 by {
            assert(a[k].1 == b[k].1);
        }
        lemma_same_total(x, y);
        assert(a[a.len() - 1].1 == b[b.len() - 1].1);
    }
}

/// One visit more, on the move `at`.
proof fn lemma_one_more(a: Seq<(Move, u32)>, b: Seq<(Move, u32)>, at: int)
    requires
        a.len() == b.len(),
        0 <= at < a.len(),
        b[at].1 == a[at].1 + 1,
        forall|k: int| 0 <= k < a.len() && k != at ==> (#[trigger] a[k]).1 == b[k].1,
    ensures
        total_visits(b) == total_visits(a) + 1,
    decreases a.len(),
{
    let (x, y) = (a.drop_last(), b.drop_last());
    if at == a.len() - 1 {
        assert forall|k: int| 0 <= k < x.len() implies (#[trigger] x[k]).1 == y[k].1 by {
            assert(a[k].1 == b[k].1);
        }
        lemma_same_total(x, y);
    } else {
        assert forall|k: int| 0 <= k < x.len() && k != at implies (#[trigger] x[k]).1 == y[k].1 by {
            assert(a[k].1 == b[k].1);
        }
        assert(x[at] == a[at] && y[at] == b[at]);
        lemma_one_more(x, y, at);
        assert(a[a.len() - 1].1 == b[b.len() - 1].1);
    }
}

/// No move has more visits than all together.
proof fn lemma_within_total(moves: Seq<(Move, u32)>, at: int)
    requires
        0 <= at < moves.len(),
    ensures
        moves[at].1 <= total_visits(moves),
    decreases moves.len(),
{
    if at < moves.len() - 1 {
        lemma_within_total(moves.drop_last(), at);
    }
}

/// Fresh children have no visits.
proof fn lemma_no_visits(tree: Seq<AtomicMCTSNode>)
    requires
        forall|i: int|
            tree[0].children_index <= i < tree[0].children_index + tree[0].num_children ==> (
            #[trigger] tree[i]).visits == 0,
    ensures
        root_child_visits(tree) == 0,
{
    lemma_none_visited(root_moves(tree));
}

proof fn lemma_none_visited(moves: Seq<(Move, u32)>)
    requires
        forall|k: int| 0 <= k < moves.len() ==> (#[trigger] moves[k]).1 == 0,
    ensures
        total_visits(moves) == 0,
    decreases moves.len(),
{
    if moves.len() > 0 {
        let rest = moves.drop_last();
        assert forall|k: int| 0 <= k < rest.len() implies (#[trigger] rest[k]).1 == 0 by {
            assert(moves[k].1 == 0);
        }
        lemma_none_visited(rest);
        assert(moves[moves.len() - 1].1 == 0);
    }
}

// ---------------------------------------------------------------------------
// Selection
// ---------------------------------------------------------------------------
/// A playout on its way down: the nodes entered, the board there and the moves played.
pub struct Playout {
    pub path: Vec<usize>,
    pub board: Board,
    pub history: Vec<HistoryEntry>,
}

/// The child that the scores choose, and the move that leads there: the first of the
/// greatest. Where no score is above the floor, the first child, and the zero move.
pub open spec fn choice(
    tree: Seq<AtomicMCTSNode>,
    start: int,
    found: Option<usize>,
) -> (int, Move) {
    match found {
        None => (start, Move(0)),
        Some(i) => (start + i, Move(tree[start + i].move_from_parent as u16)),
    }
}

/// Whether a move counts as reversible in a playout: by its own capture flag.
pub open spec fn flagged_reversible(p: Position, m: Move) -> bool {
    &&& !m.capture_spec()
    &&& {
        ||| p.piece_at(m.from_spec())->0.piece_type != PieceType::Pawn
        ||| m.from_spec() / 16 == m.to_spec() / 16
    }
}

impl MCTS {
    /// Enters a node: counts the visit, takes the virtual loss, and says which
    /// children there are to choose from. A leaf has none, nor has a locked node.
    pub fn enter(&mut self, idx: usize) -> (children: Option<Children>)
        requires
            idx < old(self).tree@.len(),
            old(self).tree@[idx as int].total_value - VALUE_SCALE >= i64::MIN,
        ensures
            final(self).tree@ == old(self).tree@.update(
                idx as int,
                old(self).tree@[idx as int].entered(),
            ),
            final(self).same_shape(old(self)),
            final(self).begun == old(self).begun,
            final(self).passed == old(self).passed,
            children == (if old(self).tree@[idx as int].is_open() {
                Some(
                    Children {
                        start: old(self).tree@[idx as int].children_index,
                        count: old(self).tree@[idx as int].num_children,
                        parent_visits: if old(self).tree@[idx as int].visits == 0 {
                            1
                        } else {
                            old(self).tree@[idx as int].visits
                        },
                    },
                )
            } else {
                None
            }),
    {
        let mut node = self.tree[idx];
        let node_visits = node.visits;
        node.visits = node_visits.wrapping_add(VIRTUAL_LOSS);
        node.add_value(-VALUE_SCALE);
        self.tree[idx] = node;
        if node.num_children == 0 || node.num_children == LOCKED {
            return None;
        }
        let parent_visits: u32 = if node_visits == 0 {
            1
        } else {
            node_visits
        };
        Some(Children { start: node.children_index, count: node.num_children, parent_visits })
    }

    /// Chooses among the children of a node by the bits of their scores.
    pub fn pick_child(&self, children: Children, scores: &Vec<u32>) -> (picked: (usize, Move))
        requires
            children.start + children.count <= self.tree@.len(),
            scores@.len() == children.count,
        ensures
            exists|found: Option<usize>| #[trigger]
                is_first_greatest(scores@, SCORE_FLOOR, found) && {
                    let (child, m) = choice(self.tree@, children.start as int, found);
                    picked.0 == child && picked.1 == m
                },
    {
        let found = first_greatest(scores, SCORE_FLOOR);
        assert(is_first_greatest(scores@, SCORE_FLOOR, found));
        match found {
            None => (children.start as usize, Move(0)),
            Some(i) => {
                assert(self.tree.len() == self.tree@.len());
                let child = children.start as usize + i;
                (child, Move(self.tree[child].get_move()))
            },
        }
    }
}

impl Playout {
    /// Starts at the root.
    pub fn start(root_board: &Board) -> (playout: Playout)
        ensures
            playout.path@ == seq![0usize],
            playout.board@ == root_board@,
            playout.history@ == Seq::<HistoryEntry>::empty(),
    {
        let mut path: Vec<usize> = Vec::with_capacity(64);
        path.push(0);
        Playout { path, board: *root_board, history: Vec::with_capacity(64) }
    }

    /// Goes down to `child` by the move `m`, and remembers the move.
    pub fn play<R: Rules>(&mut self, rules: &R, child: usize, m: Move)
        requires
            old(self).board@.piece_at(m.from_spec()) is Some,
        ensures
            final(self).path@ == old(self).path@.push(child),
            final(self).board@ == old(self).board@.after_move(m),
            final(self).history@ == old(self).history@.push(
                entry_of(rules, old(self).board@, m, flagged_reversible(old(self).board@, m)),
            ),
    {
        self.path.push(child);
        let piece = self.board.piece_at(m.from_sq()).unwrap();
        let is_reversible = !m.is_capture() && (piece.piece_type != PieceType::Pawn || {
            let (from_row, _) = Board::square_to_coord(m.from_sq());
            let (to_row, _) = Board::square_to_coord(m.to_sq());
            from_row == to_row
        });
        let (_, entry) = make_recorded_move(rules, &mut self.board, m, is_reversible);
        self.history.push(entry);
    }
}

/// The path leads from the root from child to child to the position `p`.
pub open spec fn on_path(mcts: &MCTS, path: Seq<usize>, p: Position) -> bool {
    &&& path.len() >= 1
    &&& path[0] == 0
    &&& forall|k: int| 0 <= k < path.len() ==> #[trigger] path[k] < mcts.next_node_idx
    &&& forall|k: int|
        0 < k < path.len() ==> mcts.is_child(path[k - 1] as int, #[trigger] path[k] as int)
    &&& p == mcts.positions@[path.last() as int]
}

/// Going down to a child of the last node plays a safe step of the side to move, and leads
/// along the tree.
pub proof fn law_a_playout_stays_in_the_tree(mcts: &MCTS, path: Seq<usize>, p: Position, child: usize)
    requires
        mcts.wf(),
        mcts.fits(),
        on_path(mcts, path, p),
        mcts.is_child(path.last() as int, child as int),
    ensures
        ({
            let m = Move(mcts.tree@[child as int].move_from_parent as u16);
            &&& p.is_safe_step(m)
            &&& on_path(mcts, path.push(child), p.after_move(m))
        }),
{
    assert(mcts.tree@[path.last() as int].is_open());
    let longer = path.push(child);
    assert forall|k: int| 0 < k < longer.len() implies mcts.is_child(
        longer[k - 1] as int,
        #[trigger] longer[k] as int,
    ) by {
        if k < path.len() {
            assert(longer[k] == path[k] && longer[k - 1] == path[k - 1]);
        } else {
            assert(longer[k - 1] == path.last());
        }
    }
}

/// A child with a score above the floor is chosen by its own move.
pub proof fn law_a_scored_choice_is_a_child(mcts: &MCTS, idx: int, scores: Seq<u32>, found: usize)
    requires
        mcts.wf(),
        0 <= idx < mcts.next_node_idx,
        idx < mcts.max_nodes,
        mcts.tree@[idx].is_open(),
        scores.len() == mcts.tree@[idx].num_children,
        is_first_greatest(scores, SCORE_FLOOR, Some(found)),
    ensures
        ({
            let (child, m) = choice(
                mcts.tree@,
                mcts.tree@[idx].children_index as int,
                Some(found),
            );
            &&& mcts.is_child(idx, child)
            &&& m == Move(mcts.tree@[child].move_from_parent as u16)
        }),
{
}

/// A playout never comes back to a node: node numbers rise along its path.
pub proof fn law_paths_rise(mcts: &MCTS, path: Seq<usize>, p: Position, i: int, j: int)
    requires
        mcts.wf(),
        mcts.max_nodes >= 1,
        on_path(mcts, path, p),
        0 <= i < j < path.len(),
    ensures
        path[i] < path[j],
    decreases j - i,
{
    assert(mcts.is_child(path[j - 1] as int, path[j] as int));
    assert(mcts.tree@[path[j - 1] as int].is_open());
    if i < j - 1 {
        law_paths_rise(mcts, path, p, i, j - 1);
    }
}

// ---------------------------------------------------------------------------
// The leaf
// ---------------------------------------------------------------------------
/// What is known of a leaf before a network is asked.
pub enum Leaf {
    /// The value for the side to move: -1, 0 or 1.
    Decided(i64),
    /// The legal moves.
    Open(Vec<Move>),
}

/// The value that the rules give a position, if they decide it: a repetition, looked
/// for from the fourth move on, or a loss for want of legal moves.
pub open spec fn decided<R: Rules>(
    rules: &R,
    p: Position,
    history: Seq<HistoryEntry>,
) -> Option<int> {
    let verdict = if history.len() >= 4 {
        rules.repetition_spec(p, history, 1)
    } else {
        RepetitionResult::Undecided
    };
    match verdict {
        RepetitionResult::Loss => Some(-1),
        RepetitionResult::Win => Some(1),
        RepetitionResult::Draw => Some(0),
        RepetitionResult::Undecided => if legal_moves_spec(rules, p).len() == 0 {
            Some(-1)
        } else {
            None
        },
    }
}

/// What the rules decide at a leaf: a repetition, once four moves were played, as it is judged
/// for the side to move; else a loss for a side without a legal move; else nothing.
pub proof fn law_what_the_rules_decide_at_a_leaf<R: Rules>(
    rules: &R,
    p: Position,
    history: Seq<HistoryEntry>,
)
    ensures
        ({
            let judged = rules.repetition_spec(p, history, 1);
            let repeated = history.len() >= 4 && judged != RepetitionResult::Undecided;
            let stuck = legal_moves_spec(rules, p).len() == 0;
            &&& repeated && judged == RepetitionResult::Win ==> decided(rules, p, history) == Some(
                1int,
            )
            &&& repeated && judged == RepetitionResult::Loss ==> decided(rules, p, history) == Some(
                -1int,
            )
            &&& repeated && judged == RepetitionResult::Draw ==> decided(rules, p, history) == Some(
                0int,
            )
            &&& !repeated && stuck ==> decided(rules, p, history) == Some(-1int)
            &&& !repeated && !stuck ==> decided(rules, p, history) is None
        }),
{
}

/// A move counts as reversible in a playout unless it is flagged as a capture or is a pawn's
/// step to another row.
pub proof fn law_what_counts_as_reversible_in_a_playout(p: Position, m: Move)
    requires
        on_board(m.from_spec()),
        p.cells[m.from_spec()] is Some,
    ensures
        !flagged_reversible(p, m) <==> m.capture_spec() || (p.cells[m.from_spec()]->0).piece_type
            == PieceType::Pawn && m.from_spec() / 16 != m.to_spec() / 16,
{
}

impl Playout {
    /// Looks at the leaf that the playout has come to.
    pub fn judge_leaf<R: Rules>(&mut self, rules: &R) -> (leaf: Leaf)
        ensures
            final(self).path == old(self).path,
            final(self).board@ == old(self).board@,
            final(self).history == old(self).history,
            match leaf {
                Leaf::Decided(value) => decided(rules, old(self).board@, old(self).history@)
                    == Some(value as int),
                Leaf::Open(moves) => {
                    &&& decided(rules, old(self).board@, old(self).history@) is None
                    &&& moves@ == legal_moves_spec(rules, old(self).board@)
                },
            },
    {
        if self.history.len() >= 4 {
            match rules.judge_repetition(&self.board, &self.history, 1) {
                RepetitionResult::Loss => {
                    return Leaf::Decided(-1);
                },
                RepetitionResult::Win => {
                    return Leaf::Decided(1);
                },
                RepetitionResult::Draw => {
                    return Leaf::Decided(0);
                },
                RepetitionResult::Undecided => {},
            }
        }
        let legal_moves = get_legal_moves(rules, &mut self.board);
        if legal_moves.len() == 0 {
            Leaf::Decided(-1)
        } else {
            Leaf::Open(legal_moves)
        }
    }
}

impl MCTS {
    /// Locks a leaf for expansion, unless another playout has locked or expanded it.
    pub fn lock_leaf(&mut self, idx: usize) -> (locked: bool)
        requires
            old(self).wf(),
            idx < old(self).tree@.len(),
        ensures
            locked <==> old(self).tree@[idx as int].num_children == 0,
            final(self).tree@ == (if locked {
                old(self).tree@.update(
                    idx as int,
                    AtomicMCTSNode { num_children: LOCKED, ..old(self).tree@[idx as int] },
                )
            } else {
                old(self).tree@
            }),
            final(self).next_node_idx == old(self).next_node_idx,
            final(self).max_nodes == old(self).max_nodes,
            final(self).positions == old(self).positions,
            final(self).begun == old(self).begun,
            final(self).passed == old(self).passed,
            final(self).wf(),
            old(self).fits() ==> final(self).fits(),
            old(self).counted() ==> final(self).counted(),
    {
        let ghost before = *self;
        let mut node = self.tree[idx];
        if node.num_children != 0 {
            return false;
        }
        node.num_children = LOCKED;
        self.tree[idx] = node;
        proof {
            assert forall|i: int, j: int| #[trigger] self.is_child(i, j) implies before.is_child(i, j)
                && j < before.max_nodes by {
                assert(before.tree@[i].is_open());
            }
            if before.tree@[0].is_open() {
                lemma_same_visits(before.tree@, self.tree@);
            }
        }
        true
    }
}

// ---------------------------------------------------------------------------
// Backpropagation
// ---------------------------------------------------------------------------
/// What the node `k` of a path gets: the leaf gets `first`, its parent `second`, and so
/// on in turn.
pub open spec fn credit(path_len: int, k: int, first: int, second: int) -> int {
    if (path_len - 1 - k) % 2 == 0 {
        first
    } else {
        second
    }
}

/// The credits can be added without overflow.
pub open spec fn credit_fits(
    tree: Seq<AtomicMCTSNode>,
    path: Seq<usize>,
    first: int,
    second: int,
) -> bool {
    forall|k: int|
        0 <= k < path.len() ==> i64::MIN <= tree[(#[trigger] path[k]) as int].total_value + credit(
            path.len() as int,
            k,
            first,
            second,
        ) <= i64::MAX
}

/// The path names no node twice, and only nodes of the tree.
pub open spec fn rises_in(path: Seq<usize>, len: int) -> bool {
    &&& forall|k: int| 0 <= k < path.len() ==> #[trigger] path[k] < len
    &&& forall|i: int, j: int|
        0 <= i < j < path.len() ==> #[trigger] path[i] < #[trigger] path[j]
}

/// `after` is `before` with its credit for each node of the path.
pub open spec fn is_credited(
    before: Seq<AtomicMCTSNode>,
    after: Seq<AtomicMCTSNode>,
    path: Seq<usize>,
    first: int,
    second: int,
) -> bool {
    &&& after.len() == before.len()
    &&& forall|k: int|
        0 <= k < path.len() ==> after[(#[trigger] path[k]) as int] == (AtomicMCTSNode {
            total_value: (before[path[k] as int].total_value + credit(
                path.len() as int,
                k,
                first,
                second,
            )) as i64,
            ..before[path[k] as int]
        })
    &&& forall|i: int|
        0 <= i < before.len() && !path.contains(i as usize) ==> #[trigger] after[i] == before[i]
}

impl MCTS {
    /// Tests whether the credits can be added without overflow.
    pub fn can_credit(&self, path: &Vec<usize>, first: i64, second: i64) -> (fits: bool)
        requires
            forall|k: int| 0 <= k < path@.len() ==> #[trigger] path@[k] < self.tree@.len(),
        ensures
            fits == credit_fits(self.tree@, path@, first as int, second as int),
    {
        let mut k: usize = path.len();
        let mut leaf_side = true;
        while k > 0
            invariant
                k <= path@.len(),
                forall|j: int| 0 <= j < path@.len() ==> #[trigger] path@[j] < self.tree@.len(),
                leaf_side == ((path@.len() - k) % 2 == 0),
                forall|j: int|
                    k <= j < path@.len() ==> i64::MIN <= self.tree@[(
                    #[trigger] path@[j]) as int].total_value + credit(
                        path@.len() as int,
                        j,
                        first as int,
                        second as int,
                    ) <= i64::MAX,
            decreases k,
        {
            k -= 1;
            let delta = if leaf_side {
                first
            } else {
                second
            };
            assert(delta == credit(path@.len() as int, k as int, first as int, second as int));
            if self.tree[path[k]].total_value.checked_add(delta).is_none() {
                return false;
            }
            leaf_side = !leaf_side;
        }
        true
    }

    /// Credits every node of a path, from the leaf to the root.
    pub fn backpropagate(&mut self, path: &Vec<usize>, first: i64, second: i64)
        requires
            rises_in(path@, old(self).tree@.len() as int),
            credit_fits(old(self).tree@, path@, first as int, second as int),
        ensures
            is_credited(old(self).tree@, final(self).tree@, path@, first as int, second as int),
            final(self).same_shape(old(self)),
            final(self).begun == old(self).begun,
            final(self).passed == old(self).passed,
            old(self).wf() && old(self).counted() ==> final(self).counted(),
    {
        let ghost before = *self;
        let mut k: usize = path.len();
        let mut leaf_side = true;
        while k > 0
            invariant
                k <= path@.len(),
                rises_in(path@, before.tree@.len() as int),
                credit_fits(before.tree@, path@, first as int, second as int),
                leaf_side == ((path@.len() - k) % 2 == 0),
                self.tree@.len() == before.tree@.len(),
                self.next_node_idx == before.next_node_idx,
                self.max_nodes == before.max_nodes,
                self.positions == before.positions,
                self.begun == before.begun,
                self.passed == before.passed,
                forall|j: int|
                    k <= j < path@.len() ==> self.tree@[(#[trigger] path@[j]) as int] == (
                    AtomicMCTSNode {
                        total_value: (before.tree@[path@[j] as int].total_value + credit(
                            path@.len() as int,
                            j,
                            first as int,
                            second as int,
                        )) as i64,
                        ..before.tree@[path@[j] as int]
                    }),
                forall|j: int|
                    0 <= j < k ==> self.tree@[(#[trigger] path@[j]) as int]
                        == before.tree@[path@[j] as int],
                forall|i: int|
                    0 <= i < before.tree@.len() && !path@.contains(i as usize)
                        ==> #[trigger] self.tree@[i] == before.tree@[i],
            decreases k,
        {
            k -= 1;
            let delta = if leaf_side {
                first
            } else {
                second
            };
            assert(delta == credit(path@.len() as int, k as int, first as int, second as int));
            let idx = path[k];
            let mut node = self.tree[idx];
            node.add_value(delta);
            self.tree[idx] = node;
            assert(path@.contains(idx));
            leaf_side = !leaf_side;
        }
        assert forall|i: int| 0 <= i < self.tree@.len() implies {
            &&& (#[trigger] self.tree@[i]).children_index == before.tree@[i].children_index
            &&& self.tree@[i].num_children == before.tree@[i].num_children
            &&& self.tree@[i].move_from_parent == before.tree@[i].move_from_parent
            &&& self.tree@[i].visits == before.tree@[i].visits
        } by {
            assert(self.tree.len() == self.tree@.len());
            if path@.contains(i as usize) {
                let j = path@.index_of(i as usize);
                assert(path@[j] == i);
            }
        }
        proof {
            if before.wf() && before.counted() && before.max_nodes >= 1 {
                assert(self.tree@[0].num_children == before.tree@[0].num_children);
                if before.tree@[0].is_open() {
                    lemma_same_visits(before.tree@, self.tree@);
                }
            }
        }
    }
}

// ---------------------------------------------------------------------------
// A playout, step by step
// ---------------------------------------------------------------------------
/// What a playout waits for.
pub enum Action {
    /// The scores of these children.
    Score(Children),
    /// The network's word on the leaf, whose legal moves these are.
    Evaluate(Vec<Move>),
    /// The leaf, which another playout is expanding.
    Wait,
    /// Nothing more.
    Done,
    /// A value has overflowed.
    Overflow,
    /// The chosen move leaves an empty square.
    NoPiece,
}

/// What a playout waits for, as a mathematical value.
pub enum Awaited {
    Score(Children),
    Evaluate(Seq<Move>),
    Wait,
    Done,
    Overflow,
    NoPiece,
}

impl View for Action {
    type V = Awaited;

    open spec fn view(&self) -> Awaited {
        match self {
            Action::Score(children) => Awaited::Score(*children),
            Action::Evaluate(moves) => Awaited::Evaluate(moves@),
            Action::Wait => Awaited::Wait,
            Action::Done => Awaited::Done,
            Action::Overflow => Awaited::Overflow,
            Action::NoPiece => Awaited::NoPiece,
        }
    }
}

/// A tree with its credit for each node of the path.
pub open spec fn credited(
    tree: Seq<AtomicMCTSNode>,
    path: Seq<usize>,
    first: int,
    second: int,
) -> Seq<AtomicMCTSNode> {
    Seq::new(
        tree.len(),
        |i: int|
            if path.contains(i as usize) {
                AtomicMCTSNode {
                    total_value: (tree[i].total_value + credit(
                        path.len() as int,
                        path.index_of(i as usize),
                        first,
                        second,
                    )) as i64,
                    ..tree[i]
                }
            } else {
                tree[i]
            },
    )
}

/// The tree that crediting a path leads to.
proof fn lemma_credited(
    before: Seq<AtomicMCTSNode>,
    after: Seq<AtomicMCTSNode>,
    path: Seq<usize>,
    first: int,
    second: int,
)
    requires
        before.len() <= usize::MAX,
        rises_in(path, before.len() as int),
        is_credited(before, after, path, first, second),
    ensures
        after == credited(before, path, first, second),
{
    assert forall|i: int| 0 <= i < before.len() implies #[trigger] after[i] == credited(
        before,
        path,
        first,
        second,
    )[i] by {
        if path.contains(i as usize) {
            let k = path.index_of(i as usize);
            assert(path[k] == i);
        }
    }
    assert(after =~= credited(before, path, first, second));
}

/// The credits of a playout take turns up its path: the leaf gets the first, two neighbours on
/// the path get both between them, and a node gets what the node two above it gets. Nothing
/// but the values on the path changes.
pub proof fn law_credits_take_turns_up_the_path(
    tree: Seq<AtomicMCTSNode>,
    path: Seq<usize>,
    first: int,
    second: int,
    k: int,
    i: int,
)
    requires
        tree.len() <= usize::MAX,
        rises_in(path, tree.len() as int),
        credit_fits(tree, path, first, second),
        0 <= k < path.len(),
        0 <= i < tree.len(),
    ensures
        ({
            let after = credited(tree, path, first, second);
            let gain = |j: int| after[path[j] as int].total_value - tree[path[j] as int].total_value;
            &&& after.len() == tree.len()
            &&& gain(path.len() - 1) == first
            &&& k + 1 < path.len() ==> gain(k) + gain(k + 1) == first + second
            &&& k + 2 < path.len() ==> gain(k) == gain(k + 2)
            &&& !path.contains(i as usize) ==> after[i] == tree[i]
            &&& after[i].visits == tree[i].visits
            &&& after[i].move_from_parent == tree[i].move_from_parent
            &&& after[i].prior_prob == tree[i].prior_prob
            &&& after[i].children_index == tree[i].children_index
            &&& after[i].num_children == tree[i].num_children
        }),
{
    let n = path.len() as int;
    assert forall|j: int| 0 <= j < n implies path.index_of((#[trigger] path[j])) == j
        && path.contains(path[j]) by {
        assert(path.contains(path[j]));
        let other = path.index_of(path[j]);
        assert(path[other] == path[j]);
    }
    assert(path[n - 1] < tree.len() && path[k] < tree.len());
    if k + 1 < n {
        assert(path[k + 1] < tree.len());
    }
    if k + 2 < n {
        assert(path[k + 2] < tree.len());
    }
}

/// Coming to the last node of a path: the tree it leaves and what is waited for.
pub open spec fn arrival<R: Rules>(
    rules: &R,
    tree: Seq<AtomicMCTSNode>,
    path: Seq<usize>,
    p: Position,
    history: Seq<HistoryEntry>,
) -> (Seq<AtomicMCTSNode>, Awaited) {
    let idx = path.last() as int;
    let node = tree[idx];
    let entered = tree.update(idx, node.entered());
    if node.total_value - VALUE_SCALE < i64::MIN {
        (tree, Awaited::Overflow)
    } else if node.is_open() {
        (
            entered,
            Awaited::Score(
                Children {
                    start: node.children_index,
                    count: node.num_children,
                    parent_visits: if node.visits == 0 {
                        1
                    } else {
                        node.visits
                    },
                },
            ),
        )
    } else {
        match decided(rules, p, history) {
            Some(value) => {
                let first = (1 - value) * VALUE_SCALE;
                let second = (1 + value) * VALUE_SCALE;
                if credit_fits(entered, path, first, second) {
                    (credited(entered, path, first, second), Awaited::Done)
                } else {
                    (entered, Awaited::Overflow)
                }
            },
            None => if node.num_children == 0 {
                (
                    entered.update(
                        idx,
                        AtomicMCTSNode { num_children: LOCKED, ..node.entered() },
                    ),
                    Awaited::Evaluate(legal_moves_spec(rules, p)),
                )
            } else {
                (entered, Awaited::Wait)
            },
        }
    }
}

/// A leaf that the rules decide is credited at once: with the virtual loss that entering it
/// took, it gains a million where the side to move there has lost, loses a million where that
/// side has won, and stays as it was for a draw; the node above gets the opposite on top of
/// the million that entering it took. A leaf that they leave open is locked and waits for an
/// evaluation of its legal moves, and one that is locked already is waited for.
pub proof fn law_what_a_playout_does_at_a_leaf<R: Rules>(
    rules: &R,
    tree: Seq<AtomicMCTSNode>,
    path: Seq<usize>,
    p: Position,
    history: Seq<HistoryEntry>,
)
    requires
        path.len() >= 1,
        tree.len() <= usize::MAX,
        rises_in(path, tree.len() as int),
        !tree[path.last() as int].is_open(),
        forall|k: int|
            0 <= k < path.len() ==> i64::MIN + 2_000_000 <= tree[(
            #[trigger] path[k]) as int].total_value <= i64::MAX - 2_000_000,
    ensures
        ({
            let leaf = path.last() as int;
            let (after, awaited) = arrival(rules, tree, path, p, history);
            let value = decided(rules, p, history);
            &&& after.len() == tree.len()
            &&& value matches Some(v) ==> (v == -1 || v == 0 || v == 1) && {
                &&& awaited is Done
                &&& after[leaf].total_value == tree[leaf].total_value - 1_000_000 * v
                &&& after[leaf].num_children == tree[leaf].num_children
                &&& path.len() >= 2 ==> {
                    let above = path[path.len() - 2] as int;
                    after[above].total_value == tree[above].total_value + 1_000_000 * (1 + v)
                }
            }
            &&& value is None && tree[leaf].num_children == 0 ==> {
                &&& awaited == Awaited::Evaluate(legal_moves_spec(rules, p))
                &&& after[leaf].num_children == u32::MAX
                &&& after[leaf].total_value == tree[leaf].total_value - 1_000_000
            }
            &&& value is None && tree[leaf].num_children != 0 ==> {
                &&& awaited is Wait
                &&& after[leaf].num_children == tree[leaf].num_children
                &&& after[leaf].total_value == tree[leaf].total_value - 1_000_000
            }
        }),
{
    let leaf = path.last() as int;
    let node = tree[leaf];
    let entered = tree.update(leaf, node.entered());
    assert(path[path.len() - 1] == leaf);
    if let Some(v) = decided(rules, p, history) {
        let first = (1 - v) * VALUE_SCALE;
        let second = (1 + v) * VALUE_SCALE;
        assert(credit_fits(entered, path, first, second)) by {
            assert forall|k: int| 0 <= k < path.len() implies i64::MIN <= entered[(
            #[trigger] path[k]) as int].total_value + credit(
                path.len() as int,
                k,
                first,
                second,
            ) <= i64::MAX by {
                assert(tree[path[k] as int].total_value <= i64::MAX - 2_000_000);
            }
        }
        let after = credited(entered, path, first, second);
        lemma_credit_at(entered, path, first, second, path.len() - 1);
        if path.len() >= 2 {
            lemma_credit_at(entered, path, first, second, path.len() - 2);
            assert(path[path.len() - 2] < path[path.len() - 1]);
        }
    }
}

/// What a node of the path is credited with.
proof fn lemma_credit_at(
    tree: Seq<AtomicMCTSNode>,
    path: Seq<usize>,
    first: int,
    second: int,
    k: int,
)
    requires
        0 <= k < path.len(),
        rises_in(path, tree.len() as int),
        credit_fits(tree, path, first, second),
    ensures
        ({
            let i = path[k] as int;
            let after = credited(tree, path, first, second);
            &&& after[i].total_value == tree[i].total_value + credit(
                path.len() as int,
                k,
                first,
                second,
            )
            &&& after[i].num_children == tree[i].num_children
        }),
{
    let i = path[k] as int;
    assert(path.contains(i as usize));
    let j = path.index_of(i as usize);
    if j < k {
        assert(path[j] < path[k]);
    } else if k < j {
        assert(path[k] < path[j]);
    }
    assert(path[k] == i);
}

/// The node can be entered without an overflow of its value.
pub open spec fn can_enter(node: AtomicMCTSNode) -> bool {
    node.total_value - VALUE_SCALE >= i64::MIN
}

/// One, if this is where a playout enters the root.
pub open spec fn newly_begun(tree: Seq<AtomicMCTSNode>, path: Seq<usize>) -> nat {
    if path.len() == 1 && can_enter(tree[path.last() as int]) {
        1
    } else {
        0
    }
}

/// One, if this is where a playout goes on from the root.
pub open spec fn newly_passed(tree: Seq<AtomicMCTSNode>, path: Seq<usize>) -> nat {
    if path.len() == 2 && can_enter(tree[path.last() as int]) {
        1
    } else {
        0
    }
}

/// The path starts at the root, and its second node, but no later one, is a child of the
/// root.
pub open spec fn goes_from_root(mcts: &MCTS, path: Seq<usize>) -> bool {
    &&& path.len() >= 1
    &&& path[0] == 0
    &&& path.len() >= 2 ==> (path.len() == 2 <==> mcts.is_child(0, path.last() as int))
}

/// These are the children of the node.
pub open spec fn are_children(mcts: &MCTS, idx: int, children: Children) -> bool {
    &&& 0 <= idx < mcts.next_node_idx
    &&& idx < mcts.max_nodes
    &&& mcts.tree@[idx].is_open()
    &&& children.start == mcts.tree@[idx].children_index
    &&& children.count == mcts.tree@[idx].num_children
}

/// Going on to a child of the last node keeps to paths from the root.
proof fn lemma_longer_path(mcts: &MCTS, path: Seq<usize>, children: Children, child: usize)
    requires
        mcts.wf(),
        mcts.max_nodes >= 1,
        path.len() >= 1,
        path[0] == 0,
        rises_in(path, mcts.tree@.len() as int),
        are_children(mcts, path.last() as int, children),
        children.start <= child < children.start + children.count,
    ensures
        goes_from_root(mcts, path.push(child)),
{
    let idx = path.last() as int;
    if path.len() > 1 {
        assert(path[0] < path[path.len() - 1]);
        assert(mcts.tree@[idx].is_open());
        if mcts.tree@[0].is_open() {
            assert(apart(mcts.tree@[0], mcts.tree@[idx]));
        }
    }
}

/// Entering a node counts: at the root for a playout begun, at a child of the root for one
/// that goes on.
proof fn lemma_entered_counts(before: &MCTS, after: &MCTS, path: Seq<usize>)
    requires
        before.wf(),
        before.counted(),
        goes_from_root(before, path),
        rises_in(path, before.tree@.len() as int),
        can_enter(before.tree@[path.last() as int]),
        after.max_nodes == before.max_nodes,
        after.tree@ == before.tree@.update(
            path.last() as int,
            before.tree@[path.last() as int].entered(),
        ),
        after.begun@ == before.begun@ + newly_begun(before.tree@, path),
        after.passed@ == before.passed@ + newly_passed(before.tree@, path),
    ensures
        after.counted(),
{
    let idx = path.last() as int;
    let root = before.tree@[0];
    if path.len() > 1 {
        assert(path[0] < path[path.len() - 1]);
        assert(after.tree@[0] == root);
    }
    if root.is_open() {
        assert(root.children_index > 0);
        let a = root_moves(before.tree@);
        let b = root_moves(after.tree@);
        if path.len() == 2 {
            let at = idx - root.children_index;
            if after.passed@ <= u32::MAX {
                lemma_within_total(a, at);
                assert(a[at].1 == before.tree@[idx].visits);
                assert(before.tree@[idx].visits < u32::MAX);
                assert(b[at].1 == a[at].1 + 1);
                lemma_one_more(a, b, at);
            }
        } else {
            lemma_same_visits(before.tree@, after.tree@);
        }
    }
}

impl Playout {
    /// Comes to the last node of its path.
    fn arrive<R: Rules>(&mut self, mcts: &mut MCTS, rules: &R) -> (action: Action)
        requires
            old(mcts).wf(),
            old(self).path@.len() >= 1,
            rises_in(old(self).path@, old(mcts).tree@.len() as int),
        ensures
            (final(mcts).tree@, action@) == arrival(
                rules,
                old(mcts).tree@,
                old(self).path@,
                old(self).board@,
                old(self).history@,
            ),
            final(mcts).wf(),
            old(mcts).fits() ==> final(mcts).fits(),
            final(mcts).next_node_idx == old(mcts).next_node_idx,
            final(mcts).max_nodes == old(mcts).max_nodes,
            final(mcts).positions == old(mcts).positions,
            final(mcts).begun@ == old(mcts).begun@ + newly_begun(old(mcts).tree@, old(self).path@),
            final(mcts).passed@ == old(mcts).passed@ + newly_passed(
                old(mcts).tree@,
                old(self).path@,
            ),
            old(mcts).counted() && goes_from_root(old(mcts), old(self).path@)
                ==> final(mcts).counted(),
            final(self).path == old(self).path,
            final(self).board@ == old(self).board@,
            final(self).history == old(self).history,
    {
        let ghost m0 = *mcts;
        let last = self.path.len() - 1;
        let idx = self.path[last];
        assert(mcts.tree.len() == mcts.tree@.len());
        if mcts.tree[idx].total_value < i64::MIN + VALUE_SCALE {
            return Action::Overflow;
        }
        let children = mcts.enter(idx);
        proof {
            mcts.begun@ = mcts.begun@ + newly_begun(m0.tree@, self.path@);
            mcts.passed@ = mcts.passed@ + newly_passed(m0.tree@, self.path@);
            mcts.law_visits_and_values_keep_the_tree_sound(&m0);
            if m0.counted() && goes_from_root(&m0, self.path@) {
                lemma_entered_counts(&m0, &*mcts, self.path@);
            }
        }
        if let Some(children) = children {
            return Action::Score(children);
        }
        let ghost m1 = *mcts;
        match self.judge_leaf(rules) {
            Leaf::Decided(value) => {
                assert(-1 <= value <= 1);
                let first: i64 = (1 - value) * VALUE_SCALE;
                let second: i64 = (1 + value) * VALUE_SCALE;
                if !mcts.can_credit(&self.path, first, second) {
                    return Action::Overflow;
                }
                mcts.backpropagate(&self.path, first, second);
                proof {
                    mcts.law_visits_and_values_keep_the_tree_sound(&m1);
                    lemma_credited(
                        m1.tree@,
                        mcts.tree@,
                        self.path@,
                        first as int,
                        second as int,
                    );
                }
                Action::Done
            },
            Leaf::Open(moves) => {
                if mcts.lock_leaf(idx) {
                    Action::Evaluate(moves)
                } else {
                    Action::Wait
                }
            },
        }
    }

    /// Starts a playout at the root.
    pub fn begin<R: Rules>(mcts: &mut MCTS, rules: &R, root_board: &Board) -> (begun: (
        Playout,
        Action,
    ))
        requires
            old(mcts).wf(),
            old(mcts).max_nodes >= 1,
        ensures
            begun.0.path@ == seq![0usize],
            begun.0.board@ == root_board@,
            begun.0.history@ == Seq::<HistoryEntry>::empty(),
            (final(mcts).tree@, begun.1@) == arrival(
                rules,
                old(mcts).tree@,
                seq![0usize],
                root_board@,
                Seq::<HistoryEntry>::empty(),
            ),
            final(mcts).wf(),
            old(mcts).fits() ==> final(mcts).fits(),
            final(mcts).next_node_idx == old(mcts).next_node_idx,
            final(mcts).max_nodes == old(mcts).max_nodes,
            final(mcts).positions == old(mcts).positions,
            final(mcts).begun@ == old(mcts).begun@ + newly_begun(old(mcts).tree@, seq![0usize]),
            final(mcts).passed == old(mcts).passed,
            old(mcts).counted() ==> final(mcts).counted(),
    {
        let mut playout = Playout::start(root_board);
        let action = playout.arrive(mcts, rules);
        (playout, action)
    }

    /// Goes on to the child that the scores choose.
    pub fn choose_child<R: Rules>(
        &mut self,
        mcts: &mut MCTS,
        rules: &R,
        children: Children,
        scores: &Vec<u32>,
    ) -> (action: Action)
        requires
            old(mcts).wf(),
            old(self).path@.len() >= 1,
            rises_in(old(self).path@, old(mcts).tree@.len() as int),
            old(self).path@.last() < children.start,
            children.count >= 1,
            children.start + children.count <= old(mcts).tree@.len(),
            scores@.len() == children.count,
        ensures
            exists|found: Option<usize>| #[trigger]
                is_first_greatest(scores@, SCORE_FLOOR, found) && {
                    let (child, m) = choice(old(mcts).tree@, children.start as int, found);
                    let p = old(self).board@;
                    if p.piece_at(m.from_spec()) is None {
                        &&& action@ == Awaited::NoPiece
                        &&& *final(mcts) == *old(mcts)
                        &&& *final(self) == *old(self)
                    } else {
                        let entry = entry_of(rules, p, m, flagged_reversible(p, m));
                        &&& final(self).path@ == old(self).path@.push(child as usize)
                        &&& final(self).board@ == p.after_move(m)
                        &&& final(self).history@ == old(self).history@.push(entry)
                        &&& (final(mcts).tree@, action@) == arrival(
                            rules,
                            old(mcts).tree@,
                            final(self).path@,
                            final(self).board@,
                            final(self).history@,
                        )
                        &&& final(mcts).passed@ == old(mcts).passed@ + newly_passed(
                            old(mcts).tree@,
                            final(self).path@,
                        )
                    }
                },
            final(mcts).begun == old(mcts).begun,
            old(mcts).counted() && old(self).path@[0] == 0 && are_children(
                old(mcts),
                old(self).path@.last() as int,
                children,
            ) ==> final(mcts).counted(),
            final(mcts).wf(),
            old(mcts).fits() ==> final(mcts).fits(),
            final(mcts).next_node_idx == old(mcts).next_node_idx,
            final(mcts).max_nodes == old(mcts).max_nodes,
            final(mcts).positions == old(mcts).positions,
            final(self).path@.len() >= 1,
            rises_in(final(self).path@, final(mcts).tree@.len() as int),
    {
        let (child, m) = mcts.pick_child(children, scores);
        if self.board.piece_at(m.from_sq()).is_none() {
            return Action::NoPiece;
        }
        proof {
            let path = self.path@;
            let longer = path.push(child);
            assert forall|i: int, j: int| 0 <= i < j < longer.len() implies #[trigger] longer[i]
                < #[trigger] longer[j] by {
                if i < path.len() - 1 {
                    assert(path[i] < path[path.len() - 1]);
                }
            }
            if path[0] == 0 && are_children(&*mcts, path.last() as int, children) {
                lemma_longer_path(&*mcts, path, children, child);
            }
        }
        self.play(rules, child, m);
        self.arrive(mcts, rules)
    }

    /// Ends a playout that asked for an evaluation: the leaf gets its children, with the
    /// bits of their priors, and the path its credits. False if a credit overflows; then
    /// nothing is credited.
    pub fn evaluated(
        &self,
        mcts: &mut MCTS,
        moves: &Vec<Move>,
        priors: &Vec<u32>,
        first: i64,
        second: i64,
    ) -> (done: bool)
        requires
            old(mcts).wf(),
            old(mcts).max_nodes >= 1,
            self.path@.len() >= 1,
            rises_in(self.path@, old(mcts).tree@.len() as int),
            self.path@.last() < old(mcts).next_node_idx,
            moves@.len() == priors@.len(),
            moves@.len() < LOCKED,
            old(mcts).next_node_idx + moves@.len() <= old(mcts).max_nodes
                ==> old(mcts).next_node_idx + moves@.len() <= u32::MAX,
        ensures
            exists|grown: Seq<AtomicMCTSNode>|
                #![trigger credited(grown, self.path@, first as int, second as int)]
                {
                    &&& is_grown(
                        old(mcts).tree@,
                        grown,
                        old(mcts).next_node_idx as int,
                        self.path@.last() as int,
                        moves@,
                        priors@,
                    )
                    &&& done == credit_fits(grown, self.path@, first as int, second as int)
                    &&& final(mcts).tree@ == (if done {
                        credited(grown, self.path@, first as int, second as int)
                    } else {
                        grown
                    })
                },
            final(mcts).tree@[self.path@.last() as int].num_children != LOCKED,
            final(mcts).begun == old(mcts).begun,
            final(mcts).passed == old(mcts).passed,
            old(mcts).counted() && (self.path@.last() != 0 || old(mcts).passed@ == 0)
                ==> final(mcts).counted(),
            final(mcts).next_node_idx == (if old(mcts).next_node_idx + moves@.len() <= old(
                mcts,
            ).max_nodes {
                old(mcts).next_node_idx + moves@.len()
            } else {
                old(mcts).next_node_idx as int
            }),
            final(mcts).wf(),
            final(mcts).max_nodes == old(mcts).max_nodes,
            old(mcts).fits() && (forall|k: int|
                0 <= k < moves@.len() ==> old(mcts).positions@[self.path@.last() as int].is_safe_step(
                    #[trigger] moves@[k],
                )) ==> final(mcts).fits(),
    {
        let idx = self.path[self.path.len() - 1];
        mcts.expand(idx, moves, priors);
        let ghost grown = mcts.tree@;
        assert(is_grown(
            old(mcts).tree@,
            grown,
            old(mcts).next_node_idx as int,
            self.path@.last() as int,
            moves@,
            priors@,
        ));
        assert(credited(grown, self.path@, first as int, second as int).len() == grown.len());
        self.credit_path(mcts, first, second)
    }

    /// Credits the path. False if a credit overflows; then nothing is credited.
    pub fn credit_path(&self, mcts: &mut MCTS, first: i64, second: i64) -> (done: bool)
        requires
            old(mcts).wf(),
            rises_in(self.path@, old(mcts).tree@.len() as int),
        ensures
            done == credit_fits(old(mcts).tree@, self.path@, first as int, second as int),
            final(mcts).tree@ == (if done {
                credited(old(mcts).tree@, self.path@, first as int, second as int)
            } else {
                old(mcts).tree@
            }),
            final(mcts).wf(),
            old(mcts).fits() ==> final(mcts).fits(),
            final(mcts).next_node_idx == old(mcts).next_node_idx,
            final(mcts).max_nodes == old(mcts).max_nodes,
            final(mcts).positions == old(mcts).positions,
            final(mcts).begun == old(mcts).begun,
            final(mcts).passed == old(mcts).passed,
            old(mcts).counted() ==> final(mcts).counted(),
    {
        let ghost m0 = *mcts;
        if !mcts.can_credit(&self.path, first, second) {
            return false;
        }
        assert(mcts.tree.len() == mcts.tree@.len());
        mcts.backpropagate(&self.path, first, second);
        proof {
            mcts.law_visits_and_values_keep_the_tree_sound(&m0);
            lemma_credited(m0.tree@, mcts.tree@, self.path@, first as int, second as int);
        }
        true
    }
}

/// `after` is `before` with one child for each move under the node `idx`, taken from the
/// pool at `start`, if the pool has so many nodes left.
pub open spec fn is_grown(
    before: Seq<AtomicMCTSNode>,
    after: Seq<AtomicMCTSNode>,
    start: int,
    idx: int,
    moves: Seq<Move>,
    priors: Seq<u32>,
) -> bool {
    if start + moves.len() <= before.len() {
        &&& after.len() == before.len()
        &&& after[idx] == (AtomicMCTSNode {
            children_index: start as u32,
            num_children: moves.len() as u32,
            ..before[idx]
        })
        &&& forall|k: int|
            0 <= k < moves.len() ==> #[trigger] after[start + k] == AtomicMCTSNode::fresh(
                moves[k],
                priors[k],
            )
        &&& forall|i: int|
            0 <= i < before.len() && i != idx && !(start <= i < start + moves.len())
                ==> #[trigger] after[i] == before[i]
    } else {
        after == before.update(idx, before[idx].unlocked())
    }
}

/// Once its evaluation is in, no leaf is left locked: it has its children, or with the
/// pool used up it is a leaf as before, and a later playout there does not wait.
pub proof fn law_an_evaluated_leaf_is_not_locked(
    before: Seq<AtomicMCTSNode>,
    grown: Seq<AtomicMCTSNode>,
    start: int,
    path: Seq<usize>,
    moves: Seq<Move>,
    priors: Seq<u32>,
    first: int,
    second: int,
)
    requires
        path.len() >= 1,
        rises_in(path, before.len() as int),
        path.last() < start,
        moves.len() < LOCKED,
        is_grown(before, grown, start, path.last() as int, moves, priors),
    ensures
        grown[path.last() as int].num_children != LOCKED,
        credited(grown, path, first, second)[path.last() as int].num_children != LOCKED,
{
}

/// `after` is `before` with every node of the path entered once.
pub open spec fn is_entered(
    before: Seq<AtomicMCTSNode>,
    after: Seq<AtomicMCTSNode>,
    path: Seq<usize>,
) -> bool {
    &&& after.len() == before.len()
    &&& forall|k: int|
        0 <= k < path.len() ==> after[(#[trigger] path[k]) as int]
            == before[path[k] as int].entered()
}

/// What a playout leaves behind when its leaf is credited `first` and the node above it
/// `second`, and so on in turn: one visit more on each node of its path, and the credit
/// without the virtual loss.
pub proof fn law_a_playout_leaves_its_credits(
    before: Seq<AtomicMCTSNode>,
    entered: Seq<AtomicMCTSNode>,
    after: Seq<AtomicMCTSNode>,
    path: Seq<usize>,
    first: int,
    second: int,
    k: int,
)
    requires
        rises_in(path, before.len() as int),
        is_entered(before, entered, path),
        forall|j: int| 0 <= j < path.len() ==> can_enter(before[(#[trigger] path[j]) as int]),
        credit_fits(entered, path, first, second),
        is_credited(entered, after, path, first, second),
        0 <= k < path.len(),
    ensures
        ({
            let i = path[k] as int;
            &&& after[i].visits == before[i].visits.wrapping_add(1)
            &&& after[i].total_value == before[i].total_value + credit(
                path.len() as int,
                k,
                first - VALUE_SCALE,
                second - VALUE_SCALE,
            )
        }),
{
    let i = path[k] as int;
    assert(entered[i] == before[i].entered());
    assert(can_enter(before[path[k] as int]));
}

/// Coming to a node adds one visit there, if it can be entered, and none anywhere else.
pub proof fn law_an_arrival_is_one_visit<R: Rules>(
    rules: &R,
    tree: Seq<AtomicMCTSNode>,
    path: Seq<usize>,
    p: Position,
    history: Seq<HistoryEntry>,
    i: int,
)
    requires
        path.len() >= 1,
        rises_in(path, tree.len() as int),
        0 <= i < tree.len(),
    ensures
        arrival(rules, tree, path, p, history).0.len() == tree.len(),
        arrival(rules, tree, path, p, history).0[i].visits == (if i == path.last() && can_enter(
            tree[i],
        ) {
            tree[i].visits.wrapping_add(1)
        } else {
            tree[i].visits
        }),
{
}

/// With children at the root no playout ends there: it has to go on to one of them.
pub proof fn law_an_open_root_is_gone_on_from<R: Rules>(
    rules: &R,
    tree: Seq<AtomicMCTSNode>,
    p: Position,
)
    requires
        tree[0].is_open(),
        can_enter(tree[0]),
    ensures
        arrival(rules, tree, seq![0usize], p, Seq::empty()).1 matches Awaited::Score(children)
            && children.start == tree[0].children_index && children.count == tree[0].num_children,
{
}

/// What a playout leaves behind when the leaf is worth `value` (-1, 0 or 1) to the side to
/// move there: one visit more on each node of its path, and the value, from the side
/// of whoever moved to the node. The virtual loss is gone.
pub proof fn law_a_playout_leaves_its_value(
    before: Seq<AtomicMCTSNode>,
    entered: Seq<AtomicMCTSNode>,
    after: Seq<AtomicMCTSNode>,
    path: Seq<usize>,
    value: int,
    k: int,
)
    requires
        -1 <= value <= 1,
        rises_in(path, before.len() as int),
        is_entered(before, entered, path),
        forall|j: int|
            0 <= j < path.len() ==> i64::MIN + 2 * VALUE_SCALE <= before[(
            #[trigger] path[j]) as int].total_value <= i64::MAX - 2 * VALUE_SCALE,
        is_credited(
            entered,
            after,
            path,
            (1 - value) * VALUE_SCALE,
            (1 + value) * VALUE_SCALE,
        ),
        0 <= k < path.len(),
    ensures
        ({
            let i = path[k] as int;
            &&& after[i].visits == before[i].visits.wrapping_add(1)
            &&& after[i].total_value == before[i].total_value + credit(
                path.len() as int,
                k,
                -value,
                value,
            ) * VALUE_SCALE
        }),
{
    let i = path[k] as int;
    assert(entered[i] == before[i].entered());
}

// ---------------------------------------------------------------------------
// A whole search
// ---------------------------------------------------------------------------
/// What a search has found.
pub struct SearchMetrics {
    pub root_visits: u32,
    pub best_child_visits: u32,
    /// The sum of the best child's values in millionths.
    pub best_child_value: i64,
    /// Up to five visited moves, the most visited first.
    pub top_moves: Vec<(Move, u32)>,
}

/// The moves at the root with their visits, in the order of the children.
pub open spec fn root_moves(tree: Seq<AtomicMCTSNode>) -> Seq<(Move, u32)> {
    Seq::new(
        tree[0].num_children as nat,
        |k: int|
            (
                Move(tree[tree[0].children_index + k].move_from_parent as u16),
                tree[tree[0].children_index + k].visits,
            ),
    )
}

/// The first of the most visited moves, if any was visited.
pub open spec fn is_most_visited(moves: Seq<(Move, u32)>, best: Option<int>) -> bool {
    match best {
        None => forall|j: int| 0 <= j < moves.len() ==> (#[trigger] moves[j]).1 == 0,
        Some(k) => {
            &&& 0 <= k < moves.len()
            &&& moves[k].1 > 0
            &&& forall|j: int| 0 <= j < moves.len() ==> (#[trigger] moves[j]).1 <= moves[k].1
            &&& forall|j: int| 0 <= j < k ==> (#[trigger] moves[j]).1 < moves[k].1
        },
    }
}

/// `sorted` with `x` put behind every move with at least its visits.
pub open spec fn insert_by_visits(sorted: Seq<(Move, u32)>, x: (Move, u32)) -> Seq<(Move, u32)>
    decreases sorted.len(),
{
    if sorted.len() == 0 || sorted.last().1 >= x.1 {
        sorted.push(x)
    } else {
        insert_by_visits(sorted.drop_last(), x).push(sorted.last())
    }
}

/// The moves by falling visits; those with equal visits keep their order.
pub open spec fn by_visits(moves: Seq<(Move, u32)>) -> Seq<(Move, u32)>
    decreases moves.len(),
{
    if moves.len() == 0 {
        moves
    } else {
        insert_by_visits(by_visits(moves.drop_last()), moves.last())
    }
}

/// Moves with as many visits keep their order: taken alone, those with any number of visits
/// stand sorted as they stood before.
pub proof fn law_moves_with_as_many_visits_keep_their_order(moves: Seq<(Move, u32)>, visits: u32)
    ensures
        ({
            let visited = |x: (Move, u32)| x.1 == visits;
            by_visits(moves).filter(visited) == moves.filter(visited)
        }),
    decreases moves.len(),
{
    let visited = |x: (Move, u32)| x.1 == visits;
    if moves.len() > 0 {
        let rest = moves.drop_last();
        law_moves_with_as_many_visits_keep_their_order(rest, visits);
        lemma_insert_keeps_the_visited(by_visits(rest), moves.last(), visits);
        rest.lemma_filter_push(moves.last(), visited);
        assert(moves =~= rest.push(moves.last()));
    }
}

proof fn lemma_insert_keeps_the_visited(
    sorted: Seq<(Move, u32)>,
    entry: (Move, u32),
    visits: u32,
)
    ensures
        ({
            let visited = |x: (Move, u32)| x.1 == visits;
            insert_by_visits(sorted, entry).filter(visited) == if entry.1 == visits {
                sorted.filter(visited).push(entry)
            } else {
                sorted.filter(visited)
            }
        }),
    decreases sorted.len(),
{
    let visited = |x: (Move, u32)| x.1 == visits;
    if sorted.len() == 0 || sorted.last().1 >= entry.1 {
        sorted.lemma_filter_push(entry, visited);
    } else {
        let rest = sorted.drop_last();
        lemma_insert_keeps_the_visited(rest, entry, visits);
        insert_by_visits(rest, entry).lemma_filter_push(sorted.last(), visited);
        rest.lemma_filter_push(sorted.last(), visited);
        assert(sorted =~= rest.push(sorted.last()));
    }
}

/// The visited ones among the first five.
pub open spec fn top_five(sorted: Seq<(Move, u32)>) -> Seq<(Move, u32)> {
    let five = if sorted.len() > 5 {
        sorted.take(5)
    } else {
        sorted
    };
    five.filter(|x: (Move, u32)| x.1 > 0)
}

proof fn lemma_insert_by_visits(sorted: Seq<(Move, u32)>, x: (Move, u32))
    requires
        forall|i: int, j: int|
            0 <= i <= j < sorted.len() ==> (#[trigger] sorted[i]).1 >= (#[trigger] sorted[j]).1,
    ensures
        ({
            let out = insert_by_visits(sorted, x);
            &&& out.len() == sorted.len() + 1
            &&& forall|i: int, j: int|
                0 <= i <= j < out.len() ==> (#[trigger] out[i]).1 >= (#[trigger] out[j]).1
            &&& out.to_multiset() == sorted.to_multiset().insert(x)
            &&& out.len() > 0 && (sorted.len() == 0 || out.last().1 <= sorted.last().1)
        }),
    decreases sorted.len(),
{
    broadcast use vstd::seq_lib::group_to_multiset_ensures;

    let out = insert_by_visits(sorted, x);
    if sorted.len() == 0 || sorted.last().1 >= x.1 {
    } else {
        let rest = sorted.drop_last();
        let inner = insert_by_visits(rest, x);
        assert forall|i: int, j: int| 0 <= i <= j < rest.len() implies (#[trigger] rest[i]).1 >= (
        #[trigger] rest[j]).1 by {
            assert(rest[i] == sorted[i] && rest[j] == sorted[j]);
        }
        lemma_insert_by_visits(rest, x);
        lemma_insert_by_visits_above(rest, x, sorted.last().1);
        assert(sorted =~= rest.push(sorted.last()));
        assert(out.to_multiset() =~= sorted.to_multiset().insert(x));
    }
}

/// A bound below the moves and the new one bounds the outcome.
proof fn lemma_insert_by_visits_above(sorted: Seq<(Move, u32)>, x: (Move, u32), low: u32)
    requires
        x.1 >= low,
        forall|i: int| 0 <= i < sorted.len() ==> (#[trigger] sorted[i]).1 >= low,
    ensures
        forall|i: int|
            0 <= i < insert_by_visits(sorted, x).len() ==> (
            #[trigger] insert_by_visits(sorted, x)[i]).1 >= low,
    decreases sorted.len(),
{
    if sorted.len() == 0 || sorted.last().1 >= x.1 {
    } else {
        let rest = sorted.drop_last();
        assert forall|i: int| 0 <= i < rest.len() implies (#[trigger] rest[i]).1 >= low by {
            assert(rest[i] == sorted[i]);
        }
        lemma_insert_by_visits_above(rest, x, low);
        let inner = insert_by_visits(rest, x);
        let out = insert_by_visits(sorted, x);
        assert(out == inner.push(sorted.last()));
        assert forall|i: int| 0 <= i < out.len() implies (#[trigger] out[i]).1 >= low by {
            if i < inner.len() {
                assert(out[i] == inner[i]);
            } else {
                assert(out[i] == sorted[sorted.len() - 1]);
            }
        }
    }
}

/// The moves shown are at most five, all of them visited, and the first by visits.
pub proof fn law_five_visited_moves_are_shown(moves: Seq<(Move, u32)>, k: int)
    ensures
        top_five(by_visits(moves)).len() <= 5,
        0 <= k < 5 && k < moves.len() && by_visits(moves)[k].1 > 0 ==> k < top_five(
            by_visits(moves),
        ).len() && top_five(by_visits(moves))[k] == by_visits(moves)[k],
        0 <= k < top_five(by_visits(moves)).len() ==> top_five(by_visits(moves))[k].1 > 0
            && moves.contains(top_five(by_visits(moves))[k]),
{
    broadcast use vstd::seq_lib::group_to_multiset_ensures;

    let sorted = by_visits(moves);
    let visited = |x: (Move, u32)| x.1 > 0;
    law_by_visits_sorts(moves);
    let five = if sorted.len() > 5 {
        sorted.take(5)
    } else {
        sorted
    };
    assert(forall|i: int, j: int| 0 <= i <= j < five.len() ==> five[i].1 >= five[j].1);
    five.lemma_filter_len(visited);
    if 0 <= k < 5 && k < moves.len() && sorted[k].1 > 0 {
        lemma_visited_first(five, k);
    }
    if 0 <= k < top_five(sorted).len() {
        let x = top_five(sorted)[k];
        five.lemma_filter_pred(visited, k);
        assert(top_five(sorted).contains(x));
        five.lemma_filter_contains_rev(visited, x);
        let i = five.index_of(x);
        assert(sorted[i] == x);
        assert(sorted.contains(x));
        assert(sorted.to_multiset().count(x) > 0);
        assert(moves.to_multiset().count(x) > 0);
    }
}

/// Where the visits never rise, those visited stay in their places when the others go.
proof fn lemma_visited_first(sorted: Seq<(Move, u32)>, k: int)
    requires
        0 <= k < sorted.len(),
        sorted[k].1 > 0,
        forall|i: int, j: int| 0 <= i <= j < sorted.len() ==> sorted[i].1 >= sorted[j].1,
    ensures
        ({
            let kept = sorted.filter(|x: (Move, u32)| x.1 > 0);
            k < kept.len() && kept[k] == sorted[k]
        }),
    decreases sorted.len(),
{
    let visited = |x: (Move, u32)| x.1 > 0;
    let rest = sorted.drop_last();
    reveal_with_fuel(Seq::filter, 1);
    if k < rest.len() {
        assert forall|i: int, j: int| 0 <= i <= j < rest.len() implies rest[i].1 >= rest[j].1 by {
            assert(sorted[i].1 >= sorted[j].1);
        }
        lemma_visited_first(rest, k);
    } else {
        lemma_all_visited(rest);
    }
}

proof fn lemma_all_visited(moves: Seq<(Move, u32)>)
    requires
        forall|i: int| 0 <= i < moves.len() ==> (#[trigger] moves[i]).1 > 0,
    ensures
        moves.filter(|x: (Move, u32)| x.1 > 0) == moves,
    decreases moves.len(),
{
    reveal_with_fuel(Seq::filter, 1);
    if moves.len() > 0 {
        let rest = moves.drop_last();
        assert forall|i: int| 0 <= i < rest.len() implies (#[trigger] rest[i]).1 > 0 by {
            assert(moves[i].1 > 0);
        }
        lemma_all_visited(rest);
        assert(moves[moves.len() - 1].1 > 0);
        assert(moves =~= rest.push(moves.last()));
    } else {
        assert(moves.filter(|x: (Move, u32)| x.1 > 0) =~= moves);
    }
}

/// Sorting by visits only reorders the moves, and the visits never rise.
pub proof fn law_by_visits_sorts(moves: Seq<(Move, u32)>)
    ensures
        by_visits(moves).len() == moves.len(),
        by_visits(moves).to_multiset() == moves.to_multiset(),
        forall|i: int, j: int|
            0 <= i <= j < moves.len() ==> (#[trigger] by_visits(moves)[i]).1 >= (
            #[trigger] by_visits(moves)[j]).1,
    decreases moves.len(),
{
    broadcast use vstd::seq_lib::group_to_multiset_ensures;

    if moves.len() > 0 {
        let rest = moves.drop_last();
        law_by_visits_sorts(rest);
        lemma_insert_by_visits(by_visits(rest), moves.last());
        assert(moves =~= rest.push(moves.last()));
        assert(by_visits(moves).to_multiset() =~= moves.to_multiset());
    }
}

/// Where an insertion puts the move.
proof fn lemma_insert_position(sorted: Seq<(Move, u32)>, x: (Move, u32), pos: int)
    requires
        0 <= pos <= sorted.len(),
        pos > 0 ==> sorted[pos - 1].1 >= x.1,
        forall|j: int| pos <= j < sorted.len() ==> (#[trigger] sorted[j]).1 < x.1,
    ensures
        insert_by_visits(sorted, x) =~= sorted.insert(pos, x),
    decreases sorted.len(),
{
    if pos < sorted.len() {
        lemma_insert_position(sorted.drop_last(), x, pos);
        assert(sorted.drop_last().insert(pos, x).push(sorted.last()) =~= sorted.insert(pos, x));
    } else {
        assert(sorted.push(x) =~= sorted.insert(pos, x));
    }
}

/// Sorts moves by falling visits.
fn sort_by_visits(moves: &Vec<(Move, u32)>) -> (sorted: Vec<(Move, u32)>)
    ensures
        sorted@ == by_visits(moves@),
{
    let mut sorted: Vec<(Move, u32)> = Vec::with_capacity(moves.len());
    let mut i: usize = 0;
    assert(moves@.take(0) =~= Seq::<(Move, u32)>::empty());
    while i < moves.len()
        invariant
            i <= moves@.len(),
            sorted@ == by_visits(moves@.take(i as int)),
        decreases moves@.len() - i,
    {
        let x = moves[i];
        proof {
            law_by_visits_sorts(moves@.take(i as int));
        }
        let mut pos = sorted.len();
        while pos > 0 && sorted[pos - 1].1 < x.1
            invariant
                pos <= sorted@.len(),
                forall|j: int| pos <= j < sorted@.len() ==> (#[trigger] sorted@[j]).1 < x.1,
            decreases pos,
        {
            pos -= 1;
        }
        proof {
            lemma_insert_position(sorted@, x, pos as int);
            assert(moves@.take(i + 1).drop_last() =~= moves@.take(i as int));
            assert(moves@.take(i + 1).last() == x);
        }
        sorted.insert(pos, x);
        i += 1;
    }
    assert(moves@.take(i as int) =~= moves@);
    sorted
}

/// Takes the visited ones among the first five.
fn take_top_five(sorted: &Vec<(Move, u32)>) -> (top: Vec<(Move, u32)>)
    ensures
        top@ == top_five(sorted@),
{
    let ghost visited = |x: (Move, u32)| x.1 > 0;
    let mut top: Vec<(Move, u32)> = Vec::new();
    let mut i: usize = 0;
    assert(sorted@.take(0).filter(visited) =~= Seq::<(Move, u32)>::empty()) by {
        reveal_with_fuel(Seq::filter, 1);
    }
    while i < sorted.len() && i < 5
        invariant
            i <= sorted@.len(),
            i <= 5,
            visited == (|x: (Move, u32)| x.1 > 0),
            top@ == sorted@.take(i as int).filter(visited),
        decreases 5 - i,
    {
        proof {
            let next = sorted@.take(i + 1);
            assert(next.drop_last() =~= sorted@.take(i as int));
            assert(next.last() == sorted@[i as int]);
            reveal_with_fuel(Seq::filter, 1);
        }
        if sorted[i].1 > 0 {
            top.push(sorted[i]);
        }
        i += 1;
    }
    assert(i == sorted@.len() ==> sorted@.take(i as int) =~= sorted@);
    top
}

impl MCTS {
    /// Starts a search: a fresh root, and the legal moves there to expand it with.
    pub fn begin_search<R: Rules>(&mut self, rules: &R, root_board: &Board) -> (legal_moves: Vec<
        Move,
    >)
        requires
            old(self).wf(),
            old(self).max_nodes >= 1,
        ensures
            legal_moves@ == legal_moves_spec(rules, root_board@),
            final(self).wf(),
            final(self).fits(),
            final(self).tree@ == old(self).tree@.update(
                0,
                AtomicMCTSNode::fresh(Move(0), ONE_BITS),
            ),
            final(self).max_nodes == old(self).max_nodes,
            final(self).next_node_idx == 1,
            final(self).positions@[0] == root_board@,
            final(self).begun@ == 0,
            final(self).passed@ == 0,
            final(self).counted(),
    {
        self.reset(root_board);
        let mut board = *root_board;
        get_legal_moves(rules, &mut board)
    }

    /// What the search has found: the most visited move at the root (the zero move if
    /// none was visited) and the figures behind it.
    pub fn search_result(&self) -> (result: (Move, SearchMetrics))
        requires
            self.tree@.len() >= 1,
            self.tree@[0].children_index + self.tree@[0].num_children <= self.tree@.len(),
        ensures
            result.1.root_visits == self.tree@[0].visits,
            self.wf() && self.counted() && self.begun@ <= u32::MAX ==> result.1.root_visits
                == self.begun@,
            result.1.top_moves@ == top_five(by_visits(root_moves(self.tree@))),
            exists|best: Option<int>| #[trigger]
                is_most_visited(root_moves(self.tree@), best) && match best {
                    None => {
                        &&& result.0 == Move(0)
                        &&& result.1.best_child_visits == 0
                        &&& result.1.best_child_value == 0
                    },
                    Some(k) => {
                        let child = self.tree@[self.tree@[0].children_index + k];
                        &&& result.0 == Move(child.move_from_parent as u16)
                        &&& result.1.best_child_visits == child.visits
                        &&& result.1.best_child_value == child.total_value
                    },
                },
    {
        let root = self.tree[0];
        let root_visits = root.visits;
        let start_idx = root.children_index;
        let num_children = root.num_children;
        let ghost moves = root_moves(self.tree@);
        let mut best_move = Move(0);
        let mut best_child_visits: u32 = 0;
        let mut best_child_value: i64 = 0;
        let ghost mut best: Option<int> = None;
        let mut children_stats: Vec<(Move, u32)> = Vec::new();
        let mut i: u32 = 0;
        while i < num_children
            invariant
                i <= num_children,
                self.tree@.len() >= 1,
                start_idx == self.tree@[0].children_index,
                num_children == self.tree@[0].num_children,
                start_idx + num_children <= self.tree@.len(),
                moves == root_moves(self.tree@),
                children_stats@ == moves.take(i as int),
                is_most_visited(moves.take(i as int), best),
                match best {
                    None => {
                        &&& best_move == Move(0)
                        &&& best_child_visits == 0
                        &&& best_child_value == 0
                    },
                    Some(k) => {
                        let child = self.tree@[start_idx + k];
                        &&& best_move == Move(child.move_from_parent as u16)
                        &&& best_child_visits == child.visits
                        &&& best_child_value == child.total_value
                    },
                },
            decreases num_children - i,
        {
            assert(self.tree.len() == self.tree@.len());
            let node = self.tree[start_idx as usize + i as usize];
            let v = node.visits;
            let ghost before = moves.take(i as int);
            let ghost after = moves.take(i + 1);
            assert(forall|j: int| 0 <= j < i ==> #[trigger] after[j] == before[j]);
            assert(after[i as int] == moves[i as int]);
            children_stats.push((Move(node.get_move()), v));
            assert(children_stats@ =~= after);
            if v > best_child_visits {
                best_child_visits = v;
                best_move = Move(node.get_move());
                best_child_value = node.get_value();
                proof {
                    assert forall|j: int| 0 <= j < i implies (#[trigger] after[j]).1 < v by {
                        assert(after[j] == before[j]);
                    }
                    best = Some(i as int);
                }
            } else {
                proof {
                    match best {
                        None => {
                            assert forall|j: int| 0 <= j < after.len() implies (
                            #[trigger] after[j]).1 == 0 by {
                                if j < i {
                                    assert(after[j] == before[j]);
                                }
                            }
                        },
                        Some(k) => {
                            assert(before[k] == after[k]);
                            assert forall|j: int| 0 <= j < after.len() implies (
                            #[trigger] after[j]).1 <= after[k].1 by {
                                if j < i {
                                    assert(after[j] == before[j]);
                                }
                            }
                        },
                    }
                }
            }
            i += 1;
        }
        assert(moves.take(i as int) =~= moves);
        let sorted = sort_by_visits(&children_stats);
        let top_moves = take_top_five(&sorted);
        assert(is_most_visited(root_moves(self.tree@), best));
        (best_move, SearchMetrics { root_visits, best_child_visits, best_child_value, top_moves })
    }
}

/// When every playout begun has gone on from the root, the root has as many visits as there
/// were playouts, and so have its children together.
pub proof fn law_visits_count_the_playouts(mcts: &MCTS, playouts: nat)
    requires
        mcts.wf(),
        mcts.max_nodes >= 1,
        mcts.counted(),
        mcts.begun@ == playouts,
        mcts.passed@ == playouts,
        playouts <= u32::MAX,
    ensures
        mcts.tree@[0].visits == playouts,
        root_child_visits(mcts.tree@) == playouts,
        mcts.tree@[0].is_open() ==> total_visits(root_moves(mcts.tree@)) == playouts,
{
}

/// How many playouts each thread makes.
pub fn playouts_per_thread(simulations: usize, num_threads: usize) -> (n: usize)
    requires
        num_threads > 0,
    ensures
        n == simulations / num_threads,
{
    simulations / num_threads
}

/// Sorting moves keeps a bound on their visits.
proof fn lemma_sorted_within(moves: Seq<(Move, u32)>, most: u32)
    requires
        forall|j: int| 0 <= j < moves.len() ==> (#[trigger] moves[j]).1 <= most,
    ensures
        forall|j: int|
            0 <= j < by_visits(moves).len() ==> (#[trigger] by_visits(moves)[j]).1 <= most,
{
    broadcast use vstd::seq_lib::group_to_multiset_ensures;

    law_by_visits_sorts(moves);
    let sorted = by_visits(moves);
    assert forall|j: int| 0 <= j < sorted.len() implies (#[trigger] sorted[j]).1 <= most by {
        assert(sorted.contains(sorted[j]));
        assert(sorted.to_multiset().count(sorted[j]) > 0);
        assert(moves.contains(sorted[j]));
    }
}

/// A move with no more visits than the first does not come first.
proof fn lemma_first_stays(sorted: Seq<(Move, u32)>, x: (Move, u32))
    requires
        sorted.len() > 0,
        sorted[0].1 >= x.1,
    ensures
        insert_by_visits(sorted, x)[0] == sorted[0],
        insert_by_visits(sorted, x).len() > 0,
    decreases sorted.len(),
{
    if sorted.last().1 < x.1 {
        lemma_first_stays(sorted.drop_last(), x);
    }
}

/// Picking out keeps the first one, if it is picked.
proof fn lemma_first_picked(moves: Seq<(Move, u32)>)
    requires
        moves.len() > 0,
        moves[0].1 > 0,
    ensures
        moves.filter(|x: (Move, u32)| x.1 > 0).len() > 0,
        moves.filter(|x: (Move, u32)| x.1 > 0)[0] == moves[0],
    decreases moves.len(),
{
    reveal_with_fuel(Seq::filter, 2);
    if moves.len() > 1 {
        lemma_first_picked(moves.drop_last());
    }
}

/// The first of the most visited moves leads the sorted ones, and the top five.
pub proof fn law_the_best_move_leads(moves: Seq<(Move, u32)>, best: int)
    requires
        is_most_visited(moves, Some(best)),
    ensures
        by_visits(moves)[0] == moves[best],
        top_five(by_visits(moves)).len() > 0,
        top_five(by_visits(moves))[0] == moves[best],
{
    lemma_best_leads(moves, best);
    law_by_visits_sorts(moves);
    let sorted = by_visits(moves);
    lemma_first_picked(
        if sorted.len() > 5 {
            sorted.take(5)
        } else {
            sorted
        },
    );
}

proof fn lemma_best_leads(moves: Seq<(Move, u32)>, best: int)
    requires
        is_most_visited(moves, Some(best)),
    ensures
        by_visits(moves).len() > 0,
        by_visits(moves)[0] == moves[best],
    decreases moves.len(),
{
    let rest = moves.drop_last();
    let x = moves.last();
    law_by_visits_sorts(rest);
    if best == moves.len() - 1 {
        let below = (x.1 - 1) as u32;
        assert forall|j: int| 0 <= j < rest.len() implies (#[trigger] rest[j]).1 <= below by {
            assert(moves[j].1 < moves[best].1);
        }
        lemma_sorted_within(rest, below);
        lemma_insert_position(by_visits(rest), x, 0);
    } else {
        assert forall|j: int| 0 <= j < rest.len() implies (#[trigger] rest[j]).1 <= rest[best].1 by {
            assert(moves[j].1 <= moves[best].1);
        }
        assert forall|j: int| 0 <= j < best implies (#[trigger] rest[j]).1 < rest[best].1 by {
            assert(moves[j].1 < moves[best].1);
        }
        lemma_best_leads(rest, best);
        assert(moves[moves.len() - 1].1 <= moves[best].1);
        lemma_first_stays(by_visits(rest), x);
    }
}

/// The move that a search finds is a safe step at the root, unless none was visited.
pub proof fn law_the_found_move_is_safe(mcts: &MCTS, best: int)
    requires
        mcts.wf(),
        mcts.fits(),
        mcts.max_nodes >= 1,
        mcts.tree@[0].num_children != LOCKED,
        is_most_visited(root_moves(mcts.tree@), Some(best)),
    ensures
        mcts.positions@[0].is_safe_step(root_moves(mcts.tree@)[best].0),
{
    assert(mcts.is_child(0, mcts.tree@[0].children_index + best));
}

/// The child chosen is the first of those with the greatest score, as soon as one score is a
/// number above minus a million; its move leads there. Without such a score it is the first
/// child, with no move.
pub proof fn law_the_greatest_score_is_chosen(
    tree: Seq<AtomicMCTSNode>,
    start: int,
    scores: Seq<u32>,
    found: Option<usize>,
    j: int,
)
    requires
        is_first_greatest(scores, SCORE_FLOOR, found),
        0 <= j < scores.len(),
    ensures
        ({
            let (child, m) = choice(tree, start, found);
            let s = scores[j];
            let above = s <= 0x7F80_0000 || 0x8000_0000 <= s < 0xC974_2400;
            &&& above ==> found is Some
            &&& found is Some ==> {
                let best = scores[found->0 as int];
                &&& child == start + found->0
                &&& m.0 == tree[child].move_from_parent as u16
                &&& best <= 0x7F80_0000 || 0x8000_0000 <= best < 0xC974_2400
                &&& best <= 0x7F80_0000 && s <= 0x7F80_0000 ==> s <= best
                &&& best >= 0x8000_0000 && s <= 0x7F80_0000 ==> best == 0x8000_0000 && s == 0
                &&& best >= 0x8000_0000 && 0x8000_0000 <= s <= 0xFF80_0000 ==> s >= best
                &&& j < found->0 ==> s != best
            }
            &&& found is None ==> child == start && m == Move(0)
        }),
{
    match found {
        None => {
            assert(!greater_spec(scores[j], SCORE_FLOOR));
        },
        Some(i) => {
            assert(!greater_spec(scores[j], scores[i as int]));
        },
    }
}

/// An open node that a playout comes to counts one visit more and a million less, and its
/// children are to be scored, with the visits it had before, or one where it had none.
pub proof fn law_an_open_node_has_its_children_scored<R: Rules>(
    rules: &R,
    tree: Seq<AtomicMCTSNode>,
    path: Seq<usize>,
    p: Position,
    history: Seq<HistoryEntry>,
)
    requires
        path.len() >= 1,
        rises_in(path, tree.len() as int),
        tree[path.last() as int].num_children != 0,
        tree[path.last() as int].num_children != u32::MAX,
        tree[path.last() as int].total_value >= i64::MIN + 1_000_000,
    ensures
        ({
            let at = path.last() as int;
            let (after, awaited) = arrival(rules, tree, path, p, history);
            &&& awaited matches Awaited::Score(children) && children.start
                == tree[at].children_index && children.count == tree[at].num_children
                && children.parent_visits == (if tree[at].visits == 0 {
                1
            } else {
                tree[at].visits
            })
            &&& after.len() == tree.len()
            &&& after[at].visits == tree[at].visits.wrapping_add(1)
            &&& after[at].total_value == tree[at].total_value - 1_000_000
            &&& after[at].num_children == tree[at].num_children && after[at].children_index
                == tree[at].children_index
            &&& forall|i: int| 0 <= i < tree.len() && i != at ==> #[trigger] after[i] == tree[i]
        }),
{
    assert(path[path.len() - 1] == path.last());
}

/// An evaluated leaf has a child for each move, with its prior, no visits and no value, if the
/// pool has so many nodes left; else it stays as it was, but for the lock.
pub proof fn law_an_evaluated_leaf_has_its_moves(
    before: Seq<AtomicMCTSNode>,
    after: Seq<AtomicMCTSNode>,
    start: int,
    idx: int,
    moves: Seq<Move>,
    priors: Seq<u32>,
    k: int,
)
    requires
        is_grown(before, after, start, idx, moves, priors),
        0 <= idx < start <= before.len() <= u32::MAX,
        moves.len() < u32::MAX,
    ensures
        start + moves.len() <= before.len() ==> {
            &&& after[idx].children_index == start && after[idx].num_children == moves.len()
            &&& 0 <= k < moves.len() ==> {
                let child = after[start + k];
                &&& child.move_from_parent == moves[k].0 && child.prior_prob == priors[k]
                &&& child.visits == 0 && child.total_value == 0 && child.num_children == 0
            }
        },
        start + moves.len() > before.len() ==> after[idx].num_children == (if before[idx].num_children
            == u32::MAX {
            0
        } else {
            before[idx].num_children
        }) && (0 <= k < before.len() && k != idx ==> after[k] == before[k]),
        after[idx].visits == before[idx].visits,
        after[idx].total_value == before[idx].total_value,
{
    if 0 <= k < moves.len() && start + moves.len() <= before.len() {
        assert(after[start + k] == AtomicMCTSNode::fresh(moves[k], priors[k]));
    }
}

} // verus!
