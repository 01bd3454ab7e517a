//! The search tree: an arena of nodes addressed by index.
//!
//! Only the root stores a position. Every other node stores the index of its
//! parent and the move that leads to it; its position is found by replaying
//! the moves from the root.

use vstd::prelude::*;
use super::bags::lemma_empty_bag;
use super::game::GameState;
use super::Output;

verus! {

/// Where a node comes from.
pub enum Origin<G: GameState> {
    /// The index of the parent and the move played there.
    Parent(usize, G::Move),
    /// A stored position: the node is a root.
    Root(G),
}

/// One position of the search tree with its statistics.
pub struct Node<G: GameState> {
    /// Rollouts that passed through this node.
    pub simulations: u32,
    /// Rollouts won by the player whose results this node collects.
    pub win_count: u32,
    /// Rollouts that ended in a draw.
    pub draw_count: u32,
    /// Legal moves that have no child yet.
    pub untried_moves: Vec<G::Move>,
    /// Indices of the children, oldest first.
    pub children: Vec<usize>,
    /// The parent link, or the stored position of a root.
    pub origin: Origin<G>,
}

impl<G: GameState> Node<G> {
    /// Rollouts through this node that were neither won nor drawn.
    pub open spec fn loss_count(self) -> int {
        self.simulations - self.win_count - self.draw_count
    }

    /// Whether the three counters are those of `before` after one more
    /// rollout with result `value`, or unchanged for `None`.
    pub open spec fn counts_after(self, before: Node<G>, value: Option<Output>) -> bool {
        match value {
            None => {
                &&& self.simulations == before.simulations
                &&& self.win_count == before.win_count
                &&& self.draw_count == before.draw_count
            },
            Some(Output::Win) => {
                &&& self.simulations == before.simulations + 1
                &&& self.win_count == before.win_count + 1
                &&& self.draw_count == before.draw_count
            },
            Some(Output::Draw) => {
                &&& self.simulations == before.simulations + 1
                &&& self.win_count == before.win_count
                &&& self.draw_count == before.draw_count + 1
            },
            Some(Output::Loss) => {
                &&& self.simulations == before.simulations + 1
                &&& self.win_count == before.win_count
                &&& self.draw_count == before.draw_count
            },
        }
    }

    /// Whether everything but the three counters is as in `before`.
    pub open spec fn same_shape(self, before: Node<G>) -> bool {
        &&& self.untried_moves == before.untried_moves
        &&& self.children == before.children
        &&& self.origin == before.origin
    }

    /// The number of rollouts through this node that were lost.
    pub fn losses(&self) -> (r: u32)
        requires
            self.simulations >= self.win_count + self.draw_count,
        ensures
            r == self.loss_count(),
    {
        self.simulations - self.win_count - self.draw_count
    }
}

/// A search tree. The tree is what can be reached from the root. The arena
/// may hold more: the search only adds nodes, and a new root leaves the
/// nodes beside it where they are until the tree is compacted.
pub struct Tree<G: GameState> {
    nodes: Vec<Node<G>>,
    root: usize,
}

impl<G: GameState> Tree<G> {
    /// All nodes ever created, by index.
    pub closed spec fn arena(&self) -> Seq<Node<G>> {
        self.nodes@
    }

    /// The index of the root.
    pub closed spec fn root(&self) -> int {
        self.root as int
    }

    /// The index of the parent of node `i`, `None` for a root.
    pub open spec fn parent(&self, i: int) -> Option<int> {
        match self.arena()[i].origin {
            Origin::Parent(p, _) => Some(p as int),
            Origin::Root(_) => None,
        }
    }

    /// The move that leads to node `i`.
    pub open spec fn arrival(&self, i: int) -> G::Move {
        match self.arena()[i].origin {
            Origin::Parent(_, mv) => mv,
            Origin::Root(_) => arbitrary(),
        }
    }

    /// The root that the parent links of node `i` lead to.
    pub open spec fn top_of(&self, i: int) -> int
        decreases i,
    {
        match self.arena()[i].origin {
            Origin::Root(_) => i,
            Origin::Parent(p, _) => if 0 <= p < i {
                self.top_of(p as int)
            } else {
                -1
            },
        }
    }

    /// Whether node `i` belongs to the tree below the current root.
    pub open spec fn in_tree(&self, i: int) -> bool {
        0 <= i < self.arena().len() && self.top_of(i) == self.root()
    }

    /// The position of node `i`: the stored position of its root with the
    /// moves on the way down played one after the other.
    pub open spec fn model_at(&self, i: int) -> G::Model
        decreases i,
    {
        match self.arena()[i].origin {
            Origin::Root(state) => state.model(),
            Origin::Parent(p, mv) => if 0 <= p < i {
                G::after(self.model_at(p as int), mv)
            } else {
                arbitrary()
            },
        }
    }

    /// The moves that lead to the children of node `i`, oldest child first.
    pub open spec fn child_moves(&self, i: int) -> Seq<G::Move> {
        Seq::new(
            self.arena()[i].children@.len(),
            |k: int| self.arrival(self.arena()[i].children@[k] as int),
        )
    }

    /// What holds of one node of the tree. `slack` is 0 but in the middle of
    /// a backpropagation, where one node is a rollout ahead of its parent.
    pub open spec fn node_ok(&self, i: int, slack: int) -> bool {
        let node = self.arena()[i];
        &&& node.simulations >= node.win_count + node.draw_count
        &&& match node.origin {
            Origin::Root(state) => state.wf(),
            Origin::Parent(p, mv) => {
                &&& 0 <= p < i
                &&& G::playable(self.model_at(p as int), mv)
                &&& node.simulations <= self.arena()[p as int].simulations + slack
            },
        }
        &&& forall|k: int|
            0 <= k < node.children@.len() ==> {
                &&& i < #[trigger] node.children@[k] < self.arena().len()
                &&& self.parent(node.children@[k] as int) == Some(i)
            }
        &&& node.untried_moves@.to_multiset().add(self.child_moves(i).to_multiset())
            == G::legal(self.model_at(i)).to_multiset()
    }

    /// The invariant of the tree between two operations.
    pub open spec fn wf(&self) -> bool {
        &&& 0 <= self.root() < self.arena().len()
        &&& self.arena()[self.root()].origin is Root
        &&& forall|i: int| self.in_tree(i) ==> #[trigger] self.node_ok(i, 0)
    }

    /// Whether every node below the root has been through a rollout, so that
    /// its statistics can be scored.
    pub open spec fn settled(&self) -> bool {
        forall|i: int|
            self.in_tree(i) && i != self.root() ==> (#[trigger] self.arena()[i]).simulations >= 1
    }

    /// The arena is a vector: its length is a machine integer.
    pub proof fn lemma_len_fits(&self)
        ensures
            self.arena().len() <= usize::MAX,
            0 <= self.root() <= usize::MAX,
    {
        broadcast use vstd::std_specs::vec::axiom_spec_len;

        assert(self.nodes.len() == self.nodes@.len());
    }

    /// The number of nodes in the arena.
    pub fn len(&self) -> (n: usize)
        ensures
            n == self.arena().len(),
    {
        self.nodes.len()
    }

    /// The index of the root.
    pub fn root_index(&self) -> (r: usize)
        ensures
            r == self.root(),
    {
        self.root
    }

    /// The node with index `i`.
    pub fn node(&self, i: usize) -> (n: &Node<G>)
        requires
            i < self.arena().len(),
        ensures
            *n == self.arena()[i as int],
    {
        &self.nodes[i]
    }

    /// A tree of one node.
    pub(crate) fn plant(root: Node<G>) -> (tree: Tree<G>)
        ensures
            tree.arena() == seq![root],
            tree.root() == 0,
    {
        let mut nodes = Vec::new();
        nodes.push(root);
        Tree { nodes, root: 0 }
    }

    /// A tree with these nodes and this root.
    pub(crate) fn from_parts(nodes: Vec<Node<G>>, root: usize) -> (tree: Tree<G>)
        ensures
            tree.arena() == nodes@,
            tree.root() == root,
    {
        Tree { nodes, root }
    }

    /// The nodes and the index of the root.
    pub(crate) fn into_parts(self) -> (parts: (Vec<Node<G>>, usize))
        ensures
            parts.0@ == self.arena(),
            parts.1 == self.root(),
    {
        (self.nodes, self.root)
    }

    /// Counts one rollout with result `value` at node `i`.
    pub(crate) fn credit(&mut self, i: usize, value: Output)
        requires
            i < old(self).arena().len(),
            old(self).arena()[i as int].simulations < u32::MAX,
            old(self).arena()[i as int].simulations >= old(self).arena()[i as int].win_count + old(
                self,
            ).arena()[i as int].draw_count,
        ensures
            final(self).root() == old(self).root(),
            final(self).arena().len() == old(self).arena().len(),
            final(self).arena()[i as int].same_shape(old(self).arena()[i as int]),
            final(self).arena()[i as int].counts_after(old(self).arena()[i as int], Some(value)),
            forall|j: int|
                0 <= j < old(self).arena().len() && j != i ==> final(self).arena()[j] == old(
                    self,
                ).arena()[j],
    {
        self.nodes[i].simulations = self.nodes[i].simulations + 1;
        match value {
            Output::Win => {
                self.nodes[i].win_count = self.nodes[i].win_count + 1;
            },
            Output::Draw => {
                self.nodes[i].draw_count = self.nodes[i].draw_count + 1;
            },
            Output::Loss => {},
        }
    }

    /// Takes the untried move at position `k` of node `parent` and hangs a
    /// new node for it below `parent`. The new node gets the next free index.
    pub(crate) fn graft(&mut self, parent: usize, k: usize, untried: Vec<G::Move>) -> (child: usize)
        requires
            parent < old(self).arena().len(),
            k < old(self).arena()[parent as int].untried_moves@.len(),
        ensures
            child == old(self).arena().len(),
            final(self).root() == old(self).root(),
            final(self).arena().len() == old(self).arena().len() + 1,
            forall|j: int|
                0 <= j < old(self).arena().len() && j != parent ==> final(self).arena()[j] == old(
                    self,
                ).arena()[j],
            final(self).arena()[parent as int].counts_after(old(self).arena()[parent as int], None),
            final(self).arena()[parent as int].origin == old(self).arena()[parent as int].origin,
            final(self).arena()[parent as int].untried_moves@ == old(
                self,
            ).arena()[parent as int].untried_moves@.remove(k as int),
            final(self).arena()[parent as int].children@ == old(
                self,
            ).arena()[parent as int].children@.push(child),
            final(self).arena()[child as int].simulations == 0,
            final(self).arena()[child as int].win_count == 0,
            final(self).arena()[child as int].draw_count == 0,
            final(self).arena()[child as int].untried_moves == untried,
            final(self).arena()[child as int].children@.len() == 0,
            final(self).arena()[child as int].origin == Origin::<G>::Parent(
                parent,
                old(self).arena()[parent as int].untried_moves@[k as int],
            ),
    {
        let child = self.nodes.len();
        let mv = self.nodes[parent].untried_moves.remove(k);
        self.nodes[parent].children.push(child);
        self.nodes.push(
            Node {
                simulations: 0,
                win_count: 0,
                draw_count: 0,
                untried_moves: untried,
                children: Vec::new(),
                origin: Origin::Parent(parent, mv),
            },
        );
        child
    }

    /// Makes node `i` the root and stores `state` as its position.
    pub(crate) fn reroot(&mut self, i: usize, state: G)
        requires
            i < old(self).arena().len(),
        ensures
            final(self).root() == i,
            final(self).arena().len() == old(self).arena().len(),
            forall|j: int|
                0 <= j < old(self).arena().len() && j != i ==> final(self).arena()[j] == old(
                    self,
                ).arena()[j],
            final(self).arena()[i as int].counts_after(old(self).arena()[i as int], None),
            final(self).arena()[i as int].untried_moves == old(self).arena()[i as int].untried_moves,
            final(self).arena()[i as int].children == old(self).arena()[i as int].children,
            final(self).arena()[i as int].origin == Origin::<G>::Root(state),
    {
        self.nodes[i].origin = Origin::Root(state);
        self.root = i;
    }
}

impl<G: GameState> Tree<G> {
    /// Whether this tree has every node of `before` with the same origin.
    pub open spec fn same_links(&self, before: Tree<G>) -> bool {
        &&& self.arena().len() >= before.arena().len()
        &&& forall|j: int|
            0 <= j < before.arena().len() ==> (#[trigger] self.arena()[j]).origin
                == before.arena()[j].origin
    }

    /// Whether `state` is the position of node `i`.
    pub open spec fn reconstructs(&self, i: int, state: G) -> bool {
        state.wf() && state.model() == self.model_at(i)
    }

    /// Nodes with unchanged origins keep their root and their position.
    pub proof fn lemma_links_fix_positions(&self, before: Tree<G>, i: int)
        requires
            self.same_links(before),
            0 <= i < before.arena().len(),
        ensures
            self.top_of(i) == before.top_of(i),
            self.model_at(i) == before.model_at(i),
        decreases i,
    {
        assert(self.arena()[i].origin == before.arena()[i].origin);
        match before.arena()[i].origin {
            Origin::Root(_) => {},
            Origin::Parent(p, _) => {
                if 0 <= p < i {
                    self.lemma_links_fix_positions(before, p as int);
                }
            },
        }
    }

    /// A node that keeps its moves, children and origin while all origins
    /// stay as they were is in order again once its counters are.
    pub proof fn lemma_node_ok_frame(&self, before: Tree<G>, i: int, slack_before: int, slack: int)
        requires
            self.same_links(before),
            0 <= i < before.arena().len(),
            before.node_ok(i, slack_before),
            self.arena()[i].same_shape(before.arena()[i]),
            self.arena()[i].simulations >= self.arena()[i].win_count + self.arena()[i].draw_count,
            self.parent(i) matches Some(p) ==> self.arena()[i].simulations
                <= self.arena()[p].simulations + slack,
        ensures
            self.node_ok(i, slack),
    {
        let node = self.arena()[i];
        self.lemma_links_fix_positions(before, i);
        match node.origin {
            Origin::Root(_) => {},
            Origin::Parent(p, _) => {
                self.lemma_links_fix_positions(before, p as int);
            },
        }
        assert forall|k: int| 0 <= k < node.children@.len() implies {
            &&& i < #[trigger] node.children@[k] < self.arena().len()
            &&& self.parent(node.children@[k] as int) == Some(i)
        } by {
            let c = before.arena()[i].children@[k] as int;
            assert(i < c < before.arena().len());
            assert(self.arena()[c].origin == before.arena()[c].origin);
        }
        assert(self.child_moves(i) =~= before.child_moves(i)) by {
            assert forall|k: int| 0 <= k < node.children@.len() implies self.child_moves(i)[k]
                == before.child_moves(i)[k] by {
                let c = before.arena()[i].children@[k] as int;
                assert(i < c < before.arena().len());
                assert(self.arena()[c].origin == before.arena()[c].origin);
            }
        }
    }

    /// No node of the tree has been through more rollouts than the root.
    pub proof fn lemma_root_counts_most(&self, i: int)
        requires
            self.wf(),
            self.in_tree(i),
        ensures
            self.arena()[i].simulations <= self.arena()[self.root()].simulations,
        decreases i,
    {
        assert(self.node_ok(i, 0));
        match self.arena()[i].origin {
            Origin::Root(_) => {},
            Origin::Parent(p, _) => {
                self.lemma_root_counts_most(p as int);
            },
        }
    }

    /// A child of a node of the tree is a node of the tree.
    pub proof fn lemma_child_in_tree(&self, i: int, k: int)
        requires
            self.wf(),
            self.in_tree(i),
            0 <= k < self.arena()[i].children@.len(),
        ensures
            self.in_tree(self.arena()[i].children@[k] as int),
            self.parent(self.arena()[i].children@[k] as int) == Some(i),
            self.arena()[i].children@[k] != self.root(),
            i < self.arena()[i].children@[k],
    {
        assert(self.node_ok(i, 0));
        let c = self.arena()[i].children@[k] as int;
        assert(self.parent(c) == Some(i));
    }
}

/// A tree that holds `board` as its root and nothing else. The root starts
/// with all legal moves of `board` untried.
pub fn create_root_node<G: GameState>(board: G) -> (tree: Tree<G>)
    requires
        board.wf(),
    ensures
        tree.wf(),
        tree.settled(),
        tree.root() == 0,
        tree.arena().len() == 1,
        tree.arena()[0].simulations == 0,
        tree.arena()[0].win_count == 0,
        tree.arena()[0].draw_count == 0,
        tree.arena()[0].untried_moves@ == G::legal(board.model()),
        tree.arena()[0].children@.len() == 0,
        tree.arena()[0].origin == Origin::<G>::Root(board),
        tree.model_at(0) == board.model(),
{
    let untried_moves = board.legal_moves();
    let root = Node {
        simulations: 0,
        win_count: 0,
        draw_count: 0,
        untried_moves,
        children: Vec::new(),
        origin: Origin::Root(board),
    };
    let tree = Tree::plant(root);
    proof {
        broadcast use vstd::multiset::group_multiset_axioms;

        lemma_empty_bag(tree.child_moves(0));
        assert(tree.arena()[0].untried_moves@.to_multiset().add(tree.child_moves(0).to_multiset())
            =~= G::legal(tree.model_at(0)).to_multiset());
        assert(tree.node_ok(0, 0));
        assert forall|i: int| tree.in_tree(i) implies #[trigger] tree.node_ok(i, 0) by {}
    }
    tree
}

/// The position of node `node`, found by replaying the moves that lead to it
/// from the stored position of the root.
pub fn extract_board<G: GameState>(tree: &Tree<G>, node: usize) -> (board: G)
    requires
        tree.wf(),
        tree.in_tree(node as int),
    ensures
        tree.reconstructs(node as int, board),
    decreases node,
{
    proof {
        assert(tree.node_ok(node as int, 0));
    }
    match &tree.node(node).origin {
        Origin::Root(state) => state.duplicate(),
        Origin::Parent(parent, mv) => {
            let mut board = extract_board(tree, *parent);
            board.apply(*mv);
            board
        },
    }
}

/// Reconstructing the position of one node twice, with no change of the tree
/// in between, gives the same position both times.
pub proof fn reconstruction_is_repeatable<G: GameState>(tree: Tree<G>, node: int, first: G, second: G)
    requires
        tree.reconstructs(node, first),
        tree.reconstructs(node, second),
    ensures
        first.model() == second.model(),
{
}

} // verus!
