//! Tree reuse: making a child of the root the new root after a move has
//! been played, so that the statistics below it carry over.

use vstd::prelude::*;
use super::game::GameState;
use super::tree::{extract_board, Origin, Tree};

verus! {

impl<G: GameState> Tree<G> {
    /// Whether this tree is `before` with node `node` turned into the root.
    /// Only `node` changes: its parent link is replaced by a stored
    /// position, which is the position it had.
    pub open spec fn rerooted_from(&self, before: Tree<G>, node: int) -> bool {
        &&& self.root() == node
        &&& self.arena().len() == before.arena().len()
        &&& forall|j: int|
            0 <= j < before.arena().len() && j != node ==> #[trigger] self.arena()[j]
                == before.arena()[j]
        &&& self.arena()[node].counts_after(before.arena()[node], None)
        &&& self.arena()[node].untried_moves == before.arena()[node].untried_moves
        &&& self.arena()[node].children == before.arena()[node].children
        &&& self.arena()[node].origin matches Origin::Root(state) && before.reconstructs(
            node,
            state,
        )
    }

    /// What is below the new root was below the old root, at the same
    /// position of the game.
    pub proof fn lemma_reroot_keeps_positions(&self, before: Tree<G>, node: int, i: int)
        requires
            before.wf(),
            before.in_tree(node),
            before.parent(node) == Some(before.root()),
            self.rerooted_from(before, node),
            self.in_tree(i),
        ensures
            before.in_tree(i),
            i != before.root(),
            self.model_at(i) == before.model_at(i),
        decreases i,
    {
        if i != node {
            assert(self.arena()[i] == before.arena()[i]);
            match self.arena()[i].origin {
                Origin::Root(_) => {},
                Origin::Parent(p, _) => {
                    self.lemma_reroot_keeps_positions(before, node, p as int);
                },
            }
        }
    }

    /// Turning a child of the root into the root keeps the tree in order.
    pub proof fn lemma_reroot_keeps_order(&self, before: Tree<G>, node: int)
        requires
            before.wf(),
            before.in_tree(node),
            before.parent(node) == Some(before.root()),
            self.rerooted_from(before, node),
        ensures
            self.wf(),
            before.settled() ==> self.settled(),
    {
        assert forall|i: int| self.in_tree(i) implies #[trigger] self.node_ok(i, 0) by {
            self.lemma_reroot_keeps_positions(before, node, i);
            assert(before.node_ok(i, 0));
            let now = self.arena()[i];
            let was = before.arena()[i];
            if i != node {
                assert(now == was);
                match now.origin {
                    Origin::Root(_) => {},
                    Origin::Parent(p, _) => {
                        self.lemma_reroot_keeps_positions(before, node, p as int);
                        if p as int != node {
                            assert(self.arena()[p as int] == before.arena()[p as int]);
                        }
                    },
                }
            }
            assert forall|k: int| 0 <= k < now.children@.len() implies {
                &&& i < #[trigger] now.children@[k] < self.arena().len()
                &&& self.parent(now.children@[k] as int) == Some(i)
            } by {
                let c = was.children@[k] as int;
                assert(i < c < before.arena().len());
                assert(before.parent(c) == Some(i));
                assert(c != node);
                assert(self.arena()[c] == before.arena()[c]);
            }
            assert(self.child_moves(i) =~= before.child_moves(i)) by {
                assert forall|k: int| 0 <= k < now.children@.len() implies self.child_moves(i)[k]
                    == before.child_moves(i)[k] by {
                    let c = was.children@[k] as int;
                    assert(i < c < before.arena().len());
                    assert(before.parent(c) == Some(i));
                    assert(c != node);
                    assert(self.arena()[c] == before.arena()[c]);
                }
            }
        }
        if before.settled() {
            assert forall|i: int| self.in_tree(i) && i != self.root() implies (
            #[trigger] self.arena()[i]).simulations >= 1 by {
                self.lemma_reroot_keeps_positions(before, node, i);
                assert(self.arena()[i] == before.arena()[i]);
            }
        }
    }
}

/// Makes `node`, a child of the root, the root of the tree. The position of
/// `node` is stored in it, its statistics and everything below it stay as
/// they are. The old root and its other children stay in the arena, out of
/// reach of the new root, until the tree is compacted.
pub fn trim_tree<G: GameState>(tree: Tree<G>, node: usize) -> (trimmed: Tree<G>)
    requires
        tree.wf(),
        tree.in_tree(node as int),
        tree.parent(node as int) == Some(tree.root()),
    ensures
        trimmed.wf(),
        tree.settled() ==> trimmed.settled(),
        trimmed.rerooted_from(tree, node as int),
        trimmed.arena()[node as int].simulations == tree.arena()[node as int].simulations,
        trimmed.model_at(node as int) == G::after(
            tree.model_at(tree.root()),
            tree.arrival(node as int),
        ),
        forall|i: int| #[trigger]
            trimmed.in_tree(i) ==> tree.in_tree(i) && trimmed.model_at(i) == tree.model_at(i),
{
    let ghost before = tree;
    let board = extract_board(&tree, node);
    let mut tree = tree;
    tree.reroot(node, board);
    proof {
        assert(before.node_ok(node as int, 0));
        tree.lemma_reroot_keeps_order(before, node as int);
        assert forall|i: int| #[trigger] tree.in_tree(i) implies before.in_tree(i)
            && tree.model_at(i) == before.model_at(i) by {
            tree.lemma_reroot_keeps_positions(before, node as int, i);
        }
    }
    tree
}

} // verus!
