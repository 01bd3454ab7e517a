//! What holds of every search tree.

use vstd::prelude::*;
use super::bags::lemma_bag_lengths;
use super::game::GameState;
use super::selection::scorable;
use super::tree::Tree;

verus! {

/// No node of the tree has more wins and draws together than rollouts, and
/// no child has been through more rollouts than its parent.
pub proof fn counters_stay_in_order<G: GameState>(tree: Tree<G>, parent: int, k: int)
    requires
        tree.wf(),
        tree.in_tree(parent),
        0 <= k < tree.arena()[parent].children@.len(),
    ensures
        tree.arena()[parent].simulations >= tree.arena()[parent].win_count
            + tree.arena()[parent].draw_count,
        tree.arena()[tree.arena()[parent].children@[k] as int].simulations
            >= tree.arena()[tree.arena()[parent].children@[k] as int].win_count
            + tree.arena()[tree.arena()[parent].children@[k] as int].draw_count,
        tree.arena()[parent].simulations
            >= tree.arena()[tree.arena()[parent].children@[k] as int].simulations,
{
    let child = tree.arena()[parent].children@[k] as int;
    tree.lemma_child_in_tree(parent, k);
    assert(tree.node_ok(parent, 0));
    assert(tree.node_ok(child, 0));
}

/// Between two iterations every child in the tree has been through a
/// rollout: its counters are such that a score can be computed from them
/// without a division by zero.
pub proof fn children_can_be_scored<G: GameState>(tree: Tree<G>, parent: int, k: int)
    requires
        tree.wf(),
        tree.settled(),
        tree.in_tree(parent),
        0 <= k < tree.arena()[parent].children@.len(),
    ensures
        scorable(
            tree.arena()[tree.arena()[parent].children@[k] as int].win_count,
            tree.arena()[tree.arena()[parent].children@[k] as int].draw_count,
            tree.arena()[tree.arena()[parent].children@[k] as int].simulations,
            tree.arena()[parent].simulations,
        ),
{
    let child = tree.arena()[parent].children@[k] as int;
    tree.lemma_child_in_tree(parent, k);
    counters_stay_in_order(tree, parent, k);
    assert(tree.arena()[child].simulations >= 1);
}

/// The untried moves and the children of a node are together as many as the
/// legal moves of its position.
pub proof fn moves_are_untried_or_expanded<G: GameState>(tree: Tree<G>, node: int)
    requires
        tree.wf(),
        tree.in_tree(node),
    ensures
        tree.arena()[node].untried_moves@.len() + tree.arena()[node].children@.len() == G::legal(
            tree.model_at(node),
        ).len(),
{
    assert(tree.node_ok(node, 0));
    lemma_bag_lengths(
        tree.arena()[node].untried_moves@,
        tree.child_moves(node),
        G::legal(tree.model_at(node)),
    );
}

/// A node whose position has no legal move has no untried move and no child,
/// and a descent that reaches it ends there.
pub proof fn final_positions_never_expand<G: GameState, F: Fn(u32, u32, u32, u32) -> u64>(
    tree: Tree<G>,
    score: &F,
    node: int,
    to: int,
)
    requires
        tree.wf(),
        tree.in_tree(node),
        G::legal(tree.model_at(node)).len() == 0,
    ensures
        tree.arena()[node].untried_moves@.len() == 0,
        tree.arena()[node].children@.len() == 0,
        tree.selects(score, node, to) <==> to == node,
{
    moves_are_untried_or_expanded(tree, node);
}

} // verus!
