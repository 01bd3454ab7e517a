//! Selection: the descent from the root to the node that the next rollouts
//! start from.
//!
//! The score of a child is computed by the caller's scoring function from
//! the child's counters and the parent's simulation count. The engine asks
//! for it only for children that have been through a rollout, and only
//! compares the keys that the function returns.

use vstd::prelude::*;
use super::game::GameState;
use super::tree::{Origin, Tree};

verus! {

/// The node that selection ends at.
pub enum NodeType {
    /// A node with untried moves: the next expansion happens here.
    Leaf(usize),
    /// A node without legal moves: a final position.
    End(usize),
}

impl NodeType {
    /// The index of the node.
    pub open spec fn node(self) -> int {
        match self {
            NodeType::Leaf(i) => i as int,
            NodeType::End(i) => i as int,
        }
    }

    /// Returns the index of the node.
    pub fn index(&self) -> (i: usize)
        ensures
            i == self.node(),
    {
        match self {
            NodeType::Leaf(i) => *i,
            NodeType::End(i) => *i,
        }
    }
}

/// The counters that a scoring function is ever asked about: those of a
/// child that has been through a rollout, below a parent that has been
/// through no fewer.
pub open spec fn scorable(wins: u32, draws: u32, simulations: u32, parent_simulations: u32) -> bool {
    &&& simulations >= 1
    &&& wins + draws <= simulations
    &&& simulations <= parent_simulations
}

/// Whether a scoring function can be called on all counters that the engine
/// may hand to it.
pub open spec fn scores_all<F: Fn(u32, u32, u32, u32) -> u64>(score: &F) -> bool {
    forall|wins: u32, draws: u32, simulations: u32, parent_simulations: u32|
        scorable(wins, draws, simulations, parent_simulations) ==> #[trigger] score.requires(
            (wins, draws, simulations, parent_simulations),
        )
}

/// Whether `k` is the position of the first greatest key.
pub open spec fn is_first_max(keys: Seq<u64>, k: int) -> bool {
    &&& 0 <= k < keys.len()
    &&& forall|j: int| 0 <= j < keys.len() ==> keys[j] <= keys[k]
    &&& forall|j: int| 0 <= j < k ==> keys[j] < keys[k]
}

/// The position of the greatest key; among equal keys, of the first.
pub fn first_maximum(keys: &Vec<u64>) -> (k: usize)
    requires
        keys@.len() > 0,
    ensures
        is_first_max(keys@, k as int),
{
    let mut best: usize = 0;
    let mut i: usize = 1;
    while i < keys.len()
        invariant
            1 <= i <= keys@.len(),
            0 <= best < i,
            forall|j: int| 0 <= j < i ==> keys@[j] <= keys@[best as int],
            forall|j: int| 0 <= j < best ==> keys@[j] < keys@[best as int],
        decreases keys@.len() - i,
    {
        if keys[i] > keys[best] {
            best = i;
        }
        i = i + 1;
    }
    best
}

impl<G: GameState> Tree<G> {
    /// Whether `keys` can be what the scoring function returns for the
    /// children of node `i`, oldest child first.
    pub open spec fn keys_fit<F: Fn(u32, u32, u32, u32) -> u64>(
        &self,
        score: &F,
        i: int,
        keys: Seq<u64>,
    ) -> bool {
        &&& keys.len() == self.arena()[i].children@.len()
        &&& forall|k: int|
            0 <= k < keys.len() ==> score.ensures(
                (
                    self.arena()[self.arena()[i].children@[k] as int].win_count,
                    self.arena()[self.arena()[i].children@[k] as int].draw_count,
                    self.arena()[self.arena()[i].children@[k] as int].simulations,
                    self.arena()[i].simulations,
                ),
                #[trigger] keys[k],
            )
    }

    /// Whether selection may go from node `i` to its child at position `k`:
    /// that child has the first greatest key among the children of `i`.
    pub open spec fn may_pick<F: Fn(u32, u32, u32, u32) -> u64>(
        &self,
        score: &F,
        i: int,
        k: int,
    ) -> bool {
        exists|keys: Seq<u64>| #[trigger] self.keys_fit(score, i, keys) && is_first_max(keys, k)
    }

    /// Whether a descent that starts at node `from` may end at node `to`.
    /// It ends at the first node that has an untried move or no child; from
    /// any other node it goes on to the child with the first greatest key.
    pub open spec fn selects<F: Fn(u32, u32, u32, u32) -> u64>(
        &self,
        score: &F,
        from: int,
        to: int,
    ) -> bool
        decreases self.arena().len() - from, 0int,
    {
        if from < 0 || from >= self.arena().len() {
            false
        } else if self.arena()[from].untried_moves@.len() > 0 || self.arena()[from].children@.len()
            == 0 {
            to == from
        } else {
            exists|k: int| #[trigger]
                self.may_pick(score, from, k) && self.selects_below(score, from, k, to)
        }
    }

    /// Whether a descent that goes from node `from` to its child at position
    /// `k` may end at node `to`.
    pub open spec fn selects_below<F: Fn(u32, u32, u32, u32) -> u64>(
        &self,
        score: &F,
        from: int,
        k: int,
        to: int,
    ) -> bool
        decreases self.arena().len() - from - 1, 1int,
    {
        if 0 <= from && 0 <= k < self.arena()[from].children@.len() && from
            < self.arena()[from].children@[k] < self.arena().len() {
            self.selects(score, self.arena()[from].children@[k] as int, to)
        } else {
            false
        }
    }
}

/// The keys of the children of `node`, oldest child first.
pub fn child_keys<G: GameState, F: Fn(u32, u32, u32, u32) -> u64>(
    tree: &Tree<G>,
    node: usize,
    score: &F,
) -> (keys: Vec<u64>)
    requires
        tree.wf(),
        tree.settled(),
        tree.in_tree(node as int),
        scores_all(score),
    ensures
        tree.keys_fit(score, node as int, keys@),
{
    let parent = tree.node(node);
    let mut keys: Vec<u64> = Vec::new();
    let mut k: usize = 0;
    while k < parent.children.len()
        invariant
            tree.wf(),
            tree.settled(),
            tree.in_tree(node as int),
            scores_all(score),
            *parent == tree.arena()[node as int],
            0 <= k <= parent.children@.len(),
            keys@.len() == k,
            forall|j: int|
                0 <= j < k ==> score.ensures(
                    (
                        tree.arena()[parent.children@[j] as int].win_count,
                        tree.arena()[parent.children@[j] as int].draw_count,
                        tree.arena()[parent.children@[j] as int].simulations,
                        parent.simulations,
                    ),
                    #[trigger] keys@[j],
                ),
        decreases parent.children@.len() - k,
    {
        proof {
            tree.lemma_child_in_tree(node as int, k as int);
            let c = parent.children@[k as int] as int;
            assert(tree.node_ok(c, 0));
            assert(tree.arena()[c].simulations >= 1);
            assert(tree.parent(c) == Some(node as int));
            match tree.arena()[c].origin {
                Origin::Root(_) => {},
                Origin::Parent(p, _) => {
                    assert(p as int == node);
                    assert(tree.arena()[c].simulations <= tree.arena()[p as int].simulations);
                },
            }
        }
        let child = tree.node(parent.children[k]);
        assert(scorable(child.win_count, child.draw_count, child.simulations, parent.simulations));
        let key = score(child.win_count, child.draw_count, child.simulations, parent.simulations);
        keys.push(key);
        k = k + 1;
    }
    keys
}

/// Descends from the root to the node that the next rollouts start from: the
/// first node on the way that has an untried move, or a node without
/// children. At every other node the descent goes on to the child with the
/// greatest key, the oldest among equals.
pub fn selection_phase<G: GameState, F: Fn(u32, u32, u32, u32) -> u64>(
    tree: &Tree<G>,
    score: &F,
) -> (target: NodeType)
    requires
        tree.wf(),
        tree.settled(),
        scores_all(score),
    ensures
        tree.selects(score, tree.root(), target.node()),
        tree.in_tree(target.node()),
        target is Leaf <==> tree.arena()[target.node()].untried_moves@.len() > 0,
        target is End ==> tree.arena()[target.node()].children@.len() == 0,
{
    let mut cur = tree.root_index();
    loop
        invariant
            tree.wf(),
            tree.settled(),
            scores_all(score),
            tree.in_tree(cur as int),
            forall|to: int|
                tree.selects(score, cur as int, to) ==> tree.selects(score, tree.root(), to),
        decreases tree.arena().len() - cur,
    {
        let node = tree.node(cur);
        assert(node.untried_moves@.len() > 0 || node.children@.len() == 0 ==> tree.selects(
            score,
            cur as int,
            cur as int,
        ));
        if node.untried_moves.len() > 0 {
            return NodeType::Leaf(cur);
        }
        if node.children.len() == 0 {
            return NodeType::End(cur);
        }
        let keys = child_keys(tree, cur, score);
        let k = first_maximum(&keys);
        let next = node.children[k];
        proof {
            tree.lemma_child_in_tree(cur as int, k as int);
            assert(tree.may_pick(score, cur as int, k as int)) by {
                assert(tree.keys_fit(score, cur as int, keys@));
            }
            assert forall|to: int| tree.selects(score, next as int, to) implies tree.selects(
                score,
                tree.root(),
                to,
            ) by {
                assert(tree.selects_below(score, cur as int, k as int, to));
                assert(tree.selects(score, cur as int, to));
            }
        }
        cur = next;
    }
}

} // verus!
