//! Expansion: turning untried moves of a node into children.

use vstd::prelude::*;
use super::bags::{lemma_empty_bag, lemma_move_keeps_bag, lemma_part_of_bag};
use super::game::GameState;
use super::tree::{extract_board, Origin, Tree};
use crate::chance::random_below;

verus! {

impl<G: GameState> Tree<G> {
    /// Whether node `i` is a node that no rollout has passed yet, with no
    /// children and all legal moves of its position untried.
    pub open spec fn is_fresh(&self, i: int) -> bool {
        let node = self.arena()[i];
        &&& node.simulations == 0
        &&& node.win_count == 0
        &&& node.draw_count == 0
        &&& node.children@.len() == 0
        &&& node.untried_moves@ == G::legal(self.model_at(i))
    }

    /// Whether this tree is `before` with the untried move at position `k`
    /// of node `leaf` turned into a fresh child at the next free index.
    pub open spec fn expanded_from(&self, before: Tree<G>, leaf: int, k: int) -> bool {
        let child = before.arena().len() as int;
        &&& self.root() == before.root()
        &&& self.arena().len() == before.arena().len() + 1
        &&& forall|j: int|
            0 <= j < before.arena().len() && j != leaf ==> #[trigger] self.arena()[j]
                == before.arena()[j]
        &&& self.arena()[leaf].counts_after(before.arena()[leaf], None)
        &&& self.arena()[leaf].origin == before.arena()[leaf].origin
        &&& self.arena()[leaf].untried_moves@ == before.arena()[leaf].untried_moves@.remove(k)
        &&& self.arena()[leaf].children@ == before.arena()[leaf].children@.push(child as usize)
        &&& self.arena()[child].origin == Origin::<G>::Parent(
            leaf as usize,
            before.arena()[leaf].untried_moves@[k],
        )
        &&& self.is_fresh(child)
    }

    /// Turning an untried move into a child keeps the tree in order.
    pub proof fn lemma_expansion_keeps_order(&self, before: Tree<G>, leaf: int, k: int)
        requires
            before.wf(),
            before.in_tree(leaf),
            0 <= k < before.arena()[leaf].untried_moves@.len(),
            self.expanded_from(before, leaf, k),
            G::playable(before.model_at(leaf), before.arena()[leaf].untried_moves@[k]),
        ensures
            self.wf(),
            self.same_links(before),
            self.in_tree(before.arena().len() as int),
    {
        let child = before.arena().len() as int;
        let mv = before.arena()[leaf].untried_moves@[k];
        before.lemma_len_fits();
        self.lemma_len_fits();
        assert(self.same_links(before)) by {
            assert forall|j: int| 0 <= j < before.arena().len() implies (
            #[trigger] self.arena()[j]).origin == before.arena()[j].origin by {
                if j != leaf {
                    assert(self.arena()[j] == before.arena()[j]);
                }
            }
        }
        self.lemma_links_fix_positions(before, leaf);
        assert(self.top_of(child) == self.top_of(leaf));
        assert(before.node_ok(leaf, 0));
        assert forall|i: int| self.in_tree(i) implies #[trigger] self.node_ok(i, 0) by {
            if i == child {
                lemma_empty_bag(self.child_moves(child));
                broadcast use vstd::multiset::group_multiset_axioms;

                assert(self.arena()[child].untried_moves@.to_multiset().add(
                    self.child_moves(child).to_multiset(),
                ) =~= G::legal(self.model_at(child)).to_multiset());
            } else if i == leaf {
                let node = self.arena()[leaf];
                match node.origin {
                    Origin::Root(_) => {},
                    Origin::Parent(p, _) => {
                        self.lemma_links_fix_positions(before, p as int);
                        assert(self.arena()[p as int] == before.arena()[p as int]);
                    },
                }
                assert forall|j: int| 0 <= j < node.children@.len() implies {
                    &&& leaf < #[trigger] node.children@[j] < self.arena().len()
                    &&& self.parent(node.children@[j] as int) == Some(leaf)
                } by {
                    if j < before.arena()[leaf].children@.len() {
                        let c = before.arena()[leaf].children@[j] as int;
                        assert(leaf < c < before.arena().len());
                        assert(self.arena()[c] == before.arena()[c]);
                    }
                }
                assert(self.child_moves(leaf) =~= before.child_moves(leaf).push(mv)) by {
                    assert forall|j: int| 0 <= j < before.arena()[leaf].children@.len() implies 
                        self.child_moves(leaf)[j] == before.child_moves(leaf)[j] by {
                        let c = before.arena()[leaf].children@[j] as int;
                        assert(leaf < c < before.arena().len());
                        assert(self.arena()[c] == before.arena()[c]);
                    }
                }
                lemma_move_keeps_bag(
                    before.arena()[leaf].untried_moves@,
                    before.child_moves(leaf),
                    k,
                );
            } else {
                self.lemma_links_fix_positions(before, i);
                assert(before.node_ok(i, 0));
                assert(self.arena()[i] == before.arena()[i]);
                match self.arena()[i].origin {
                    Origin::Root(_) => {},
                    Origin::Parent(p, _) => {
                        assert(self.arena()[p as int].simulations
                            == before.arena()[p as int].simulations) by {
                            if p != leaf {
                                assert(self.arena()[p as int] == before.arena()[p as int]);
                            }
                        }
                    },
                }
                self.lemma_node_ok_frame(before, i, 0, 0);
            }
        }
        assert(self.arena()[self.root()].origin == before.arena()[self.root()].origin);
    }
}

/// Turns the untried move at position `k` of `leaf` into a new child.
/// `board` is the position of `leaf`. Returns the position of the child and
/// its index.
pub fn expand_move<G: GameState>(tree: &mut Tree<G>, leaf: usize, board: &G, k: usize) -> (fresh: (
    G,
    usize,
))
    requires
        old(tree).wf(),
        old(tree).in_tree(leaf as int),
        old(tree).reconstructs(leaf as int, *board),
        k < old(tree).arena()[leaf as int].untried_moves@.len(),
    ensures
        final(tree).wf(),
        final(tree).expanded_from(*old(tree), leaf as int, k as int),
        fresh.1 == old(tree).arena().len(),
        final(tree).in_tree(fresh.1 as int),
        final(tree).reconstructs(fresh.1 as int, fresh.0),
{
    let ghost before = *tree;
    let mv = tree.node(leaf).untried_moves[k];
    proof {
        assert(tree.node_ok(leaf as int, 0));
        let j = lemma_part_of_bag(
            tree.arena()[leaf as int].untried_moves@,
            tree.child_moves(leaf as int),
            G::legal(tree.model_at(leaf as int)),
            k as int,
        );
        board.legal_moves_are_playable(j);
    }
    let mut state = board.duplicate();
    state.apply(mv);
    let untried = state.legal_moves();
    let child = tree.graft(leaf, k, untried);
    proof {
        assert(tree.same_links(before)) by {
            assert forall|j: int| 0 <= j < before.arena().len() implies (
            #[trigger] tree.arena()[j]).origin == before.arena()[j].origin by {
                if j != leaf {
                    assert(tree.arena()[j] == before.arena()[j]);
                }
            }
        }
        tree.lemma_links_fix_positions(before, leaf as int);
        assert(tree.model_at(child as int) == state.model());
        tree.lemma_expansion_keeps_order(before, leaf as int, k as int);
    }
    (state, child)
}

impl<G: GameState> Tree<G> {
    /// Whether node `i` is a fresh child of node `leaf` in the tree.
    pub open spec fn is_new_child(&self, i: int, leaf: int) -> bool {
        &&& self.parent(i) == Some(leaf)
        &&& self.is_fresh(i)
        &&& self.in_tree(i)
    }

    /// The moves of the `n` nodes that follow the arena of `before`.
    pub open spec fn moves_added(&self, before: Tree<G>, n: int) -> Seq<G::Move> {
        Seq::new(n as nat, |j: int| self.arrival(before.arena().len() + j))
    }

    /// Whether this tree is `before` with `n` untried moves of node `leaf`
    /// turned into fresh children, which take the next `n` indices.
    pub open spec fn grown_from(&self, before: Tree<G>, leaf: int, n: int) -> bool {
        let first = before.arena().len() as int;
        &&& self.root() == before.root()
        &&& self.arena().len() == first + n
        &&& forall|j: int|
            0 <= j < first && j != leaf ==> #[trigger] self.arena()[j] == before.arena()[j]
        &&& self.arena()[leaf].counts_after(before.arena()[leaf], None)
        &&& self.arena()[leaf].origin == before.arena()[leaf].origin
        &&& self.arena()[leaf].children@ == before.arena()[leaf].children@ + Seq::new(
            n as nat,
            |j: int| (first + j) as usize,
        )
        &&& self.arena()[leaf].untried_moves@.to_multiset().add(
            self.moves_added(before, n).to_multiset(),
        ) == before.arena()[leaf].untried_moves@.to_multiset()
        &&& self.arena()[leaf].untried_moves@.len() + n
            == before.arena()[leaf].untried_moves@.len()
        &&& forall|i: int| first <= i < first + n ==> #[trigger] self.is_new_child(i, leaf)
    }
}

/// Takes up to `batch` untried moves of `leaf`, each drawn at random from
/// those that are left, and gives each a new child. Returns the position and
/// the index of every new child, oldest first. Where `leaf` has fewer than
/// `batch` untried moves, all of them get a child.
pub fn expansion_phase<G: GameState>(tree: &mut Tree<G>, leaf: usize, batch: usize) -> (fresh: Vec<
    (G, usize),
>)
    requires
        old(tree).wf(),
        old(tree).in_tree(leaf as int),
    ensures
        final(tree).wf(),
        final(tree).same_links(*old(tree)),
        fresh@.len() == if batch <= old(tree).arena()[leaf as int].untried_moves@.len() {
            batch as int
        } else {
            old(tree).arena()[leaf as int].untried_moves@.len() as int
        },
        final(tree).grown_from(*old(tree), leaf as int, fresh@.len() as int),
        forall|j: int|
            0 <= j < fresh@.len() ==> {
                &&& (#[trigger] fresh@[j]).1 == old(tree).arena().len() + j
                &&& final(tree).reconstructs(fresh@[j].1 as int, fresh@[j].0)
            },
{
    let ghost before = *tree;
    let ghost first = tree.arena().len() as int;
    let board = extract_board(tree, leaf);
    let mut fresh: Vec<(G, usize)> = Vec::new();
    proof {
        before.lemma_len_fits();
        lemma_empty_bag(tree.moves_added(before, 0));
        broadcast use vstd::multiset::group_multiset_axioms;

        assert(tree.arena()[leaf as int].untried_moves@.to_multiset().add(
            tree.moves_added(before, 0).to_multiset(),
        ) =~= before.arena()[leaf as int].untried_moves@.to_multiset());
        assert(tree.arena()[leaf as int].children@ =~= before.arena()[leaf as int].children@
            + Seq::new(0nat, |j: int| (first + j) as usize));
    }
    while fresh.len() < batch && tree.node(leaf).untried_moves.len() > 0
        invariant
            before.wf(),
            before.in_tree(leaf as int),
            first == before.arena().len(),
            tree.wf(),
            tree.same_links(before),
            tree.in_tree(leaf as int),
            tree.reconstructs(leaf as int, board),
            fresh@.len() <= batch,
            tree.grown_from(before, leaf as int, fresh@.len() as int),
            forall|j: int|
                0 <= j < fresh@.len() ==> {
                    &&& (#[trigger] fresh@[j]).1 == first + j
                    &&& tree.reconstructs(fresh@[j].1 as int, fresh@[j].0)
                },
        decreases tree.arena()[leaf as int].untried_moves@.len(),
    {
        let ghost mid = *tree;
        let ghost n = fresh@.len() as int;
        let k = random_below(tree.node(leaf).untried_moves.len());
        let pair = expand_move(tree, leaf, &board, k);
        fresh.push(pair);
        proof {
            let mv = mid.arena()[leaf as int].untried_moves@[k as int];
            tree.lemma_len_fits();
            assert(tree.same_links(mid)) by {
                assert forall|j: int| 0 <= j < mid.arena().len() implies (
                #[trigger] tree.arena()[j]).origin == mid.arena()[j].origin by {
                    if j != leaf {
                        assert(tree.arena()[j] == mid.arena()[j]);
                    }
                }
            }
            assert(tree.same_links(before)) by {
                assert forall|j: int| 0 <= j < before.arena().len() implies (
                #[trigger] tree.arena()[j]).origin == before.arena()[j].origin by {
                    assert(tree.arena()[j].origin == mid.arena()[j].origin);
                    assert(mid.arena()[j].origin == before.arena()[j].origin);
                }
            }
            tree.lemma_links_fix_positions(mid, leaf as int);
            assert forall|j: int| 0 <= j < first && j != leaf implies #[trigger] tree.arena()[j]
                == before.arena()[j] by {
                assert(tree.arena()[j] == mid.arena()[j]);
                assert(mid.arena()[j] == before.arena()[j]);
            }
            assert(tree.arena()[leaf as int].children@ =~= before.arena()[leaf as int].children@
                + Seq::new((n + 1) as nat, |j: int| (first + j) as usize));
            assert(tree.moves_added(before, n + 1) =~= mid.moves_added(before, n).push(mv)) by {
                assert forall|j: int| 0 <= j < n implies tree.moves_added(before, n + 1)[j]
                    == mid.moves_added(before, n)[j] by {
                    assert(tree.arena()[first + j] == mid.arena()[first + j]);
                }
            }
            lemma_move_keeps_bag(
                mid.arena()[leaf as int].untried_moves@,
                mid.moves_added(before, n),
                k as int,
            );
            assert forall|i: int| first <= i < first + n + 1 implies #[trigger] tree.is_new_child(
                i,
                leaf as int,
            ) by {
                if i < first + n {
                    assert(mid.is_new_child(i, leaf as int));
                    assert(tree.arena()[i] == mid.arena()[i]);
                    tree.lemma_links_fix_positions(mid, i);
                }
            }
            assert forall|j: int| 0 <= j < fresh@.len() implies {
                &&& (#[trigger] fresh@[j]).1 == first + j
                &&& tree.reconstructs(fresh@[j].1 as int, fresh@[j].0)
            } by {
                if j < n {
                    tree.lemma_links_fix_positions(mid, first + j);
                }
            }
            assert(tree.arena()[leaf as int].children@ == before.arena()[leaf as int].children@
                + Seq::new((n + 1) as nat, |j: int| (first + j) as usize));
            assert(tree.grown_from(before, leaf as int, n + 1));
        }
    }
    fresh
}

} // verus!
