//! Backpropagation: counting the result of a rollout at a node and at every
//! node above it.

use vstd::prelude::*;
use super::game::GameState;
use super::tree::{Origin, Tree};
use super::Output;

verus! {

impl<G: GameState> Tree<G> {
    /// What a backpropagation of `value` from node `from` counts at node `i`:
    /// `value` at `from` itself, the flipped result one level up, and so on
    /// in turns up to the root; `None` at a node that is not on the way.
    pub open spec fn credited(&self, from: int, value: Output, i: int) -> Option<Output>
        decreases from,
    {
        if i == from {
            Some(value)
        } else {
            match self.arena()[from].origin {
                Origin::Root(_) => None,
                Origin::Parent(p, _) => if 0 <= p < from {
                    self.credited(p as int, value.flipped(), i)
                } else {
                    None
                },
            }
        }
    }

    /// Whether node `i` is node `from` or lies above it: whether the parent
    /// links lead from `from` to `i`.
    pub open spec fn leads_to(&self, from: int, i: int) -> bool
        decreases from,
    {
        i == from || match self.arena()[from].origin {
            Origin::Root(_) => false,
            Origin::Parent(p, _) => 0 <= p < from && self.leads_to(p as int, i),
        }
    }

    /// A backpropagation counts at the nodes that the parent links lead to
    /// and nowhere else.
    pub proof fn lemma_credit_follows_links(&self, from: int, value: Output, i: int)
        ensures
            self.credited(from, value, i) is Some <==> self.leads_to(from, i),
        decreases from,
    {
        if i != from {
            match self.arena()[from].origin {
                Origin::Root(_) => {},
                Origin::Parent(p, _) => {
                    if 0 <= p < from {
                        self.lemma_credit_follows_links(p as int, value.flipped(), i);
                    }
                },
            }
        }
    }

    /// The parent links lead to nodes with a lower index only.
    pub proof fn lemma_links_lead_up(&self, from: int, i: int)
        requires
            self.leads_to(from, i),
        ensures
            i <= from,
        decreases from,
    {
        if i != from {
            match self.arena()[from].origin {
                Origin::Root(_) => {},
                Origin::Parent(p, _) => {
                    self.lemma_links_lead_up(p as int, i);
                },
            }
        }
    }

    /// Nodes with unchanged origins are led to from the same nodes.
    pub proof fn lemma_links_fix_paths(&self, before: Tree<G>, from: int, i: int)
        requires
            self.same_links(before),
            0 <= from < before.arena().len(),
        ensures
            self.leads_to(from, i) == before.leads_to(from, i),
        decreases from,
    {
        assert(self.arena()[from].origin == before.arena()[from].origin);
        if i != from {
            match before.arena()[from].origin {
                Origin::Root(_) => {},
                Origin::Parent(p, _) => {
                    if 0 <= p < from {
                        self.lemma_links_fix_paths(before, p as int, i);
                    }
                },
            }
        }
    }

    /// A backpropagation counts nothing at a node with a higher index than
    /// the one it starts from.
    pub proof fn lemma_credit_goes_up(&self, from: int, value: Output, i: int)
        requires
            i > from,
        ensures
            self.credited(from, value, i) is None,
        decreases from,
    {
        match self.arena()[from].origin {
            Origin::Root(_) => {},
            Origin::Parent(p, _) => {
                if 0 <= p < from {
                    self.lemma_credit_goes_up(p as int, value.flipped(), i);
                }
            },
        }
    }

    /// A backpropagation from a node of the tree counts at the root.
    pub proof fn lemma_credit_reaches_root(&self, from: int, value: Output)
        requires
            self.wf(),
            self.in_tree(from),
        ensures
            self.credited(from, value, self.root()) is Some,
        decreases from,
    {
        match self.arena()[from].origin {
            Origin::Root(_) => {},
            Origin::Parent(p, _) => {
                if 0 <= p < from {
                    self.lemma_credit_reaches_root(p as int, value.flipped());
                }
            },
        }
    }
}

/// By how many rollouts node `i` may be ahead of its parent while `hole` is
/// the node that was counted last.
pub open spec fn ahead(i: int, hole: int) -> int {
    if i == hole {
        1
    } else {
        0
    }
}

/// Counts the result `value` of a rollout at `node` and, flipped at every
/// level, at each node above it up to the root.
pub fn backpropagation<G: GameState>(tree: &mut Tree<G>, value: Output, node: usize)
    requires
        old(tree).wf(),
        old(tree).in_tree(node as int),
        old(tree).arena()[old(tree).root()].simulations < u32::MAX,
    ensures
        final(tree).wf(),
        final(tree).root() == old(tree).root(),
        final(tree).arena().len() == old(tree).arena().len(),
        forall|i: int|
            0 <= i < old(tree).arena().len() ==> {
                &&& (#[trigger] final(tree).arena()[i]).same_shape(old(tree).arena()[i])
                &&& final(tree).arena()[i].counts_after(
                    old(tree).arena()[i],
                    old(tree).credited(node as int, value, i),
                )
            },
{
    let ghost before = *tree;
    let ghost mut prev: int = -1;
    let mut cur = node;
    let mut v = value;
    proof {
        assert forall|i: int| i > node implies before.credited(node as int, value, i) is None by {
            before.lemma_credit_goes_up(node as int, value, i);
        }
    }
    loop
        invariant_except_break
            before.in_tree(cur as int),
            forall|i: int|
                0 <= i < before.arena().len() ==> (#[trigger] tree.arena()[i]).counts_after(
                    before.arena()[i],
                    if i > cur {
                        before.credited(node as int, value, i)
                    } else {
                        None
                    },
                ),
            forall|i: int|
                0 <= i <= cur ==> before.credited(node as int, value, i) == before.credited(
                    cur as int,
                    v,
                    i,
                ),
            prev == -1 || before.parent(prev) == Some(cur as int),
            forall|i: int| tree.in_tree(i) ==> #[trigger] tree.node_ok(i, ahead(i, prev)),
        invariant
            before.wf(),
            before.arena()[before.root()].simulations < u32::MAX,
            tree.root() == before.root(),
            tree.arena().len() == before.arena().len(),
            forall|i: int|
                0 <= i < before.arena().len() ==> (#[trigger] tree.arena()[i]).same_shape(
                    before.arena()[i],
                ),
        ensures
            tree.wf(),
            forall|i: int|
                0 <= i < before.arena().len() ==> (#[trigger] tree.arena()[i]).counts_after(
                    before.arena()[i],
                    before.credited(node as int, value, i),
                ),
        decreases cur,
    {
        let ghost mid = *tree;
        proof {
            assert(tree.same_links(before));
            tree.lemma_links_fix_positions(before, cur as int);
            before.lemma_root_counts_most(cur as int);
            assert(tree.node_ok(cur as int, ahead(cur as int, prev)));
            assert(tree.arena()[cur as int].counts_after(before.arena()[cur as int], None));
        }
        tree.credit(cur, v);
        proof {
            assert(tree.same_links(mid));
            assert(tree.same_links(before));
            assert forall|i: int| tree.in_tree(i) implies #[trigger] tree.node_ok(
                i,
                ahead(i, cur as int),
            ) by {
                tree.lemma_links_fix_positions(mid, i);
                assert(mid.in_tree(i));
                let slack_before = ahead(i, prev);
                let slack = ahead(i, cur as int);
                assert(mid.node_ok(i, slack_before));
                assert(tree.arena()[i].same_shape(mid.arena()[i]));
                tree.lemma_node_ok_frame(mid, i, slack_before, slack);
            }
        }
        match &tree.node(cur).origin {
            Origin::Root(_) => {
                proof {
                    assert forall|i: int| 0 <= i < before.arena().len() implies (
                    #[trigger] tree.arena()[i]).counts_after(
                        before.arena()[i],
                        before.credited(node as int, value, i),
                    ) by {
                        if i < cur {
                            assert(before.credited(cur as int, v, i) is None);
                        }
                    }
                    assert forall|i: int| tree.in_tree(i) implies #[trigger] tree.node_ok(i, 0) by {
                        assert(tree.node_ok(i, ahead(i, cur as int)));
                    }
                    assert(tree.arena()[tree.root()].same_shape(before.arena()[tree.root()]));
                }
                break ;
            },
            Origin::Parent(p, _) => {
                let p: usize = *p;
                proof {
                    assert(before.node_ok(cur as int, 0));
                    assert forall|i: int| 0 <= i <= p implies before.credited(node as int, value, i)
                        == before.credited(p as int, v.flipped(), i) by {}
                    assert forall|i: int| 0 <= i < before.arena().len() implies (
                    #[trigger] tree.arena()[i]).counts_after(
                        before.arena()[i],
                        if i > p {
                            before.credited(node as int, value, i)
                        } else {
                            None
                        },
                    ) by {
                        if p < i < cur {
                            before.lemma_credit_goes_up(p as int, v.flipped(), i);
                        }
                    }
                    prev = cur as int;
                }
                cur = p;
                v = v.flip();
            },
        }
    }
}

} // verus!
