//! The search controller: one iteration of the search, and the loop that
//! runs iterations under a budget.

use vstd::prelude::*;
use super::backpropagation::backpropagation;
use super::expansion::expansion_phase;
use super::game::GameState;
use super::selection::{scores_all, selection_phase, NodeType};
use super::simulation::simulation_phase;
use super::tree::{extract_board, Node, Tree};
use super::Mode;
use crate::clock::{elapsed, now, shorter};

verus! {

impl<G: GameState> Node<G> {
    /// Whether this node is `before` at a later time of the same search: the
    /// counters have not gone down, children have only been added at the
    /// end, untried moves have only been taken away.
    pub open spec fn grew_from(self, before: Node<G>) -> bool {
        &&& self.simulations >= before.simulations
        &&& self.win_count >= before.win_count
        &&& self.draw_count >= before.draw_count
        &&& self.origin == before.origin
        &&& before.children@.is_prefix_of(self.children@)
        &&& self.untried_moves@.len() <= before.untried_moves@.len()
    }
}

impl<G: GameState> Tree<G> {
    /// The number of rollouts that have passed through the root.
    pub open spec fn root_simulations(&self) -> int {
        self.arena()[self.root()].simulations as int
    }

    /// Whether this tree is `before` at a later time of the same search.
    pub open spec fn extends(&self, before: Tree<G>) -> bool {
        &&& self.root() == before.root()
        &&& self.arena().len() >= before.arena().len()
        &&& forall|i: int|
            0 <= i < before.arena().len() ==> (#[trigger] self.arena()[i]).grew_from(
                before.arena()[i],
            )
    }

    /// The number of children that an iteration adds which selects node
    /// `target`: one for each untried move of `target`, `batch` at most.
    pub open spec fn expansions_at(&self, target: int, batch: int) -> int {
        if batch <= self.arena()[target].untried_moves@.len() {
            batch
        } else {
            self.arena()[target].untried_moves@.len() as int
        }
    }

    /// The number of rollouts of an iteration that selects node `target`:
    /// one for each new child, or one from `target` itself where it is a
    /// final position.
    pub open spec fn rollouts_at(&self, target: int, batch: int) -> int {
        if self.arena()[target].untried_moves@.len() > 0 {
            self.expansions_at(target, batch)
        } else {
            1
        }
    }

    /// Whether this tree is `before` after one iteration of the search with
    /// this scoring function and batch size: the tree is in order, every
    /// child has been through a rollout, and for the node that selection has
    /// ended at, the tree has grown by the children of one expansion and
    /// the root has counted the rollouts of the iteration.
    pub open spec fn iterated_from<F: Fn(u32, u32, u32, u32) -> u64>(
        &self,
        before: Tree<G>,
        score: &F,
        batch: int,
    ) -> bool {
        &&& self.wf()
        &&& self.settled()
        &&& self.extends(before)
        &&& exists|target: int|
            {
                &&& #[trigger] before.selects(score, before.root(), target)
                &&& self.arena().len() == before.arena().len() + (if before.arena()[target].untried_moves@.len()
                    > 0 {
                    before.expansions_at(target, batch)
                } else {
                    0
                })
                &&& self.root_simulations() == before.root_simulations() + before.rollouts_at(
                    target,
                    batch,
                )
                &&& forall|i: int|
                    0 <= i < before.arena().len() && !before.leads_to(target, i) ==> (
                    #[trigger] self.arena()[i]).counts_after(before.arena()[i], None)
                &&& forall|i: int|
                    before.arena().len() <= i < self.arena().len() ==> self.is_first_visit(
                        i,
                        target,
                    )
            }
    }

    /// Whether node `i` is a child of node `target` that has been through
    /// one rollout and has no children.
    pub open spec fn is_first_visit(&self, i: int, target: int) -> bool {
        &&& self.parent(i) == Some(target)
        &&& self.arena()[i].simulations == 1
        &&& self.arena()[i].children@.len() == 0
        &&& self.arena()[i].untried_moves@ == G::legal(self.model_at(i))
    }

    /// Whether `trace` holds the trees of a search, one after every
    /// iteration, from its start on.
    pub open spec fn is_trace<F: Fn(u32, u32, u32, u32) -> u64>(
        trace: Seq<Tree<G>>,
        score: &F,
        batch: int,
    ) -> bool {
        forall|i: int|
            0 <= i < trace.len() - 1 ==> (#[trigger] trace[i + 1]).iterated_from(
                trace[i],
                score,
                batch,
            )
    }

    /// Whether this tree is `before` after `n` iterations of the search.
    pub open spec fn searched_from<F: Fn(u32, u32, u32, u32) -> u64>(
        &self,
        before: Tree<G>,
        score: &F,
        batch: int,
        n: nat,
    ) -> bool {
        exists|trace: Seq<Tree<G>>|
            {
                &&& #[trigger] Self::is_trace(trace, score, batch)
                &&& trace.len() == n + 1
                &&& trace[0] == before
                &&& trace[n as int] == *self
            }
    }

    /// An iteration counts at least one rollout at the root and at most as
    /// many as the batch size.
    pub proof fn lemma_iteration_counts<F: Fn(u32, u32, u32, u32) -> u64>(
        &self,
        before: Tree<G>,
        score: &F,
        batch: int,
    )
        requires
            batch >= 1,
            before.wf(),
            self.iterated_from(before, score, batch),
        ensures
            before.root_simulations() + 1 <= self.root_simulations() <= before.root_simulations()
                + batch,
    {
    }

    /// After `k` iterations of a search the root has counted at least `k`
    /// rollouts more than at the start and at most `k` times the batch size
    /// more.
    pub proof fn lemma_trace_counts<F: Fn(u32, u32, u32, u32) -> u64>(
        trace: Seq<Tree<G>>,
        score: &F,
        batch: int,
        k: int,
    )
        requires
            batch >= 1,
            Self::is_trace(trace, score, batch),
            0 <= k < trace.len(),
            trace[0].wf(),
            trace[0].settled(),
        ensures
            trace[k].wf(),
            trace[k].settled(),
            trace[0].root_simulations() + k <= trace[k].root_simulations()
                <= trace[0].root_simulations() + k * batch,
        decreases k,
    {
        if k > 0 {
            Self::lemma_trace_counts(trace, score, batch, k - 1);
            assert(trace[k - 1 + 1].iterated_from(trace[k - 1], score, batch));
            trace[k].lemma_iteration_counts(trace[k - 1], score, batch);
            assert(k * batch == (k - 1) * batch + batch) by (nonlinear_arith);
        }
    }

    /// After `n` iterations the root has counted at least `n` rollouts more
    /// than before and at most `n` times the batch size more; with a batch
    /// size of one, exactly `n` more.
    pub proof fn simulations_are_accounted_for<F: Fn(u32, u32, u32, u32) -> u64>(
        &self,
        before: Tree<G>,
        score: &F,
        batch: int,
        n: nat,
    )
        requires
            batch >= 1,
            before.wf(),
            before.settled(),
            self.searched_from(before, score, batch, n),
        ensures
            self.wf(),
            self.settled(),
            before.root_simulations() + n <= self.root_simulations() <= before.root_simulations() + n
                * batch,
            batch == 1 ==> self.root_simulations() == before.root_simulations() + n,
    {
        let trace = choose|trace: Seq<Tree<G>>|
            {
                &&& #[trigger] Self::is_trace(trace, score, batch)
                &&& trace.len() == n + 1
                &&& trace[0] == before
                &&& trace[n as int] == *self
            };
        Self::lemma_trace_counts(trace, score, batch, n as int);
        assert(batch == 1 ==> n * batch == n) by (nonlinear_arith);
    }

    /// A later time of a later time is a later time.
    pub proof fn lemma_extends_transitive(&self, middle: Tree<G>, before: Tree<G>)
        requires
            self.extends(middle),
            middle.extends(before),
        ensures
            self.extends(before),
    {
        assert forall|i: int| 0 <= i < before.arena().len() implies (
        #[trigger] self.arena()[i]).grew_from(before.arena()[i]) by {
            assert(self.arena()[i].grew_from(middle.arena()[i]));
            assert(middle.arena()[i].grew_from(before.arena()[i]));
            let a = before.arena()[i].children@;
            let b = middle.arena()[i].children@;
            let c = self.arena()[i].children@;
            assert(a =~= c.subrange(0, a.len() as int)) by {
                assert(a =~= b.subrange(0, a.len() as int));
                assert(b =~= c.subrange(0, b.len() as int));
            }
        }
    }
}

/// One iteration of the search: selection, then either expansion with a
/// rollout and a backpropagation for every new child, or, at a final
/// position, one rollout and one backpropagation from that position.
pub fn algorithm<G: GameState, F: Fn(u32, u32, u32, u32) -> u64>(
    tree: &mut Tree<G>,
    batch: usize,
    score: &F,
)
    requires
        old(tree).wf(),
        old(tree).settled(),
        scores_all(score),
        batch >= 1,
        old(tree).root_simulations() + batch <= u32::MAX,
    ensures
        final(tree).iterated_from(*old(tree), score, batch as int),
{
    let ghost before = *tree;
    let target = selection_phase(tree, score);
    match target {
        NodeType::Leaf(leaf) => {
            let mut fresh = expansion_phase(tree, leaf, batch);
            let ghost grown = *tree;
            let ghost first = before.arena().len() as int;
            let ghost n = fresh@.len() as int;
            proof {
                grown.lemma_links_fix_positions(before, before.root());
                assert forall|i: int|
                    0 <= i < first && grown.in_tree(i) && i != grown.root() implies (
                #[trigger] grown.arena()[i]).simulations >= 1 by {
                    grown.lemma_links_fix_positions(before, i);
                    assert(before.arena()[i].simulations >= 1);
                    if i != leaf {
                        assert(grown.arena()[i] == before.arena()[i]);
                    }
                }
                assert forall|i: int| first <= i < first + n implies #[trigger] grown.in_tree(
                    i,
                ) by {
                    assert(grown.is_new_child(i, leaf as int));
                }
                assert(grown.extends(before)) by {
                    assert forall|i: int| 0 <= i < first implies (
                    #[trigger] grown.arena()[i]).grew_from(before.arena()[i]) by {
                        if i != leaf {
                            assert(grown.arena()[i] == before.arena()[i]);
                        }
                    }
                }
                assert forall|i: int| first <= i < first + n implies (
                #[trigger] grown.arena()[i]).simulations == 0 by {
                    assert(grown.is_new_child(i, leaf as int));
                }
            }
            while fresh.len() > 0
                invariant
                    grown.wf(),
                    first + n == grown.arena().len(),
                    0 <= first,
                    grown.root_simulations() + n <= u32::MAX,
                    tree.wf(),
                    tree.root() == grown.root(),
                    tree.arena().len() == grown.arena().len(),
                    fresh@.len() <= n,
                    forall|i: int|
                        0 <= i < grown.arena().len() ==> {
                            &&& (#[trigger] tree.arena()[i]).same_shape(grown.arena()[i])
                            &&& tree.arena()[i].grew_from(grown.arena()[i])
                        },
                    tree.root_simulations() == grown.root_simulations() + n - fresh@.len(),
                    forall|j: int|
                        0 <= j < fresh@.len() ==> {
                            &&& (#[trigger] fresh@[j]).1 == first + j
                            &&& fresh@[j].0.wf()
                        },
                    forall|i: int| first <= i < first + n ==> #[trigger] grown.in_tree(i),
                    forall|i: int|
                        first + fresh@.len() <= i < first + n ==> (
                        #[trigger] tree.arena()[i]).simulations == 1,
                    forall|i: int|
                        first <= i < first + fresh@.len() ==> (
                        #[trigger] tree.arena()[i]).simulations == 0,
                    forall|i: int|
                        first <= i < first + n ==> #[trigger] grown.is_new_child(i, leaf as int),
                    0 <= leaf < first,
                    forall|i: int|
                        0 <= i < first && !grown.leads_to(leaf as int, i) ==> (
                        #[trigger] tree.arena()[i]).counts_after(grown.arena()[i], None),
                decreases fresh@.len(),
            {
                let ghost mid = *tree;
                let ghost last = fresh@.len() - 1;
                let ghost top = fresh@[last];
                let pair = fresh.pop().unwrap();
                proof {
                    assert(pair == top);
                    assert(pair.1 == first + last);
                    assert(grown.in_tree(pair.1 as int));
                    assert(tree.same_links(grown));
                    tree.lemma_links_fix_positions(grown, pair.1 as int);
                }
                let outcome = simulation_phase(pair.0);
                backpropagation(tree, outcome, pair.1);
                proof {
                    mid.lemma_credit_reaches_root(pair.1 as int, outcome);
                    assert forall|i: int| 0 <= i < grown.arena().len() implies {
                        &&& (#[trigger] tree.arena()[i]).same_shape(grown.arena()[i])
                        &&& tree.arena()[i].grew_from(grown.arena()[i])
                    } by {
                        assert(tree.arena()[i].same_shape(mid.arena()[i]));
                        assert(mid.arena()[i].same_shape(grown.arena()[i]));
                        assert(mid.arena()[i].grew_from(grown.arena()[i]));
                    }
                    let c = pair.1 as int;
                    assert(mid.same_links(grown));
                    assert forall|i: int| 0 <= i < grown.arena().len() implies (mid.credited(
                        c,
                        outcome,
                        i,
                    ) is Some <==> i == c || grown.leads_to(leaf as int, i)) by {
                        mid.lemma_credit_follows_links(c, outcome, i);
                        mid.lemma_links_fix_paths(grown, c, i);
                        assert(grown.is_new_child(c, leaf as int));
                    }
                    assert forall|i: int|
                        first + fresh@.len() <= i < first + n implies (
                    #[trigger] tree.arena()[i]).simulations == 1 by {
                        assert(tree.arena()[i].same_shape(mid.arena()[i]));
                        if grown.leads_to(leaf as int, i) {
                            grown.lemma_links_lead_up(leaf as int, i);
                        }
                    }
                    assert forall|i: int| first <= i < first + fresh@.len() implies (
                    #[trigger] tree.arena()[i]).simulations == 0 by {
                        assert(tree.arena()[i].same_shape(mid.arena()[i]));
                        if grown.leads_to(leaf as int, i) {
                            grown.lemma_links_lead_up(leaf as int, i);
                        }
                    }
                    assert forall|i: int|
                        0 <= i < first && !grown.leads_to(leaf as int, i) implies (
                    #[trigger] tree.arena()[i]).counts_after(grown.arena()[i], None) by {
                        assert(tree.arena()[i].same_shape(mid.arena()[i]));
                    }
                }
            }
            proof {
                assert(tree.same_links(grown));
                assert forall|i: int| tree.in_tree(i) && i != tree.root() implies (
                #[trigger] tree.arena()[i]).simulations >= 1 by {
                    tree.lemma_links_fix_positions(grown, i);
                    assert(tree.arena()[i].grew_from(grown.arena()[i]));
                }
                assert(tree.extends(grown));
                tree.lemma_extends_transitive(grown, before);
                assert(before.selects(score, before.root(), leaf as int));
                assert forall|i: int|
                    0 <= i < first && !before.leads_to(leaf as int, i) implies (
                #[trigger] tree.arena()[i]).counts_after(before.arena()[i], None) by {
                    grown.lemma_links_fix_paths(before, leaf as int, i);
                    assert(tree.arena()[i].counts_after(grown.arena()[i], None));
                    before.lemma_links_lead_up(leaf as int, leaf as int);
                    if i != leaf {
                        assert(grown.arena()[i] == before.arena()[i]);
                    }
                }
                assert forall|i: int| first <= i < tree.arena().len() implies tree.is_first_visit(
                    i,
                    leaf as int,
                ) by {
                    assert(grown.is_new_child(i, leaf as int));
                    assert(tree.arena()[i].same_shape(grown.arena()[i]));
                    tree.lemma_links_fix_positions(grown, i);
                }
            }
        },
        NodeType::End(node) => {
            let board = extract_board(tree, node);
            let outcome = simulation_phase(board);
            backpropagation(tree, outcome, node);
            proof {
                before.lemma_credit_reaches_root(node as int, outcome);
                assert(tree.same_links(before));
                assert forall|i: int| tree.in_tree(i) && i != tree.root() implies (
                #[trigger] tree.arena()[i]).simulations >= 1 by {
                    tree.lemma_links_fix_positions(before, i);
                    assert(tree.arena()[i].same_shape(before.arena()[i]));
                    assert(before.arena()[i].simulations >= 1);
                }
                assert forall|i: int| 0 <= i < before.arena().len() implies (
                #[trigger] tree.arena()[i]).grew_from(before.arena()[i]) by {
                    assert(tree.arena()[i].same_shape(before.arena()[i]));
                }
                assert(before.selects(score, before.root(), node as int));
                assert forall|i: int|
                    0 <= i < before.arena().len() && !before.leads_to(node as int, i) implies (
                #[trigger] tree.arena()[i]).counts_after(before.arena()[i], None) by {
                    before.lemma_credit_follows_links(node as int, outcome, i);
                }
            }
        },
    }
}

/// Whether the counters can take the rollouts of one more iteration:
/// whether the root's simulation count and `batch` together stay within the
/// range of the counters.
pub fn has_room<G: GameState>(tree: &Tree<G>, batch: usize) -> (r: bool)
    requires
        tree.wf(),
    ensures
        r == (tree.root_simulations() + batch <= u32::MAX),
{
    let used = tree.node(tree.root_index()).simulations;
    batch <= (u32::MAX - used) as usize
}

/// Runs iterations of the search under the budget `mode` and returns the
/// tree. An iteration expands up to `batch` children. With an iteration
/// count, that many iterations are run. With a time span, iterations are
/// started until the span has passed; the clock is read between iterations
/// only. In both modes the search also stops when the counters of the root
/// cannot take another iteration.
pub fn engine<G: GameState, F: Fn(u32, u32, u32, u32) -> u64>(
    tree: Tree<G>,
    mode: Mode,
    batch: usize,
    score: &F,
) -> (found: Tree<G>)
    requires
        tree.wf(),
        tree.settled(),
        scores_all(score),
        batch >= 1,
    ensures
        found.wf(),
        found.settled(),
        found.extends(tree),
        exists|done: nat|
            {
                &&& #[trigger] found.searched_from(tree, score, batch as int, done)
                &&& mode matches Mode::Iterations(iterations) ==> done <= iterations && (done
                    == iterations || found.root_simulations() + batch > u32::MAX)
            },
        mode matches Mode::Iterations(iterations) ==> found.root_simulations()
            <= tree.root_simulations() + iterations * batch,
        mode matches Mode::Iterations(iterations) ==> (tree.root_simulations() + iterations * batch
            <= u32::MAX ==> found.root_simulations() >= tree.root_simulations() + iterations),
{
    let ghost before = tree;
    let mut tree = tree;
    let ghost mut trace: Seq<Tree<G>> = seq![before];
    proof {
        assert(tree.extends(before)) by {
            assert forall|i: int| 0 <= i < before.arena().len() implies (
            #[trigger] tree.arena()[i]).grew_from(before.arena()[i]) by {
                assert(before.arena()[i].children@ =~= tree.arena()[i].children@.subrange(
                    0,
                    before.arena()[i].children@.len() as int,
                ));
            }
        }
    }
    match mode {
        Mode::Iterations(iterations) => {
            let mut done: usize = 0;
            while done < iterations && has_room(&tree, batch)
                invariant
                    tree.wf(),
                    tree.settled(),
                    tree.extends(before),
                    scores_all(score),
                    batch >= 1,
                    done <= iterations,
                    Tree::is_trace(trace, score, batch as int),
                    trace.len() == done + 1,
                    trace[0] == before,
                    trace[done as int] == tree,
                    before.root_simulations() + done <= tree.root_simulations()
                        <= before.root_simulations() + done * batch,
                decreases iterations - done,
            {
                let ghost mid = tree;
                algorithm(&mut tree, batch, score);
                proof {
                    tree.lemma_extends_transitive(mid, before);
                    tree.lemma_iteration_counts(mid, score, batch as int);
                    assert((done + 1) * batch == done * batch + batch) by (nonlinear_arith);
                    let longer = trace.push(tree);
                    assert forall|i: int| 0 <= i < longer.len() - 1 implies (
                    #[trigger] longer[i + 1]).iterated_from(longer[i], score, batch as int) by {
                        if i < trace.len() - 1 {
                            assert(trace[i + 1].iterated_from(trace[i], score, batch as int));
                        }
                    }
                    trace = longer;
                }
                done = done + 1;
            }
            proof {
                assert(done * batch <= iterations * batch) by (nonlinear_arith)
                    requires
                        done <= iterations,
                        batch >= 1,
                ;
                if done < iterations {
                    assert((done + 1) * batch <= iterations * batch) by (nonlinear_arith)
                        requires
                            done + 1 <= iterations,
                            batch >= 1,
                    ;
                    assert((done + 1) * batch == done * batch + batch) by (nonlinear_arith);
                }
            }
        },
        Mode::Time(span) => {
            let start = now();
            while has_room(&tree, batch)
                invariant
                    tree.wf(),
                    tree.settled(),
                    tree.extends(before),
                    scores_all(score),
                    batch >= 1,
                    Tree::is_trace(trace, score, batch as int),
                    trace.len() >= 1,
                    trace[0] == before,
                    trace[trace.len() - 1] == tree,
                decreases u32::MAX - tree.root_simulations(),
            {
                let passed = elapsed(&start);
                if !shorter(&passed, &span) {
                    break ;
                }
                let ghost mid = tree;
                algorithm(&mut tree, batch, score);
                proof {
                    tree.lemma_extends_transitive(mid, before);
                    tree.lemma_iteration_counts(mid, score, batch as int);
                    let longer = trace.push(tree);
                    assert forall|i: int| 0 <= i < longer.len() - 1 implies (
                    #[trigger] longer[i + 1]).iterated_from(longer[i], score, batch as int) by {
                        if i < trace.len() - 1 {
                            assert(trace[i + 1].iterated_from(trace[i], score, batch as int));
                        }
                    }
                    trace = longer;
                }
            }
        },
    }
    proof {
        assert(tree.searched_from(before, score, batch as int, (trace.len() - 1) as nat));
    }
    tree
}

} // verus!
