//! Reclaiming the arena: a tree with the nodes below the root and no
//! others.

use vstd::prelude::*;
use super::game::GameState;
use super::tree::{Node, Origin, Tree};

verus! {

impl<G: GameState> Tree<G> {
    /// The number of nodes of the tree with an index below `i`: the index
    /// that node `i` has once all other nodes are gone.
    pub open spec fn kept_before(&self, i: int) -> int
        decreases i,
    {
        if i <= 0 {
            0
        } else {
            self.kept_before(i - 1) + if self.in_tree(i - 1) {
                1int
            } else {
                0int
            }
        }
    }

    /// Whether `copy` is node `i` of this tree with every index replaced by
    /// the index that the node has once all other nodes are gone.
    pub open spec fn is_packed(&self, copy: Node<G>, i: int) -> bool {
        let node = self.arena()[i];
        &&& copy.counts_after(node, None)
        &&& copy.untried_moves == node.untried_moves
        &&& copy.children@.len() == node.children@.len()
        &&& forall|k: int|
            0 <= k < node.children@.len() ==> (#[trigger] copy.children@[k]) == self.kept_before(
                node.children@[k] as int,
            )
        &&& match node.origin {
            Origin::Root(state) => copy.origin == Origin::<G>::Root(state),
            Origin::Parent(p, mv) => copy.origin == Origin::<G>::Parent(
                self.kept_before(p as int) as usize,
                mv,
            ),
        }
    }

    /// Whether `packed` node by node is the tree below the root of this
    /// tree, in the same order, and has no other nodes.
    pub open spec fn packs_to(&self, packed: Tree<G>) -> bool {
        &&& packed.root() == 0
        &&& packed.arena().len() == self.kept_before(self.arena().len() as int)
        &&& forall|i: int|
            self.in_tree(i) ==> #[trigger] self.is_packed(packed.arena()[self.kept_before(i)], i)
    }

    /// The count of nodes does not go down with the index, and does not go
    /// up faster than the index.
    pub proof fn lemma_kept_grows(&self, i: int, k: int)
        requires
            0 <= i <= k,
        ensures
            0 <= self.kept_before(i) <= self.kept_before(k),
            self.kept_before(i) <= i,
            self.kept_before(k) - self.kept_before(i) <= k - i,
            i < k && self.in_tree(i) ==> self.kept_before(i) < self.kept_before(k),
        decreases k,
    {
        if i < k {
            self.lemma_kept_grows(i, k - 1);
        } else {
            self.lemma_kept_start(i);
        }
    }

    /// The count of nodes is within the index.
    pub proof fn lemma_kept_start(&self, i: int)
        requires
            0 <= i,
        ensures
            0 <= self.kept_before(i) <= i,
        decreases i,
    {
        if i > 0 {
            self.lemma_kept_start(i - 1);
        }
    }

    /// The node of the tree that gets the index `j`.
    pub proof fn lemma_kept_node(&self, n: int, j: int) -> (i: int)
        requires
            0 <= n <= self.arena().len(),
            0 <= j < self.kept_before(n),
        ensures
            0 <= i < n,
            self.in_tree(i),
            self.kept_before(i) == j,
        decreases n,
    {
        self.lemma_kept_start(n - 1);
        if self.in_tree(n - 1) && self.kept_before(n - 1) == j {
            n - 1
        } else {
            self.lemma_kept_node(n - 1, j)
        }
    }

    /// Two nodes of the tree that get the same index are the same node.
    pub proof fn lemma_kept_apart(&self, i: int, k: int)
        requires
            self.in_tree(i),
            self.in_tree(k),
            self.kept_before(i) == self.kept_before(k),
        ensures
            i == k,
    {
        if i < k {
            self.lemma_kept_grows(i, k);
        }
        if k < i {
            self.lemma_kept_grows(k, i);
        }
    }

    /// No node of the tree has an index below the root.
    pub proof fn lemma_root_is_first(&self, i: int)
        requires
            self.wf(),
            self.in_tree(i),
        ensures
            self.root() <= i,
        decreases i,
    {
        if i != self.root() {
            assert(self.node_ok(i, 0));
            match self.arena()[i].origin {
                Origin::Root(_) => {},
                Origin::Parent(p, _) => {
                    self.lemma_root_is_first(p as int);
                },
            }
        }
    }

    /// No node with an index below the root counts.
    pub proof fn lemma_kept_root(&self, i: int)
        requires
            self.wf(),
            0 <= i <= self.root(),
        ensures
            self.kept_before(i) == 0,
        decreases i,
    {
        if i > 0 {
            self.lemma_kept_root(i - 1);
            if self.in_tree(i - 1) {
                self.lemma_root_is_first(i - 1);
            }
        }
    }

    /// In a tree that packs this one, every node is below the root at the
    /// position that it had.
    pub proof fn lemma_packed_positions(&self, packed: Tree<G>, i: int)
        requires
            self.wf(),
            self.packs_to(packed),
            self.in_tree(i),
        ensures
            packed.in_tree(self.kept_before(i)),
            packed.model_at(self.kept_before(i)) == self.model_at(i),
        decreases i,
    {
        let j = self.kept_before(i);
        self.lemma_kept_grows(i, self.arena().len() as int);
        self.lemma_len_fits();
        assert(self.is_packed(packed.arena()[j], i));
        assert(self.node_ok(i, 0));
        match self.arena()[i].origin {
            Origin::Root(_) => {
                self.lemma_kept_root(i);
            },
            Origin::Parent(p, _) => {
                self.lemma_packed_positions(packed, p as int);
                self.lemma_kept_grows(p as int, i);
            },
        }
    }

    /// A tree that packs this one is in order, and its nodes have been
    /// through a rollout where those of this tree have.
    pub proof fn lemma_packed_in_order(&self, packed: Tree<G>)
        requires
            self.wf(),
            self.packs_to(packed),
        ensures
            packed.wf(),
            self.settled() ==> packed.settled(),
            forall|j: int| 0 <= j < packed.arena().len() ==> #[trigger] packed.in_tree(j),
    {
        let n = self.arena().len() as int;
        self.lemma_len_fits();
        self.lemma_kept_root(self.root());
        self.lemma_kept_grows(self.root(), n);
        assert(self.in_tree(self.root()));
        assert(self.is_packed(packed.arena()[0], self.root()));
        assert forall|j: int| 0 <= j < packed.arena().len() implies #[trigger] packed.in_tree(
            j,
        ) && packed.node_ok(j, 0) && (self.settled() && j != 0 ==> packed.arena()[j].simulations
            >= 1) by {
            let i = self.lemma_kept_node(n, j);
            let copy = packed.arena()[j];
            let node = self.arena()[i];
            self.lemma_packed_positions(packed, i);
            assert(self.is_packed(copy, i));
            assert(self.node_ok(i, 0));
            if j != 0 && i == self.root() {
                self.lemma_kept_root(i);
            }
            match node.origin {
                Origin::Root(_) => {},
                Origin::Parent(p, _) => {
                    self.lemma_packed_positions(packed, p as int);
                    self.lemma_kept_grows(p as int, i);
                    self.lemma_kept_grows(p as int, n);
                    assert(self.is_packed(packed.arena()[self.kept_before(p as int)], p as int));
                },
            }
            assert forall|k: int| 0 <= k < copy.children@.len() implies {
                &&& j < #[trigger] copy.children@[k] < packed.arena().len()
                &&& packed.parent(copy.children@[k] as int) == Some(j)
            } by {
                let c = node.children@[k] as int;
                assert(i < c < n);
                assert(self.parent(c) == Some(i));
                self.lemma_child_in_tree(i, k);
                self.lemma_kept_grows(i, c);
                self.lemma_kept_grows(c, n);
                assert(self.is_packed(packed.arena()[self.kept_before(c)], c));
            }
            assert(packed.child_moves(j) =~= self.child_moves(i)) by {
                assert forall|k: int| 0 <= k < copy.children@.len() implies packed.child_moves(
                    j,
                )[k] == self.child_moves(i)[k] by {
                    let c = node.children@[k] as int;
                    assert(i < c < n);
                    self.lemma_child_in_tree(i, k);
                    self.lemma_kept_grows(c, n);
                    assert(self.is_packed(packed.arena()[self.kept_before(c)], c));
                    assert(copy.children@[k] == self.kept_before(c));
                }
            }
        }
    }
}


/// The index that each node has once the nodes outside the tree are gone;
/// `None` for a node outside the tree.
fn new_indices<G: GameState>(tree: &Tree<G>) -> (remap: Vec<Option<usize>>)
    requires
        tree.wf(),
    ensures
        remap@.len() == tree.arena().len(),
        forall|i: int|
            0 <= i < remap@.len() ==> #[trigger] remap@[i] == (if tree.in_tree(i) {
                Some(tree.kept_before(i) as usize)
            } else {
                None
            }),
{
    let n = tree.len();
    let root = tree.root_index();
    let mut remap: Vec<Option<usize>> = Vec::new();
    let mut next: usize = 0;
    let mut i: usize = 0;
    while i < n
        invariant
            tree.wf(),
            n == tree.arena().len(),
            root == tree.root(),
            i <= n,
            remap@.len() == i,
            next == tree.kept_before(i as int),
            next <= i,
            forall|j: int|
                0 <= j < i ==> #[trigger] remap@[j] == (if tree.in_tree(j) {
                    Some(tree.kept_before(j) as usize)
                } else {
                    None
                }),
        decreases n - i,
    {
        let keep = if i == root {
            true
        } else {
            match &tree.node(i).origin {
                Origin::Root(_) => false,
                Origin::Parent(p, _) => *p < i && remap[*p].is_some(),
            }
        };
        proof {
            tree.lemma_kept_start(i as int);
            assert(keep == tree.in_tree(i as int));
        }
        if keep {
            remap.push(Some(next));
            next = next + 1;
        } else {
            remap.push(None);
        }
        i = i + 1;
    }
    remap
}

/// The children with their new indices.
fn new_children<G: GameState>(
    children: &Vec<usize>,
    remap: &Vec<Option<usize>>,
    Ghost(tree): Ghost<Tree<G>>,
    Ghost(i): Ghost<int>,
) -> (moved: Vec<usize>)
    requires
        tree.wf(),
        tree.in_tree(i),
        children@ == tree.arena()[i].children@,
        remap@.len() == tree.arena().len(),
        forall|j: int|
            0 <= j < remap@.len() ==> #[trigger] remap@[j] == (if tree.in_tree(j) {
                Some(tree.kept_before(j) as usize)
            } else {
                None
            }),
    ensures
        moved@.len() == children@.len(),
        forall|k: int|
            0 <= k < children@.len() ==> (#[trigger] moved@[k]) == tree.kept_before(
                children@[k] as int,
            ),
{
    let mut moved: Vec<usize> = Vec::new();
    let mut k: usize = 0;
    while k < children.len()
        invariant
            tree.wf(),
            tree.in_tree(i),
            children@ == tree.arena()[i].children@,
            remap@.len() == tree.arena().len(),
            forall|j: int|
                0 <= j < remap@.len() ==> #[trigger] remap@[j] == (if tree.in_tree(j) {
                    Some(tree.kept_before(j) as usize)
                } else {
                    None
                }),
            k <= children@.len(),
            moved@.len() == k,
            forall|j: int|
                0 <= j < k ==> (#[trigger] moved@[j]) == tree.kept_before(children@[j] as int),
        decreases children@.len() - k,
    {
        proof {
            tree.lemma_child_in_tree(i, k as int);
            let c = children@[k as int] as int;
            tree.lemma_kept_start(c);
            tree.lemma_len_fits();
            assert(remap@[c] == Some(tree.kept_before(c) as usize));
        }
        let c = children[k];
        moved.push(remap[c].unwrap());
        k = k + 1;
    }
    moved
}

/// A tree with the nodes below the root of `tree` and no others. The nodes
/// keep their order, their statistics, their untried moves and their
/// positions; the root gets the index 0.
pub fn compact<G: GameState>(tree: Tree<G>) -> (packed: Tree<G>)
    requires
        tree.wf(),
    ensures
        packed.wf(),
        tree.settled() ==> packed.settled(),
        tree.packs_to(packed),
        forall|j: int| 0 <= j < packed.arena().len() ==> #[trigger] packed.in_tree(j),
        forall|i: int|
            tree.in_tree(i) ==> #[trigger] packed.model_at(tree.kept_before(i)) == tree.model_at(i),
{
    let remap = new_indices(&tree);
    let ghost total = tree.kept_before(tree.arena().len() as int);
    let (mut nodes, _root) = tree.into_parts();
    let mut reversed: Vec<Node<G>> = Vec::new();
    let ghost mut from: Seq<int> = Seq::empty();
    proof {
        tree.lemma_len_fits();
    }
    while nodes.len() > 0
        invariant
            tree.wf(),
            nodes@ == tree.arena().take(nodes@.len() as int),
            nodes@.len() <= tree.arena().len(),
            total == tree.kept_before(tree.arena().len() as int),
            remap@.len() == tree.arena().len(),
            forall|j: int|
                0 <= j < remap@.len() ==> #[trigger] remap@[j] == (if tree.in_tree(j) {
                    Some(tree.kept_before(j) as usize)
                } else {
                    None
                }),
            from.len() == reversed@.len(),
            reversed@.len() == total - tree.kept_before(nodes@.len() as int),
            forall|t: int|
                0 <= t < from.len() ==> {
                    &&& tree.in_tree(#[trigger] from[t])
                    &&& tree.kept_before(from[t]) == total - 1 - t
                    &&& tree.is_packed(reversed@[t], from[t])
                },
        decreases nodes@.len(),
    {
        let ghost i = nodes@.len() - 1;
        let node = nodes.pop().unwrap();
        let index = nodes.len();
        proof {
            assert(node == tree.arena()[i]);
            assert(nodes@ =~= tree.arena().take(i));
            tree.lemma_kept_grows(i, tree.arena().len() as int);
        }
        if remap[index].is_some() {
            proof {
                assert(tree.in_tree(i));
                assert(tree.node_ok(i, 0));
            }
            let Node { simulations, win_count, draw_count, untried_moves, children, origin } = node;
            let moved = new_children::<G>(&children, &remap, Ghost(tree), Ghost(i));
            let origin = match origin {
                Origin::Root(state) => Origin::Root(state),
                Origin::Parent(p, mv) => {
                    proof {
                        assert(tree.in_tree(p as int));
                        assert(remap@[p as int] == Some(tree.kept_before(p as int) as usize));
                    }
                    Origin::Parent(remap[p].unwrap(), mv)
                },
            };
            let copy = Node {
                simulations,
                win_count,
                draw_count,
                untried_moves,
                children: moved,
                origin,
            };
            proof {
                assert(tree.is_packed(copy, i));
                from = from.push(i);
            }
            reversed.push(copy);
        }
    }
    let mut packed: Vec<Node<G>> = Vec::new();
    let ghost all = reversed@;
    proof {
        assert(tree.kept_before(0) == 0);
    }
    while reversed.len() > 0
        invariant
            all.len() == total,
            reversed@ == all.take(reversed@.len() as int),
            reversed@.len() <= all.len(),
            packed@.len() == total - reversed@.len(),
            forall|j: int| 0 <= j < packed@.len() ==> #[trigger] packed@[j] == all[total - 1 - j],
        decreases reversed@.len(),
    {
        let ghost t = reversed@.len() - 1;
        let node = reversed.pop().unwrap();
        proof {
            assert(node == all[t]);
            assert(reversed@ =~= all.take(t));
        }
        packed.push(node);
    }
    let packed = Tree::from_parts(packed, 0);
    proof {
        assert forall|i: int| tree.in_tree(i) implies #[trigger] tree.is_packed(
            packed.arena()[tree.kept_before(i)],
            i,
        ) by {
            let j = tree.kept_before(i);
            tree.lemma_kept_grows(i, tree.arena().len() as int);
            let t = total - 1 - j;
            assert(packed.arena()[j] == all[t]);
            assert(tree.in_tree(from[t]));
            tree.lemma_kept_apart(from[t], i);
        }
        tree.lemma_packed_in_order(packed);
        assert forall|i: int| tree.in_tree(i) implies #[trigger] packed.model_at(
            tree.kept_before(i),
        ) == tree.model_at(i) by {
            tree.lemma_packed_positions(packed, i);
        }
    }
    packed
}

} // verus!
