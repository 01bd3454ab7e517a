use game_tree_search::monte_carlo_tree_search::{
    algorithm, backpropagation, child_keys, compact, create_root_node, engine, expand_move, expansion_phase,
    extract_board, first_maximum, has_room, selection_phase, simulation_phase, simulation_step,
    trim_tree, GameState, Mode, NodeType, Origin, Output, Player, Tree,
};
use game_tree_search::tic_tac_toe::{Board, Move};
use std::time::Duration;

fn ucb(wins: u32, draws: u32, simulations: u32, parent_simulations: u32) -> u64 {
    assert!(simulations >= 1);
    assert!(parent_simulations >= simulations);
    let win_rate = (wins as f64 * 2.0 + draws as f64) / (simulations as f64 * 2.0);
    let spread = (2.0 * (parent_simulations as f64).ln() / simulations as f64).sqrt();
    let score = win_rate + 2.0f64.sqrt() * spread;
    assert!(!score.is_nan());
    assert!(score >= 0.0);
    score.to_bits()
}

fn check_counters<G: GameState>(tree: &Tree<G>) {
    let mut stack = vec![tree.root_index()];
    while let Some(i) = stack.pop() {
        let node = tree.node(i);
        assert!(node.simulations >= node.win_count + node.draw_count);
        assert_eq!(
            node.losses(),
            node.simulations - node.win_count - node.draw_count
        );
        for &c in node.children.iter() {
            let child = tree.node(c);
            assert!(node.simulations >= child.simulations);
            assert!(child.simulations >= 1);
            assert!(c > i);
            match &child.origin {
                Origin::Parent(p, _) => assert_eq!(*p, i),
                Origin::Root(_) => panic!("a child holds a position"),
            }
            stack.push(c);
        }
    }
}

/// A game of one move. Move 0 ends the game with a win for the player who
/// is to move afterwards, move 1 with a loss.
#[derive(Clone, Copy, PartialEq, Eq, Debug)]
enum Stub {
    Start,
    WonByNext,
    LostByNext,
}

impl GameState for Stub {
    type Move = u8;
    type Model = ();

    fn model(&self) {}

    fn wf(&self) -> bool {
        true
    }

    fn legal(_: ()) -> vstd::seq::Seq<u8> {
        unreachable!()
    }

    fn playable(_: (), _: u8) -> bool {
        true
    }

    fn after(_: (), _: u8) {}

    fn outcome(_: (), _: Player) -> Option<Output> {
        None
    }

    fn mover(_: ()) -> Player {
        Player::Host
    }

    fn horizon(_: ()) -> vstd::prelude::nat {
        unreachable!()
    }

    fn legal_moves_are_playable(&self, _: vstd::prelude::int) {}

    fn moves_shorten_the_game(&self, _: u8, _: Player) {}

    fn duplicate(&self) -> Self {
        *self
    }

    fn legal_moves(&self) -> Vec<u8> {
        match self {
            Stub::Start => vec![0, 1],
            _ => Vec::new(),
        }
    }

    fn apply(&mut self, mv: u8) {
        *self = if mv == 0 {
            Stub::WonByNext
        } else {
            Stub::LostByNext
        };
    }

    fn terminal_outcome(&self, perspective: Player) -> Option<Output> {
        let next = self.to_move();
        match self {
            Stub::Start => None,
            Stub::WonByNext => Some(if perspective == next {
                Output::Win
            } else {
                Output::Loss
            }),
            Stub::LostByNext => Some(if perspective == next {
                Output::Loss
            } else {
                Output::Win
            }),
        }
    }

    fn random_move(&self) -> Option<u8> {
        match self {
            Stub::Start => Some(0),
            _ => None,
        }
    }

    fn to_move(&self) -> Player {
        match self {
            Stub::Start => Player::Guest,
            _ => Player::Host,
        }
    }
}

/// A position that is not over but whose move source has no move.
#[derive(Clone, Copy)]
struct Stuck;

impl GameState for Stuck {
    type Move = u8;
    type Model = ();

    fn model(&self) {}

    fn wf(&self) -> bool {
        true
    }

    fn legal(_: ()) -> vstd::seq::Seq<u8> {
        unreachable!()
    }

    fn playable(_: (), _: u8) -> bool {
        true
    }

    fn after(_: (), _: u8) {}

    fn outcome(_: (), _: Player) -> Option<Output> {
        None
    }

    fn mover(_: ()) -> Player {
        Player::Host
    }

    fn horizon(_: ()) -> vstd::prelude::nat {
        unreachable!()
    }

    fn legal_moves_are_playable(&self, _: vstd::prelude::int) {}

    fn moves_shorten_the_game(&self, _: u8, _: Player) {}

    fn duplicate(&self) -> Self {
        Stuck
    }

    fn legal_moves(&self) -> Vec<u8> {
        vec![7]
    }

    fn apply(&mut self, _mv: u8) {}

    fn terminal_outcome(&self, _perspective: Player) -> Option<Output> {
        None
    }

    fn random_move(&self) -> Option<u8> {
        None
    }

    fn to_move(&self) -> Player {
        Player::Host
    }
}

#[test]
fn player_and_output_flip() {
    assert_eq!(Player::Host.opponent(), Player::Guest);
    assert_eq!(Player::Guest.opponent(), Player::Host);
    assert_eq!(Output::Win.flip(), Output::Loss);
    assert_eq!(Output::Loss.flip(), Output::Win);
    assert_eq!(Output::Draw.flip(), Output::Draw);
}

#[test]
fn root_node_starts_empty() {
    let tree = create_root_node(Board::empty());
    assert_eq!(tree.len(), 1);
    assert_eq!(tree.root_index(), 0);
    let root = tree.node(0);
    assert_eq!(root.simulations, 0);
    assert_eq!(root.win_count, 0);
    assert_eq!(root.draw_count, 0);
    assert_eq!(root.untried_moves, Board::empty().all_legal_moves());
    assert!(root.children.is_empty());
    assert!(matches!(root.origin, Origin::Root(_)));
}

#[test]
fn first_maximum_keeps_first_among_equals() {
    assert_eq!(first_maximum(&vec![5]), 0);
    assert_eq!(first_maximum(&vec![1, 9, 3, 9]), 1);
    assert_eq!(first_maximum(&vec![0, 0, 0]), 0);
    assert_eq!(first_maximum(&vec![2, 3, 4]), 2);
    assert_eq!(first_maximum(&vec![u64::MAX, 1, u64::MAX]), 0);
}

#[test]
fn selection_returns_root_with_untried_moves() {
    let tree = create_root_node(Board::empty());
    let target = selection_phase(&tree, &ucb);
    assert!(matches!(target, NodeType::Leaf(0)));
    assert_eq!(target.index(), 0);
}

#[test]
fn iterations_with_batch_one_count_one_simulation_each() {
    let tree = create_root_node(Board::empty());
    let tree = engine(tree, Mode::Iterations(200), 1, &ucb);
    assert_eq!(tree.node(tree.root_index()).simulations, 200);
    check_counters(&tree);
    let tree = engine(tree, Mode::Iterations(50), 1, &ucb);
    assert_eq!(tree.node(tree.root_index()).simulations, 250);
}

#[test]
fn iterations_with_larger_batch_count_rollouts() {
    let tree = create_root_node(Board::empty());
    // The root has eight untried moves: the first iteration expands five,
    // the second the remaining three.
    let mut tree = tree;
    algorithm(&mut tree, 5, &ucb);
    assert_eq!(tree.node(0).simulations, 5);
    assert_eq!(tree.node(0).children.len(), 5);
    assert_eq!(tree.node(0).untried_moves.len(), 3);
    assert_eq!(tree.len(), 6);
    algorithm(&mut tree, 5, &ucb);
    assert_eq!(tree.node(0).simulations, 8);
    assert_eq!(tree.node(0).children.len(), 8);
    assert_eq!(tree.node(0).untried_moves.len(), 0);
    assert_eq!(tree.len(), 9);
    let before = tree.node(0).simulations;
    let tree = engine(tree, Mode::Iterations(40), 5, &ucb);
    let after = tree.node(0).simulations;
    assert!(after >= before + 40);
    assert!(after <= before + 200);
    check_counters(&tree);
}

#[test]
fn zero_iterations_change_nothing() {
    let tree = create_root_node(Board::empty());
    let tree = engine(tree, Mode::Iterations(0), 1, &ucb);
    assert_eq!(tree.len(), 1);
    assert_eq!(tree.node(0).simulations, 0);
}

#[test]
fn time_budget_runs_and_stops() {
    let tree = create_root_node(Board::empty());
    let tree = engine(tree, Mode::Time(Duration::from_millis(50)), 1, &ucb);
    assert!(tree.node(0).simulations > 0);
    check_counters(&tree);
    let spent = tree.node(0).simulations;
    let tree = engine(tree, Mode::Time(Duration::from_millis(0)), 1, &ucb);
    assert_eq!(tree.node(0).simulations, spent);
}

#[test]
fn has_room_tells_when_counters_fit() {
    let tree = create_root_node(Board::empty());
    assert!(has_room(&tree, 1));
    assert!(has_room(&tree, u32::MAX as usize));
    assert!(!has_room(&tree, u32::MAX as usize + 1));
}

#[test]
fn perspective_flips_on_the_way_up() {
    let mut tree = create_root_node(Stub::Start);
    let fresh = expansion_phase(&mut tree, 0, 2);
    assert_eq!(fresh.len(), 2);
    let mut won_child = 0;
    let mut lost_child = 0;
    for (state, child) in fresh {
        let outcome = simulation_phase(state);
        match state {
            Stub::WonByNext => {
                assert_eq!(outcome, Output::Win);
                won_child = child;
            }
            Stub::LostByNext => {
                assert_eq!(outcome, Output::Loss);
                lost_child = child;
            }
            Stub::Start => panic!("no move was played"),
        }
        backpropagation(&mut tree, outcome, child);
    }
    assert_eq!(tree.node(won_child).simulations, 1);
    assert_eq!(tree.node(won_child).win_count, 1);
    assert_eq!(tree.node(won_child).draw_count, 0);
    assert_eq!(tree.node(lost_child).simulations, 1);
    assert_eq!(tree.node(lost_child).win_count, 0);
    assert_eq!(tree.node(lost_child).draw_count, 0);
    // The path through the won child is a loss for the root, the path
    // through the lost child a win.
    assert_eq!(tree.node(0).simulations, 2);
    assert_eq!(tree.node(0).win_count, 1);
    assert_eq!(tree.node(0).draw_count, 0);
    assert_eq!(tree.node(0).losses(), 1);
}

#[test]
fn backpropagation_counts_draws_at_every_level() {
    let mut tree = create_root_node(Stub::Start);
    let fresh = expansion_phase(&mut tree, 0, 1);
    let child = fresh[0].1;
    backpropagation(&mut tree, Output::Draw, child);
    assert_eq!(tree.node(child).draw_count, 1);
    assert_eq!(tree.node(child).simulations, 1);
    assert_eq!(tree.node(0).draw_count, 1);
    assert_eq!(tree.node(0).win_count, 0);
    assert_eq!(tree.node(0).simulations, 1);
    backpropagation(&mut tree, Output::Loss, child);
    assert_eq!(tree.node(child).simulations, 2);
    assert_eq!(tree.node(child).win_count, 0);
    assert_eq!(tree.node(0).simulations, 2);
    assert_eq!(tree.node(0).win_count, 1);
}

#[test]
fn rollout_without_move_is_a_draw() {
    assert_eq!(simulation_phase(Stuck), Output::Draw);
    let mut board = Stuck;
    assert_eq!(simulation_step(&mut board, None), Some(Output::Draw));
    assert_eq!(simulation_step(&mut board, Some(7)), None);
}

#[test]
fn simulation_step_plays_the_move() {
    let mut board = Stub::Start;
    assert_eq!(simulation_step(&mut board, Some(1)), None);
    assert_eq!(board, Stub::LostByNext);
    let mut board = Stub::Start;
    assert_eq!(simulation_step(&mut board, None), Some(Output::Draw));
    assert_eq!(board, Stub::Start);
}

#[test]
fn rollout_of_final_position_returns_its_result() {
    assert_eq!(simulation_phase(Stub::WonByNext), Output::Win);
    assert_eq!(simulation_phase(Stub::LostByNext), Output::Loss);
    // From the start the move source plays move 0, which the guest makes;
    // the guest is the perspective and has lost to the next player.
    assert_eq!(simulation_phase(Stub::Start), Output::Loss);
}

#[test]
fn expansion_takes_every_untried_move_once() {
    let mut tree = create_root_node(Board::empty());
    let all = Board::empty().all_legal_moves();
    let fresh = expansion_phase(&mut tree, 0, 100);
    assert_eq!(fresh.len(), 8);
    assert_eq!(tree.len(), 9);
    assert!(tree.node(0).untried_moves.is_empty());
    assert_eq!(tree.node(0).children, vec![1, 2, 3, 4, 5, 6, 7, 8]);
    let mut seen: Vec<Move> = Vec::new();
    for (k, (state, child)) in fresh.iter().enumerate() {
        assert_eq!(*child, k + 1);
        let node = tree.node(*child);
        assert_eq!(node.simulations, 0);
        assert_eq!(node.win_count, 0);
        assert_eq!(node.draw_count, 0);
        assert!(node.children.is_empty());
        assert_eq!(node.untried_moves, state.all_legal_moves());
        assert_eq!(node.untried_moves.len(), 7);
        match &node.origin {
            Origin::Parent(p, mv) => {
                assert_eq!(*p, 0);
                assert!(all.contains(mv));
                assert!(!seen.contains(mv));
                seen.push(*mv);
            }
            Origin::Root(_) => panic!("a child holds a position"),
        }
    }
    assert_eq!(seen.len(), 8);
}

#[test]
fn expansion_of_zero_children_changes_nothing() {
    let mut tree = create_root_node(Board::empty());
    let fresh = expansion_phase(&mut tree, 0, 0);
    assert!(fresh.is_empty());
    assert_eq!(tree.len(), 1);
    assert_eq!(tree.node(0).untried_moves.len(), 8);
}

#[test]
fn expand_move_takes_the_move_at_the_position() {
    let mut tree = create_root_node(Board::empty());
    let board = Board::empty();
    let moves = board.all_legal_moves();
    let (state, child) = expand_move(&mut tree, 0, &board, 3);
    assert_eq!(child, 1);
    match &tree.node(1).origin {
        Origin::Parent(p, mv) => {
            assert_eq!(*p, 0);
            assert_eq!(*mv, moves[3]);
        }
        Origin::Root(_) => panic!("a child holds a position"),
    }
    let mut rest = moves.clone();
    rest.remove(3);
    assert_eq!(tree.node(0).untried_moves, rest);
    assert_eq!(tree.node(0).children, vec![1]);
    let mut expected = Board::empty();
    expected.apply_move(moves[3]);
    assert_eq!(state.all_legal_moves(), expected.all_legal_moves());
    assert_eq!(state.next_to_move(), expected.next_to_move());
}

#[test]
fn child_keys_come_from_the_scoring_function() {
    let mut tree = create_root_node(Stub::Start);
    let fresh = expansion_phase(&mut tree, 0, 2);
    for (state, child) in fresh {
        let outcome = simulation_phase(state);
        backpropagation(&mut tree, outcome, child);
    }
    let keys = child_keys(&tree, 0, &|w: u32, d: u32, n: u32, p: u32| {
        (w as u64) * 1000 + (d as u64) * 100 + (n as u64) * 10 + p as u64
    });
    let mut sorted = keys.clone();
    sorted.sort();
    assert_eq!(sorted, vec![12, 1012]);
    // The child with the win has the greater key and is selected. It has no
    // legal move, so the descent ends there.
    let target = selection_phase(&tree, &|w: u32, _d: u32, _n: u32, _p: u32| w as u64);
    let won = if keys[0] == 1012 { 1 } else { 2 };
    assert!(matches!(target, NodeType::End(i) if i == won));
    // With equal keys the oldest child is selected.
    let target = selection_phase(&tree, &|_w: u32, _d: u32, _n: u32, _p: u32| 4);
    assert!(matches!(target, NodeType::End(1)));
}

#[test]
fn scoring_never_sees_a_child_without_simulations() {
    let mut tree = create_root_node(Board::empty());
    for round in 0..300 {
        let batch = 1 + round % 4;
        algorithm(&mut tree, batch, &ucb);
        let target = selection_phase(&tree, &ucb);
        assert!(target.index() < tree.len());
    }
    check_counters(&tree);
}

#[test]
fn reconstruction_replays_the_moves() {
    let tree = create_root_node(Board::empty());
    let tree = engine(tree, Mode::Iterations(100), 1, &ucb);
    for i in 0..tree.len() {
        let mut path = Vec::new();
        let mut cur = i;
        loop {
            match &tree.node(cur).origin {
                Origin::Parent(p, mv) => {
                    path.push(*mv);
                    cur = *p;
                }
                Origin::Root(_) => break,
            }
        }
        let mut expected = Board::empty();
        for mv in path.iter().rev() {
            expected.apply_move(*mv);
        }
        let first = extract_board(&tree, i);
        let second = extract_board(&tree, i);
        assert_eq!(first.all_legal_moves(), expected.all_legal_moves());
        assert_eq!(first.next_to_move(), expected.next_to_move());
        assert_eq!(first.finished(Player::Guest), expected.finished(Player::Guest));
        assert_eq!(first.all_legal_moves(), second.all_legal_moves());
        assert_eq!(first.next_to_move(), second.next_to_move());
        assert_eq!(first.finished(Player::Host), second.finished(Player::Host));
    }
}

#[test]
fn reroot_keeps_the_statistics() {
    let tree = create_root_node(Board::empty());
    let tree = engine(tree, Mode::Iterations(300), 1, &ucb);
    let child = tree.node(0).children[2];
    let simulations = tree.node(child).simulations;
    let wins = tree.node(child).win_count;
    let draws = tree.node(child).draw_count;
    let children = tree.node(child).children.clone();
    let untried = tree.node(child).untried_moves.clone();
    let grandchild_simulations: Vec<u32> =
        children.iter().map(|c| tree.node(*c).simulations).collect();
    let mv = match &tree.node(child).origin {
        Origin::Parent(_, mv) => *mv,
        Origin::Root(_) => panic!("a child holds a position"),
    };
    let len = tree.len();
    let tree = trim_tree(tree, child);
    assert_eq!(tree.root_index(), child);
    assert_eq!(tree.len(), len);
    assert_eq!(tree.node(child).simulations, simulations);
    assert_eq!(tree.node(child).win_count, wins);
    assert_eq!(tree.node(child).draw_count, draws);
    assert_eq!(tree.node(child).children, children);
    assert_eq!(tree.node(child).untried_moves, untried);
    for (k, c) in children.iter().enumerate() {
        assert_eq!(tree.node(*c).simulations, grandchild_simulations[k]);
    }
    let mut expected = Board::empty();
    expected.apply_move(mv);
    match &tree.node(child).origin {
        Origin::Root(board) => {
            assert_eq!(board.all_legal_moves(), expected.all_legal_moves());
            assert_eq!(board.next_to_move(), expected.next_to_move());
        }
        Origin::Parent(_, _) => panic!("the root has a parent"),
    }
    let board = extract_board(&tree, child);
    assert_eq!(board.all_legal_moves(), expected.all_legal_moves());
    check_counters(&tree);
    // The search goes on below the new root.
    let tree = engine(tree, Mode::Iterations(50), 1, &ucb);
    assert_eq!(tree.root_index(), child);
    assert_eq!(tree.node(child).simulations, simulations + 50);
    check_counters(&tree);
}

fn full_board() -> Board {
    // X and O in turn fill the board without a line of three:
    //   X O X
    //   X O O
    //   O X X
    let mut board = Board::empty();
    for (x, y) in [(0, 0), (1, 0), (2, 0), (2, 1), (0, 1), (0, 2), (1, 2), (1, 1), (2, 2)] {
        if (x, y) == (1, 1) {
            continue;
        }
        board.apply_move(Move::Place(x, y));
    }
    board
}

#[test]
fn final_position_is_selected_and_never_expanded() {
    let board = full_board();
    assert!(board.all_legal_moves().is_empty());
    let tree = create_root_node(board);
    assert!(tree.node(0).untried_moves.is_empty());
    assert!(matches!(selection_phase(&tree, &ucb), NodeType::End(0)));
    let tree = engine(tree, Mode::Iterations(25), 3, &ucb);
    assert_eq!(tree.len(), 1);
    assert!(tree.node(0).children.is_empty());
    assert_eq!(tree.node(0).simulations, 25);
    assert!(matches!(selection_phase(&tree, &ucb), NodeType::End(0)));
}

#[test]
fn final_stub_leaves_are_never_expanded() {
    let tree = create_root_node(Stub::Start);
    let tree = engine(tree, Mode::Iterations(60), 1, &ucb);
    assert_eq!(tree.len(), 3);
    assert_eq!(tree.node(0).simulations, 60);
    for c in [1usize, 2] {
        assert!(tree.node(c).children.is_empty());
        assert!(tree.node(c).untried_moves.is_empty());
    }
    assert_eq!(
        tree.node(1).simulations + tree.node(2).simulations,
        tree.node(0).simulations
    );
}

fn subtree_size<G: GameState>(tree: &Tree<G>, node: usize) -> usize {
    let mut count = 1;
    for &c in tree.node(node).children.iter() {
        count += subtree_size(tree, c);
    }
    count
}

#[test]
fn compacting_keeps_the_tree_and_drops_the_rest() {
    let tree = create_root_node(Board::empty());
    let tree = engine(tree, Mode::Iterations(400), 1, &ucb);
    let child = tree.node(0).children[5];
    let size = subtree_size(&tree, child);
    assert!(size < tree.len());
    let simulations = tree.node(child).simulations;
    let wins = tree.node(child).win_count;
    let draws = tree.node(child).draw_count;
    let untried = tree.node(child).untried_moves.clone();
    let child_count = tree.node(child).children.len();
    let first_grandchild = tree.node(child).children[0];
    let grandchild_simulations = tree.node(first_grandchild).simulations;
    let grandchild_move = match &tree.node(first_grandchild).origin {
        Origin::Parent(_, mv) => *mv,
        Origin::Root(_) => panic!("a child holds a position"),
    };
    let board = extract_board(&tree, child);
    let tree = trim_tree(tree, child);
    let packed = compact(tree);
    assert_eq!(packed.root_index(), 0);
    assert_eq!(packed.len(), size);
    assert_eq!(packed.node(0).simulations, simulations);
    assert_eq!(packed.node(0).win_count, wins);
    assert_eq!(packed.node(0).draw_count, draws);
    assert_eq!(packed.node(0).untried_moves, untried);
    assert_eq!(packed.node(0).children.len(), child_count);
    let moved = packed.node(0).children[0];
    assert_eq!(moved, 1);
    assert_eq!(packed.node(moved).simulations, grandchild_simulations);
    match &packed.node(moved).origin {
        Origin::Parent(p, mv) => {
            assert_eq!(*p, 0);
            assert_eq!(*mv, grandchild_move);
        }
        Origin::Root(_) => panic!("a child holds a position"),
    }
    assert_eq!(subtree_size(&packed, 0), size);
    check_counters(&packed);
    let again = extract_board(&packed, 0);
    assert_eq!(again.all_legal_moves(), board.all_legal_moves());
    for i in 0..packed.len() {
        let state = extract_board(&packed, i);
        let node = packed.node(i);
        assert_eq!(
            node.untried_moves.len() + node.children.len(),
            state.all_legal_moves().len()
        );
    }
    // The search goes on in the packed tree.
    let packed = engine(packed, Mode::Iterations(30), 1, &ucb);
    assert_eq!(packed.node(0).simulations, simulations + 30);
    check_counters(&packed);
}

#[test]
fn compacting_a_whole_tree_changes_nothing() {
    let tree = create_root_node(Board::empty());
    let tree = engine(tree, Mode::Iterations(60), 1, &ucb);
    let len = tree.len();
    let children = tree.node(0).children.clone();
    let simulations: Vec<u32> = (0..len).map(|i| tree.node(i).simulations).collect();
    let packed = compact(tree);
    assert_eq!(packed.len(), len);
    assert_eq!(packed.node(0).children, children);
    for i in 0..len {
        assert_eq!(packed.node(i).simulations, simulations[i]);
    }
}
