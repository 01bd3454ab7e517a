use game_tree_search::monte_carlo_tree_search::{
    create_root_node, engine, GameState, Mode, Output, Player,
};
use game_tree_search::ultimate_tic_tac_toe::{
    three_winning_boards, three_winning_cells, Board, Cell, Move, State, SubBoard,
};

fn played(moves: &[(usize, usize)]) -> Board {
    let mut board = Board::empty();
    for &(x, y) in moves {
        board.apply_move(Move { x, y });
    }
    board
}

#[test]
fn three_cells_win_with_equal_marks() {
    assert!(three_winning_cells(Cell::X, Cell::X, Cell::X));
    assert!(three_winning_cells(Cell::O, Cell::O, Cell::O));
    assert!(!three_winning_cells(Cell::Empty, Cell::Empty, Cell::Empty));
    assert!(!three_winning_cells(Cell::X, Cell::O, Cell::X));
}

#[test]
fn three_boards_win_with_one_winner() {
    let host = State::Win(Player::Host);
    let guest = State::Win(Player::Guest);
    assert!(three_winning_boards(host, host, host));
    assert!(three_winning_boards(guest, guest, guest));
    assert!(!three_winning_boards(host, guest, host));
    assert!(!three_winning_boards(State::Draw, State::Draw, State::Draw));
    assert!(!three_winning_boards(State::NotFinished, host, host));
}

#[test]
fn empty_board_offers_all_cells() {
    let board = Board::empty();
    let moves = board.all_legal_moves();
    assert_eq!(moves.len(), 81);
    assert_eq!(moves[0], Move { x: 0, y: 0 });
    assert_eq!(moves[1], Move { x: 1, y: 0 });
    assert_eq!(moves[3], Move { x: 0, y: 1 });
    assert_eq!(moves[9], Move { x: 3, y: 0 });
    assert_eq!(moves[80], Move { x: 8, y: 8 });
    assert_eq!(board.next_to_move(), Player::Guest);
    assert_eq!(board.finished(Player::Guest), None);
}

#[test]
fn move_sends_the_opponent_to_the_matching_board() {
    // The cell (4, 1) is the cell (1, 1), the centre, of the top middle
    // board: the next move has to go to the middle board.
    let board = played(&[(4, 1)]);
    assert_eq!(board.next_to_move(), Player::Host);
    let moves = board.all_legal_moves();
    assert_eq!(moves.len(), 9);
    for m in moves.iter() {
        assert!(m.x >= 3 && m.x < 6 && m.y >= 3 && m.y < 6);
    }
    assert_eq!(moves[0], Move { x: 3, y: 3 });
    assert_eq!(moves[8], Move { x: 5, y: 5 });
    // The answer (3, 3) sends the guest to the top left board.
    let board = played(&[(4, 1), (3, 3)]);
    let moves = board.all_legal_moves();
    assert_eq!(moves.len(), 9);
    for m in moves.iter() {
        assert!(m.x < 3 && m.y < 3);
    }
}

#[test]
fn sub_board_tracks_its_state() {
    let mut sub = SubBoard::empty();
    assert_eq!(sub.all_legal_moves().len(), 9);
    sub.apply_move(0, Cell::X);
    sub.apply_move(4, Cell::X);
    assert_eq!(sub.all_legal_moves().len(), 7);
    assert_eq!(sub.all_legal_moves()[0], Move { x: 1, y: 0 });
    sub.apply_move(8, Cell::X);
    // A won small board: the empty cells are still listed.
    assert_eq!(sub.all_legal_moves().len(), 6);
    sub.update();
    assert_eq!(sub.all_legal_moves().len(), 6);
}

#[test]
fn won_small_board_frees_the_choice() {
    // The guest fills the top row of the top left board; the host's marks
    // lie elsewhere. The moves are played as given, whether the rules send
    // to their board or not.
    let board = played(&[
        (0, 0),
        (1, 1),
        (3, 3),
        (2, 2),
        (6, 6),
        (0, 1),
        (1, 3),
        (3, 0),
        (1, 0),
        (4, 0),
        (5, 0),
        (6, 0),
        (2, 0),
    ]);
    // The move went to cell 2 of board 0, which sends to board 2. Board 2
    // is not finished, so the host has to play there.
    assert_eq!(board.next_to_move(), Player::Host);
    let moves = board.all_legal_moves();
    assert!(moves.iter().all(|m| m.x >= 6 && m.y < 3));
    assert_eq!(moves.len(), 8);
    // The host plays (6, 1), cell 3 of board 2, sending to board 3. The
    // guest plays (0, 3), cell 0 of board 3, sending to the won board 0:
    // the host may play on any board that is not finished.
    let mut board = board;
    board.apply_move(Move { x: 6, y: 1 });
    board.apply_move(Move { x: 0, y: 3 });
    let moves = board.all_legal_moves();
    assert!(moves.iter().all(|m| !(m.x < 3 && m.y < 3)));
    assert!(moves.iter().any(|m| m.x >= 3 && m.y >= 3));
    assert_eq!(board.finished(Player::Guest), None);
}

#[test]
fn random_move_is_legal() {
    let mut board = Board::empty();
    for _ in 0..20 {
        let moves = board.all_legal_moves();
        if moves.is_empty() {
            break;
        }
        let mv = board.get_random_move().unwrap();
        assert!(moves.contains(&mv));
        board.apply_move(mv);
    }
}

#[test]
fn random_play_ends_within_81_moves() {
    for _ in 0..20 {
        let mut board = Board::empty();
        let mut count = 0;
        while board.terminal_outcome(Player::Guest).is_none() {
            let mv = board.random_move().unwrap();
            assert!(board.legal_moves().contains(&mv));
            board.apply(mv);
            count += 1;
            assert!(count <= 81);
        }
        let guest = board.finished(Player::Guest).unwrap();
        let host = board.finished(Player::Host).unwrap();
        assert_eq!(guest.flip(), host);
        assert!(board.all_legal_moves().is_empty());
        assert_eq!(board.random_move(), None);
    }
}

#[test]
fn outcome_flips_with_the_perspective() {
    assert_eq!(Output::Win.flip(), Output::Loss);
    let board = Board::empty();
    assert_eq!(board.duplicate().all_legal_moves().len(), 81);
    assert_eq!(board.to_move(), Player::Guest);
}

#[test]
fn search_runs_on_the_ultimate_board() {
    let tree = create_root_node(Board::empty());
    let score = |w: u32, d: u32, n: u32, p: u32| {
        let rate = (w as f64 * 2.0 + d as f64) / (n as f64 * 2.0);
        (rate + 2.0 * ((p as f64).ln() / n as f64).sqrt()).to_bits()
    };
    let tree = engine(tree, Mode::Iterations(120), 1, &score);
    assert_eq!(tree.node(0).simulations, 120);
    assert_eq!(tree.node(0).children.len(), 81);
    assert_eq!(tree.len(), 121);
}
