use game_tree_search::monte_carlo_tree_search::{GameState, Output, Player};
use game_tree_search::tic_tac_toe::{winning_three, Board, Move, Piece};

fn played(moves: &[(usize, usize)]) -> Board {
    let mut board = Board::empty();
    for &(x, y) in moves {
        board.apply_move(Move::Place(x, y));
    }
    board
}

#[test]
fn pieces_and_players_convert() {
    assert_eq!(Player::from(Piece::X), Player::Guest);
    assert_eq!(Player::from(Piece::O), Player::Host);
    assert_eq!(Piece::from(Player::Guest), Piece::X);
    assert_eq!(Piece::from(Player::Host), Piece::O);
    let player: Player = Piece::X.into();
    assert_eq!(player, Player::Guest);
}

#[test]
fn winning_three_needs_three_equal_marks() {
    assert!(winning_three(Some(Piece::X), Some(Piece::X), Some(Piece::X)));
    assert!(winning_three(Some(Piece::O), Some(Piece::O), Some(Piece::O)));
    assert!(!winning_three(None, None, None));
    assert!(!winning_three(Some(Piece::X), Some(Piece::O), Some(Piece::X)));
    assert!(!winning_three(Some(Piece::X), Some(Piece::X), None));
}

#[test]
fn empty_board_has_the_centre_taken() {
    let board = Board::empty();
    let moves = board.all_legal_moves();
    assert_eq!(
        moves,
        vec![
            Move::Place(0, 0),
            Move::Place(1, 0),
            Move::Place(2, 0),
            Move::Place(0, 1),
            Move::Place(2, 1),
            Move::Place(0, 2),
            Move::Place(1, 2),
            Move::Place(2, 2),
        ]
    );
    assert_eq!(board.next_to_move(), Player::Guest);
    assert_eq!(board.finished(Player::Guest), None);
    assert_eq!(board.finished(Player::Host), None);
}

#[test]
fn apply_move_marks_the_cell_and_passes_the_turn() {
    let board = played(&[(2, 1)]);
    assert_eq!(board.next_to_move(), Player::Host);
    assert_eq!(board.all_legal_moves().len(), 7);
    assert!(!board.all_legal_moves().contains(&Move::Place(2, 1)));
    let board = played(&[(2, 1), (0, 0)]);
    assert_eq!(board.next_to_move(), Player::Guest);
    assert_eq!(board.all_legal_moves().len(), 6);
}

#[test]
fn row_of_x_wins_for_the_guest() {
    // X: (0,0) (1,0) (2,0); O: (0,2) (1,2)
    let board = played(&[(0, 0), (0, 2), (1, 0), (1, 2), (2, 0)]);
    assert_eq!(board.finished(Player::Guest), Some(Output::Win));
    assert_eq!(board.finished(Player::Host), Some(Output::Loss));
    // The game is over, but the empty cells are still listed.
    assert_eq!(board.all_legal_moves().len(), 3);
}

#[test]
fn diagonal_of_o_wins_for_the_host() {
    // O holds the centre. X: (1,0) (0,1) (2,1); O: (0,0) (2,2)
    let board = played(&[(1, 0), (0, 0), (0, 1), (2, 2)]);
    assert_eq!(board.finished(Player::Host), Some(Output::Win));
    assert_eq!(board.finished(Player::Guest), Some(Output::Loss));
}

#[test]
fn column_of_o_wins_for_the_host() {
    // X: (0,0) (2,0) (0,2); O: (1,0) (1,2) and the centre
    let board = played(&[(0, 0), (1, 0), (2, 0), (1, 2)]);
    assert_eq!(board.finished(Player::Host), Some(Output::Win));
}

#[test]
fn full_board_without_line_is_a_draw() {
    //   X O X
    //   X O O
    //   O X X
    let board = played(&[(0, 0), (1, 0), (2, 0), (2, 1), (0, 1), (0, 2), (1, 2), (1, 1), (2, 2)]);
    // (1, 1) was marked again by O; the board is full.
    assert!(board.all_legal_moves().is_empty());
    assert_eq!(board.finished(Player::Guest), Some(Output::Draw));
    assert_eq!(board.finished(Player::Host), Some(Output::Draw));
}

#[test]
fn board_is_a_game_state() {
    let mut board = Board::empty();
    assert_eq!(board.legal_moves(), board.all_legal_moves());
    assert_eq!(board.to_move(), Player::Guest);
    assert_eq!(board.terminal_outcome(Player::Guest), None);
    let copy = board.duplicate();
    board.apply(Move::Place(0, 0));
    assert_eq!(copy.all_legal_moves().len(), 8);
    assert_eq!(board.all_legal_moves().len(), 7);
    for _ in 0..50 {
        let mv = board.random_move().unwrap();
        assert!(board.all_legal_moves().contains(&mv));
    }
    let full = played(&[(0, 0), (1, 0), (2, 0), (2, 1), (0, 1), (0, 2), (1, 2), (2, 2)]);
    assert_eq!(full.random_move(), None);
}

#[test]
fn random_moves_cover_the_legal_moves() {
    let board = Board::empty();
    let mut seen = Vec::new();
    for _ in 0..2000 {
        let mv = board.random_move().unwrap();
        if !seen.contains(&mv) {
            seen.push(mv);
        }
    }
    assert_eq!(seen.len(), 8);
}
