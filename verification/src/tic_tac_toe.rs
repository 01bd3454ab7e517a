//! Tic-tac-toe on a board whose centre is taken by `O` from the start.

use vstd::prelude::*;
use crate::chance::random_below;
use crate::monte_carlo_tree_search::{GameState, Output, Player};

verus! {

/// The mark of a player.
#[derive(Clone, Copy, PartialEq, Eq, Structural, Debug)]
pub enum Piece {
    X,
    O,
}

impl Piece {
    /// The player who places this mark: the guest plays `X`, the host `O`.
    pub open spec fn player(self) -> Player {
        match self {
            Piece::X => Player::Guest,
            Piece::O => Player::Host,
        }
    }

    /// The mark that a player places.
    pub open spec fn of(player: Player) -> Piece {
        match player {
            Player::Host => Piece::O,
            Player::Guest => Piece::X,
        }
    }

    /// The mark of the other player.
    pub open spec fn other(self) -> Piece {
        match self {
            Piece::X => Piece::O,
            Piece::O => Piece::X,
        }
    }
}

impl From<Piece> for Player {
    fn from(piece: Piece) -> (player: Player) {
        match piece {
            Piece::X => Player::Guest,
            Piece::O => Player::Host,
        }
    }
}

impl vstd::std_specs::convert::FromSpecImpl<Piece> for Player {
    open spec fn obeys_from_spec() -> bool {
        true
    }

    open spec fn from_spec(piece: Piece) -> Player {
        piece.player()
    }
}

impl From<Player> for Piece {
    fn from(player: Player) -> (piece: Piece) {
        match player {
            Player::Host => Piece::O,
            Player::Guest => Piece::X,
        }
    }
}

impl vstd::std_specs::convert::FromSpecImpl<Player> for Piece {
    open spec fn obeys_from_spec() -> bool {
        true
    }

    open spec fn from_spec(player: Player) -> Piece {
        Piece::of(player)
    }
}

/// A move: a mark on the cell in column `x` and row `y`.
#[derive(Clone, Copy, PartialEq, Eq, Structural, Debug)]
pub enum Move {
    Place(usize, usize),
}

/// The mathematical value of a board: nine cells, row by row, and the mark
/// that is placed next.
pub struct Position {
    pub cells: Seq<Option<Piece>>,
    pub next_to_move: Piece,
}

/// Whether three cells hold the same mark.
pub open spec fn three_alike(a: Option<Piece>, b: Option<Piece>, c: Option<Piece>) -> bool {
    a is Some && a == b && b == c
}

/// The eight lines of the board in the order in which they are looked at:
/// the two diagonals, then each row followed by the column of the same
/// number.
pub open spec fn line(k: int) -> (int, int, int) {
    if k == 0 {
        (0, 4, 8)
    } else if k == 1 {
        (2, 4, 6)
    } else if k == 2 {
        (0, 1, 2)
    } else if k == 3 {
        (0, 3, 6)
    } else if k == 4 {
        (3, 4, 5)
    } else if k == 5 {
        (1, 4, 7)
    } else if k == 6 {
        (6, 7, 8)
    } else {
        (2, 5, 8)
    }
}

/// Whether line `k` is filled with one mark.
pub open spec fn line_won(cells: Seq<Option<Piece>>, k: int) -> bool {
    three_alike(cells[line(k).0], cells[line(k).1], cells[line(k).2])
}

/// The mark on the first line from line `k` on that is filled with one mark.
pub open spec fn winner_from(cells: Seq<Option<Piece>>, k: int) -> Option<Piece>
    decreases 8 - k,
{
    if k < 0 || k >= 8 {
        None
    } else if line_won(cells, k) {
        cells[line(k).0]
    } else {
        winner_from(cells, k + 1)
    }
}

/// The mark on the first line that is filled with one mark.
pub open spec fn winner(cells: Seq<Option<Piece>>) -> Option<Piece> {
    winner_from(cells, 0)
}

/// The number of empty cells among the first `n`.
pub open spec fn empties(cells: Seq<Option<Piece>>, n: int) -> nat
    decreases n,
{
    if n <= 0 {
        0
    } else {
        empties(cells, n - 1) + if cells[n - 1] is None {
            1nat
        } else {
            0nat
        }
    }
}

/// The move that marks the cell with index `i`.
pub open spec fn move_to(i: int) -> Move {
    Move::Place((i % 3) as usize, (i / 3) as usize)
}

/// The moves to the empty cells among the first `n`, by index.
pub open spec fn moves_upto(cells: Seq<Option<Piece>>, n: int) -> Seq<Move>
    decreases n,
{
    if n <= 0 {
        Seq::empty()
    } else if cells[n - 1] is None {
        moves_upto(cells, n - 1).push(move_to(n - 1))
    } else {
        moves_upto(cells, n - 1)
    }
}

/// The result of the game for `player`: a win or a loss where a line is
/// filled with one mark, a draw where the board is full without one,
/// nothing while there is an empty cell.
pub open spec fn result_for(p: Position, player: Player) -> Option<Output> {
    match winner(p.cells) {
        Some(piece) => Some(
            if piece == Piece::of(player) {
                Output::Win
            } else {
                Output::Loss
            },
        ),
        None => if empties(p.cells, 9) > 0 {
            None
        } else {
            Some(Output::Draw)
        },
    }
}

/// The position after marking the cell in column `x` and row `y`.
pub open spec fn position_after(p: Position, mv: Move) -> Position {
    let Move::Place(x, y) = mv;
    Position {
        cells: p.cells.update(x + 3 * y, Some(p.next_to_move)),
        next_to_move: p.next_to_move.other(),
    }
}

/// Whether a move marks an empty cell of the board.
pub open spec fn marks_empty_cell(p: Position, mv: Move) -> bool {
    let Move::Place(x, y) = mv;
    x < 3 && y < 3 && p.cells[x + 3 * y] is None
}

/// Filling an empty cell leaves one empty cell fewer.
pub proof fn lemma_fill_one(cells: Seq<Option<Piece>>, i: int, piece: Piece, n: int)
    requires
        0 <= i < cells.len(),
        cells[i] is None,
        0 <= n <= cells.len(),
    ensures
        empties(cells.update(i, Some(piece)), n) + (if i < n {
            1nat
        } else {
            0nat
        }) == empties(cells, n),
    decreases n,
{
    if n > 0 {
        lemma_fill_one(cells, i, piece, n - 1);
    }
}

/// Every listed move marks an empty cell.
pub proof fn lemma_moves_mark_empty_cells(cells: Seq<Option<Piece>>, n: int, j: int)
    requires
        0 <= n <= 9,
        cells.len() == 9,
        0 <= j < moves_upto(cells, n).len(),
    ensures
        exists|i: int| 0 <= i < n && cells[i] is None && moves_upto(cells, n)[j] == #[trigger] move_to(i),
    decreases n,
{
    if n > 0 {
        if cells[n - 1] is None && j == moves_upto(cells, n - 1).len() {
            assert(moves_upto(cells, n)[j] == move_to(n - 1));
        } else {
            lemma_moves_mark_empty_cells(cells, n - 1, j);
        }
    }
}

/// A tic-tac-toe board.
#[derive(Clone)]
pub struct Board {
    cells: [Option<Piece>; 9],
    next_to_move: Piece,
}

impl View for Board {
    type V = Position;

    closed spec fn view(&self) -> Position {
        Position { cells: self.cells@, next_to_move: self.next_to_move }
    }
}

/// Whether three cells hold the same mark.
pub fn winning_three(a: Option<Piece>, b: Option<Piece>, c: Option<Piece>) -> (r: bool)
    ensures
        r == three_alike(a, b, c),
{
    a.is_some() && a == b && b == c
}

/// The cells of line `k`.
pub(crate) fn line_cells(k: usize) -> (r: (usize, usize, usize))
    requires
        k < 8,
    ensures
        r.0 == line(k as int).0,
        r.1 == line(k as int).1,
        r.2 == line(k as int).2,
        r.0 < 9 && r.1 < 9 && r.2 < 9,
{
    if k == 0 {
        (0, 4, 8)
    } else if k == 1 {
        (2, 4, 6)
    } else if k == 2 {
        (0, 1, 2)
    } else if k == 3 {
        (0, 3, 6)
    } else if k == 4 {
        (3, 4, 5)
    } else if k == 5 {
        (1, 4, 7)
    } else if k == 6 {
        (6, 7, 8)
    } else {
        (2, 5, 8)
    }
}

impl Board {
    /// The board at the start of a game: the centre holds an `O`, `X` is to
    /// move.
    pub fn empty() -> (board: Board)
        ensures
            board@.cells == Seq::new(
                9,
                |i: int|
                    if i == 4 {
                        Some(Piece::O)
                    } else {
                        None
                    },
            ),
            board@.next_to_move == Piece::X,
    {
        let board = Board {
            cells: [None, None, None, None, Some(Piece::O), None, None, None, None],
            next_to_move: Piece::X,
        };
        assert(board@.cells =~= Seq::new(
            9,
            |i: int|
                if i == 4 {
                    Some(Piece::O)
                } else {
                    None
                },
        ));
        board
    }

    /// The result of the game for `player`, `None` while it goes on.
    pub fn finished(&self, player: Player) -> (r: Option<Output>)
        ensures
            r == result_for(self@, player),
    {
        let mut k: usize = 0;
        while k < 8
            invariant
                k <= 8,
                winner(self@.cells) == winner_from(self@.cells, k as int),
            decreases 8 - k,
        {
            let (a, b, c) = line_cells(k);
            if winning_three(self.cells[a], self.cells[b], self.cells[c]) {
                let owner = self.cells[a].unwrap();
                return if owner == Piece::from(player) {
                    Some(Output::Win)
                } else {
                    Some(Output::Loss)
                };
            }
            k = k + 1;
        }
        let mut i: usize = 0;
        while i < 9
            invariant
                i <= 9,
                empties(self@.cells, i as int) == 0,
                winner(self@.cells) is None,
            decreases 9 - i,
        {
            if self.cells[i].is_none() {
                proof {
                    lemma_empties_grow(self@.cells, i as int + 1, 9);
                }
                return None;
            }
            i = i + 1;
        }
        Some(Output::Draw)
    }

    /// The moves to the empty cells, by row and, within a row, by column.
    pub fn all_legal_moves(&self) -> (list: Vec<Move>)
        ensures
            list@ == moves_upto(self@.cells, 9),
    {
        let mut list = Vec::new();
        let mut index: usize = 0;
        while index < 9
            invariant
                index <= 9,
                list@ == moves_upto(self@.cells, index as int),
            decreases 9 - index,
        {
            if self.cells[index].is_none() {
                list.push(Move::Place(index % 3, index / 3));
            }
            index = index + 1;
        }
        list
    }

    /// Puts the mark of the player to move on the cell in column `x` and row
    /// `y`, whatever the cell holds, and passes the turn.
    pub fn apply_move(&mut self, a_move: Move)
        requires
            a_move matches Move::Place(x, y) && x + 3 * y < 9,
        ensures
            final(self)@ == position_after(old(self)@, a_move),
    {
        let Move::Place(x, y) = a_move;
        self.cells[x + 3 * y] = Some(self.next_to_move);
        self.next_to_move = match self.next_to_move {
            Piece::X => Piece::O,
            Piece::O => Piece::X,
        };
        assert(self@.cells =~= position_after(old(self)@, a_move).cells);
    }

    /// The player to move: the guest plays `X`, the host `O`.
    pub fn next_to_move(&self) -> (player: Player)
        ensures
            player == self@.next_to_move.player(),
    {
        Player::from(self.next_to_move)
    }
}

/// More cells hold no fewer empty ones.
pub proof fn lemma_empties_grow(cells: Seq<Option<Piece>>, n: int, m: int)
    requires
        n <= m,
    ensures
        empties(cells, n) <= empties(cells, m),
    decreases m - n,
{
    if n < m {
        lemma_empties_grow(cells, n, m - 1);
    }
}

impl GameState for Board {
    type Move = Move;

    type Model = Position;

    open spec fn model(&self) -> Position {
        self@
    }

    open spec fn wf(&self) -> bool {
        true
    }

    open spec fn legal(m: Position) -> Seq<Move> {
        moves_upto(m.cells, 9)
    }

    open spec fn playable(m: Position, mv: Move) -> bool {
        m.cells.len() == 9 && marks_empty_cell(m, mv)
    }

    open spec fn after(m: Position, mv: Move) -> Position {
        position_after(m, mv)
    }

    open spec fn outcome(m: Position, perspective: Player) -> Option<Output> {
        result_for(m, perspective)
    }

    open spec fn mover(m: Position) -> Player {
        m.next_to_move.player()
    }

    open spec fn horizon(m: Position) -> nat {
        empties(m.cells, 9)
    }

    fn duplicate(&self) -> (r: Self) {
        Board { cells: self.cells, next_to_move: self.next_to_move }
    }

    fn legal_moves(&self) -> (r: Vec<Move>) {
        self.all_legal_moves()
    }

    fn apply(&mut self, mv: Move) {
        self.apply_move(mv)
    }

    fn terminal_outcome(&self, perspective: Player) -> (r: Option<Output>) {
        self.finished(perspective)
    }

    /// One of the legal moves, drawn at random; `None` just where there is
    /// none, on a full board.
    fn random_move(&self) -> (r: Option<Move>)
        ensures
            r is Some <==> moves_upto(self@.cells, 9).len() > 0,
            r matches Some(mv) ==> moves_upto(self@.cells, 9).contains(mv),
    {
        let moves = self.all_legal_moves();
        if moves.len() == 0 {
            None
        } else {
            let k = random_below(moves.len());
            proof {
                self.legal_moves_are_playable(k as int);
                assert(moves@.contains(moves@[k as int]));
            }
            Some(moves[k])
        }
    }

    fn to_move(&self) -> (r: Player) {
        self.next_to_move()
    }

    proof fn legal_moves_are_playable(&self, i: int) {
        lemma_moves_mark_empty_cells(self@.cells, 9, i);
    }

    proof fn moves_shorten_the_game(&self, mv: Move, perspective: Player) {
        let Move::Place(x, y) = mv;
        lemma_fill_one(self@.cells, x + 3 * y, self@.next_to_move, 9);
    }
}

} // verus!
