//! Ultimate tic-tac-toe: nine small boards arranged as one large board.

use vstd::prelude::*;
use crate::chance::random_below;
use crate::monte_carlo_tree_search::{GameState, Output, Player};
use crate::tic_tac_toe::{line, line_cells};

verus! {

/// What a cell of a small board holds.
#[derive(PartialEq, Eq, Structural, Clone, Copy, Debug)]
pub enum Cell {
    Empty,
    X,
    O,
}

/// How far the game on a small board is.
#[derive(PartialEq, Eq, Structural, Clone, Copy, Debug)]
pub enum State {
    NotFinished,
    Draw,
    Win(Player),
}

/// A move: a mark on the cell in column `x` and row `y` of the large board,
/// both counted from 0 to 8.
#[derive(PartialEq, Eq, Structural, Clone, Copy, Debug)]
pub struct Move {
    pub x: usize,
    pub y: usize,
}

/// The mathematical value of a small board.
pub struct SubPosition {
    pub state: State,
    pub cells: Seq<Cell>,
}

/// The mathematical value of a board: the nine small boards row by row, the
/// small board that the next move has to go to, if any, and the player to
/// move.
pub struct Position {
    pub sub_boards: Seq<SubPosition>,
    pub forced_sub_board: Option<usize>,
    pub next: Player,
}

/// The mark that a player places: the guest plays `X`, the host `O`.
pub open spec fn mark_of(player: Player) -> Cell {
    match player {
        Player::Host => Cell::O,
        Player::Guest => Cell::X,
    }
}

/// Whether three cells hold the same mark.
pub open spec fn cells_alike(a: Cell, b: Cell, c: Cell) -> bool {
    a != Cell::Empty && a == b && b == c
}

/// Whether three small boards are won by the same player.
pub open spec fn boards_alike(a: State, b: State, c: State) -> bool {
    a is Win && a == b && b == c
}

/// The mark on the first line of a small board, from line `k` on, that is
/// filled with one mark.
pub open spec fn cell_winner_from(cells: Seq<Cell>, k: int) -> Option<Cell>
    decreases 8 - k,
{
    if k < 0 || k >= 8 {
        None
    } else if cells_alike(cells[line(k).0], cells[line(k).1], cells[line(k).2]) {
        Some(cells[line(k).0])
    } else {
        cell_winner_from(cells, k + 1)
    }
}

/// The number of empty cells among the first `n` of a small board.
pub open spec fn empties(cells: Seq<Cell>, n: int) -> nat
    decreases n,
{
    if n <= 0 {
        0
    } else {
        empties(cells, n - 1) + if cells[n - 1] == Cell::Empty {
            1nat
        } else {
            0nat
        }
    }
}

/// The state of a small board with these cells that was in state `before`:
/// won by the owner of the first line that is filled with one mark, drawn
/// where no line is and no cell is empty, else as before.
pub open spec fn state_of(cells: Seq<Cell>, before: State) -> State {
    match cell_winner_from(cells, 0) {
        Some(Cell::X) => State::Win(Player::Guest),
        Some(Cell::O) => State::Win(Player::Host),
        _ => if empties(cells, 9) > 0 {
            before
        } else {
            State::Draw
        },
    }
}

/// The winner of the first line of small boards, from line `k` on, that one
/// player has won all boards of.
pub open spec fn board_winner_from(boards: Seq<SubPosition>, k: int) -> Option<Player>
    decreases 8 - k,
{
    if k < 0 || k >= 8 {
        None
    } else if boards_alike(
        boards[line(k).0].state,
        boards[line(k).1].state,
        boards[line(k).2].state,
    ) {
        Some(boards[line(k).0].state->0)
    } else {
        board_winner_from(boards, k + 1)
    }
}

/// The number of small boards among the first `n` that are not finished.
pub open spec fn unfinished(boards: Seq<SubPosition>, n: int) -> nat
    decreases n,
{
    if n <= 0 {
        0
    } else {
        unfinished(boards, n - 1) + if boards[n - 1].state == State::NotFinished {
            1nat
        } else {
            0nat
        }
    }
}

/// The result of the game for `player`: a win or a loss where one player
/// has won a line of small boards, a draw where no small board is
/// unfinished, nothing else.
pub open spec fn result_for(p: Position, player: Player) -> Option<Output> {
    match board_winner_from(p.sub_boards, 0) {
        Some(winner) => Some(
            if winner == player {
                Output::Win
            } else {
                Output::Loss
            },
        ),
        None => if unfinished(p.sub_boards, 9) > 0 {
            None
        } else {
            Some(Output::Draw)
        },
    }
}

/// The move to cell `i` of small board `b`.
pub open spec fn move_to(b: int, i: int) -> Move {
    Move { x: (i % 3 + (b % 3) * 3) as usize, y: (i / 3 + (b / 3) * 3) as usize }
}

/// The moves to the empty cells among the first `n` of small board `b`.
pub open spec fn sub_moves(cells: Seq<Cell>, b: int, n: int) -> Seq<Move>
    decreases n,
{
    if n <= 0 {
        Seq::empty()
    } else if cells[n - 1] == Cell::Empty {
        sub_moves(cells, b, n - 1).push(move_to(b, n - 1))
    } else {
        sub_moves(cells, b, n - 1)
    }
}

/// The moves to the empty cells of the unfinished small boards among the
/// first `n`, board by board.
pub open spec fn open_moves(boards: Seq<SubPosition>, n: int) -> Seq<Move>
    decreases n,
{
    if n <= 0 {
        Seq::empty()
    } else if boards[n - 1].state == State::NotFinished {
        open_moves(boards, n - 1) + sub_moves(boards[n - 1].cells, n - 1, 9)
    } else {
        open_moves(boards, n - 1)
    }
}

/// The legal moves: none where the game is over; else the empty cells of
/// the small board that the move has to go to, or, where the choice is
/// free, of all unfinished small boards.
pub open spec fn legal_moves_of(p: Position) -> Seq<Move> {
    if result_for(p, p.next) is Some {
        Seq::empty()
    } else {
        match p.forced_sub_board {
            Some(index) => sub_moves(p.sub_boards[index as int].cells, index as int, 9),
            None => open_moves(p.sub_boards, 9),
        }
    }
}

/// The small board that a move goes to.
pub open spec fn board_of(mv: Move) -> int {
    mv.x / 3 + (mv.y / 3) * 3
}

/// The cell of its small board that a move goes to.
pub open spec fn cell_of(mv: Move) -> int {
    mv.x % 3 + (mv.y % 3) * 3
}

/// The position after a move: the cell gets the mark of the player to move,
/// the state of its small board is brought up to date, the next move has to
/// go to the small board that lies where the cell lies in its small board,
/// unless that one is finished, and the turn passes.
pub open spec fn position_after(p: Position, mv: Move) -> Position {
    let b = board_of(mv);
    let i = cell_of(mv);
    let cells = p.sub_boards[b].cells.update(i, mark_of(p.next));
    let boards = p.sub_boards.update(
        b,
        SubPosition { state: state_of(cells, p.sub_boards[b].state), cells },
    );
    Position {
        sub_boards: boards,
        forced_sub_board: if boards[i].state == State::NotFinished {
            Some(i as usize)
        } else {
            None
        },
        next: p.next.other(),
    }
}

/// Whether the position has the shape of a board: nine small boards of nine
/// cells, and the small board that is to be played on is one of them.
pub open spec fn well_shaped(p: Position) -> bool {
    &&& p.sub_boards.len() == 9
    &&& forall|b: int| 0 <= b < 9 ==> (#[trigger] p.sub_boards[b]).cells.len() == 9
    &&& p.forced_sub_board matches Some(index) ==> index < 9
}

/// The number of empty cells on the first `n` small boards.
pub open spec fn all_empties(boards: Seq<SubPosition>, n: int) -> nat
    decreases n,
{
    if n <= 0 {
        0
    } else {
        all_empties(boards, n - 1) + empties(boards[n - 1].cells, 9)
    }
}

/// Whether a move goes to an empty cell of the board.
pub open spec fn marks_empty_cell(p: Position, mv: Move) -> bool {
    &&& mv.x < 9
    &&& mv.y < 9
    &&& p.sub_boards[board_of(mv)].cells[cell_of(mv)] == Cell::Empty
}

/// Filling an empty cell leaves one empty cell fewer on its small board.
pub proof fn lemma_fill_one(cells: Seq<Cell>, i: int, mark: Cell, n: int)
    requires
        0 <= i < cells.len(),
        cells[i] == Cell::Empty,
        mark != Cell::Empty,
        0 <= n <= cells.len(),
    ensures
        empties(cells.update(i, mark), n) + (if i < n {
            1nat
        } else {
            0nat
        }) == empties(cells, n),
    decreases n,
{
    if n > 0 {
        lemma_fill_one(cells, i, mark, n - 1);
    }
}

/// Replacing one small board changes the number of empty cells by the
/// difference between the two.
pub proof fn lemma_replace_board(boards: Seq<SubPosition>, b: int, with: SubPosition, n: int)
    requires
        0 <= b < boards.len(),
        0 <= n <= boards.len(),
    ensures
        all_empties(boards.update(b, with), n) + (if b < n {
            empties(boards[b].cells, 9)
        } else {
            0nat
        }) == all_empties(boards, n) + (if b < n {
            empties(with.cells, 9)
        } else {
            0nat
        }),
    decreases n,
{
    if n > 0 {
        lemma_replace_board(boards, b, with, n - 1);
    }
}

/// More cells hold no fewer empty ones.
pub proof fn lemma_empties_grow(cells: Seq<Cell>, n: int, m: int)
    requires
        n <= m,
    ensures
        empties(cells, n) <= empties(cells, m),
    decreases m - n,
{
    if n < m {
        lemma_empties_grow(cells, n, m - 1);
    }
}

/// More small boards hold no fewer unfinished ones.
pub proof fn lemma_unfinished_grow(boards: Seq<SubPosition>, n: int, m: int)
    requires
        n <= m,
    ensures
        unfinished(boards, n) <= unfinished(boards, m),
    decreases m - n,
{
    if n < m {
        lemma_unfinished_grow(boards, n, m - 1);
    }
}

/// A move to cell `i` of small board `b` goes there.
pub proof fn lemma_move_goes_to(b: int, i: int)
    requires
        0 <= b < 9,
        0 <= i < 9,
    ensures
        board_of(move_to(b, i)) == b,
        cell_of(move_to(b, i)) == i,
        move_to(b, i).x < 9,
        move_to(b, i).y < 9,
        move_to(0, i).x < 3,
        move_to(0, i).y < 3,
        move_to(b, i).x == move_to(0, i).x + (b % 3) * 3,
        move_to(b, i).y == move_to(0, i).y + (b / 3) * 3,
{
}

/// Every move listed for a small board goes to one of its empty cells.
pub proof fn lemma_sub_moves(cells: Seq<Cell>, b: int, n: int, j: int) -> (i: int)
    requires
        0 <= n <= 9,
        0 <= j < sub_moves(cells, b, n).len(),
    ensures
        0 <= i < n,
        cells[i] == Cell::Empty,
        sub_moves(cells, b, n)[j] == move_to(b, i),
    decreases n,
{
    if cells[n - 1] == Cell::Empty && j == sub_moves(cells, b, n - 1).len() {
        n - 1
    } else {
        lemma_sub_moves(cells, b, n - 1, j)
    }
}

/// The moves of a small board are the same on every small board but for
/// where the board lies.
pub proof fn lemma_sub_moves_shift(cells: Seq<Cell>, b: int, n: int)
    requires
        0 <= n <= 9,
        0 <= b < 9,
    ensures
        sub_moves(cells, b, n).len() == sub_moves(cells, 0, n).len(),
        forall|j: int|
            0 <= j < sub_moves(cells, 0, n).len() ==> {
                &&& (#[trigger] sub_moves(cells, 0, n)[j]).x < 3
                &&& sub_moves(cells, 0, n)[j].y < 3
                &&& sub_moves(cells, b, n)[j].x == sub_moves(cells, 0, n)[j].x + (b % 3) * 3
                &&& sub_moves(cells, b, n)[j].y == sub_moves(cells, 0, n)[j].y + (b / 3) * 3
            },
    decreases n,
{
    if n > 0 {
        lemma_sub_moves_shift(cells, b, n - 1);
        lemma_move_goes_to(b, n - 1);
        assert forall|j: int| 0 <= j < sub_moves(cells, 0, n).len() implies {
            &&& (#[trigger] sub_moves(cells, 0, n)[j]).x < 3
            &&& sub_moves(cells, 0, n)[j].y < 3
            &&& sub_moves(cells, b, n)[j].x == sub_moves(cells, 0, n)[j].x + (b % 3) * 3
            &&& sub_moves(cells, b, n)[j].y == sub_moves(cells, 0, n)[j].y + (b / 3) * 3
        } by {
            if j < sub_moves(cells, 0, n - 1).len() {
                assert(sub_moves(cells, 0, n)[j] == sub_moves(cells, 0, n - 1)[j]);
                assert(sub_moves(cells, b, n)[j] == sub_moves(cells, b, n - 1)[j]);
            }
        }
    }
}

/// Every move listed for the unfinished small boards goes to an empty cell
/// of one of them.
pub proof fn lemma_open_moves(boards: Seq<SubPosition>, n: int, j: int) -> (at: (int, int))
    requires
        0 <= n <= 9,
        0 <= j < open_moves(boards, n).len(),
    ensures
        0 <= at.0 < n,
        0 <= at.1 < 9,
        boards[at.0].cells[at.1] == Cell::Empty,
        open_moves(boards, n)[j] == move_to(at.0, at.1),
    decreases n,
{
    if boards[n - 1].state == State::NotFinished && j >= open_moves(boards, n - 1).len() {
        let i = lemma_sub_moves(
            boards[n - 1].cells,
            n - 1,
            9,
            j - open_moves(boards, n - 1).len(),
        );
        (n - 1, i)
    } else {
        lemma_open_moves(boards, n - 1, j)
    }
}

/// A small board.
#[derive(Clone, Copy)]
pub struct SubBoard {
    state: State,
    cells: [Cell; 9],
}

impl View for SubBoard {
    type V = SubPosition;

    closed spec fn view(&self) -> SubPosition {
        SubPosition { state: self.state, cells: self.cells@ }
    }
}

/// Whether three cells hold the same mark.
pub fn three_winning_cells(a: Cell, b: Cell, c: Cell) -> (r: bool)
    ensures
        r == cells_alike(a, b, c),
{
    a != Cell::Empty && a == b && b == c
}

/// Whether three small boards are won by the same player.
pub fn three_winning_boards(a: State, b: State, c: State) -> (r: bool)
    ensures
        r == boards_alike(a, b, c),
{
    match (a, b, c) {
        (State::Win(pa), State::Win(pb), State::Win(pc)) => pa == pb && pb == pc,
        _ => false,
    }
}

impl SubBoard {
    /// A small board without marks.
    pub fn empty() -> (sub: SubBoard)
        ensures
            sub@.state == State::NotFinished,
            sub@.cells == Seq::new(9, |i: int| Cell::Empty),
    {
        let sub = SubBoard {
            state: State::NotFinished,
            cells: [
                Cell::Empty,
                Cell::Empty,
                Cell::Empty,
                Cell::Empty,
                Cell::Empty,
                Cell::Empty,
                Cell::Empty,
                Cell::Empty,
                Cell::Empty,
            ],
        };
        assert(sub@.cells =~= Seq::new(9, |i: int| Cell::Empty));
        sub
    }

    /// The moves to the empty cells, as if this were the small board in the
    /// upper left corner.
    pub fn all_legal_moves(&self) -> (list: Vec<Move>)
        ensures
            list@ == sub_moves(self@.cells, 0, 9),
    {
        let mut list = Vec::new();
        let mut index: usize = 0;
        while index < 9
            invariant
                index <= 9,
                list@ == sub_moves(self@.cells, 0, index as int),
            decreases 9 - index,
        {
            if self.cells[index] == Cell::Empty {
                list.push(Move { x: index % 3, y: index / 3 });
            }
            index = index + 1;
        }
        list
    }

    /// Puts mark `c` on cell `i` and brings the state up to date.
    pub fn apply_move(&mut self, i: usize, c: Cell)
        requires
            i < 9,
        ensures
            final(self)@.cells == old(self)@.cells.update(i as int, c),
            final(self)@.state == state_of(final(self)@.cells, old(self)@.state),
    {
        self.cells[i] = c;
        assert(self@.cells =~= old(self)@.cells.update(i as int, c));
        self.update();
    }

    /// Brings the state up to date with the cells.
    pub fn update(&mut self)
        ensures
            final(self)@.cells == old(self)@.cells,
            final(self)@.state == state_of(old(self)@.cells, old(self)@.state),
    {
        let mut k: usize = 0;
        while k < 8
            invariant
                k <= 8,
                *self == *old(self),
                cell_winner_from(self@.cells, 0) == cell_winner_from(self@.cells, k as int),
            decreases 8 - k,
        {
            let (a, b, c) = line_cells(k);
            if three_winning_cells(self.cells[a], self.cells[b], self.cells[c]) {
                match self.cells[a] {
                    Cell::X => {
                        self.state = State::Win(Player::Guest);
                    },
                    Cell::O => {
                        self.state = State::Win(Player::Host);
                    },
                    Cell::Empty => {},
                }
                return ;
            }
            k = k + 1;
        }
        let mut i: usize = 0;
        while i < 9
            invariant
                i <= 9,
                *self == *old(self),
                empties(self@.cells, i as int) == 0,
                cell_winner_from(self@.cells, 0) is None,
            decreases 9 - i,
        {
            if self.cells[i] == Cell::Empty {
                proof {
                    lemma_empties_grow(self@.cells, i as int + 1, 9);
                }
                return ;
            }
            i = i + 1;
        }
        self.state = State::Draw;
    }
}

/// An ultimate tic-tac-toe board.
#[derive(Clone)]
pub struct Board {
    sub_boards: [SubBoard; 9],
    forced_sub_board: Option<usize>,
    next: Player,
}

impl View for Board {
    type V = Position;

    closed spec fn view(&self) -> Position {
        Position {
            sub_boards: Seq::new(9, |b: int| self.sub_boards@[b]@),
            forced_sub_board: self.forced_sub_board,
            next: self.next,
        }
    }
}

impl Board {
    /// The board at the start of a game: no marks, the guest is to move and
    /// free to choose a small board.
    pub fn empty() -> (board: Board)
        ensures
            well_shaped(board@),
            board@.sub_boards == Seq::new(
                9,
                |b: int|
                    SubPosition { state: State::NotFinished, cells: Seq::new(9, |i: int| Cell::Empty) },
            ),
            board@.forced_sub_board is None,
            board@.next == Player::Guest,
    {
        let board = Board {
            sub_boards: [
                SubBoard::empty(),
                SubBoard::empty(),
                SubBoard::empty(),
                SubBoard::empty(),
                SubBoard::empty(),
                SubBoard::empty(),
                SubBoard::empty(),
                SubBoard::empty(),
                SubBoard::empty(),
            ],
            forced_sub_board: None,
            next: Player::Guest,
        };
        assert(board@.sub_boards =~= Seq::new(
            9,
            |b: int|
                SubPosition { state: State::NotFinished, cells: Seq::new(9, |i: int| Cell::Empty) },
        ));
        board
    }

    /// Every board has nine small boards of nine cells.
    pub proof fn lemma_shape(&self)
        ensures
            self@.sub_boards.len() == 9,
            forall|b: int| 0 <= b < 9 ==> (#[trigger] self@.sub_boards[b]).cells.len() == 9,
    {
    }

    /// The result of the game for `player`, `None` while it goes on.
    pub fn finished(&self, player: Player) -> (r: Option<Output>)
        ensures
            r == result_for(self@, player),
    {
        let mut k: usize = 0;
        while k < 8
            invariant
                k <= 8,
                board_winner_from(self@.sub_boards, 0) == board_winner_from(
                    self@.sub_boards,
                    k as int,
                ),
            decreases 8 - k,
        {
            let (a, b, c) = line_cells(k);
            if three_winning_boards(
                self.sub_boards[a].state,
                self.sub_boards[b].state,
                self.sub_boards[c].state,
            ) {
                match self.sub_boards[a].state {
                    State::Win(p) => {
                        return Some(
                            if p == player {
                                Output::Win
                            } else {
                                Output::Loss
                            },
                        );
                    },
                    _ => {},
                }
            }
            k = k + 1;
        }
        let mut i: usize = 0;
        while i < 9
            invariant
                i <= 9,
                unfinished(self@.sub_boards, i as int) == 0,
                board_winner_from(self@.sub_boards, 0) is None,
            decreases 9 - i,
        {
            if self.sub_boards[i].state == State::NotFinished {
                proof {
                    lemma_unfinished_grow(self@.sub_boards, i as int + 1, 9);
                }
                return None;
            }
            i = i + 1;
        }
        Some(Output::Draw)
    }

    /// The moves to the empty cells of small board `index`.
    fn moves_on(&self, index: usize) -> (list: Vec<Move>)
        requires
            index < 9,
        ensures
            list@ == sub_moves(self@.sub_boards[index as int].cells, index as int, 9),
    {
        let prime_moves = self.sub_boards[index].all_legal_moves();
        let ghost cells = self@.sub_boards[index as int].cells;
        proof {
            lemma_sub_moves_shift(cells, index as int, 9);
        }
        let mut list: Vec<Move> = Vec::new();
        let mut j: usize = 0;
        while j < prime_moves.len()
            invariant
                index < 9,
                j <= prime_moves@.len(),
                prime_moves@ == sub_moves(cells, 0, 9),
                sub_moves(cells, index as int, 9).len() == prime_moves@.len(),
                forall|j: int|
                    0 <= j < sub_moves(cells, 0, 9).len() ==> {
                        &&& (#[trigger] sub_moves(cells, 0, 9)[j]).x < 3
                        &&& sub_moves(cells, 0, 9)[j].y < 3
                        &&& sub_moves(cells, index as int, 9)[j].x == sub_moves(cells, 0, 9)[j].x + (
                        index as int % 3) * 3
                        &&& sub_moves(cells, index as int, 9)[j].y == sub_moves(cells, 0, 9)[j].y + (
                        index as int / 3) * 3
                    },
                list@ == sub_moves(cells, index as int, 9).take(j as int),
            decreases prime_moves@.len() - j,
        {
            let m = prime_moves[j];
            assert(m == sub_moves(cells, 0, 9)[j as int]);
            list.push(Move { x: m.x + (index % 3) * 3, y: m.y + (index / 3) * 3 });
            j = j + 1;
            assert(list@ =~= sub_moves(cells, index as int, 9).take(j as int));
        }
        assert(list@ =~= sub_moves(cells, index as int, 9));
        list
    }

    /// The legal moves: none where the game is over; else the empty cells
    /// of the small board that the move has to go to, or, where the choice
    /// is free, of all unfinished small boards.
    pub fn all_legal_moves(&self) -> (moves: Vec<Move>)
        requires
            well_shaped(self@),
        ensures
            moves@ == legal_moves_of(self@),
    {
        if self.finished(self.next).is_some() {
            return Vec::new();
        }
        if let Some(index) = self.forced_sub_board {
            self.moves_on(index)
        } else {
            let mut moves: Vec<Move> = Vec::new();
            let mut index: usize = 0;
            while index < 9
                invariant
                    index <= 9,
                    moves@ == open_moves(self@.sub_boards, index as int),
                decreases 9 - index,
            {
                if self.sub_boards[index].state == State::NotFinished {
                    let mut prime_moves = self.moves_on(index);
                    moves.append(&mut prime_moves);
                }
                index = index + 1;
            }
            moves
        }
    }

    /// Puts the mark of the player to move on the cell of the move, whatever
    /// the cell holds, and passes the turn.
    pub fn apply_move(&mut self, m: Move)
        requires
            board_of(m) < 9,
        ensures
            final(self)@ == position_after(old(self)@, m),
            well_shaped(final(self)@),
    {
        let c = match self.next {
            Player::Host => Cell::O,
            Player::Guest => Cell::X,
        };
        let index = (m.x / 3) + (m.y / 3) * 3;
        let i = m.x % 3 + (m.y % 3) * 3;
        self.sub_boards[index].apply_move(i, c);
        self.forced_sub_board = if self.sub_boards[i].state == State::NotFinished {
            Some(i)
        } else {
            None
        };
        self.next = match self.next {
            Player::Host => Player::Guest,
            Player::Guest => Player::Host,
        };
        proof {
            let after = position_after(old(self)@, m);
            assert(self@.sub_boards =~= after.sub_boards);
        }
    }

    /// What the cell in column `x` and row `y` of the large board holds.
    pub fn cell(&self, x: usize, y: usize) -> (c: Cell)
        requires
            x < 9,
            y < 9,
        ensures
            c == self@.sub_boards[x / 3 + (y / 3) * 3].cells[x % 3 + (y % 3) * 3],
    {
        self.sub_boards[x / 3 + (y / 3) * 3].cells[x % 3 + (y % 3) * 3]
    }

    /// The player to move.
    pub fn next_to_move(&self) -> (player: Player)
        ensures
            player == self@.next,
    {
        self.next
    }

    /// One of the legal moves, drawn at random.
    pub fn get_random_move(&self) -> (r: Option<Move>)
        requires
            well_shaped(self@),
            legal_moves_of(self@).len() > 0,
        ensures
            r matches Some(mv) && legal_moves_of(self@).contains(mv),
    {
        let mut all_moves = self.all_legal_moves();
        let k = random_below(all_moves.len());
        Some(all_moves.remove(k))
    }
}

impl GameState for Board {
    type Move = Move;

    type Model = Position;

    open spec fn model(&self) -> Position {
        self@
    }

    open spec fn wf(&self) -> bool {
        well_shaped(self@)
    }

    open spec fn legal(m: Position) -> Seq<Move> {
        legal_moves_of(m)
    }

    open spec fn playable(m: Position, mv: Move) -> bool {
        well_shaped(m) && marks_empty_cell(m, mv)
    }

    open spec fn after(m: Position, mv: Move) -> Position {
        position_after(m, mv)
    }

    open spec fn outcome(m: Position, perspective: Player) -> Option<Output> {
        result_for(m, perspective)
    }

    open spec fn mover(m: Position) -> Player {
        m.next
    }

    open spec fn horizon(m: Position) -> nat {
        all_empties(m.sub_boards, 9)
    }

    fn duplicate(&self) -> (r: Self) {
        Board {
            sub_boards: self.sub_boards,
            forced_sub_board: self.forced_sub_board,
            next: self.next,
        }
    }

    fn legal_moves(&self) -> (r: Vec<Move>) {
        self.all_legal_moves()
    }

    fn apply(&mut self, mv: Move) {
        self.apply_move(mv)
    }

    fn terminal_outcome(&self, perspective: Player) -> (r: Option<Output>) {
        self.finished(perspective)
    }

    /// One of the legal moves, drawn at random; `None` just where there is
    /// none.
    fn random_move(&self) -> (r: Option<Move>)
        ensures
            r is Some <==> legal_moves_of(self@).len() > 0,
            r matches Some(mv) ==> legal_moves_of(self@).contains(mv),
    {
        let moves = self.all_legal_moves();
        if moves.len() == 0 {
            None
        } else {
            let k = random_below(moves.len());
            proof {
                self.legal_moves_are_playable(k as int);
                assert(moves@.contains(moves@[k as int]));
            }
            Some(moves[k])
        }
    }

    fn to_move(&self) -> (r: Player) {
        self.next_to_move()
    }

    proof fn legal_moves_are_playable(&self, i: int) {
        let p = self@;
        self.lemma_shape();
        match p.forced_sub_board {
            Some(index) => {
                let c = lemma_sub_moves(p.sub_boards[index as int].cells, index as int, 9, i);
                lemma_move_goes_to(index as int, c);
            },
            None => {
                let at = lemma_open_moves(p.sub_boards, 9, i);
                lemma_move_goes_to(at.0, at.1);
            },
        }
    }

    proof fn moves_shorten_the_game(&self, mv: Move, perspective: Player) {
        let p = self@;
        let b = board_of(mv);
        let i = cell_of(mv);
        let cells = p.sub_boards[b].cells.update(i, mark_of(p.next));
        let with = SubPosition { state: state_of(cells, p.sub_boards[b].state), cells };
        lemma_fill_one(p.sub_boards[b].cells, i, mark_of(p.next), 9);
        lemma_replace_board(p.sub_boards, b, with, 9);
    }
}

} // verus!
