//! The board as a position of the search engine.

use vstd::prelude::*;
use super::board::{
    board_after, can_apply, can_take, entry_from, first_entry, flower_in_place, full_reserve,
    mover_of, on_from, reserve_without, tiles_moved, Board, Layout,
};
use super::grid::{
    all_on_board, cell_index, cell_on, gate, grid_of, harmonies_upto, open_gates_upto, with_tiles,
    Grid,
};
use super::other::{Cell, FlowerTile, Move, Owner, Position, Tile};
use super::play::{
    arrangings, arranges_one, countable, finds_move, has_stock, in_stock, legal_for, may_be_drawn,
    north_gate,
    plantings, plantings_on, ready, reserve_of_mover, reserve_size, result_for, south_gate,
    tiles_of_mover,
};
use super::{lemma_possibilities, possibilities, tiles_on_grid};
use crate::monte_carlo_tree_search::{GameState, Output, Player};

verus! {

/// Whether a reserve lists the six kinds of flowers in their order, with
/// no more than three tiles of a kind.
pub open spec fn standard(reserve: Seq<(Tile, u8)>) -> bool {
    &&& reserve.len() == 6
    &&& forall|k: int|
        0 <= k < 6 ==> (#[trigger] reserve[k]).0 == Tile::Flower(flower_in_place(k)) && reserve[k].1
            <= 3
}

/// The number of tiles in both reserves.
pub open spec fn in_reserve(b: Layout) -> int {
    (reserve_size(b.reserve_guest, 6) + reserve_size(b.reserve_host, 6)) as int
}

/// Whether the board is one that play from the empty board can lead to, as
/// far as the engine relies on it.
pub open spec fn well_formed(b: Layout) -> bool {
    &&& standard(b.reserve_guest)
    &&& standard(b.reserve_host)
    &&& all_on_board(b.played_tiles_guest)
    &&& all_on_board(b.played_tiles_host)
    &&& 0 <= b.moves_since_planting <= 50
    &&& 0 <= b.move_count <= 51 * (36 - in_reserve(b)) + b.moves_since_planting
    &&& b.move_count == 0 ==> b.reserve_guest == full_reserve() && b.reserve_host == full_reserve()
        && b.played_tiles_guest.len() == 0 && b.played_tiles_host.len() == 0
    &&& b.move_count == 1 ==> b.reserve_host == full_reserve() && b.played_tiles_host.len() == 0
        && b.played_tiles_guest.len() == 1 && b.played_tiles_guest[0].1 == south_gate()
}

/// Whether the engine may play the move: the game has not run out of
/// moves, a planted tile is in the reserve and goes to a point of the
/// board, the first tile goes to the south gate, and a tile is arranged to
/// a point of the board, not as the first move.
pub open spec fn may_play(b: Layout, mv: Move) -> bool {
    &&& well_formed(b)
    &&& b.moves_since_planting < 50
    &&& match mv {
        Move::Planting(flower, pos) => {
            &&& pos.valid()
            &&& reserve_of_mover(b)[flower.place()].1 > 0
            &&& b.move_count == 0 ==> pos == south_gate()
        },
        Move::Arranging(_, end) => end.valid() && b.move_count >= 1,
    }
}

/// An upper bound on the number of moves that can still be played.
pub open spec fn moves_left(b: Layout) -> nat {
    (51 * in_reserve(b) + 50 - b.moves_since_planting) as nat
}

/// The size of a standard reserve is small.
pub proof fn lemma_standard_size(reserve: Seq<(Tile, u8)>, n: int)
    requires
        standard(reserve),
        0 <= n <= 6,
    ensures
        reserve_size(reserve, n) <= 3 * n,
    decreases n,
{
    if n > 0 {
        lemma_standard_size(reserve, n - 1);
    }
}

/// In a standard reserve the entry of a flower stands at its place.
pub proof fn lemma_standard_entry(reserve: Seq<(Tile, u8)>, flower: FlowerTile)
    requires
        standard(reserve),
    ensures
        first_entry(reserve, Tile::Flower(flower)) == flower.place(),
        reserve[flower.place()].0 == Tile::Flower(flower),
{
    reveal_with_fuel(entry_from, 7);
    assert(reserve[0].0 == Tile::Flower(flower_in_place(0)));
    assert(reserve[1].0 == Tile::Flower(flower_in_place(1)));
    assert(reserve[2].0 == Tile::Flower(flower_in_place(2)));
    assert(reserve[3].0 == Tile::Flower(flower_in_place(3)));
    assert(reserve[4].0 == Tile::Flower(flower_in_place(4)));
    assert(reserve[5].0 == Tile::Flower(flower_in_place(5)));
}

/// Changing the count of one entry changes the size of the reserve by the
/// difference.
pub proof fn lemma_size_update(reserve: Seq<(Tile, u8)>, k: int, entry: (Tile, u8), n: int)
    requires
        0 <= k < reserve.len(),
        0 <= n <= reserve.len(),
    ensures
        reserve_size(reserve.update(k, entry), n) + (if k < n {
            reserve[k].1 as int
        } else {
            0
        }) == reserve_size(reserve, n) + (if k < n {
            entry.1 as int
        } else {
            0
        }),
    decreases n,
{
    if n > 0 {
        lemma_size_update(reserve, k, entry, n - 1);
    }
}

/// Taking a tile from a standard reserve leaves a standard reserve with one
/// tile fewer.
pub proof fn lemma_take(reserve: Seq<(Tile, u8)>, flower: FlowerTile)
    requires
        standard(reserve),
        reserve[flower.place()].1 > 0,
    ensures
        can_take(reserve, Tile::Flower(flower)),
        standard(reserve_without(reserve, Tile::Flower(flower))),
        reserve_size(reserve_without(reserve, Tile::Flower(flower)), 6) + 1 == reserve_size(
            reserve,
            6,
        ),
{
    lemma_standard_entry(reserve, flower);
    let k = flower.place();
    let entry = (Tile::Flower(flower), (reserve[k].1 - 1) as u8);
    lemma_size_update(reserve, k, entry, 6);
    let after = reserve.update(k, entry);
    assert forall|j: int| 0 <= j < 6 implies (#[trigger] after[j]).0 == Tile::Flower(
        flower_in_place(j),
    ) && after[j].1 <= 3 by {
        assert(reserve[j].1 <= 3);
    }
}

/// Moving a tile to a point of the board leaves all tiles on the board.
pub proof fn lemma_moved_on_board(tiles: Seq<(Tile, Position)>, from: Position, to: Position)
    requires
        all_on_board(tiles),
        to.valid(),
    ensures
        all_on_board(tiles_moved(tiles, from, to)),
{
    let k = on_from(tiles, from, 0);
    lemma_on_from(tiles, from, 0);
    let after = tiles_moved(tiles, from, to);
    assert forall|j: int| 0 <= j < after.len() implies (#[trigger] after[j]).1.valid() by {
        assert(tiles[j].1.valid());
    }
}

/// The first tile on a point, looked for from position `k` on, is found at
/// `k` or later.
pub proof fn lemma_on_from(tiles: Seq<(Tile, Position)>, from: Position, k: int)
    requires
        0 <= k,
    ensures
        k <= on_from(tiles, from, k) || on_from(tiles, from, k) == tiles.len(),
        0 <= on_from(tiles, from, k) <= tiles.len(),
    decreases tiles.len() - k,
{
    if k < tiles.len() && tiles[k].1 != from {
        lemma_on_from(tiles, from, k + 1);
    }
}

/// A move that the engine may play can be played, leads to a board that is
/// well formed, and brings the end of the game nearer.
pub proof fn lemma_play(b: Layout, mv: Move)
    requires
        may_play(b, mv),
    ensures
        can_apply(b, mv),
        well_formed(board_after(b, mv)),
        moves_left(board_after(b, mv)) < moves_left(b),
{
    let after = board_after(b, mv);
    lemma_standard_size(b.reserve_guest, 6);
    lemma_standard_size(b.reserve_host, 6);
    match mv {
        Move::Planting(flower, pos) => {
            match mover_of(b) {
                Player::Host => {
                    lemma_take(b.reserve_host, flower);
                    assert forall|j: int| 0 <= j < after.played_tiles_host.len() implies (
                    #[trigger] after.played_tiles_host[j]).1.valid() by {
                        if j < b.played_tiles_host.len() {
                            assert(b.played_tiles_host[j].1.valid());
                        }
                    }
                },
                Player::Guest => {
                    lemma_take(b.reserve_guest, flower);
                    assert forall|j: int| 0 <= j < after.played_tiles_guest.len() implies (
                    #[trigger] after.played_tiles_guest[j]).1.valid() by {
                        if j < b.played_tiles_guest.len() {
                            assert(b.played_tiles_guest[j].1.valid());
                        }
                    }
                },
            }
        },
        Move::Arranging(start, end) => {
            match mover_of(b) {
                Player::Host => {
                    lemma_moved_on_board(b.played_tiles_host, start, end);
                },
                Player::Guest => {
                    lemma_moved_on_board(b.played_tiles_guest, start, end);
                },
            }
        },
    }
}

/// Tiles that are put on a grid stand on it, and tiles that stood on it
/// still do.
pub proof fn lemma_with_tiles(cells: Seq<Cell>, tiles: Seq<(Tile, Position)>, owner: Owner, n: int)
    requires
        cells.len() == 289,
        all_on_board(tiles),
        0 <= n <= tiles.len(),
    ensures
        with_tiles(cells, tiles, owner, n).len() == 289,
        forall|i: int|
            0 <= i < 289 && cells[i] is Some ==> (#[trigger] with_tiles(cells, tiles, owner, n)[i]) is Some,
        forall|k: int|
            0 <= k < n ==> cell_on(with_tiles(cells, tiles, owner, n), (#[trigger] tiles[k]).1) is Some,
        forall|i: int|
            0 <= i < 289 && (#[trigger] with_tiles(cells, tiles, owner, n)[i]) is Some ==> cells[i] is Some
                || exists|k: int|
                0 <= k < n && cell_index(tiles[k].1.col(), tiles[k].1.row()) == i && with_tiles(
                    cells,
                    tiles,
                    owner,
                    n,
                )[i] == Some((tiles[k].0, owner)),
    decreases n,
{
    if n > 0 {
        lemma_with_tiles(cells, tiles, owner, n - 1);
        assert(tiles[n - 1].1.valid());
        let before = with_tiles(cells, tiles, owner, n - 1);
        let now = with_tiles(cells, tiles, owner, n);
        let at = cell_index(tiles[n - 1].1.col(), tiles[n - 1].1.row());
        assert forall|k: int| 0 <= k < n implies cell_on(now, (#[trigger] tiles[k]).1) is Some by {
            assert(tiles[k].1.valid());
            if k < n - 1 {
                assert(cell_on(before, tiles[k].1) is Some);
            }
        }
        assert forall|i: int| 0 <= i < 289 && (#[trigger] now[i]) is Some implies cells[i] is Some
            || exists|k: int|
            0 <= k < n && cell_index(tiles[k].1.col(), tiles[k].1.row()) == i && now[i] == Some(
                (tiles[k].0, owner),
            ) by {
            if i == at {
                assert(cell_index(tiles[n - 1].1.col(), tiles[n - 1].1.row()) == i);
            } else {
                assert(before[i] is Some);
                if cells[i] is None {
                    let k = choose|k: int|
                        0 <= k < n - 1 && cell_index(tiles[k].1.col(), tiles[k].1.row()) == i
                            && before[i] == Some((tiles[k].0, owner));
                    assert(now[i] == Some((tiles[k].0, owner)));
                }
            }
        }
    }
}

/// On a well-formed board, the board and its grid are fit for looking for
/// moves.
pub proof fn lemma_ready(b: Layout)
    requires
        well_formed(b),
    ensures
        ready(b, grid_of(b)),
        b.move_count == 1 ==> cell_on(grid_of(b), south_gate()) == Some(
            (b.played_tiles_guest[0].0, Owner::Guest),
        ),
{
    let blank = Seq::new(289, |i: int| None::<(Tile, Owner)>);
    let guest = with_tiles(
        blank,
        b.played_tiles_guest,
        Owner::Guest,
        b.played_tiles_guest.len() as int,
    );
    lemma_with_tiles(blank, b.played_tiles_guest, Owner::Guest, b.played_tiles_guest.len() as int);
    lemma_with_tiles(guest, b.played_tiles_host, Owner::Host, b.played_tiles_host.len() as int);
    lemma_standard_size(b.reserve_guest, 6);
    lemma_standard_size(b.reserve_host, 6);
    let cells = grid_of(b);
    assert forall|k: int| 0 <= k < b.played_tiles_guest.len() implies (
    #[trigger] b.played_tiles_guest[k]).1.valid() && cell_on(cells, b.played_tiles_guest[k].1) is Some by {
        let p = b.played_tiles_guest[k].1;
        assert(p.valid());
        assert(cell_on(guest, p) is Some);
        assert(guest[cell_index(p.col(), p.row())] is Some);
    }
    assert forall|k: int| 0 <= k < b.played_tiles_host.len() implies (
    #[trigger] b.played_tiles_host[k]).1.valid() && cell_on(cells, b.played_tiles_host[k].1) is Some by {
        assert(b.played_tiles_host[k].1.valid());
    }
    if b.move_count == 0 {
        assert forall|k: int| 0 <= k < reserve_of_mover(b).len() implies (
        #[trigger] reserve_of_mover(b)[k]).1 > 0 by {}
    }
    if b.move_count == 1 {
        Position::lemma_at(0, -8);
        reveal_with_fuel(with_tiles, 3);
        assert(cells =~= guest);
        assert(cell_on(cells, south_gate()) == Some((b.played_tiles_guest[0].0, Owner::Guest)));
        assert(in_stock(reserve_of_mover(b), cell_on(cells, south_gate()).unwrap().0));
    }
}

/// Every planting listed for a gate takes a tile that the reserve has.
pub proof fn lemma_plantings(reserve: Seq<(Tile, u8)>, gate: Position, n: int, j: int)
    requires
        standard(reserve),
        0 <= n <= 6,
        0 <= j < plantings(reserve, gate, n).len(),
    ensures
        plantings(reserve, gate, n)[j] matches Move::Planting(flower, pos) && pos == gate
            && reserve[flower.place()].1 > 0,
    decreases n,
{
    if reserve[n - 1].1 > 0 && j == plantings(reserve, gate, n - 1).len() {
        assert(reserve[n - 1].0 == Tile::Flower(flower_in_place(n - 1)));
    } else {
        lemma_plantings(reserve, gate, n - 1, j);
    }
}

/// Every open gate is a point of the board.
pub proof fn lemma_open_gates(cells: Seq<Cell>, n: int, j: int)
    requires
        0 <= n <= 4,
        0 <= j < open_gates_upto(cells, n).len(),
    ensures
        open_gates_upto(cells, n)[j].valid(),
        open_gates_upto(cells, n).len() <= n,
    decreases n,
{
    Position::lemma_at(8, 0);
    Position::lemma_at(-8, 0);
    Position::lemma_at(0, 8);
    Position::lemma_at(0, -8);
    lemma_open_gates_len(cells, n - 1);
    if cell_on(cells, gate(n - 1)) is None && j == open_gates_upto(cells, n - 1).len() {
    } else {
        lemma_open_gates(cells, n - 1, j);
    }
}

/// No more gates are open than there are gates.
pub proof fn lemma_open_gates_len(cells: Seq<Cell>, n: int)
    requires
        0 <= n,
    ensures
        open_gates_upto(cells, n).len() <= n,
    decreases n,
{
    if n > 0 {
        lemma_open_gates_len(cells, n - 1);
    }
}

/// Every planting listed for the open gates takes a tile that the reserve
/// has to a point of the board.
pub proof fn lemma_plantings_on(cells: Seq<Cell>, reserve: Seq<(Tile, u8)>, n: int, j: int)
    requires
        standard(reserve),
        0 <= n <= open_gates_upto(cells, 4).len(),
        0 <= j < plantings_on(open_gates_upto(cells, 4), reserve, n).len(),
    ensures
        plantings_on(open_gates_upto(cells, 4), reserve, n)[j] matches Move::Planting(flower, pos)
            && pos.valid() && reserve[flower.place()].1 > 0,
    decreases n,
{
    let gates = open_gates_upto(cells, 4);
    let before = plantings_on(gates, reserve, n - 1);
    if j >= before.len() {
        lemma_plantings(reserve, gates[n - 1], 6, j - before.len());
        lemma_open_gates(cells, 4, n - 1);
    } else {
        lemma_plantings_on(cells, reserve, n - 1, j);
    }
}

/// Every move listed for arranging a tile arranges it to a point of the
/// board.
pub proof fn lemma_arrangings(b: Layout, cells: Seq<Cell>, tiles: Seq<(Tile, Position)>, n: int, j: int)
    requires
        0 <= n <= tiles.len(),
        0 <= j < arrangings(b, cells, tiles, n).len(),
    ensures
        arrangings(b, cells, tiles, n)[j] matches Move::Arranging(_, end) && end.valid(),
    decreases n,
{
    let before = arrangings(b, cells, tiles, n - 1);
    if j >= before.len() {
        let list = possibilities(b, cells, tiles[n - 1].0, tiles[n - 1].1);
        assert(list.contains(list[j - before.len()]));
        lemma_possibilities(b, cells, tiles[n - 1].0, tiles[n - 1].1, list[j - before.len()]);
    } else {
        lemma_arrangings(b, cells, tiles, n - 1, j);
    }
}

/// The engine may play every legal move.
pub proof fn lemma_legal_moves(b: Layout, j: int)
    requires
        well_formed(b),
        0 <= j < legal_for(b, grid_of(b)).len(),
    ensures
        may_play(b, legal_for(b, grid_of(b))[j]),
{
    let cells = grid_of(b);
    let reserve = reserve_of_mover(b);
    lemma_ready(b);
    Position::lemma_at(0, -8);
    Position::lemma_at(0, 8);
    if b.move_count == 0 {
        lemma_plantings(reserve, south_gate(), 6, j);
    } else if b.move_count == 1 {
        let flower = b.played_tiles_guest[0].0.flower();
        assert(reserve[flower.place()].1 == 3);
    } else {
        let tiles = tiles_of_mover(b);
        let first = arrangings(b, cells, tiles, tiles.len() as int);
        if j < first.len() {
            lemma_arrangings(b, cells, tiles, tiles.len() as int, j);
        } else {
            lemma_plantings_on(
                cells,
                reserve,
                open_gates_upto(cells, 4).len() as int,
                j - first.len(),
            );
        }
    }
}

/// The engine may play every move that the fast move source hands out
/// while the game goes on.
pub proof fn lemma_drawn_moves(b: Layout, mv: Move)
    requires
        well_formed(b),
        b.moves_since_planting < 50,
        may_be_drawn(b, grid_of(b), mv),
    ensures
        may_play(b, mv),
{
    let cells = grid_of(b);
    let reserve = reserve_of_mover(b);
    lemma_ready(b);
    Position::lemma_at(0, -8);
    Position::lemma_at(0, 8);
    match mv {
        Move::Planting(flower, pos) => {
            lemma_standard_entry(reserve, flower);
            if b.move_count == 1 {
                assert(reserve[flower.place()].1 == 3);
            } else {
                let k = choose|k: int|
                    0 <= k < reserve.len() && (#[trigger] reserve[k]).0 == Tile::Flower(flower)
                        && reserve[k].1 > 0;
                assert(reserve[k].0 == Tile::Flower(flower_in_place(k)));
                assert(k == flower.place());
                if b.move_count >= 2 {
                    let gates = open_gates_upto(cells, 4);
                    let g = choose|g: int| 0 <= g < gates.len() && gates[g] == pos;
                    lemma_open_gates(cells, 4, g);
                }
            }
        },
        Move::Arranging(_, _) => {
            let tiles = tiles_of_mover(b);
            let k = choose|k: int|
                0 <= k < tiles.len() && (#[trigger] possibilities(
                    b,
                    cells,
                    tiles[k].0,
                    tiles[k].1,
                )).contains(mv);
            lemma_possibilities(b, cells, tiles[k].0, tiles[k].1, mv);
        },
    }
}

impl GameState for Board {
    type Move = Move;

    type Model = Layout;

    open spec fn model(&self) -> Layout {
        self@
    }

    open spec fn wf(&self) -> bool {
        well_formed(self@)
    }

    open spec fn legal(m: Layout) -> Seq<Move> {
        legal_for(m, grid_of(m))
    }

    open spec fn playable(m: Layout, mv: Move) -> bool {
        may_play(m, mv)
    }

    open spec fn after(m: Layout, mv: Move) -> Layout {
        board_after(m, mv)
    }

    open spec fn outcome(m: Layout, perspective: Player) -> Option<Output> {
        result_for(m, harmonies_upto(grid_of(m), 16), perspective)
    }

    open spec fn mover(m: Layout) -> Player {
        mover_of(m)
    }

    open spec fn horizon(m: Layout) -> nat {
        moves_left(m)
    }

    fn duplicate(&self) -> (r: Self) {
        self.replica()
    }

    fn legal_moves(&self) -> (r: Vec<Move>) {
        proof {
            lemma_ready(self@);
        }
        let mut grid = Grid::create(self);
        self.all_legal_moves(&mut grid)
    }

    fn apply(&mut self, mv: Move) {
        proof {
            lemma_play(self@, mv);
        }
        self.apply_move(mv)
    }

    fn terminal_outcome(&self, perspective: Player) -> (r: Option<Output>) {
        proof {
            lemma_ready(self@);
        }
        let grid = Grid::create(self);
        self.finished(grid.list_all_harmonies(), perspective)
    }

    /// A move from the fast move source of the board. There is one just
    /// where the game goes on and the move source finds one.
    fn random_move(&self) -> (r: Option<Move>)
        ensures
            r is Some <==> result_for(
                self@,
                harmonies_upto(grid_of(self@), 16),
                mover_of(self@),
            ) is None && finds_move(self@, grid_of(self@)),
            r matches Some(mv) ==> may_be_drawn(self@, grid_of(self@), mv),
    {
        proof {
            lemma_ready(self@);
        }
        let grid = Grid::create(self);
        if self.finished(grid.list_all_harmonies(), self.next_to_move()).is_some() {
            return None;
        }
        let r = self.get_random_move(&grid);
        proof {
            if let Some(mv) = r {
                lemma_drawn_moves(self@, mv);
            }
        }
        r
    }

    fn to_move(&self) -> (r: Player) {
        self.next_to_move()
    }

    proof fn legal_moves_are_playable(&self, i: int) {
        lemma_legal_moves(self@, i);
    }

    proof fn moves_shorten_the_game(&self, mv: Move, perspective: Player) {
        lemma_play(self@, mv);
    }
}

/// The board before the first move is well formed.
pub proof fn lemma_start(b: Layout)
    requires
        b.played_tiles_guest.len() == 0,
        b.played_tiles_host.len() == 0,
        b.reserve_host == full_reserve(),
        b.reserve_guest == full_reserve(),
        b.move_count == 0,
        b.moves_since_planting == 0,
    ensures
        well_formed(b),
        in_reserve(b) == 36,
{
    reveal_with_fuel(reserve_size, 7);
}

impl Board {
    /// Plays a move that the engine may play.
    fn play(&mut self, mv: Move)
        requires
            may_play(old(self)@, mv),
        ensures
            final(self)@ == board_after(old(self)@, mv),
            well_formed(final(self)@),
            final(self)@.played_tiles_guest.len() == old(self)@.played_tiles_guest.len() + (if mv is Planting
                && old(self)@.move_count % 2 == 0 {
                1int
            } else {
                0int
            }),
            final(self)@.played_tiles_host.len() == old(self)@.played_tiles_host.len() + (if mv is Planting
                && old(self)@.move_count % 2 != 0 {
                1int
            } else {
                0int
            }),
    {
        proof {
            lemma_play(self@, mv);
            if let Move::Arranging(start, end) = mv {
                lemma_on_from(self@.played_tiles_guest, start, 0);
                lemma_on_from(self@.played_tiles_host, start, 0);
            }
        }
        self.apply_move(mv);
    }

    /// A board in the middle of a game, after ten moves: both players have
    /// planted three tiles and arranged two of them.
    pub fn create_test() -> (b: Board)
        ensures
            well_formed(b@),
            b@.move_count == 10,
            b@.moves_since_planting == 1,
            b@.played_tiles_guest.len() == 3,
            b@.played_tiles_host.len() == 3,
    {
        let mut b = Self::empty();
        let south = Position::new(0, -8).unwrap();
        let north = Position::new(0, 8).unwrap();
        let east = Position::new(8, 0).unwrap();
        let west = Position::new(-8, 0).unwrap();
        proof {
            lemma_start(b@);
            Position::lemma_at(0, -8);
        }
        b.play(Move::Planting(FlowerTile::Chrysanthemum, south));
        proof {
            lemma_standard_entry(full_reserve(), FlowerTile::Chrysanthemum);
        }
        assert(b@.reserve_guest[2].1 == 3 && b@.reserve_host[1].1 == 3 && b@.reserve_host[2].1 == 3);
        b.play(Move::Planting(FlowerTile::Chrysanthemum, north));
        proof {
            lemma_standard_entry(full_reserve(), FlowerTile::Chrysanthemum);
        }
        assert(b@.reserve_guest[2].1 == 3 && b@.reserve_host[2].1 == 3);
        let ghost guest_before = b@.reserve_guest;
        b.play(Move::Planting(FlowerTile::Rhododendron, east));
        proof {
            lemma_standard_entry(guest_before, FlowerTile::Rhododendron);
        }
        assert(b@.reserve_guest[2].1 == 2 && b@.reserve_host[2].1 == 3);
        let ghost host_before = b@.reserve_host;
        b.play(Move::Planting(FlowerTile::Rhododendron, west));
        proof {
            lemma_standard_entry(host_before, FlowerTile::Rhododendron);
        }
        assert(b@.reserve_guest[2].1 == 2 && b@.reserve_host[2].1 == 2);
        b.play(Move::Arranging(east, Position::new(7, -4).unwrap()));
        assert(b@.reserve_guest[2].1 == 2 && b@.reserve_host[2].1 == 2);
        b.play(Move::Planting(FlowerTile::Rhododendron, east));
        assert(b@.reserve_guest[2].1 == 2);
        b.play(Move::Arranging(south, Position::new(0, -4).unwrap()));
        assert(b@.reserve_guest[2].1 == 2);
        b.play(Move::Arranging(west, Position::new(-7, 4).unwrap()));
        assert(b@.reserve_guest[2].1 == 2);
        b.play(Move::Planting(FlowerTile::Rhododendron, west));
        b.play(Move::Arranging(north, Position::new(2, 6).unwrap()));
        b
    }
}

} // verus!
