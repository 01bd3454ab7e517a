//! The rules of play on a board: when a game is over, which moves are
//! legal, and a fast way to a random move.

use vstd::prelude::*;
use super::board::{copy_of, mover_of, Board, Layout};
use super::grid::{cell_on, harmonies_upto, open_gates_upto, Grid, Harmony};
use super::other::{Cell, Move, Owner, Position, Tile};
use super::outcome::{crossings, has_ring, links_of, wins_by_ring, Link};
use super::{all_possibilities_for_piece_to_move, lemma_possibilities, possibilities, tiles_on_grid};
use crate::chance::{random_below, random_ratio};
use crate::monte_carlo_tree_search::{Output, Player};

verus! {

/// The number of tiles in the first `n` entries of a reserve.
pub open spec fn reserve_size(reserve: Seq<(Tile, u8)>, n: int) -> nat
    decreases n,
{
    if n <= 0 {
        0
    } else {
        reserve_size(reserve, n - 1) + reserve[n - 1].1 as nat
    }
}

/// Whether a reserve can be counted: it has an entry, and its tiles
/// together are no more than 255.
pub open spec fn countable(reserve: Seq<(Tile, u8)>) -> bool {
    reserve.len() > 0 && reserve_size(reserve, reserve.len() as int) <= 255
}

/// The result for `perspective` of a game that is decided by rings, of
/// which the host, the guest or both have one.
pub open spec fn ring_verdict(host_won: bool, guest_won: bool, perspective: Player) -> Output {
    if host_won && guest_won {
        Output::Draw
    } else if host_won && perspective == Player::Host {
        Output::Win
    } else if guest_won && perspective == Player::Guest {
        Output::Win
    } else {
        Output::Loss
    }
}

/// The result for `perspective` of a game that is decided by the count of
/// harmonies that cross a midline.
pub open spec fn count_verdict(guest: nat, host: nat, perspective: Player) -> Output {
    if guest == host {
        Output::Draw
    } else {
        match perspective {
            Player::Guest => if guest > host {
                Output::Win
            } else {
                Output::Loss
            },
            Player::Host => if guest < host {
                Output::Win
            } else {
                Output::Loss
            },
        }
    }
}

/// The result of the game for `perspective`, given the harmonies on the
/// board. A player with a ring of harmonies around the centre wins. Else,
/// once a reserve is empty, the player with more harmonies across the
/// midlines wins. Else, 50 moves without a planting make a draw. Else the
/// game goes on.
pub open spec fn result_for(b: Layout, harmonies: Seq<Harmony>, perspective: Player) -> Option<
    Output,
> {
    let n = harmonies.len() as int;
    let guest_links = links_of(harmonies, Owner::Guest, n);
    let host_links = links_of(harmonies, Owner::Host, n);
    let guest_won = has_ring(guest_links, guest_links.len() as int);
    let host_won = has_ring(host_links, host_links.len() as int);
    if host_won || guest_won {
        Some(ring_verdict(host_won, guest_won, perspective))
    } else if reserve_size(b.reserve_guest, b.reserve_guest.len() as int) == 0 || reserve_size(
        b.reserve_host,
        b.reserve_host.len() as int,
    ) == 0 {
        Some(
            count_verdict(
                crossings(harmonies, Owner::Guest, n),
                crossings(harmonies, Owner::Host, n),
                perspective,
            ),
        )
    } else if b.moves_since_planting >= 50 {
        Some(Output::Draw)
    } else {
        None
    }
}

/// The plantings on `gate` of the kinds in the first `n` entries of a
/// reserve that have a tile left.
pub open spec fn plantings(reserve: Seq<(Tile, u8)>, gate: Position, n: int) -> Seq<Move>
    decreases n,
{
    if n <= 0 {
        Seq::empty()
    } else if reserve[n - 1].1 > 0 {
        plantings(reserve, gate, n - 1).push(Move::Planting(reserve[n - 1].0.flower(), gate))
    } else {
        plantings(reserve, gate, n - 1)
    }
}

/// The plantings on the first `n` of `gates`, gate by gate.
pub open spec fn plantings_on(gates: Seq<Position>, reserve: Seq<(Tile, u8)>, n: int) -> Seq<Move>
    decreases n,
{
    if n <= 0 {
        Seq::empty()
    } else {
        plantings_on(gates, reserve, n - 1) + plantings(
            reserve,
            gates[n - 1],
            reserve.len() as int,
        )
    }
}

/// The moves that arrange one of the first `n` of `tiles`, tile by tile.
pub open spec fn arrangings(b: Layout, cells: Seq<Cell>, tiles: Seq<(Tile, Position)>, n: int) -> Seq<
    Move,
>
    decreases n,
{
    if n <= 0 {
        Seq::empty()
    } else {
        arrangings(b, cells, tiles, n - 1) + possibilities(
            b,
            cells,
            tiles[n - 1].0,
            tiles[n - 1].1,
        )
    }
}

/// The tiles on the board of the player to move.
pub open spec fn tiles_of_mover(b: Layout) -> Seq<(Tile, Position)> {
    match mover_of(b) {
        Player::Guest => b.played_tiles_guest,
        Player::Host => b.played_tiles_host,
    }
}

/// The reserve of the player to move.
pub open spec fn reserve_of_mover(b: Layout) -> Seq<(Tile, u8)> {
    match mover_of(b) {
        Player::Guest => b.reserve_guest,
        Player::Host => b.reserve_host,
    }
}

/// The south gate.
pub open spec fn south_gate() -> Position {
    Position::at(0, -8)
}

/// The north gate.
pub open spec fn north_gate() -> Position {
    Position::at(0, 8)
}

/// The legal moves on a board with these cells. None where the game is
/// over. The first move plants any tile in the south gate, the second a
/// tile of the same kind in the north gate. After that, a player may arrange
/// a tile or plant a tile from the reserve in an open gate.
pub open spec fn legal_for(b: Layout, cells: Seq<Cell>) -> Seq<Move> {
    if result_for(b, harmonies_upto(cells, 16), mover_of(b)) is Some {
        Seq::empty()
    } else if b.move_count < 2 {
        if b.move_count == 0 {
            plantings(reserve_of_mover(b), south_gate(), reserve_of_mover(b).len() as int)
        } else {
            seq![Move::Planting(cell_on(cells, south_gate()).unwrap().0.flower(), north_gate())]
        }
    } else {
        arrangings(b, cells, tiles_of_mover(b), tiles_of_mover(b).len() as int) + plantings_on(
            open_gates_upto(cells, 4),
            reserve_of_mover(b),
            open_gates_upto(cells, 4).len() as int,
        )
    }
}

/// Whether no entry of the reserve for `tile` is empty.
pub open spec fn in_stock(reserve: Seq<(Tile, u8)>, tile: Tile) -> bool {
    forall|k: int| 0 <= k < reserve.len() ==> !((#[trigger] reserve[k]).0 == tile && reserve[k].1 == 0)
}

/// Whether the board and the cells are fit for looking for moves: the
/// reserves can be counted, every tile of the board stands on the grid,
/// before the first move the reserve of the player to move has a tile of
/// every kind, and before the second move the south gate holds a tile of
/// which the player to move has one.
pub open spec fn ready(b: Layout, cells: Seq<Cell>) -> bool {
    &&& cells.len() == 289
    &&& b.move_count >= 0
    &&& countable(b.reserve_guest)
    &&& countable(b.reserve_host)
    &&& tiles_on_grid(cells, b.played_tiles_guest)
    &&& tiles_on_grid(cells, b.played_tiles_host)
    &&& b.move_count == 0 ==> forall|k: int|
        0 <= k < reserve_of_mover(b).len() ==> (#[trigger] reserve_of_mover(b)[k]).1 > 0
    &&& b.move_count == 1 ==> cell_on(cells, south_gate()) is Some && in_stock(
        reserve_of_mover(b),
        cell_on(cells, south_gate()).unwrap().0,
    )
}

/// Counts the tiles of a reserve.
fn count_reserve(reserve: &Vec<(Tile, u8)>) -> (r: u8)
    requires
        countable(reserve@),
    ensures
        r == reserve_size(reserve@, reserve@.len() as int),
{
    let mut total: u8 = 0;
    let mut k: usize = 0;
    while k < reserve.len()
        invariant
            k <= reserve@.len(),
            total == reserve_size(reserve@, k as int),
            reserve_size(reserve@, reserve@.len() as int) <= 255,
        decreases reserve@.len() - k,
    {
        proof {
            lemma_reserve_grows(reserve@, k as int + 1, reserve@.len() as int);
        }
        total = total + reserve[k].1;
        k = k + 1;
    }
    total
}

/// More entries hold no fewer tiles.
pub proof fn lemma_reserve_grows(reserve: Seq<(Tile, u8)>, n: int, m: int)
    requires
        n <= m,
    ensures
        reserve_size(reserve, n) <= reserve_size(reserve, m),
    decreases m - n,
{
    if n < m {
        lemma_reserve_grows(reserve, n, m - 1);
    }
}

/// Adds the plantings on `gate` of the kinds of which the reserve has a
/// tile left.
fn add_plantings(reserve: &Vec<(Tile, u8)>, gate: Position, move_set: &mut Vec<Move>)
    ensures
        final(move_set)@ == old(move_set)@ + plantings(reserve@, gate, reserve@.len() as int),
{
    let mut k: usize = 0;
    while k < reserve.len()
        invariant
            k <= reserve@.len(),
            move_set@ == old(move_set)@ + plantings(reserve@, gate, k as int),
        decreases reserve@.len() - k,
    {
        let (tile, amount) = reserve[k];
        let Tile::Flower(flower) = tile;
        if amount > 0 {
            move_set.push(Move::Planting(flower, gate));
        }
        k = k + 1;
        assert(move_set@ =~= old(move_set)@ + plantings(reserve@, gate, k as int));
    }
}

impl Board {
    /// The result of the game for `perspective`, `None` while it goes on.
    /// `harmonie_list` holds the harmonies on the board.
    pub fn finished(&self, harmonie_list: Vec<(Owner, Position, Position)>, perspective: Player) -> (r:
        Option<Output>)
        requires
            countable(self@.reserve_guest),
            countable(self@.reserve_host),
        ensures
            r == result_for(self@, harmonie_list@, perspective),
    {
        let mut guest_harmonies: Vec<Link> = Vec::new();
        let mut guest_crossing_harmonies: usize = 0;
        let mut host_harmonies: Vec<Link> = Vec::new();
        let mut host_crossing_harmonies: usize = 0;
        let mut i: usize = 0;
        while i < harmonie_list.len()
            invariant
                i <= harmonie_list@.len(),
                guest_harmonies@ == links_of(harmonie_list@, Owner::Guest, i as int),
                host_harmonies@ == links_of(harmonie_list@, Owner::Host, i as int),
                guest_crossing_harmonies == crossings(harmonie_list@, Owner::Guest, i as int),
                host_crossing_harmonies == crossings(harmonie_list@, Owner::Host, i as int),
                guest_crossing_harmonies <= i,
                host_crossing_harmonies <= i,
            decreases harmonie_list@.len() - i,
        {
            let (owner, one, other) = harmonie_list[i];
            let ((one_x, one_y), (other_x, other_y)) = (one.value(), other.value());
            let crossing = ((one_y < 0 && other_y > 0) || (one_y > 0 && other_y < 0)) || ((one_x < 0
                && other_x > 0) || (one_x > 0 && other_x < 0));
            match owner {
                Owner::Host => {
                    if crossing {
                        host_crossing_harmonies = host_crossing_harmonies + 1;
                    }
                    host_harmonies.push((one, other));
                },
                Owner::Guest => {
                    if crossing {
                        guest_crossing_harmonies = guest_crossing_harmonies + 1;
                    }
                    guest_harmonies.push((one, other));
                },
            }
            i = i + 1;
        }
        let guest_won = wins_by_ring(guest_harmonies);
        let host_won = wins_by_ring(host_harmonies);
        if host_won || guest_won {
            return Some(
                if host_won && guest_won {
                    Output::Draw
                } else if host_won && perspective == Player::Host {
                    Output::Win
                } else if guest_won && perspective == Player::Guest {
                    Output::Win
                } else {
                    Output::Loss
                },
            );
        }
        let reserve_size_guest = count_reserve(self.guest_reserve());
        let reserve_size_host = count_reserve(self.host_reserve());
        if reserve_size_guest == 0 || reserve_size_host == 0 {
            if guest_crossing_harmonies == host_crossing_harmonies {
                return Some(Output::Draw);
            }
            return Some(
                match perspective {
                    Player::Guest => {
                        if guest_crossing_harmonies > host_crossing_harmonies {
                            Output::Win
                        } else {
                            Output::Loss
                        }
                    },
                    Player::Host => {
                        if guest_crossing_harmonies < host_crossing_harmonies {
                            Output::Win
                        } else {
                            Output::Loss
                        }
                    },
                },
            );
        }
        if self.moves_since_planting() >= 50 {
            return Some(Output::Draw);
        }
        None
    }

    /// The legal moves. `grid` is the grid of the board; it is left as it
    /// is.
    pub fn all_legal_moves(&self, grid: &mut Grid) -> (move_set: Vec<Move>)
        requires
            old(grid).wf(),
            ready(self@, old(grid)@),
        ensures
            final(grid)@ == old(grid)@,
            move_set@ == legal_for(self@, old(grid)@),
    {
        let harmonies = grid.list_all_harmonies();
        if self.finished(harmonies, self.next_to_move()).is_some() {
            return Vec::new();
        }
        let (tiles_played, reserve) = match self.next_to_move() {
            Player::Guest => (self.guest_tiles(), self.guest_reserve()),
            Player::Host => (self.host_tiles(), self.host_reserve()),
        };
        let mut move_set: Vec<Move> = Vec::new();
        if self.move_count() < 2 {
            let south_gate = Position::new(0, -8).unwrap();
            if self.move_count() == 0 {
                add_plantings(reserve, south_gate, &mut move_set);
            } else {
                let noth_gate = Position::new(0, 8).unwrap();
                let (tile, _) = (*grid.index(&south_gate)).unwrap();
                let Tile::Flower(flower) = tile;
                move_set.push(Move::Planting(flower, noth_gate));
                assert(move_set@ =~= seq![Move::Planting(flower, noth_gate)]);
            }
            return move_set;
        }
        let mut k: usize = 0;
        while k < tiles_played.len()
            invariant
                k <= tiles_played@.len(),
                grid.wf(),
                grid@ == old(grid)@,
                tiles_played@ == tiles_of_mover(self@),
                ready(self@, grid@),
                move_set@ == arrangings(self@, grid@, tiles_played@, k as int),
            decreases tiles_played@.len() - k,
        {
            let (tile, position) = tiles_played[k];
            assert(tiles_played@[k as int].1.valid());
            let mut moves_for_piece = all_possibilities_for_piece_to_move(
                self,
                grid,
                tile,
                position,
            );
            move_set.append(&mut moves_for_piece);
            k = k + 1;
        }
        let gates = grid.open_gates();
        let ghost arranged = move_set@;
        let mut g: usize = 0;
        while g < gates.len()
            invariant
                g <= gates@.len(),
                gates@ == open_gates_upto(grid@, 4),
                move_set@ == arranged + plantings_on(gates@, reserve@, g as int),
            decreases gates@.len() - g,
        {
            add_plantings(reserve, gates[g], &mut move_set);
            g = g + 1;
            assert(move_set@ =~= arranged + plantings_on(gates@, reserve@, g as int));
        }
        move_set
    }
}

/// Whether the reserve has an entry for `tile` with a tile left.
pub open spec fn has_stock(reserve: Seq<(Tile, u8)>, tile: Tile) -> bool {
    exists|k: int| 0 <= k < reserve.len() && (#[trigger] reserve[k]).0 == tile && reserve[k].1 > 0
}

/// Whether the move arranges one of `tiles` to a point that it can go to.
pub open spec fn arranges_one(b: Layout, cells: Seq<Cell>, tiles: Seq<(Tile, Position)>, mv: Move) -> bool {
    exists|k: int|
        0 <= k < tiles.len() && (#[trigger] possibilities(b, cells, tiles[k].0, tiles[k].1)).contains(
            mv,
        )
}

/// What holds of every move that the fast move source hands out. The first
/// move plants a tile from the reserve in the south gate, the second a tile
/// of the same kind in the north gate. After that, the move plants a tile
/// from the reserve in an open gate, or arranges a tile of the player to
/// move to a point that it can go to.
pub open spec fn may_be_drawn(b: Layout, cells: Seq<Cell>, mv: Move) -> bool {
    match mv {
        Move::Planting(flower, pos) => if b.move_count == 0 {
            pos == south_gate() && has_stock(reserve_of_mover(b), Tile::Flower(flower))
        } else if b.move_count == 1 {
            pos == north_gate() && cell_on(cells, south_gate()) is Some && cell_on(
                cells,
                south_gate(),
            ).unwrap().0 == Tile::Flower(flower)
        } else {
            open_gates_upto(cells, 4).contains(pos) && has_stock(
                reserve_of_mover(b),
                Tile::Flower(flower),
            )
        },
        Move::Arranging(_, _) => b.move_count >= 2 && arranges_one(b, cells, tiles_of_mover(b), mv),
    }
}

/// Whether the tile can be arranged to some point.
pub open spec fn movable(b: Layout, cells: Seq<Cell>, tile: (Tile, Position)) -> bool {
    possibilities(b, cells, tile.0, tile.1).len() > 0
}

/// Whether one of `tiles` can be arranged to some point.
pub open spec fn can_arrange(b: Layout, cells: Seq<Cell>, tiles: Seq<(Tile, Position)>) -> bool {
    exists|k: int| 0 <= k < tiles.len() && movable(b, cells, #[trigger] tiles[k])
}

/// Whether a tile of the reserve can be planted: a gate is open, and the
/// reserve has a tile left.
pub open spec fn can_plant(cells: Seq<Cell>, reserve: Seq<(Tile, u8)>) -> bool {
    open_gates_upto(cells, 4).len() > 0 && exists|k: int|
        0 <= k < reserve.len() && (#[trigger] reserve[k]).1 > 0
}

/// Whether the fast move source finds a move: always in the opening, and
/// after it just where the player to move has a tile that can be arranged
/// or a tile that can be planted.
pub open spec fn finds_move(b: Layout, cells: Seq<Cell>) -> bool {
    ||| b.move_count < 2
    ||| can_arrange(b, cells, tiles_of_mover(b))
    ||| can_plant(cells, reserve_of_mover(b))
}

/// Whether `part` still holds every tile of `whole` that can be arranged.
pub open spec fn keeps_movable(
    b: Layout,
    cells: Seq<Cell>,
    part: Seq<(Tile, Position)>,
    whole: Seq<(Tile, Position)>,
) -> bool {
    forall|k: int|
        0 <= k < whole.len() && movable(b, cells, #[trigger] whole[k]) ==> part.contains(whole[k])
}

/// Whether `part` still holds every entry of `whole` with a tile left,
/// where a gate is open.
pub open spec fn keeps_stock(cells: Seq<Cell>, part: Seq<(Tile, u8)>, whole: Seq<(Tile, u8)>) -> bool {
    open_gates_upto(cells, 4).len() > 0 ==> forall|k: int|
        0 <= k < whole.len() && (#[trigger] whole[k]).1 > 0 ==> part.contains(whole[k])
}

/// Whether every element of `part` is an element of `whole`.
pub open spec fn drawn_from<A>(part: Seq<A>, whole: Seq<A>) -> bool {
    forall|k: int| 0 <= k < part.len() ==> whole.contains(#[trigger] part[k])
}

/// Draws an entry of the reserve. Where it is empty, the entry is dropped
/// from the reserve. Else the move plants a tile of its kind in an open
/// gate drawn at random; where no gate is open, the reserve is emptied.
fn random_plant(grid: &Grid, reserve: &mut Vec<(Tile, u8)>) -> (r: Option<Move>)
    requires
        grid.wf(),
        old(reserve)@.len() > 0,
    ensures
        drawn_from(final(reserve)@, old(reserve)@),
        r is None ==> final(reserve)@.len() < old(reserve)@.len(),
        r is Some ==> final(reserve)@ == old(reserve)@,
        r matches Some(mv) ==> mv is Planting && open_gates_upto(grid@, 4).contains(mv->Planting_1)
            && has_stock(old(reserve)@, Tile::Flower(mv->Planting_0)),
        r is None ==> keeps_stock(grid@, final(reserve)@, old(reserve)@),
{
    let index = random_below(reserve.len());
    let (tile, amount) = reserve[index];
    let Tile::Flower(t) = tile;
    if amount == 0 {
        reserve.remove(index);
        assert forall|k: int|
            0 <= k < old(reserve)@.len() && (#[trigger] old(reserve)@[k]).1 > 0 implies reserve@.contains(
            old(reserve)@[k],
        ) by {
            if k < index {
                assert(reserve@[k] == old(reserve)@[k]);
            } else {
                assert(reserve@[k - 1] == old(reserve)@[k]);
            }
        }
        assert forall|k: int| 0 <= k < reserve@.len() implies old(reserve)@.contains(
            #[trigger] reserve@[k],
        ) by {
            if k < index {
                assert(old(reserve)@[k] == reserve@[k]);
            } else {
                assert(old(reserve)@[k + 1] == reserve@[k]);
            }
        }
        None
    } else {
        let gates = grid.open_gates();
        if gates.len() > 0 {
            let g = random_below(gates.len());
            assert(old(reserve)@[index as int].0 == tile);
            assert(gates@.contains(gates@[g as int]));
            assert forall|k: int| 0 <= k < reserve@.len() implies old(reserve)@.contains(
                #[trigger] reserve@[k],
            ) by {
                assert(old(reserve)@[k] == reserve@[k]);
            }
            Some(Move::Planting(t, gates[g]))
        } else {
            *reserve = Vec::new();
            None
        }
    }
}

/// Draws one of the tiles and takes it from the list. The move arranges it
/// to one of the points that it can go to, drawn at random; there is no move
/// where it cannot go anywhere.
fn random_move(grid: &Grid, board: &Board, played_tiles: &mut Vec<(Tile, Position)>) -> (r: Option<
    Move,
>)
    requires
        grid.wf(),
        tiles_on_grid(grid@, board@.played_tiles_host),
        tiles_on_grid(grid@, board@.played_tiles_guest),
        old(played_tiles)@.len() > 0,
        forall|k: int| 0 <= k < old(played_tiles)@.len() ==> (#[trigger] old(played_tiles)@[k]).1.valid(),
    ensures
        drawn_from(final(played_tiles)@, old(played_tiles)@),
        final(played_tiles)@.len() < old(played_tiles)@.len(),
        r matches Some(mv) ==> mv is Arranging && arranges_one(board@, grid@, old(played_tiles)@, mv),
        r is None ==> keeps_movable(board@, grid@, final(played_tiles)@, old(played_tiles)@),
{
    let index = random_below(played_tiles.len());
    assert(old(played_tiles)@[index as int].1.valid());
    let (tile, position) = played_tiles.remove(index);
    assert forall|k: int| 0 <= k < old(played_tiles)@.len() && k != index implies played_tiles@.contains(
        #[trigger] old(played_tiles)@[k],
    ) by {
        if k < index {
            assert(played_tiles@[k] == old(played_tiles)@[k]);
        } else {
            assert(played_tiles@[k - 1] == old(played_tiles)@[k]);
        }
    }
    assert forall|k: int| 0 <= k < played_tiles@.len() implies old(played_tiles)@.contains(
        #[trigger] played_tiles@[k],
    ) by {
        if k < index {
            assert(old(played_tiles)@[k] == played_tiles@[k]);
        } else {
            assert(old(played_tiles)@[k + 1] == played_tiles@[k]);
        }
    }
    let possible_moves = all_possibilities_for_piece_to_move(board, grid, tile, position);
    if possible_moves.len() == 0 {
        assert(!movable(board@, grid@, old(played_tiles)@[index as int]));
        None
    } else {
        let m = possible_moves[random_below(possible_moves.len())];
        assert(possible_moves@.contains(m));
        assert(possibilities(
            board@,
            grid@,
            old(played_tiles)@[index as int].0,
            old(played_tiles)@[index as int].1,
        ).contains(m));
        proof {
            lemma_possibilities(board@, grid@, tile, position, m);
        }
        Some(m)
    }
}

/// Where no tile and no entry of the reserve is left to try, no tile can be
/// arranged and none can be planted.
pub proof fn lemma_nothing_left(
    b: Layout,
    cells: Seq<Cell>,
    reserve: Seq<(Tile, u8)>,
    tiles: Seq<(Tile, Position)>,
)
    requires
        reserve.len() == 0,
        tiles.len() == 0,
        keeps_stock(cells, reserve, reserve_of_mover(b)),
        keeps_movable(b, cells, tiles, tiles_of_mover(b)),
    ensures
        !can_arrange(b, cells, tiles_of_mover(b)),
        !can_plant(cells, reserve_of_mover(b)),
{
    let whole_tiles = tiles_of_mover(b);
    if can_arrange(b, cells, whole_tiles) {
        let k = choose|k: int| 0 <= k < whole_tiles.len() && movable(b, cells, #[trigger] whole_tiles[k]);
        assert(tiles.contains(whole_tiles[k]));
    }
    let whole = reserve_of_mover(b);
    if can_plant(cells, whole) {
        let k = choose|k: int| 0 <= k < whole.len() && (#[trigger] whole[k]).1 > 0;
        assert(reserve.contains(whole[k]));
    }
}

/// What is kept of what was kept is kept: entries of the reserve.
pub proof fn lemma_stock_kept(
    cells: Seq<Cell>,
    part: Seq<(Tile, u8)>,
    middle: Seq<(Tile, u8)>,
    whole: Seq<(Tile, u8)>,
)
    requires
        keeps_stock(cells, middle, whole),
        keeps_stock(cells, part, middle) || part == middle,
    ensures
        keeps_stock(cells, part, whole),
{
    if open_gates_upto(cells, 4).len() > 0 && part != middle {
        assert forall|k: int| 0 <= k < whole.len() && (#[trigger] whole[k]).1 > 0 implies part.contains(
            whole[k],
        ) by {
            assert(middle.contains(whole[k]));
            let j = choose|j: int| 0 <= j < middle.len() && middle[j] == whole[k];
            assert(middle[j].1 > 0);
        }
    }
}

/// What is kept of what was kept is kept: tiles that can be arranged.
pub proof fn lemma_movable_kept(
    b: Layout,
    cells: Seq<Cell>,
    part: Seq<(Tile, Position)>,
    middle: Seq<(Tile, Position)>,
    whole: Seq<(Tile, Position)>,
)
    requires
        keeps_movable(b, cells, middle, whole),
        keeps_movable(b, cells, part, middle) || part == middle,
    ensures
        keeps_movable(b, cells, part, whole),
{
    if part != middle {
        assert forall|k: int|
            0 <= k < whole.len() && movable(b, cells, #[trigger] whole[k]) implies part.contains(
            whole[k],
        ) by {
            assert(middle.contains(whole[k]));
            let j = choose|j: int| 0 <= j < middle.len() && middle[j] == whole[k];
            assert(movable(b, cells, middle[j]));
        }
    }
}

impl Board {
    /// A move found fast, for a rollout. The first two moves are those of
    /// the opening; the second is the one legal move. After that, a planting
    /// or an arranging is tried, with a planting one time in three where
    /// both can be tried, until a try gives a move or nothing is left to
    /// try. There is a move just where the player to move has a tile that
    /// can be arranged or one that can be planted; whether the game is over
    /// is not looked at. `grid` is the grid of the board.
    pub fn get_random_move(&self, grid: &Grid) -> (r: Option<Move>)
        requires
            grid.wf(),
            ready(self@, grid@),
        ensures
            r is Some <==> finds_move(self@, grid@),
            r matches Some(mv) ==> may_be_drawn(self@, grid@, mv),
            self@.move_count == 1 ==> r == Some(
                Move::Planting(cell_on(grid@, south_gate()).unwrap().0.flower(), north_gate()),
            ),
    {
        let player = self.next_to_move();
        let (mut reserve, mut played_tiles) = match player {
            Player::Host => (copy_of(self.host_reserve()), copy_of(self.host_tiles())),
            Player::Guest => (copy_of(self.guest_reserve()), copy_of(self.guest_tiles())),
        };
        if self.move_count() < 2 {
            if self.move_count() == 0 {
                let k = random_below(reserve.len());
                let (tile, _amount) = reserve.remove(k);
                let Tile::Flower(flower) = tile;
                assert(reserve_of_mover(self@)[k as int].0 == tile);
                return Some(Move::Planting(flower, Position::new(0, -8).unwrap()));
            } else {
                let in_south_gate = *grid.index(&Position::new(0, -8).unwrap());
                let (tile, _) = in_south_gate.unwrap();
                let Tile::Flower(flower) = tile;
                assert(flower == cell_on(grid@, south_gate()).unwrap().0.flower());
                return Some(Move::Planting(flower, Position::new(0, 8).unwrap()));
            }
        }
        loop
            invariant
                grid.wf(),
                ready(self@, grid@),
                self@.move_count >= 2,
                drawn_from(reserve@, reserve_of_mover(self@)),
                drawn_from(played_tiles@, tiles_of_mover(self@)),
                keeps_stock(grid@, reserve@, reserve_of_mover(self@)),
                keeps_movable(self@, grid@, played_tiles@, tiles_of_mover(self@)),
            decreases reserve@.len() + played_tiles@.len(),
        {
            proof {
                assert forall|k: int| 0 <= k < played_tiles@.len() implies (
                #[trigger] played_tiles@[k]).1.valid() by {
                    assert(tiles_of_mover(self@).contains(played_tiles@[k]));
                }
            }
            let ghost reserve_before = reserve@;
            let ghost tiles_before = played_tiles@;
            let plant = if reserve.len() > 0 && played_tiles.len() > 0 {
                random_ratio(1, 3)
            } else if reserve.len() == 0 && played_tiles.len() > 0 {
                false
            } else if played_tiles.len() == 0 && reserve.len() > 0 {
                true
            } else {
                proof {
                    lemma_nothing_left(self@, grid@, reserve@, played_tiles@);
                }
                return None;
            };
            let mo = if plant {
                random_plant(grid, &mut reserve)
            } else {
                random_move(grid, self, &mut played_tiles)
            };
            proof {
                assert forall|k: int| 0 <= k < reserve@.len() implies reserve_of_mover(
                    self@,
                ).contains(#[trigger] reserve@[k]) by {
                    assert(reserve_before.contains(reserve@[k]));
                }
                assert forall|k: int| 0 <= k < played_tiles@.len() implies tiles_of_mover(
                    self@,
                ).contains(#[trigger] played_tiles@[k]) by {
                    assert(tiles_before.contains(played_tiles@[k]));
                }
                if mo is None {
                    lemma_stock_kept(grid@, reserve@, reserve_before, reserve_of_mover(self@));
                    lemma_movable_kept(
                        self@,
                        grid@,
                        played_tiles@,
                        tiles_before,
                        tiles_of_mover(self@),
                    );
                }
            }
            if let Some(mv) = mo {
                proof {
                    if plant {
                        let flower = mv->Planting_0;
                        let k = choose|k: int|
                            0 <= k < reserve_before.len() && (#[trigger] reserve_before[k]).0
                                == Tile::Flower(flower) && reserve_before[k].1 > 0;
                        assert(reserve_of_mover(self@).contains(reserve_before[k]));
                        let whole = reserve_of_mover(self@);
                        let j = choose|j: int| 0 <= j < whole.len() && whole[j] == reserve_before[k];
                        assert(whole[j].1 > 0);
                        assert(can_plant(grid@, whole));
                    } else {
                        let k = choose|k: int|
                            0 <= k < tiles_before.len() && (#[trigger] possibilities(
                                self@,
                                grid@,
                                tiles_before[k].0,
                                tiles_before[k].1,
                            )).contains(mv);
                        assert(tiles_of_mover(self@).contains(tiles_before[k]));
                        let whole = tiles_of_mover(self@);
                        let j = choose|j: int| 0 <= j < whole.len() && whole[j] == tiles_before[k];
                        assert(movable(self@, grid@, whole[j]));
                        assert(can_arrange(self@, grid@, whole));
                    }
                }
                return mo;
            }
        }
    }
}

} // verus!
