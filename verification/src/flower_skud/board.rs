//! The state of a game: the tiles on the board, the reserves, and the move
//! counters.

use vstd::prelude::*;
use super::other::{FlowerTile, Move, Position, Tile};
use crate::monte_carlo_tree_search::Player;

verus! {

/// The mathematical value of a board.
pub struct Layout {
    /// The tiles of the guest on the board, in the order in which they
    /// were planted.
    pub played_tiles_guest: Seq<(Tile, Position)>,
    /// The tiles of the host on the board.
    pub played_tiles_host: Seq<(Tile, Position)>,
    /// The tiles that the host can still plant, each kind with its number.
    pub reserve_host: Seq<(Tile, u8)>,
    /// The tiles that the guest can still plant.
    pub reserve_guest: Seq<(Tile, u8)>,
    /// The number of moves played.
    pub move_count: i16,
    /// The number of moves played since a tile was planted last.
    pub moves_since_planting: i16,
}

/// The kinds of flowers in the order in which a reserve lists them.
pub open spec fn flower_in_place(k: int) -> FlowerTile {
    if k == 0 {
        FlowerTile::Rose
    } else if k == 1 {
        FlowerTile::Chrysanthemum
    } else if k == 2 {
        FlowerTile::Rhododendron
    } else if k == 3 {
        FlowerTile::Jasmine
    } else if k == 4 {
        FlowerTile::Lily
    } else {
        FlowerTile::WhiteJade
    }
}

/// A reserve with three tiles of each kind.
pub open spec fn full_reserve() -> Seq<(Tile, u8)> {
    Seq::new(6, |k: int| (Tile::Flower(flower_in_place(k)), 3u8))
}

/// The position of the first entry of a reserve for `tile` from position
/// `k` on; the length of the reserve where there is none.
pub open spec fn entry_from(reserve: Seq<(Tile, u8)>, tile: Tile, k: int) -> int
    decreases reserve.len() - k,
{
    if k < 0 || k >= reserve.len() {
        reserve.len() as int
    } else if reserve[k].0 == tile {
        k
    } else {
        entry_from(reserve, tile, k + 1)
    }
}

/// The position of the first entry of a reserve for `tile`; the length of
/// the reserve where it has none.
pub open spec fn first_entry(reserve: Seq<(Tile, u8)>, tile: Tile) -> int {
    entry_from(reserve, tile, 0)
}

/// The reserve with one tile fewer in its first entry for `tile`.
pub open spec fn reserve_without(reserve: Seq<(Tile, u8)>, tile: Tile) -> Seq<(Tile, u8)> {
    let k = first_entry(reserve, tile);
    if k < reserve.len() {
        reserve.update(k, (tile, (reserve[k].1 - 1) as u8))
    } else {
        reserve
    }
}

/// Whether a tile of this kind can be taken from the reserve without the
/// count of its entry falling below zero.
pub open spec fn can_take(reserve: Seq<(Tile, u8)>, tile: Tile) -> bool {
    let k = first_entry(reserve, tile);
    k < reserve.len() ==> reserve[k].1 > 0
}

/// The position of the first tile on `from` from position `k` on; the
/// number of tiles where there is none.
pub open spec fn on_from(tiles: Seq<(Tile, Position)>, from: Position, k: int) -> int
    decreases tiles.len() - k,
{
    if k < 0 || k >= tiles.len() {
        tiles.len() as int
    } else if tiles[k].1 == from {
        k
    } else {
        on_from(tiles, from, k + 1)
    }
}

/// The position of the first tile on `from`; the number of tiles where
/// there is none.
pub open spec fn first_on(tiles: Seq<(Tile, Position)>, from: Position) -> int {
    on_from(tiles, from, 0)
}

/// The tiles with the first tile on `from` moved to `to`.
pub open spec fn tiles_moved(tiles: Seq<(Tile, Position)>, from: Position, to: Position) -> Seq<
    (Tile, Position),
> {
    let k = first_on(tiles, from);
    if k < tiles.len() {
        tiles.update(k, (tiles[k].0, to))
    } else {
        tiles
    }
}

/// The player to move: the guest on even move counts, the host on odd ones.
pub open spec fn mover_of(b: Layout) -> Player {
    if b.move_count % 2 == 0 {
        Player::Guest
    } else {
        Player::Host
    }
}

/// The board after the guest has planted `tile` on `position`.
pub open spec fn guest_added(b: Layout, tile: Tile, position: Position) -> Layout {
    Layout {
        played_tiles_guest: b.played_tiles_guest.push((tile, position)),
        reserve_guest: reserve_without(b.reserve_guest, tile),
        ..b
    }
}

/// The board after the host has planted `tile` on `position`.
pub open spec fn host_added(b: Layout, tile: Tile, position: Position) -> Layout {
    Layout {
        played_tiles_host: b.played_tiles_host.push((tile, position)),
        reserve_host: reserve_without(b.reserve_host, tile),
        ..b
    }
}

/// The board after a move. Planting puts the tile on the board, takes it
/// from the reserve of the player to move and starts the count of moves
/// since the last planting anew. Arranging moves the first tile that the
/// player to move has on the first point to the second. Both pass the turn.
pub open spec fn board_after(b: Layout, a_move: Move) -> Layout {
    match a_move {
        Move::Planting(flower, position) => {
            let planted = match mover_of(b) {
                Player::Host => host_added(b, Tile::Flower(flower), position),
                Player::Guest => guest_added(b, Tile::Flower(flower), position),
            };
            Layout {
                moves_since_planting: 0,
                move_count: (b.move_count + 1) as i16,
                ..planted
            }
        },
        Move::Arranging(start, end) => {
            let arranged = match mover_of(b) {
                Player::Guest => Layout {
                    played_tiles_guest: tiles_moved(b.played_tiles_guest, start, end),
                    ..b
                },
                Player::Host => Layout {
                    played_tiles_host: tiles_moved(b.played_tiles_host, start, end),
                    ..b
                },
            };
            Layout {
                moves_since_planting: (b.moves_since_planting + 1) as i16,
                move_count: (b.move_count + 1) as i16,
                ..arranged
            }
        },
    }
}

/// Whether `apply_move` can play the move: the counters have room, and a
/// planted tile is there to be taken from the reserve.
pub open spec fn can_apply(b: Layout, a_move: Move) -> bool {
    &&& 0 <= b.move_count < i16::MAX
    &&& match a_move {
        Move::Planting(flower, _) => match mover_of(b) {
            Player::Host => can_take(b.reserve_host, Tile::Flower(flower)),
            Player::Guest => can_take(b.reserve_guest, Tile::Flower(flower)),
        },
        Move::Arranging(_, _) => b.moves_since_planting < i16::MAX,
    }
}

/// A board.
#[derive(Clone)]
pub struct Board {
    played_tiles_guest: Vec<(Tile, Position)>,
    played_tiles_host: Vec<(Tile, Position)>,
    reserve_host: Vec<(Tile, u8)>,
    reserve_guest: Vec<(Tile, u8)>,
    move_count: i16,
    moves_since_planting: i16,
}

impl View for Board {
    type V = Layout;

    closed spec fn view(&self) -> Layout {
        Layout {
            played_tiles_guest: self.played_tiles_guest@,
            played_tiles_host: self.played_tiles_host@,
            reserve_host: self.reserve_host@,
            reserve_guest: self.reserve_guest@,
            move_count: self.move_count,
            moves_since_planting: self.moves_since_planting,
        }
    }
}

/// A copy of a list.
pub fn copy_of<A: Copy>(list: &Vec<A>) -> (copy: Vec<A>)
    ensures
        copy@ == list@,
{
    let mut copy: Vec<A> = Vec::new();
    let mut i: usize = 0;
    while i < list.len()
        invariant
            i <= list@.len(),
            copy@ == list@.take(i as int),
        decreases list@.len() - i,
    {
        copy.push(list[i]);
        i = i + 1;
        assert(copy@ =~= list@.take(i as int));
    }
    assert(copy@ =~= list@);
    copy
}

/// A reserve with three tiles of each kind.
fn new_reserve() -> (reserve: Vec<(Tile, u8)>)
    ensures
        reserve@ == full_reserve(),
{
    let mut reserve: Vec<(Tile, u8)> = Vec::new();
    reserve.push((Tile::Flower(FlowerTile::Rose), 3));
    reserve.push((Tile::Flower(FlowerTile::Chrysanthemum), 3));
    reserve.push((Tile::Flower(FlowerTile::Rhododendron), 3));
    reserve.push((Tile::Flower(FlowerTile::Jasmine), 3));
    reserve.push((Tile::Flower(FlowerTile::Lily), 3));
    reserve.push((Tile::Flower(FlowerTile::WhiteJade), 3));
    assert(reserve@ =~= full_reserve());
    reserve
}

/// Takes one tile of this kind from the reserve.
fn take_tile(reserve: &mut Vec<(Tile, u8)>, tile: Tile)
    requires
        can_take(old(reserve)@, tile),
    ensures
        final(reserve)@ == reserve_without(old(reserve)@, tile),
{
    let mut k: usize = 0;
    while k < reserve.len()
        invariant
            k <= reserve@.len(),
            reserve@ == old(reserve)@,
            can_take(reserve@, tile),
            first_entry(reserve@, tile) == entry_from(reserve@, tile, k as int),
        decreases reserve@.len() - k,
    {
        if reserve[k].0 == tile {
            let amount = reserve[k].1;
            reserve[k] = (tile, amount - 1);
            return ;
        }
        k = k + 1;
    }
}

/// Moves the first tile on `from` to `to`.
fn move_tile(tiles: &mut Vec<(Tile, Position)>, from: Position, to: Position)
    ensures
        final(tiles)@ == tiles_moved(old(tiles)@, from, to),
{
    let mut k: usize = 0;
    while k < tiles.len()
        invariant
            k <= tiles@.len(),
            tiles@ == old(tiles)@,
            first_on(tiles@, from) == on_from(tiles@, from, k as int),
        decreases tiles@.len() - k,
    {
        if tiles[k].1 == from {
            let tile = tiles[k].0;
            tiles[k] = (tile, to);
            return ;
        }
        k = k + 1;
    }
}

impl Board {
    /// The board before the first move: no tile on the board, both
    /// reserves full.
    pub fn empty() -> (board: Board)
        ensures
            board@.played_tiles_guest.len() == 0,
            board@.played_tiles_host.len() == 0,
            board@.reserve_host == full_reserve(),
            board@.reserve_guest == full_reserve(),
            board@.move_count == 0,
            board@.moves_since_planting == 0,
    {
        Board {
            played_tiles_guest: Vec::with_capacity(10),
            played_tiles_host: Vec::with_capacity(10),
            reserve_host: new_reserve(),
            reserve_guest: new_reserve(),
            move_count: 0,
            moves_since_planting: 0,
        }
    }

    /// The tiles of the guest on the board.
    pub fn guest_tiles(&self) -> (tiles: &Vec<(Tile, Position)>)
        ensures
            tiles@ == self@.played_tiles_guest,
    {
        &self.played_tiles_guest
    }

    /// The tiles of the host on the board.
    pub fn host_tiles(&self) -> (tiles: &Vec<(Tile, Position)>)
        ensures
            tiles@ == self@.played_tiles_host,
    {
        &self.played_tiles_host
    }

    /// The reserve of the guest.
    pub fn guest_reserve(&self) -> (reserve: &Vec<(Tile, u8)>)
        ensures
            reserve@ == self@.reserve_guest,
    {
        &self.reserve_guest
    }

    /// The reserve of the host.
    pub fn host_reserve(&self) -> (reserve: &Vec<(Tile, u8)>)
        ensures
            reserve@ == self@.reserve_host,
    {
        &self.reserve_host
    }

    /// An independent copy of the board.
    pub fn replica(&self) -> (copy: Board)
        ensures
            copy@ == self@,
    {
        Board {
            played_tiles_guest: copy_of(&self.played_tiles_guest),
            played_tiles_host: copy_of(&self.played_tiles_host),
            reserve_host: copy_of(&self.reserve_host),
            reserve_guest: copy_of(&self.reserve_guest),
            move_count: self.move_count,
            moves_since_planting: self.moves_since_planting,
        }
    }

    /// The number of moves played.
    pub fn move_count(&self) -> (r: i16)
        ensures
            r == self@.move_count,
    {
        self.move_count
    }

    /// The number of moves played since a tile was planted last.
    pub fn moves_since_planting(&self) -> (r: i16)
        ensures
            r == self@.moves_since_planting,
    {
        self.moves_since_planting
    }

    /// Puts a tile of the guest on the board and takes it from the guest's
    /// reserve.
    pub fn guest_add_tile(&mut self, tile: Tile, position: Position)
        requires
            can_take(old(self)@.reserve_guest, tile),
        ensures
            final(self)@ == guest_added(old(self)@, tile, position),
    {
        self.played_tiles_guest.push((tile, position));
        take_tile(&mut self.reserve_guest, tile);
    }

    /// Puts a tile of the host on the board and takes it from the host's
    /// reserve.
    pub fn host_add_tile(&mut self, tile: Tile, position: Position)
        requires
            can_take(old(self)@.reserve_host, tile),
        ensures
            final(self)@ == host_added(old(self)@, tile, position),
    {
        self.played_tiles_host.push((tile, position));
        take_tile(&mut self.reserve_host, tile);
    }

    /// The player to move: the guest on even move counts, the host on odd
    /// ones.
    pub fn next_to_move(&self) -> (player: Player)
        requires
            self@.move_count >= 0,
        ensures
            player == mover_of(self@),
    {
        if self.move_count % 2 == 0 {
            Player::Guest
        } else {
            Player::Host
        }
    }

    /// Plays a move. The move is not checked against the rules.
    pub fn apply_move(&mut self, a_move: Move)
        requires
            can_apply(old(self)@, a_move),
        ensures
            final(self)@ == board_after(old(self)@, a_move),
    {
        match a_move {
            Move::Planting(flower_tile, position) => {
                self.moves_since_planting = 0;
                match self.next_to_move() {
                    Player::Host => {
                        self.host_add_tile(Tile::Flower(flower_tile), position);
                    },
                    Player::Guest => {
                        self.guest_add_tile(Tile::Flower(flower_tile), position);
                    },
                }
            },
            Move::Arranging(start, end) => {
                self.moves_since_planting = self.moves_since_planting + 1;
                if self.move_count % 2 == 0 {
                    move_tile(&mut self.played_tiles_guest, start, end);
                } else {
                    move_tile(&mut self.played_tiles_host, start, end);
                }
            },
        }
        self.move_count = self.move_count + 1;
    }
}

} // verus!
