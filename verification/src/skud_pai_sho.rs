//! Skud Pai Sho with special flowers and accent tiles: the pieces and how a
//! move changes the board. The rules that say which moves are legal and
//! when a game is over are not part of this module.

use vstd::prelude::*;

verus! {

/// A kind of flower tile.
#[derive(Clone, Copy, PartialEq, Eq, Structural, Debug)]
pub enum FlowerTile {
    Rose,
    Chrysanthemum,
    Rhododendron,
    Jasmine,
    Lily,
    WhiteJade,
}

/// A kind of special flower tile.
#[derive(Clone, Copy, PartialEq, Eq, Structural, Debug)]
pub enum SpecialFlowerTile {
    Lotus,
    Orchid,
}

/// A kind of accent tile.
#[derive(Clone, Copy, PartialEq, Eq, Structural, Debug)]
pub enum AccentTile {
    Rock,
    Wheel,
    Knotweed,
    Boat,
}

/// A tile.
#[derive(Clone, Copy, PartialEq, Eq, Structural, Debug)]
pub enum Tile {
    Flower(FlowerTile),
    Special(SpecialFlowerTile),
    Accent(AccentTile),
}

/// A point of the board.
#[derive(Clone, Copy, PartialEq, Eq, Structural, Debug)]
pub struct Position {
    x: i8,
    y: i8,
}

impl Position {
    /// The column of the point.
    pub closed spec fn col(self) -> int {
        self.x as int
    }

    /// The row of the point.
    pub closed spec fn row(self) -> int {
        self.y as int
    }

    /// The point in column `x` and row `y`.
    pub closed spec fn at(x: int, y: int) -> Position {
        Position { x: x as i8, y: y as i8 }
    }

    /// A point has the column and the row that it was made of.
    pub proof fn lemma_at(x: int, y: int)
        requires
            -128 <= x < 128,
            -128 <= y < 128,
        ensures
            Position::at(x, y).col() == x,
            Position::at(x, y).row() == y,
    {
    }

    /// A point is the point in its column and row.
    pub proof fn lemma_at_self(self)
        ensures
            Position::at(self.col(), self.row()) == self,
            -128 <= self.col() < 128,
            -128 <= self.row() < 128,
    {
    }

    /// Whether a wheel can turn a tile on this point without the column
    /// leaving the range of its type.
    pub open spec fn can_turn(self) -> bool {
        -128 < self.col() < 127 && -128 < self.row() < 127
    }

    /// The point in column `x` and row `y`.
    pub fn new(x: i8, y: i8) -> (p: Position)
        ensures
            p == Position::at(x as int, y as int),
            p.col() == x,
            p.row() == y,
    {
        Position { x, y }
    }

    /// The column and the row of the point.
    pub fn value(&self) -> (r: (i8, i8))
        ensures
            r.0 == self.col(),
            r.1 == self.row(),
    {
        (self.x, self.y)
    }
}

/// What comes with an arranging that makes a harmony.
#[derive(Clone, Copy, PartialEq, Eq, Structural, Debug)]
pub enum HarmonyBonus {
    PlantFlower(FlowerTile, Position),
    PlantSpecialFlower(SpecialFlowerTile, Position),
    PlaceAccentTile(AccentTileMove, Position),
}

/// How an accent tile is placed: a boat pushes the tile on its point to
/// another point, any other accent tile is just put down.
#[derive(Clone, Copy, PartialEq, Eq, Structural, Debug)]
pub enum AccentTileMove {
    Boat(Position),
    Wrapper(AccentTile),
}

/// A move: planting a flower on a point, or arranging the tile on the first
/// point to the second, with a bonus where that makes a harmony.
#[derive(Clone, Copy, PartialEq, Eq, Structural, Debug)]
pub enum Move {
    Planting(FlowerTile, Position),
    Arranging(Position, Position, Option<HarmonyBonus>),
}

/// A list of moves.
pub type Moves = Vec<Move>;

/// The mathematical value of a board.
pub struct Layout {
    pub played_tiles_guest: Seq<(Tile, Position)>,
    pub played_tiles_host: Seq<(Tile, Position)>,
    pub reserve_host: Seq<(Tile, u8)>,
    pub reserve_guest: Seq<(Tile, u8)>,
    pub move_count: i16,
}

/// The position of the first entry of a reserve for `tile` from position
/// `k` on; the length of the reserve where there is none.
pub open spec fn entry_from(reserve: Seq<(Tile, u8)>, tile: Tile, k: int) -> int
    decreases reserve.len() - k,
{
    if k < 0 || k >= reserve.len() {
        reserve.len() as int
    } else if reserve[k].0 == tile {
        k
    } else {
        entry_from(reserve, tile, k + 1)
    }
}

/// Whether a tile of this kind can be taken from the reserve: the reserve
/// has no entry for it, or the first one has a tile left.
pub open spec fn can_take(reserve: Seq<(Tile, u8)>, tile: Tile) -> bool {
    let k = entry_from(reserve, tile, 0);
    k < reserve.len() ==> reserve[k].1 > 0
}

/// The reserve with one tile fewer in its first entry for `tile`.
pub open spec fn reserve_without(reserve: Seq<(Tile, u8)>, tile: Tile) -> Seq<(Tile, u8)> {
    let k = entry_from(reserve, tile, 0);
    if k < reserve.len() {
        reserve.update(k, (tile, (reserve[k].1 - 1) as u8))
    } else {
        reserve
    }
}

/// The position of the first tile on `from` from position `k` on; the
/// number of tiles where there is none.
pub open spec fn on_from(tiles: Seq<(Tile, Position)>, from: Position, k: int) -> int
    decreases tiles.len() - k,
{
    if k < 0 || k >= tiles.len() {
        tiles.len() as int
    } else if tiles[k].1 == from {
        k
    } else {
        on_from(tiles, from, k + 1)
    }
}

/// The tiles with the first tile on `from` moved to `to`.
pub open spec fn tiles_moved(tiles: Seq<(Tile, Position)>, from: Position, to: Position) -> Seq<
    (Tile, Position),
> {
    let k = on_from(tiles, from, 0);
    if k < tiles.len() {
        tiles.update(k, (tiles[k].0, to))
    } else {
        tiles
    }
}

/// Where a wheel on `position` turns a tile on `tile` to: a tile below the
/// wheel, or below and one to its left, goes one column to the right; a
/// tile above it, or above and one to its right, one column to the left; a
/// tile left of it, level or one row below, one column to the right; a tile
/// right of it, level or one row above, one column to the left. Any other
/// tile stays.
pub open spec fn wheeled(position: Position, tile: Position) -> Position {
    let (px, py) = (position.col(), position.row());
    let (tx, ty) = (tile.col(), tile.row());
    if ty + 1 == py && (tx == px || tx - 1 == px) {
        Position::at(tx + 1, ty)
    } else if ty - 1 == py && (tx == px || tx + 1 == px) {
        Position::at(tx - 1, ty)
    } else if tx + 1 == px && (ty == py || ty + 1 == py) {
        Position::at(tx + 1, ty)
    } else if tx - 1 == px && (ty == py || ty - 1 == py) {
        Position::at(tx - 1, ty)
    } else {
        tile
    }
}

/// The tiles after a wheel on `position` has turned each of them.
pub open spec fn all_wheeled(tiles: Seq<(Tile, Position)>, position: Position) -> Seq<
    (Tile, Position),
> {
    Seq::new(tiles.len(), |k: int| (tiles[k].0, wheeled(position, tiles[k].1)))
}

/// Whether a wheel can turn every one of the tiles.
pub open spec fn all_can_turn(tiles: Seq<(Tile, Position)>) -> bool {
    forall|k: int| 0 <= k < tiles.len() ==> (#[trigger] tiles[k]).1.can_turn()
}

/// The board after the guest has put `tile` on `position`.
pub open spec fn guest_added(b: Layout, tile: Tile, position: Position) -> Layout {
    Layout {
        played_tiles_guest: b.played_tiles_guest.push((tile, position)),
        reserve_guest: reserve_without(b.reserve_guest, tile),
        ..b
    }
}

/// The board after the host has put `tile` on `position`.
pub open spec fn host_added(b: Layout, tile: Tile, position: Position) -> Layout {
    Layout {
        played_tiles_host: b.played_tiles_host.push((tile, position)),
        reserve_host: reserve_without(b.reserve_host, tile),
        ..b
    }
}

/// Whether the guest is to move.
pub open spec fn guest_to_move(b: Layout) -> bool {
    b.move_count % 2 == 0
}

/// The board after the bonus of an arranging. A planted flower goes to the
/// player to move. An accent tile always goes to the host. A boat first
/// pushes the tile that the player to move has on its point; a wheel turns
/// the tiles of the player to move.
pub open spec fn bonus_applied(b: Layout, bonus: HarmonyBonus) -> Layout {
    match bonus {
        HarmonyBonus::PlantFlower(flower, position) => if guest_to_move(b) {
            guest_added(b, Tile::Flower(flower), position)
        } else {
            host_added(b, Tile::Flower(flower), position)
        },
        HarmonyBonus::PlantSpecialFlower(special, position) => if guest_to_move(b) {
            guest_added(b, Tile::Special(special), position)
        } else {
            host_added(b, Tile::Special(special), position)
        },
        HarmonyBonus::PlaceAccentTile(AccentTileMove::Boat(pushed), position) => {
            let moved = if guest_to_move(b) {
                Layout {
                    played_tiles_guest: tiles_moved(b.played_tiles_guest, position, pushed),
                    ..b
                }
            } else {
                Layout { played_tiles_host: tiles_moved(b.played_tiles_host, position, pushed), ..b }
            };
            host_added(moved, Tile::Accent(AccentTile::Boat), position)
        },
        HarmonyBonus::PlaceAccentTile(AccentTileMove::Wrapper(accent), position) => {
            let placed = host_added(b, Tile::Accent(accent), position);
            if accent != AccentTile::Wheel {
                placed
            } else if guest_to_move(b) {
                Layout {
                    played_tiles_guest: all_wheeled(placed.played_tiles_guest, position),
                    ..placed
                }
            } else {
                Layout {
                    played_tiles_host: all_wheeled(placed.played_tiles_host, position),
                    ..placed
                }
            }
        },
    }
}

/// The board after a move. Planting puts the flower on the board for the
/// player to move. Arranging moves the first tile that the guest has on the
/// first point to the second, whoever is to move, and then applies the
/// bonus. Both pass the turn.
pub open spec fn board_after(b: Layout, a_move: Move) -> Layout {
    let played = match a_move {
        Move::Planting(flower, position) => if guest_to_move(b) {
            guest_added(b, Tile::Flower(flower), position)
        } else {
            host_added(b, Tile::Flower(flower), position)
        },
        Move::Arranging(start, end, bonus) => {
            let arranged = Layout {
                played_tiles_guest: tiles_moved(b.played_tiles_guest, start, end),
                ..b
            };
            match bonus {
                Some(bonus) => bonus_applied(arranged, bonus),
                None => arranged,
            }
        },
    };
    Layout { move_count: (b.move_count + 1) as i16, ..played }
}

/// Whether the bonus can be applied: the tile that it puts on the board is
/// there to be taken from the reserve, and a wheel can turn all tiles of
/// the player to move, its own tile among them where that is the host.
pub open spec fn can_apply_bonus(b: Layout, bonus: HarmonyBonus) -> bool {
    match bonus {
        HarmonyBonus::PlantFlower(flower, _) => if guest_to_move(b) {
            can_take(b.reserve_guest, Tile::Flower(flower))
        } else {
            can_take(b.reserve_host, Tile::Flower(flower))
        },
        HarmonyBonus::PlantSpecialFlower(special, _) => if guest_to_move(b) {
            can_take(b.reserve_guest, Tile::Special(special))
        } else {
            can_take(b.reserve_host, Tile::Special(special))
        },
        HarmonyBonus::PlaceAccentTile(AccentTileMove::Boat(_), _) => can_take(
            b.reserve_host,
            Tile::Accent(AccentTile::Boat),
        ),
        HarmonyBonus::PlaceAccentTile(AccentTileMove::Wrapper(accent), position) => {
            &&& can_take(b.reserve_host, Tile::Accent(accent))
            &&& accent == AccentTile::Wheel ==> position.can_turn() && if guest_to_move(b) {
                all_can_turn(b.played_tiles_guest)
            } else {
                all_can_turn(b.played_tiles_host)
            }
        },
    }
}

/// Whether `apply_move` can play the move: the move counter has room, and
/// what the move puts on the board can be taken from the reserve.
pub open spec fn can_apply(b: Layout, a_move: Move) -> bool {
    &&& 0 <= b.move_count < i16::MAX
    &&& match a_move {
        Move::Planting(flower, _) => if guest_to_move(b) {
            can_take(b.reserve_guest, Tile::Flower(flower))
        } else {
            can_take(b.reserve_host, Tile::Flower(flower))
        },
        Move::Arranging(start, end, bonus) => match bonus {
            Some(bonus) => can_apply_bonus(
                Layout { played_tiles_guest: tiles_moved(b.played_tiles_guest, start, end), ..b },
                bonus,
            ),
            None => true,
        },
    }
}

/// Whether the reserve of the player to move has an entry for a flower.
pub open spec fn lists_flower(reserve: Seq<(Tile, u8)>) -> bool {
    exists|k: int| 0 <= k < reserve.len() && (#[trigger] reserve[k]).0 is Flower
}

/// A board.
#[derive(Clone)]
pub struct Board {
    played_tiles_guest: Vec<(Tile, Position)>,
    played_tiles_host: Vec<(Tile, Position)>,
    reserve_host: Vec<(Tile, u8)>,
    reserve_guest: Vec<(Tile, u8)>,
    move_count: i16,
}

impl View for Board {
    type V = Layout;

    closed spec fn view(&self) -> Layout {
        Layout {
            played_tiles_guest: self.played_tiles_guest@,
            played_tiles_host: self.played_tiles_host@,
            reserve_host: self.reserve_host@,
            reserve_guest: self.reserve_guest@,
            move_count: self.move_count,
        }
    }
}

/// Takes one tile of this kind from the reserve.
fn take_tile(reserve: &mut Vec<(Tile, u8)>, tile: Tile)
    requires
        can_take(old(reserve)@, tile),
    ensures
        final(reserve)@ == reserve_without(old(reserve)@, tile),
{
    let mut k: usize = 0;
    while k < reserve.len()
        invariant
            k <= reserve@.len(),
            reserve@ == old(reserve)@,
            can_take(reserve@, tile),
            entry_from(reserve@, tile, 0) == entry_from(reserve@, tile, k as int),
        decreases reserve@.len() - k,
    {
        if reserve[k].0 == tile {
            let amount = reserve[k].1;
            reserve[k] = (tile, amount - 1);
            return ;
        }
        k = k + 1;
    }
}

/// Moves the first tile on `from` to `to`.
fn move_tile(tiles: &mut Vec<(Tile, Position)>, from: Position, to: Position)
    ensures
        final(tiles)@ == tiles_moved(old(tiles)@, from, to),
{
    let mut k: usize = 0;
    while k < tiles.len()
        invariant
            k <= tiles@.len(),
            tiles@ == old(tiles)@,
            on_from(tiles@, from, 0) == on_from(tiles@, from, k as int),
        decreases tiles@.len() - k,
    {
        if tiles[k].1 == from {
            let tile = tiles[k].0;
            tiles[k] = (tile, to);
            return ;
        }
        k = k + 1;
    }
}

/// Turns each of the tiles by a wheel on `position`.
fn wheel_tiles(tiles: &mut Vec<(Tile, Position)>, position: Position)
    requires
        position.can_turn(),
        all_can_turn(old(tiles)@),
    ensures
        final(tiles)@ == all_wheeled(old(tiles)@, position),
{
    let mut k: usize = 0;
    while k < tiles.len()
        invariant
            k <= tiles@.len(),
            position.can_turn(),
            tiles@.len() == old(tiles)@.len(),
            forall|j: int|
                0 <= j < k ==> tiles@[j] == (
                    old(tiles)@[j].0,
                    wheeled(position, old(tiles)@[j].1),
                ),
            forall|j: int| k <= j < tiles@.len() ==> tiles@[j] == old(tiles)@[j],
            all_can_turn(old(tiles)@),
        decreases tiles@.len() - k,
    {
        let (tile, mut tile_position) = tiles[k];
        assert(old(tiles)@[k as int].1.can_turn());
        Board::wheel_a_tile(position, &mut tile_position);
        tiles[k] = (tile, tile_position);
        k = k + 1;
    }
    assert(tiles@ =~= all_wheeled(old(tiles)@, position));
}

impl Board {
    /// A board without tiles, with the given reserves.
    pub fn new(reserve_guest: Vec<(Tile, u8)>, reserve_host: Vec<(Tile, u8)>) -> (board: Board)
        ensures
            board@.played_tiles_guest.len() == 0,
            board@.played_tiles_host.len() == 0,
            board@.reserve_guest == reserve_guest@,
            board@.reserve_host == reserve_host@,
            board@.move_count == 0,
    {
        Board {
            played_tiles_guest: Vec::new(),
            played_tiles_host: Vec::new(),
            reserve_host,
            reserve_guest,
            move_count: 0,
        }
    }

    /// The tiles of the guest on the board.
    pub fn guest_tiles(&self) -> (tiles: &Vec<(Tile, Position)>)
        ensures
            tiles@ == self@.played_tiles_guest,
    {
        &self.played_tiles_guest
    }

    /// The tiles of the host on the board.
    pub fn host_tiles(&self) -> (tiles: &Vec<(Tile, Position)>)
        ensures
            tiles@ == self@.played_tiles_host,
    {
        &self.played_tiles_host
    }

    /// The reserve of the guest.
    pub fn guest_reserve(&self) -> (reserve: &Vec<(Tile, u8)>)
        ensures
            reserve@ == self@.reserve_guest,
    {
        &self.reserve_guest
    }

    /// The reserve of the host.
    pub fn host_reserve(&self) -> (reserve: &Vec<(Tile, u8)>)
        ensures
            reserve@ == self@.reserve_host,
    {
        &self.reserve_host
    }

    /// The number of moves played.
    pub fn move_count(&self) -> (r: i16)
        ensures
            r == self@.move_count,
    {
        self.move_count
    }

    /// Puts a tile of the guest on the board and takes it from the guest's
    /// reserve.
    pub fn guest_add_tile(&mut self, tile: Tile, position: Position)
        requires
            can_take(old(self)@.reserve_guest, tile),
        ensures
            final(self)@ == guest_added(old(self)@, tile, position),
    {
        self.played_tiles_guest.push((tile, position));
        take_tile(&mut self.reserve_guest, tile);
    }

    /// Puts a tile of the host on the board and takes it from the host's
    /// reserve.
    pub fn host_add_tile(&mut self, tile: Tile, position: Position)
        requires
            can_take(old(self)@.reserve_host, tile),
        ensures
            final(self)@ == host_added(old(self)@, tile, position),
    {
        self.played_tiles_host.push((tile, position));
        take_tile(&mut self.reserve_host, tile);
    }

    /// The legal moves on a board where the player to move has no tile on
    /// the board and no flower in the reserve: none.
    pub fn all_legal_moves(&self) -> (move_set: Vec<Move>)
        requires
            guest_to_move(self@) ==> self@.played_tiles_guest.len() == 0 && !lists_flower(
                self@.reserve_guest,
            ),
            !guest_to_move(self@) ==> self@.played_tiles_host.len() == 0 && !lists_flower(
                self@.reserve_host,
            ),
        ensures
            move_set@.len() == 0,
    {
        Vec::new()
    }

    /// Turns the tile on `tile_position` by a wheel on `position`.
    pub fn wheel_a_tile(position: Position, tile_position: &mut Position)
        requires
            position.can_turn(),
            old(tile_position).can_turn(),
        ensures
            *final(tile_position) == wheeled(position, *old(tile_position)),
    {
        proof {
            tile_position.lemma_at_self();
        }
        if tile_position.y + 1 == position.y && (tile_position.x == position.x || tile_position.x
            - 1 == position.x) {
            tile_position.x = tile_position.x + 1;
            return ;
        }
        if tile_position.y - 1 == position.y && (tile_position.x == position.x || tile_position.x
            + 1 == position.x) {
            tile_position.x = tile_position.x - 1;
            return ;
        }
        if tile_position.x + 1 == position.x && (tile_position.y == position.y || tile_position.y
            + 1 == position.y) {
            tile_position.x = tile_position.x + 1;
            return ;
        }
        if tile_position.x - 1 == position.x && (tile_position.y == position.y || tile_position.y
            - 1 == position.y) {
            tile_position.x = tile_position.x - 1;
            return ;
        }
    }

    /// Plays a move. The move is not checked against the rules.
    pub fn apply_move(&mut self, a_move: Move)
        requires
            can_apply(old(self)@, a_move),
        ensures
            final(self)@ == board_after(old(self)@, a_move),
    {
        let guest = self.move_count % 2 == 0;
        match a_move {
            Move::Planting(flower_tile, position) => {
                if guest {
                    self.guest_add_tile(Tile::Flower(flower_tile), position);
                } else {
                    self.host_add_tile(Tile::Flower(flower_tile), position);
                }
            },
            Move::Arranging(start, end, harmony_bonus) => {
                move_tile(&mut self.played_tiles_guest, start, end);
                if let Some(bonus_move) = harmony_bonus {
                    match bonus_move {
                        HarmonyBonus::PlaceAccentTile(accent_tile_move, position) => {
                            match accent_tile_move {
                                AccentTileMove::Boat(pushed_position) => {
                                    if guest {
                                        move_tile(
                                            &mut self.played_tiles_guest,
                                            position,
                                            pushed_position,
                                        );
                                    } else {
                                        move_tile(
                                            &mut self.played_tiles_host,
                                            position,
                                            pushed_position,
                                        );
                                    }
                                    self.host_add_tile(Tile::Accent(AccentTile::Boat), position);
                                },
                                AccentTileMove::Wrapper(accent_tile) => {
                                    self.host_add_tile(Tile::Accent(accent_tile), position);
                                    match accent_tile {
                                        AccentTile::Wheel => {
                                            if guest {
                                                wheel_tiles(&mut self.played_tiles_guest, position);
                                            } else {
                                                assert forall|k: int|
                                                    0 <= k < self.played_tiles_host@.len() implies (
                                                #[trigger] self.played_tiles_host@[k]).1.can_turn() by {
                                                    if k < old(self).played_tiles_host@.len() {
                                                        assert(old(self).played_tiles_host@[k].1.can_turn());
                                                    }
                                                }
                                                wheel_tiles(&mut self.played_tiles_host, position);
                                            }
                                        },
                                        _ => {},
                                    }
                                },
                            }
                        },
                        HarmonyBonus::PlantFlower(flower_tile, position) => {
                            if guest {
                                self.guest_add_tile(Tile::Flower(flower_tile), position);
                            } else {
                                self.host_add_tile(Tile::Flower(flower_tile), position);
                            }
                        },
                        HarmonyBonus::PlantSpecialFlower(special_flower_tile, position) => {
                            if guest {
                                self.guest_add_tile(Tile::Special(special_flower_tile), position);
                            } else {
                                self.host_add_tile(Tile::Special(special_flower_tile), position);
                            }
                        },
                    }
                }
            },
        }
        self.move_count = self.move_count + 1;
    }
}

} // verus!
