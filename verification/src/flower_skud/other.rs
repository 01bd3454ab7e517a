//! Tiles, positions, directions and moves.

use vstd::prelude::*;

verus! {

/// The player who owns a tile.
#[derive(Copy, Clone, Eq, PartialEq, Structural, Debug)]
pub enum Owner {
    Host,
    Guest,
}

/// What a point of the grid holds.
pub type Cell = Option<(Tile, Owner)>;

/// A direction on the grid. `Up` is towards greater `y`, `Right` towards
/// greater `x`.
#[derive(Copy, Clone, Eq, PartialEq, Structural, Debug)]
pub enum Direction {
    Up,
    Down,
    Left,
    Right,
}

impl Direction {
    /// The change of `x` and of `y` by one step in this direction.
    pub open spec fn step(self) -> (int, int) {
        match self {
            Direction::Up => (0, 1),
            Direction::Down => (0, -1),
            Direction::Left => (-1, 0),
            Direction::Right => (1, 0),
        }
    }

    /// The four directions: up, down, left, right.
    pub const ALL: [Direction; 4] = [
        Direction::Up,
        Direction::Down,
        Direction::Left,
        Direction::Right,
    ];
}

/// A kind of flower tile. Roses, chrysanthemums and rhododendrons are red
/// and move 3, 4 and 5 steps; jasmines, lilies and white jades are white
/// and move 3, 4 and 5 steps.
#[derive(Clone, Copy, PartialEq, Eq, Structural, Debug)]
pub enum FlowerTile {
    Rose,
    Chrysanthemum,
    Rhododendron,
    Jasmine,
    Lily,
    WhiteJade,
}

impl FlowerTile {
    /// The place of the flower on the circle rose, chrysanthemum,
    /// rhododendron, jasmine, lily, white jade.
    pub open spec fn place(self) -> int {
        match self {
            FlowerTile::Rose => 0,
            FlowerTile::Chrysanthemum => 1,
            FlowerTile::Rhododendron => 2,
            FlowerTile::Jasmine => 3,
            FlowerTile::Lily => 4,
            FlowerTile::WhiteJade => 5,
        }
    }

    /// Whether the flower is red.
    pub open spec fn is_red(self) -> bool {
        self.place() < 3
    }

    /// The number of steps that the flower moves at most.
    pub open spec fn reach(self) -> int {
        self.place() % 3 + 3
    }
}

/// A tile.
#[derive(Clone, Copy, PartialEq, Eq, Structural, Debug)]
pub enum Tile {
    Flower(FlowerTile),
}

impl Tile {
    /// The flower on the tile.
    pub open spec fn flower(self) -> FlowerTile {
        self->Flower_0
    }

    /// Two flowers clash that lie opposite each other on the circle.
    pub open spec fn clashes_with(self, rhs: Tile) -> bool {
        (self.flower().place() - rhs.flower().place()) % 6 == 3
    }

    /// Two flowers harmonize that lie next to each other on the circle.
    pub open spec fn harmonizes_with(self, rhs: Tile) -> bool {
        (self.flower().place() - rhs.flower().place()) % 6 == 1 || (self.flower().place()
            - rhs.flower().place()) % 6 == 5
    }

    /// Whether this tile and `rhs` clash.
    pub fn clashes(&self, rhs: &Self) -> (r: bool)
        ensures
            r == self.clashes_with(*rhs),
    {
        match (*self, *rhs) {
            (Tile::Flower(FlowerTile::Rose), Tile::Flower(FlowerTile::Jasmine)) => true,
            (Tile::Flower(FlowerTile::Chrysanthemum), Tile::Flower(FlowerTile::Lily)) => true,
            (Tile::Flower(FlowerTile::Rhododendron), Tile::Flower(FlowerTile::WhiteJade)) => true,
            (Tile::Flower(FlowerTile::Jasmine), Tile::Flower(FlowerTile::Rose)) => true,
            (Tile::Flower(FlowerTile::Lily), Tile::Flower(FlowerTile::Chrysanthemum)) => true,
            (Tile::Flower(FlowerTile::WhiteJade), Tile::Flower(FlowerTile::Rhododendron)) => true,
            _ => false,
        }
    }

    /// Whether this tile and `rhs` harmonize.
    pub fn harmonizes(&self, rhs: &Self) -> (r: bool)
        ensures
            r == self.harmonizes_with(*rhs),
    {
        match (*self, *rhs) {
            (Tile::Flower(FlowerTile::Rose), Tile::Flower(FlowerTile::Chrysanthemum)) => true,
            (Tile::Flower(FlowerTile::Chrysanthemum), Tile::Flower(FlowerTile::Rhododendron)) => {
                true
            },
            (Tile::Flower(FlowerTile::Rhododendron), Tile::Flower(FlowerTile::Jasmine)) => true,
            (Tile::Flower(FlowerTile::Jasmine), Tile::Flower(FlowerTile::Lily)) => true,
            (Tile::Flower(FlowerTile::Lily), Tile::Flower(FlowerTile::WhiteJade)) => true,
            (Tile::Flower(FlowerTile::WhiteJade), Tile::Flower(FlowerTile::Rose)) => true,
            (Tile::Flower(FlowerTile::Chrysanthemum), Tile::Flower(FlowerTile::Rose)) => true,
            (Tile::Flower(FlowerTile::Rhododendron), Tile::Flower(FlowerTile::Chrysanthemum)) => {
                true
            },
            (Tile::Flower(FlowerTile::Jasmine), Tile::Flower(FlowerTile::Rhododendron)) => true,
            (Tile::Flower(FlowerTile::Lily), Tile::Flower(FlowerTile::Jasmine)) => true,
            (Tile::Flower(FlowerTile::WhiteJade), Tile::Flower(FlowerTile::Lily)) => true,
            (Tile::Flower(FlowerTile::Rose), Tile::Flower(FlowerTile::WhiteJade)) => true,
            _ => false,
        }
    }
}

/// The absolute value of a coordinate.
pub open spec fn distance(v: int) -> int {
    if v < 0 {
        -v
    } else {
        v
    }
}

/// Whether the point (`x`, `y`) lies on the board: no coordinate is more
/// than 8 from the centre, nor both together more than 12.
pub open spec fn on_board(x: int, y: int) -> bool {
    distance(x) <= 8 && distance(y) <= 8 && distance(x) + distance(y) <= 12
}

/// Whether the point (`x`, `y`) is one of the four gates.
pub open spec fn gate_at(x: int, y: int) -> bool {
    (x == 8 && y == 0) || (x == -8 && y == 0) || (x == 0 && y == 8) || (x == 0 && y == -8)
}

/// A point of the board.
#[derive(Clone, Copy, PartialEq, Eq, Structural, Debug, Hash)]
pub struct Position {
    x: i8,
    y: i8,
}

impl Position {
    /// The column of the point.
    pub closed spec fn col(self) -> int {
        self.x as int
    }

    /// The row of the point.
    pub closed spec fn row(self) -> int {
        self.y as int
    }

    /// The point in column `x` and row `y`.
    pub closed spec fn at(x: int, y: int) -> Position {
        Position { x: x as i8, y: y as i8 }
    }

    /// A point has the column and the row that it was made of.
    pub broadcast proof fn lemma_at(x: int, y: int)
        requires
            -128 <= x < 128,
            -128 <= y < 128,
        ensures
            (#[trigger] Position::at(x, y)).col() == x,
            Position::at(x, y).row() == y,
    {
    }

    /// A point is the point in its column and row.
    pub proof fn lemma_at_self(self)
        ensures
            Position::at(self.col(), self.row()) == self,
            -128 <= self.col() < 128,
            -128 <= self.row() < 128,
    {
    }

    /// Whether the point lies on the board. Every position that this module
    /// hands out does.
    pub open spec fn valid(self) -> bool {
        on_board(self.col(), self.row())
    }

    /// Whether the point is one of the four gates.
    pub fn is_gate(&self) -> (r: bool)
        ensures
            r == gate_at(self.col(), self.row()),
    {
        (self.x == 8 && self.y == 0) || (self.x == -8 && self.y == 0) || (self.x == 0 && self.y
            == 8) || (self.x == 0 && self.y == -8)
    }

    /// The four gates: east, west, north, south.
    pub fn gates() -> (list: [Position; 4])
        ensures
            list@.len() == 4,
            list@[0].col() == 8 && list@[0].row() == 0,
            list@[1].col() == -8 && list@[1].row() == 0,
            list@[2].col() == 0 && list@[2].row() == 8,
            list@[3].col() == 0 && list@[3].row() == -8,
            list@ == seq![
                Position::at(8, 0),
                Position::at(-8, 0),
                Position::at(0, 8),
                Position::at(0, -8),
            ],
            forall|k: int| 0 <= k < 4 ==> (#[trigger] list@[k]).valid(),
    {
        let list = [
            Position { x: 8, y: 0 },
            Position { x: -8, y: 0 },
            Position { x: 0, y: 8 },
            Position { x: 0, y: -8 },
        ];
        assert(list@ =~= seq![
            Position::at(8, 0),
            Position::at(-8, 0),
            Position::at(0, 8),
            Position::at(0, -8),
        ]);
        list
    }

    /// Whether the point (`x`, `y`) lies off the board.
    pub fn out_of_bound(x: i8, y: i8) -> (r: bool)
        ensures
            r == !on_board(x as int, y as int),
    {
        let ax: i16 = if x < 0 {
            -(x as i16)
        } else {
            x as i16
        };
        let ay: i16 = if y < 0 {
            -(y as i16)
        } else {
            y as i16
        };
        ax > 8 || ay > 8 || ax + ay > 12
    }

    /// The point (`x`, `y`), or `None` where it lies off the board.
    pub fn new(x: i8, y: i8) -> (r: Option<Position>)
        ensures
            r == if on_board(x as int, y as int) {
                Some(Position::at(x as int, y as int))
            } else {
                None
            },
            r matches Some(p) ==> p.col() == x && p.row() == y && p.valid(),
    {
        if Self::out_of_bound(x, y) {
            None
        } else {
            Some(Position { x, y })
        }
    }

    /// The column and the row of the point.
    pub fn value(&self) -> (r: (i8, i8))
        ensures
            r.0 == self.col(),
            r.1 == self.row(),
    {
        (self.x, self.y)
    }

    /// The neighbour of the point in direction `d`, or `None` where that
    /// lies off the board.
    pub fn add(&self, d: Direction) -> (r: Option<Position>)
        requires
            self.valid(),
        ensures
            r == if on_board(self.col() + d.step().0, self.row() + d.step().1) {
                Some(Position::at(self.col() + d.step().0, self.row() + d.step().1))
            } else {
                None
            },
            r matches Some(p) ==> p.col() == self.col() + d.step().0 && p.row() == self.row()
                + d.step().1 && p.valid(),
    {
        match d {
            Direction::Up => Position::new(self.x, self.y + 1),
            Direction::Down => Position::new(self.x, self.y - 1),
            Direction::Left => Position::new(self.x - 1, self.y),
            Direction::Right => Position::new(self.x + 1, self.y),
        }
    }
}

/// A move: planting a flower from the reserve on a point, or arranging the
/// tile on the first point to the second.
#[derive(Clone, Copy, PartialEq, Eq, Structural, Debug)]
pub enum Move {
    Planting(FlowerTile, Position),
    Arranging(Position, Position),
}

/// A list of moves.
pub type Moves = Vec<Move>;

} // verus!
