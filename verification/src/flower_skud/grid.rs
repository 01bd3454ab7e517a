//! The board as a grid of points, and the harmonies between the tiles on
//! it.

use vstd::prelude::*;
use super::board::{Board, Layout};
use super::other::{gate_at, on_board, Cell, Direction, Move, Owner, Position, Tile};
use crate::monte_carlo_tree_search::Player;

verus! {

/// A harmony: its owner and the points of the two tiles.
pub type Harmony = (Owner, Position, Position);

/// The place of the point (`x`, `y`) in the list of cells.
pub open spec fn cell_index(x: int, y: int) -> int {
    (x + 8) + (y + 8) * 17
}

/// What the grid holds on point `p`.
pub open spec fn cell_on(cells: Seq<Cell>, p: Position) -> Cell {
    cells[cell_index(p.col(), p.row())]
}

/// Whether all tiles lie on the board.
pub open spec fn all_on_board(tiles: Seq<(Tile, Position)>) -> bool {
    forall|k: int| 0 <= k < tiles.len() ==> (#[trigger] tiles[k]).1.valid()
}

/// The cells with the first `n` of `tiles` put on their points for
/// `owner`, one after the other.
pub open spec fn with_tiles(
    cells: Seq<Cell>,
    tiles: Seq<(Tile, Position)>,
    owner: Owner,
    n: int,
) -> Seq<Cell>
    decreases n,
{
    if n <= 0 {
        cells
    } else {
        with_tiles(cells, tiles, owner, n - 1).update(
            cell_index(tiles[n - 1].1.col(), tiles[n - 1].1.row()),
            Some((tiles[n - 1].0, owner)),
        )
    }
}

/// The grid of a board: the tiles of the guest, then those of the host, put
/// on an empty grid.
pub open spec fn grid_of(b: Layout) -> Seq<Cell> {
    with_tiles(
        with_tiles(
            Seq::new(289, |i: int| None),
            b.played_tiles_guest,
            Owner::Guest,
            b.played_tiles_guest.len() as int,
        ),
        b.played_tiles_host,
        Owner::Host,
        b.played_tiles_host.len() as int,
    )
}

/// How far the point (`x`, `y`) lies in direction `d`.
pub open spec fn along(d: Direction, x: int, y: int) -> int {
    match d {
        Direction::Up => y,
        Direction::Down => -y,
        Direction::Left => -x,
        Direction::Right => x,
    }
}

/// The first tile on point (`x`, `y`) or beyond it in direction `d`, with
/// its point and owner.
pub open spec fn tile_from(cells: Seq<Cell>, x: int, y: int, d: Direction) -> Option<
    (Tile, Position, Owner),
>
    decreases 9 - along(d, x, y),
{
    if !on_board(x, y) {
        None
    } else {
        match cells[cell_index(x, y)] {
            Some((tile, owner)) => Some((tile, Position::at(x, y), owner)),
            None => tile_from(cells, x + d.step().0, y + d.step().1, d),
        }
    }
}

/// The first tile beyond point `p` in direction `d`.
pub open spec fn next_tile(cells: Seq<Cell>, p: Position, d: Direction) -> Option<
    (Tile, Position, Owner),
> {
    tile_from(cells, p.col() + d.step().0, p.row() + d.step().1, d)
}

/// The gates in the order east, west, north, south.
pub open spec fn gate(k: int) -> Position {
    if k == 0 {
        Position::at(8, 0)
    } else if k == 1 {
        Position::at(-8, 0)
    } else if k == 2 {
        Position::at(0, 8)
    } else {
        Position::at(0, -8)
    }
}

/// The gates among the first `n` that hold no tile.
pub open spec fn open_gates_upto(cells: Seq<Cell>, n: int) -> Seq<Position>
    decreases n,
{
    if n <= 0 {
        Seq::empty()
    } else if cell_on(cells, gate(n - 1)) is None {
        open_gates_upto(cells, n - 1).push(gate(n - 1))
    } else {
        open_gates_upto(cells, n - 1)
    }
}

/// The state of a walk along a line of the grid that collects harmonies:
/// the last tile that was passed, and the harmonies found.
pub struct Scan {
    pub last: Option<Position>,
    pub found: Seq<Harmony>,
}

/// The walk after the point (`x`, `y`). A point off the board is passed
/// over, a gate makes the walk forget the last tile, an empty point changes
/// nothing. A tile becomes the last tile; where there was a last tile of the
/// same owner that harmonizes with it, the two are a harmony.
pub open spec fn scan_step(cells: Seq<Cell>, s: Scan, x: int, y: int) -> Scan {
    if !on_board(x, y) {
        s
    } else if gate_at(x, y) {
        Scan { last: None, found: s.found }
    } else {
        match cells[cell_index(x, y)] {
            None => s,
            Some((tile, owner)) => match s.last {
                None => Scan { last: Some(Position::at(x, y)), found: s.found },
                Some(last) => Scan {
                    last: Some(Position::at(x, y)),
                    found: match cell_on(cells, last) {
                        Some((last_tile, last_owner)) => if owner == last_owner
                            && last_tile.harmonizes_with(tile) {
                            s.found.push((last_owner, last, Position::at(x, y)))
                        } else {
                            s.found
                        },
                        None => s.found,
                    },
                },
            },
        }
    }
}

/// The walk along the points (`fixed`, -8), (`fixed`, -7), ... after `n`
/// points; with `swap`, along (-8, `fixed`), (-7, `fixed`), ...
pub open spec fn scan_line(cells: Seq<Cell>, found: Seq<Harmony>, fixed: int, swap: bool, n: int) -> Scan
    decreases n,
{
    if n <= 0 {
        Scan { last: None, found }
    } else if swap {
        scan_step(cells, scan_line(cells, found, fixed, swap, n - 1), n - 9, fixed)
    } else {
        scan_step(cells, scan_line(cells, found, fixed, swap, n - 1), fixed, n - 9)
    }
}

/// The harmonies that the walks along the first `n` lines of either kind
/// find, each walk 16 points long.
pub open spec fn harmonies_upto(cells: Seq<Cell>, n: int) -> Seq<Harmony>
    decreases n,
{
    if n <= 0 {
        Seq::empty()
    } else {
        scan_line(
            cells,
            scan_line(cells, harmonies_upto(cells, n - 1), n - 9, false, 16).found,
            n - 9,
            true,
            16,
        ).found
    }
}

/// Whether the walk has only met tiles: its last tile is a tile of the
/// grid.
pub open spec fn scan_ok(cells: Seq<Cell>, s: Scan) -> bool {
    s.last matches Some(p) ==> p.valid() && cell_on(cells, p) is Some
}

/// The owner of the tiles of a player.
pub open spec fn owner_of(player: Player) -> Owner {
    match player {
        Player::Host => Owner::Host,
        Player::Guest => Owner::Guest,
    }
}

/// Whether `m` lies strictly between `a` and `b`.
pub open spec fn between(a: int, m: int, b: int) -> bool {
    (a > m && m > b) || (a < m && m < b)
}

/// Whether a harmony ends when a tile goes from `start` to `end`: where it
/// is a harmony of the tile itself, and where the tile comes to lie between
/// its two tiles, measured along the line of the harmony only.
pub open spec fn harmony_broken(h: Harmony, start: Position, end: Position) -> bool {
    h.1 == start || h.2 == start || if h.1.col() == h.2.col() {
        between(h.1.row(), end.row(), h.2.row())
    } else {
        between(h.1.col(), end.col(), h.2.col())
    }
}

/// The harmonies among the first `n` that do not end when a tile goes from
/// `start` to `end`, in their order.
pub open spec fn harmonies_kept(list: Seq<Harmony>, start: Position, end: Position, n: int) -> Seq<
    Harmony,
>
    decreases n,
{
    if n <= 0 {
        Seq::empty()
    } else if harmony_broken(list[n - 1], start, end) {
        harmonies_kept(list, start, end, n - 1)
    } else {
        harmonies_kept(list, start, end, n - 1).push(list[n - 1])
    }
}

/// The four directions in the order up, down, left, right.
pub open spec fn direction(k: int) -> Direction {
    if k == 0 {
        Direction::Up
    } else if k == 1 {
        Direction::Down
    } else if k == 2 {
        Direction::Left
    } else {
        Direction::Right
    }
}

/// `list` with the harmonies that a tile of `owner` on `end` has with the
/// next tile in each of the first `n` directions.
pub open spec fn harmonies_near(
    cells: Seq<Cell>,
    tile: Tile,
    owner: Owner,
    end: Position,
    list: Seq<Harmony>,
    n: int,
) -> Seq<Harmony>
    decreases n,
{
    if n <= 0 {
        list
    } else {
        let before = harmonies_near(cells, tile, owner, end, list, n - 1);
        match next_tile(cells, end, direction(n - 1)) {
            Some((t, p, o)) => if t.harmonizes_with(tile) && owner == o {
                before.push((o, end, p))
            } else {
                before
            },
            None => before,
        }
    }
}

/// `list` with the harmony between the next tiles on the two sides of
/// `start`, where they are of one owner, harmonize and neither stands in a
/// gate.
pub open spec fn harmony_across(
    cells: Seq<Cell>,
    start: Position,
    first: Direction,
    second: Direction,
    list: Seq<Harmony>,
) -> Seq<Harmony> {
    match (next_tile(cells, start, first), next_tile(cells, start, second)) {
        (Some(a), Some(b)) => if a.2 == b.2 && a.0.harmonizes_with(b.0) && !gate_at(
            a.1.col(),
            a.1.row(),
        ) && !gate_at(b.1.col(), b.1.row()) {
            list.push((a.2, a.1, b.1))
        } else {
            list
        },
        _ => list,
    }
}

/// The cells after the tile on `start` has gone to `end`.
pub open spec fn cells_arranged(cells: Seq<Cell>, start: Position, end: Position) -> Seq<Cell> {
    cells.update(cell_index(end.col(), end.row()), cell_on(cells, start)).update(
        cell_index(start.col(), start.row()),
        None,
    )
}

/// The harmonies after the tile on `start` has gone to `end`: those that
/// do not end, then those of the tile on its new point, then those that the
/// tile stood in the way of.
pub open spec fn harmonies_arranged(
    cells: Seq<Cell>,
    list: Seq<Harmony>,
    start: Position,
    end: Position,
) -> Seq<Harmony> {
    let after = cells_arranged(cells, start, end);
    let moved = cell_on(cells, start).unwrap();
    let near = harmonies_near(
        after,
        moved.0,
        moved.1,
        end,
        harmonies_kept(list, start, end, list.len() as int),
        4,
    );
    if gate_at(start.col(), start.row()) {
        near
    } else {
        harmony_across(
            after,
            start,
            Direction::Left,
            Direction::Right,
            harmony_across(after, start, Direction::Up, Direction::Down, near),
        )
    }
}

/// A grid of 17 by 17 points.
#[derive(Clone)]
pub struct Grid {
    cells: Vec<Cell>,
}

impl View for Grid {
    type V = Seq<Cell>;

    closed spec fn view(&self) -> Seq<Cell> {
        self.cells@
    }
}

impl Grid {
    /// Whether the grid has all its points.
    pub open spec fn wf(&self) -> bool {
        self@.len() == 289
    }

    /// What the grid holds on `position`.
    pub fn index(&self, position: &Position) -> (cell: &Option<(Tile, Owner)>)
        requires
            self.wf(),
            position.valid(),
        ensures
            *cell == cell_on(self@, *position),
    {
        let (x, y) = position.value();
        let (x, y) = (x + 8, y + 8);
        &self.cells[x as usize + y as usize * 17]
    }

    /// What the grid holds on `position`, for changing it.
    pub fn index_mut(&mut self, position: &Position) -> (cell: &mut Option<(Tile, Owner)>)
        requires
            old(self).wf(),
            position.valid(),
        ensures
            *cell == cell_on(old(self)@, *position),
            final(self)@ == old(self)@.update(
                cell_index(position.col(), position.row()),
                *final(cell),
            ),
    {
        let (x, y) = position.value();
        let (x, y) = (x + 8, y + 8);
        &mut self.cells[x as usize + y as usize * 17]
    }

    /// A grid without tiles.
    fn blank() -> (grid: Grid)
        ensures
            grid.wf(),
            grid@ == Seq::new(289, |i: int| None::<(Tile, Owner)>),
    {
        let mut cells: Vec<Cell> = Vec::new();
        let mut i: usize = 0;
        while i < 289
            invariant
                i <= 289,
                cells@.len() == i,
                forall|k: int| 0 <= k < i ==> cells@[k] is None,
            decreases 289 - i,
        {
            cells.push(None);
            i = i + 1;
        }
        let grid = Grid { cells };
        assert(grid@ =~= Seq::new(289, |i: int| None::<(Tile, Owner)>));
        grid
    }

    /// Puts `tiles` on their points for `owner`.
    fn put_tiles(&mut self, tiles: &Vec<(Tile, Position)>, owner: Owner)
        requires
            old(self).wf(),
            all_on_board(tiles@),
        ensures
            final(self).wf(),
            final(self)@ == with_tiles(old(self)@, tiles@, owner, tiles@.len() as int),
    {
        let mut k: usize = 0;
        while k < tiles.len()
            invariant
                k <= tiles@.len(),
                self.wf(),
                all_on_board(tiles@),
                self@ == with_tiles(old(self)@, tiles@, owner, k as int),
            decreases tiles@.len() - k,
        {
            let (tile, pos) = tiles[k];
            assert(tiles@[k as int].1.valid());
            *self.index_mut(&pos) = Some((tile, owner));
            k = k + 1;
        }
    }

    /// The grid of a board.
    pub fn create(board: &Board) -> (grid: Grid)
        requires
            all_on_board(board@.played_tiles_guest),
            all_on_board(board@.played_tiles_host),
        ensures
            grid.wf(),
            grid@ == grid_of(board@),
    {
        let mut grid = Grid::blank();
        grid.put_tiles(board.guest_tiles(), Owner::Guest);
        grid.put_tiles(board.host_tiles(), Owner::Host);
        grid
    }

    /// The first tile beyond `p` in direction `d`, with its point and
    /// owner; `None` where the edge of the board comes first.
    pub fn next_tile_in_direction(&self, p: &Position, d: Direction) -> (r: Option<
        (Tile, Position, Owner),
    >)
        requires
            self.wf(),
            p.valid(),
        ensures
            r == next_tile(self@, *p, d),
            r matches Some(found) ==> found.1.valid() && cell_on(self@, found.1) == Some(
                (found.0, found.2),
            ),
    {
        let mut new_pos = p.add(d);
        loop
            invariant
                self.wf(),
                new_pos matches Some(np) ==> np.valid(),
                next_tile(self@, *p, d) == (match new_pos {
                    Some(np) => tile_from(self@, np.col(), np.row(), d),
                    None => None,
                }),
            decreases
                    (match new_pos {
                        Some(np) => 10 - along(d, np.col(), np.row()),
                        None => 0,
                    }),
        {
            match new_pos {
                None => {
                    return None;
                },
                Some(np) => {
                    proof {
                        np.lemma_at_self();
                    }
                    let cell = self.index(&np);
                    if let Some(content) = cell {
                        return Some((content.0, np, content.1));
                    }
                    new_pos = np.add(d);
                    proof {
                        let nx = np.col() + d.step().0;
                        let ny = np.row() + d.step().1;
                        assert(!on_board(nx, ny) ==> tile_from(self@, nx, ny, d) is None);
                        Position::lemma_at(nx, ny);
                    }
                },
            }
        }
    }

    /// The gates that hold no tile, in the order east, west, north, south.
    pub fn open_gates(&self) -> (gates: Vec<Position>)
        requires
            self.wf(),
        ensures
            gates@ == open_gates_upto(self@, 4),
            forall|k: int| 0 <= k < gates@.len() ==> (#[trigger] gates@[k]).valid(),
    {
        let all = Position::gates();
        let mut gates: Vec<Position> = Vec::new();
        let mut k: usize = 0;
        while k < 4
            invariant
                k <= 4,
                self.wf(),
                all@.len() == 4,
                forall|j: int| 0 <= j < 4 ==> (#[trigger] all@[j]).valid() && all@[j] == gate(j),
                gates@ == open_gates_upto(self@, k as int),
                forall|j: int| 0 <= j < gates@.len() ==> (#[trigger] gates@[j]).valid(),
            decreases 4 - k,
        {
            let pos = all[k];
            if self.index(&pos).is_none() {
                gates.push(pos);
            }
            k = k + 1;
        }
        gates
    }

    /// One step of a walk that collects harmonies: looks at the point
    /// (`x`, `y`), given the last tile that the walk has passed.
    fn harmony_step(
        &self,
        x: i8,
        y: i8,
        last: Option<Position>,
        harmonie_list: &mut Vec<(Owner, Position, Position)>,
    ) -> (next: Option<Position>)
        requires
            self.wf(),
            scan_ok(self@, (Scan { last, found: old(harmonie_list)@ })),
        ensures
            (Scan { last: next, found: final(harmonie_list)@ }) == scan_step(
                self@,
                (Scan { last, found: old(harmonie_list)@ }),
                x as int,
                y as int,
            ),
            scan_ok(self@, (Scan { last: next, found: final(harmonie_list)@ })),
    {
        let Some(pos) = Position::new(x, y) else {
            return last;
        };
        if pos.is_gate() {
            return None;
        }
        let Some((new_tile_type, new_tile_owner)) = *self.index(&pos) else {
            return last;
        };
        let Some(last_tile_pos) = last else {
            return Some(pos);
        };
        let (last_tile_type, last_tile_owner) = (*self.index(&last_tile_pos)).unwrap();
        let same_owner = new_tile_owner == last_tile_owner;
        let tiles_harmonize = last_tile_type.harmonizes(&new_tile_type);
        if same_owner && tiles_harmonize {
            harmonie_list.push((last_tile_owner, last_tile_pos, pos));
        }
        Some(pos)
    }

    /// Adds the harmonies between neighbouring tiles on the points
    /// (`row`, -8) to (`row`, 7).
    pub fn add_all_harmonies_row(
        &self,
        row: i8,
        harmonie_list: &mut Vec<(Owner, Position, Position)>,
    )
        requires
            self.wf(),
        ensures
            final(harmonie_list)@ == scan_line(
                self@,
                old(harmonie_list)@,
                row as int,
                false,
                16,
            ).found,
    {
        let mut last: Option<Position> = None;
        let mut j: i8 = -8;
        while j < 8
            invariant
                -8 <= j <= 8,
                self.wf(),
                scan_ok(self@, (Scan { last, found: harmonie_list@ })),
                (Scan { last, found: harmonie_list@ }) == scan_line(
                    self@,
                    old(harmonie_list)@,
                    row as int,
                    false,
                    j + 8,
                ),
            decreases 8 - j,
        {
            last = self.harmony_step(row, j, last, harmonie_list);
            j = j + 1;
        }
    }

    /// Adds the harmonies between neighbouring tiles on the points
    /// (-8, `column`) to (7, `column`).
    pub fn add_all_harmonies_column(
        &self,
        column: i8,
        harmonie_list: &mut Vec<(Owner, Position, Position)>,
    )
        requires
            self.wf(),
        ensures
            final(harmonie_list)@ == scan_line(
                self@,
                old(harmonie_list)@,
                column as int,
                true,
                16,
            ).found,
    {
        let mut last: Option<Position> = None;
        let mut j: i8 = -8;
        while j < 8
            invariant
                -8 <= j <= 8,
                self.wf(),
                scan_ok(self@, (Scan { last, found: harmonie_list@ })),
                (Scan { last, found: harmonie_list@ }) == scan_line(
                    self@,
                    old(harmonie_list)@,
                    column as int,
                    true,
                    j + 8,
                ),
            decreases 8 - j,
        {
            last = self.harmony_step(j, column, last, harmonie_list);
            j = j + 1;
        }
    }

    /// Adds the harmony between the next tiles on the two sides of `start`.
    fn add_harmony_across(
        &self,
        start: &Position,
        first: Direction,
        second: Direction,
        harmonie_list: &mut Vec<(Owner, Position, Position)>,
    )
        requires
            self.wf(),
            start.valid(),
        ensures
            final(harmonie_list)@ == harmony_across(
                self@,
                *start,
                first,
                second,
                old(harmonie_list)@,
            ),
    {
        if let (Some(a), Some(b)) = (
            self.next_tile_in_direction(start, first),
            self.next_tile_in_direction(start, second),
        ) {
            if a.2 == b.2 && a.0.harmonizes(&b.0) && !a.1.is_gate() && !b.1.is_gate() {
                harmonie_list.push((a.2, a.1, b.1));
            }
        }
    }

    /// Plays a move of `player` on the grid and brings the list of
    /// harmonies up to date. Planting puts the tile on its point and leaves
    /// the harmonies as they are. Arranging moves the tile on the first point
    /// to the second.
    pub fn apply_move(
        &mut self,
        a_move: Move,
        player: Player,
        harmonie_list: &mut Vec<(Owner, Position, Position)>,
    )
        requires
            old(self).wf(),
            match a_move {
                Move::Planting(_, position) => position.valid(),
                Move::Arranging(start, end) => start.valid() && end.valid() && cell_on(
                    old(self)@,
                    start,
                ) is Some,
            },
        ensures
            final(self).wf(),
            match a_move {
                Move::Planting(flower, position) => {
                    &&& final(self)@ == old(self)@.update(
                        cell_index(position.col(), position.row()),
                        Some((Tile::Flower(flower), owner_of(player))),
                    )
                    &&& final(harmonie_list)@ == old(harmonie_list)@
                },
                Move::Arranging(start, end) => {
                    &&& final(self)@ == cells_arranged(old(self)@, start, end)
                    &&& final(harmonie_list)@ == harmonies_arranged(
                        old(self)@,
                        old(harmonie_list)@,
                        start,
                        end,
                    )
                },
            },
    {
        match a_move {
            Move::Planting(flower_tile, position) => {
                let owner = match player {
                    Player::Host => Owner::Host,
                    Player::Guest => Owner::Guest,
                };
                *self.index_mut(&position) = Some((Tile::Flower(flower_tile), owner));
            },
            Move::Arranging(start, end) => {
                let cell_content = *self.index(&start);
                *self.index_mut(&end) = cell_content;
                *self.index_mut(&start) = None;
                let mut kept: Vec<(Owner, Position, Position)> = Vec::new();
                let mut index: usize = 0;
                while index < harmonie_list.len()
                    invariant
                        index <= harmonie_list@.len(),
                        harmonie_list@ == old(harmonie_list)@,
                        kept@ == harmonies_kept(harmonie_list@, start, end, index as int),
                    decreases harmonie_list@.len() - index,
                {
                    let (owner, from, to) = harmonie_list[index];
                    let gone = if from == start || to == start {
                        true
                    } else {
                        let from = from.value();
                        let to = to.value();
                        let end = end.value();
                        if from.0 == to.0 {
                            (from.1 > end.1 && end.1 > to.1) || (from.1 < end.1 && end.1 < to.1)
                        } else {
                            (from.0 > end.0 && end.0 > to.0) || (from.0 < end.0 && end.0 < to.0)
                        }
                    };
                    if !gone {
                        kept.push((owner, from, to));
                    }
                    index = index + 1;
                }
                *harmonie_list = kept;
                let Some(cell_content) = cell_content else {
                    return ;
                };
                let directions = Direction::ALL;
                let mut k: usize = 0;
                while k < 4
                    invariant
                        k <= 4,
                        self.wf(),
                        end.valid(),
                        directions@ == seq![
                            Direction::Up,
                            Direction::Down,
                            Direction::Left,
                            Direction::Right,
                        ],
                        harmonie_list@ == harmonies_near(
                            self@,
                            cell_content.0,
                            cell_content.1,
                            end,
                            harmonies_kept(
                                old(harmonie_list)@,
                                start,
                                end,
                                old(harmonie_list)@.len() as int,
                            ),
                            k as int,
                        ),
                    decreases 4 - k,
                {
                    let d = directions[k];
                    assert(d == direction(k as int));
                    if let Some((t, p, o)) = self.next_tile_in_direction(&end, d) {
                        if t.harmonizes(&cell_content.0) && cell_content.1 == o {
                            harmonie_list.push((o, end, p));
                        }
                    }
                    k = k + 1;
                }
                if !start.is_gate() {
                    self.add_harmony_across(&start, Direction::Up, Direction::Down, harmonie_list);
                    self.add_harmony_across(
                        &start,
                        Direction::Left,
                        Direction::Right,
                        harmonie_list,
                    );
                }
            },
        }
    }

    /// The harmonies on the grid, found by walking along the lines -8 to 7
    /// in both directions.
    pub fn list_all_harmonies(&self) -> (harmonie_list: Vec<(Owner, Position, Position)>)
        requires
            self.wf(),
        ensures
            harmonie_list@ == harmonies_upto(self@, 16),
    {
        let mut harmonie_list = Vec::new();
        let mut i: i8 = -8;
        while i < 8
            invariant
                -8 <= i <= 8,
                self.wf(),
                harmonie_list@ == harmonies_upto(self@, i + 8),
            decreases 8 - i,
        {
            self.add_all_harmonies_row(i, &mut harmonie_list);
            self.add_all_harmonies_column(i, &mut harmonie_list);
            i = i + 1;
        }
        harmonie_list
    }
}

} // verus!
