//! Flower Skud Pai Sho: a Pai Sho variant played with flower tiles only.

use vstd::prelude::*;

pub mod board;
pub mod game;
pub mod grid;
pub mod other;
pub mod outcome;
pub mod play;

pub use board::Board;
pub use grid::{Grid, Harmony};
pub use other::{Cell, Direction, FlowerTile, Move, Moves, Owner, Position, Tile};

use board::Layout;
use grid::{all_on_board, along, cell_index, cell_on, next_tile, tile_from};
use other::{distance, gate_at, on_board};

verus! {

/// Whether a tile may come to rest on point `p`. It may not in a gate. In
/// the inner part of the board, where the coordinates are together no more
/// than 6 from the centre, a red flower may not rest where the coordinates
/// have different signs, nor a white one where they have the same sign.
pub open spec fn garden_ok(p: Position, t: Tile) -> bool {
    let x = p.col();
    let y = p.row();
    &&& !gate_at(x, y)
    &&& distance(x) + distance(y) <= 6 ==> (if t.flower().is_red() {
        !((x < 0 && y > 0) || (x > 0 && y < 0))
    } else {
        !((x < 0 && y < 0) || (x > 0 && y > 0))
    })
}

/// Whether tile `t` may come to rest on point `p`.
pub fn correct_garden(p: Position, t: Tile) -> (r: bool)
    ensures
        r == garden_ok(p, t),
{
    if p.is_gate() {
        return false;
    }
    let (x, y) = p.value();
    let ax: i16 = if x < 0 {
        -(x as i16)
    } else {
        x as i16
    };
    let ay: i16 = if y < 0 {
        -(y as i16)
    } else {
        y as i16
    };
    if ax + ay <= 6 {
        let opposite = (x < 0 && y > 0) || (x > 0 && y < 0);
        let alike = (x < 0 && y < 0) || (x > 0 && y > 0);
        match t {
            Tile::Flower(FlowerTile::Rose)
            | Tile::Flower(FlowerTile::Chrysanthemum)
            | Tile::Flower(FlowerTile::Rhododendron) => {
                if opposite {
                    return false;
                }
            },
            Tile::Flower(FlowerTile::Jasmine)
            | Tile::Flower(FlowerTile::Lily)
            | Tile::Flower(FlowerTile::WhiteJade) => {
                if alike {
                    return false;
                }
            },
        }
    }
    true
}

/// The next tile beyond `start` in direction `d`, unless it stands in a
/// gate.
pub open spec fn side_tile(cells: Seq<Cell>, start: Position, d: Direction) -> Option<Tile> {
    match next_tile(cells, start, d) {
        Some((t, p, _)) => if gate_at(p.col(), p.row()) {
            None
        } else {
            Some(t)
        },
        None => None,
    }
}

/// Whether both tiles are there and clash.
pub open spec fn pair_clashes(a: Option<Tile>, b: Option<Tile>) -> bool {
    match (a, b) {
        (Some(x), Some(y)) => x.clashes_with(y),
        _ => false,
    }
}

/// The directions in which the tile on `start` may move: left and right
/// unless the tiles above and below it clash, up and down unless the tiles
/// left and right of it clash.
pub open spec fn fill_directions(cells: Seq<Cell>, start: Position) -> Seq<Direction> {
    (if pair_clashes(
        side_tile(cells, start, Direction::Up),
        side_tile(cells, start, Direction::Down),
    ) {
        Seq::<Direction>::empty()
    } else {
        seq![Direction::Left, Direction::Right]
    }) + (if pair_clashes(
        side_tile(cells, start, Direction::Left),
        side_tile(cells, start, Direction::Right),
    ) {
        Seq::<Direction>::empty()
    } else {
        seq![Direction::Up, Direction::Down]
    })
}

/// A step from `p` in each of the first `n` directions.
pub open spec fn steps_from(p: Position, dirs: Seq<Direction>, n: int) -> Seq<
    (Position, Direction),
>
    decreases n,
{
    if n <= 0 {
        Seq::empty()
    } else {
        steps_from(p, dirs, n - 1).push((p, dirs[n - 1]))
    }
}

/// Whether the point (`x`, `y`) is a point of the board outside the gates
/// that holds no tile.
pub open spec fn free_at(cells: Seq<Cell>, x: int, y: int) -> bool {
    on_board(x, y) && !gate_at(x, y) && cells[cell_index(x, y)] is None
}

/// Whether a walk from `start` of no more than `k` steps, each in one of
/// the directions `dirs` and each to a free point, ends on the point
/// (`x`, `y`).
pub open spec fn within(
    cells: Seq<Cell>,
    dirs: Seq<Direction>,
    start: Position,
    x: int,
    y: int,
    k: int,
) -> bool
    decreases k, 1int,
{
    &&& k >= 1
    &&& free_at(cells, x, y)
    &&& {
        ||| arrives(cells, dirs, start, x, y, k, Direction::Up)
        ||| arrives(cells, dirs, start, x, y, k, Direction::Down)
        ||| arrives(cells, dirs, start, x, y, k, Direction::Left)
        ||| arrives(cells, dirs, start, x, y, k, Direction::Right)
    }
}

/// Whether such a walk can end on the point (`x`, `y`) with a step in
/// direction `d`: the point before is `start`, or the end of a walk of no
/// more than `k - 1` steps.
pub open spec fn arrives(
    cells: Seq<Cell>,
    dirs: Seq<Direction>,
    start: Position,
    x: int,
    y: int,
    k: int,
    d: Direction,
) -> bool
    decreases k, 0int,
{
    &&& k >= 1
    &&& dirs.contains(d)
    &&& {
        ||| (x - d.step().0 == start.col() && y - d.step().1 == start.row())
        ||| within(cells, dirs, start, x - d.step().0, y - d.step().1, k - 1)
    }
}

/// The points that tile `t` can reach from `start`, by cell: the ends of
/// the walks of no more steps than the tile moves, in the directions that
/// are open to it, over free points. The cell of the point (`x`, `y`) is
/// `x + 8 + 17 * (y + 8)`.
pub open spec fn flooded(cells: Seq<Cell>, t: Tile, start: Position) -> Seq<bool> {
    Seq::new(
        289,
        |i: int|
            within(
                cells,
                fill_directions(cells, start),
                start,
                i % 17 - 8,
                i / 17 - 8,
                t.flower().reach(),
            ),
    )
}

/// Whether the point (`x`, `y`) is one that the walks reach with `r` steps
/// and not with fewer; for no steps, whether it is `start`.
pub open spec fn frontier(
    cells: Seq<Cell>,
    dirs: Seq<Direction>,
    start: Position,
    x: int,
    y: int,
    r: int,
) -> bool {
    if r <= 0 {
        x == start.col() && y == start.row()
    } else {
        within(cells, dirs, start, x, y, r) && !within(cells, dirs, start, x, y, r - 1)
    }
}

/// Whether a step in direction `d` from the point (`x`, `y`) is due in
/// round `r` of the fill.
pub open spec fn due(
    cells: Seq<Cell>,
    dirs: Seq<Direction>,
    start: Position,
    x: int,
    y: int,
    d: Direction,
    r: int,
) -> bool {
    -8 <= x <= 8 && -8 <= y <= 8 && dirs.contains(d) && frontier(cells, dirs, start, x, y, r)
}

/// Whether `marks` marks the points that the walks reach with no more than
/// `r` steps.
pub open spec fn marks_are(
    cells: Seq<Cell>,
    dirs: Seq<Direction>,
    start: Position,
    marks: Seq<bool>,
    r: int,
) -> bool {
    &&& marks.len() == 289
    &&& forall|x: int, y: int|
        -8 <= x <= 8 && -8 <= y <= 8 ==> marks[cell_index(x, y)] == #[trigger] within(
            cells,
            dirs,
            start,
            x,
            y,
            r,
        )
}

/// Whether `queue` holds the steps that are due in round `r` and no others.
pub open spec fn queue_is_due(
    cells: Seq<Cell>,
    dirs: Seq<Direction>,
    start: Position,
    queue: Seq<(Position, Direction)>,
    r: int,
) -> bool {
    &&& forall|k: int|
        0 <= k < queue.len() ==> (#[trigger] queue[k]).0.valid() && due(
            cells,
            dirs,
            start,
            queue[k].0.col(),
            queue[k].0.row(),
            queue[k].1,
            r,
        )
    &&& forall|x: int, y: int, d: Direction| #[trigger]
        due(cells, dirs, start, x, y, d, r) ==> queue.contains((Position::at(x, y), d))
}

/// Whether a step leads to the point (`x`, `y`).
pub open spec fn lands(step: (Position, Direction), x: int, y: int) -> bool {
    step.0.col() + step.1.step().0 == x && step.0.row() + step.1.step().1 == y
}

/// Whether one of the first `n` steps leads to the point (`x`, `y`).
pub open spec fn touched(steps: Seq<(Position, Direction)>, x: int, y: int, n: int) -> bool
    decreases n,
{
    n > 0 && (touched(steps, x, y, n - 1) || lands(steps[n - 1], x, y))
}

/// Whether `marks` is `before` with the free points marked that the first
/// `n` steps lead to.
pub open spec fn marks_grown(
    cells: Seq<Cell>,
    before: Seq<bool>,
    marks: Seq<bool>,
    steps: Seq<(Position, Direction)>,
    n: int,
) -> bool {
    &&& marks.len() == 289
    &&& before.len() == 289
    &&& forall|x: int, y: int|
        -8 <= x <= 8 && -8 <= y <= 8 ==> #[trigger] grown_at(cells, before, marks, steps, x, y, n)
}

/// Whether the point (`x`, `y`) is marked in `marks` just if it is marked
/// in `before` or is a free point that one of the first `n` steps leads to.
pub open spec fn grown_at(
    cells: Seq<Cell>,
    before: Seq<bool>,
    marks: Seq<bool>,
    steps: Seq<(Position, Direction)>,
    x: int,
    y: int,
    n: int,
) -> bool {
    marks[cell_index(x, y)] == (before[cell_index(x, y)] || (free_at(cells, x, y) && touched(
        steps,
        x,
        y,
        n,
    )))
}

/// Whether the point (`x`, `y`) has been marked in this round, so that a
/// step from it in direction `d` is left for the next.
pub open spec fn newly(
    dirs: Seq<Direction>,
    before: Seq<bool>,
    marks: Seq<bool>,
    x: int,
    y: int,
    d: Direction,
) -> bool {
    &&& -8 <= x <= 8
    &&& -8 <= y <= 8
    &&& dirs.contains(d)
    &&& marks[cell_index(x, y)]
    &&& !before[cell_index(x, y)]
}

/// Whether `queue` holds the steps from the points that have been marked in
/// this round and no others.
pub open spec fn queue_is_new(
    dirs: Seq<Direction>,
    before: Seq<bool>,
    marks: Seq<bool>,
    queue: Seq<(Position, Direction)>,
) -> bool {
    &&& forall|k: int|
        0 <= k < queue.len() ==> (#[trigger] queue[k]).0.valid() && newly(
            dirs,
            before,
            marks,
            queue[k].0.col(),
            queue[k].0.row(),
            queue[k].1,
        )
    &&& forall|x: int, y: int, d: Direction| #[trigger]
        newly(dirs, before, marks, x, y, d) ==> queue.contains((Position::at(x, y), d))
}

/// A walk of no more than `k` steps is a walk of no more than `k + 1`.
pub proof fn lemma_within_grows(
    cells: Seq<Cell>,
    dirs: Seq<Direction>,
    start: Position,
    x: int,
    y: int,
    k: int,
)
    requires
        within(cells, dirs, start, x, y, k),
    ensures
        within(cells, dirs, start, x, y, k + 1),
    decreases k,
{
    if within(cells, dirs, start, x, y - 1, k - 1) {
        lemma_within_grows(cells, dirs, start, x, y - 1, k - 1);
    }
    if within(cells, dirs, start, x, y + 1, k - 1) {
        lemma_within_grows(cells, dirs, start, x, y + 1, k - 1);
    }
    if within(cells, dirs, start, x + 1, y, k - 1) {
        lemma_within_grows(cells, dirs, start, x + 1, y, k - 1);
    }
    if within(cells, dirs, start, x - 1, y, k - 1) {
        lemma_within_grows(cells, dirs, start, x - 1, y, k - 1);
    }
    assert(arrives(cells, dirs, start, x, y, k, Direction::Up) ==> arrives(
        cells,
        dirs,
        start,
        x,
        y,
        k + 1,
        Direction::Up,
    ));
    assert(arrives(cells, dirs, start, x, y, k, Direction::Down) ==> arrives(
        cells,
        dirs,
        start,
        x,
        y,
        k + 1,
        Direction::Down,
    ));
    assert(arrives(cells, dirs, start, x, y, k, Direction::Left) ==> arrives(
        cells,
        dirs,
        start,
        x,
        y,
        k + 1,
        Direction::Left,
    ));
    assert(arrives(cells, dirs, start, x, y, k, Direction::Right) ==> arrives(
        cells,
        dirs,
        start,
        x,
        y,
        k + 1,
        Direction::Right,
    ));
}

/// A walk of no more than `k` steps is a walk of no more than `m` for any
/// greater `m`.
pub proof fn lemma_within_stays(
    cells: Seq<Cell>,
    dirs: Seq<Direction>,
    start: Position,
    x: int,
    y: int,
    k: int,
    m: int,
)
    requires
        within(cells, dirs, start, x, y, k),
        k <= m,
    ensures
        within(cells, dirs, start, x, y, m),
    decreases m - k,
{
    if k < m {
        lemma_within_grows(cells, dirs, start, x, y, k);
        lemma_within_stays(cells, dirs, start, x, y, k + 1, m);
    }
}

/// A point that one of the steps leads to is touched.
pub proof fn lemma_touched(steps: Seq<(Position, Direction)>, x: int, y: int, k: int, n: int)
    requires
        0 <= k < n,
        lands(steps[k], x, y),
    ensures
        touched(steps, x, y, n),
    decreases n,
{
    if k < n - 1 {
        lemma_touched(steps, x, y, k, n - 1);
    }
}

/// A point that is touched is one that one of the steps leads to.
pub proof fn lemma_touching_step(steps: Seq<(Position, Direction)>, x: int, y: int, n: int) -> (k:
    int)
    requires
        touched(steps, x, y, n),
    ensures
        0 <= k < n,
        lands(steps[k], x, y),
    decreases n,
{
    if lands(steps[n - 1], x, y) {
        n - 1
    } else {
        lemma_touching_step(steps, x, y, n - 1)
    }
}

/// What one step of a round does to the marks and to the steps that are
/// left for the next round. Where the step leads to a free point that is
/// not marked, the point is marked and the steps from it are left for the
/// next round. Else nothing changes.
pub proof fn lemma_fill_step(
    cells: Seq<Cell>,
    dirs: Seq<Direction>,
    before: Seq<bool>,
    marks: Seq<bool>,
    marks_after: Seq<bool>,
    steps: Seq<(Position, Direction)>,
    done: int,
    queue: Seq<(Position, Direction)>,
    queue_after: Seq<(Position, Direction)>,
)
    requires
        0 <= done < steps.len(),
        steps[done].0.valid(),
        marks_grown(cells, before, marks, steps, done),
        queue_is_new(dirs, before, marks, queue),
        ({
            let tx = steps[done].0.col() + steps[done].1.step().0;
            let ty = steps[done].0.row() + steps[done].1.step().1;
            if free_at(cells, tx, ty) && !marks[cell_index(tx, ty)] {
                &&& marks_after == marks.update(cell_index(tx, ty), true)
                &&& queue_after == queue + steps_from(Position::at(tx, ty), dirs, dirs.len() as int)
            } else {
                &&& marks_after == marks
                &&& queue_after == queue
            }
        }),
    ensures
        marks_grown(cells, before, marks_after, steps, done + 1),
        queue_is_new(dirs, before, marks_after, queue_after),
{
    let tx = steps[done].0.col() + steps[done].1.step().0;
    let ty = steps[done].0.row() + steps[done].1.step().1;
    let hit = free_at(cells, tx, ty) && !marks[cell_index(tx, ty)];
    let target = Position::at(tx, ty);
    let added = steps_from(target, dirs, dirs.len() as int);
    lemma_steps_hold(target, dirs, dirs.len() as int);
    Position::lemma_at(tx, ty);
    assert forall|x: int, y: int| -8 <= x <= 8 && -8 <= y <= 8 implies #[trigger] grown_at(
        cells,
        before,
        marks_after,
        steps,
        x,
        y,
        done + 1,
    ) by {
        let was = touched(steps, x, y, done);
        assert(grown_at(cells, before, marks, steps, x, y, done));
        assert(lands(steps[done], x, y) == (x == tx && y == ty));
        assert(touched(steps, x, y, done + 1) == (was || lands(steps[done], x, y)));
        if hit && cell_index(x, y) == cell_index(tx, ty) {
            assert(x == tx && y == ty);
        }
    }
    if hit {
        assert(grown_at(cells, before, marks, steps, tx, ty, done));
        assert forall|k: int| 0 <= k < queue_after.len() implies (
        #[trigger] queue_after[k]).0.valid() && newly(
            dirs,
            before,
            marks_after,
            queue_after[k].0.col(),
            queue_after[k].0.row(),
            queue_after[k].1,
        ) by {
            if k < queue.len() {
                let q = queue[k];
                assert(newly(dirs, before, marks, q.0.col(), q.0.row(), q.1));
            } else {
                assert(queue_after[k] == added[k - queue.len()]);
                assert(dirs.contains(dirs[k - queue.len()]));
            }
        }
        assert forall|x: int, y: int, e: Direction| #[trigger]
            newly(dirs, before, marks_after, x, y, e) implies queue_after.contains(
            (Position::at(x, y), e),
        ) by {
            if x == tx && y == ty {
                let j = choose|j: int| 0 <= j < dirs.len() && dirs[j] == e;
                assert(queue_after[queue.len() + j] == added[j]);
            } else {
                assert(newly(dirs, before, marks, x, y, e));
                let k = choose|k: int| 0 <= k < queue.len() && queue[k] == (Position::at(x, y), e);
                assert(queue_after[k] == queue[k]);
            }
        }
    } else {
        assert forall|x: int, y: int, e: Direction| #[trigger]
            newly(dirs, before, marks_after, x, y, e) implies queue_after.contains(
            (Position::at(x, y), e),
        ) by {
            assert(newly(dirs, before, marks, x, y, e));
        }
    }
}

/// What has been marked after all steps that were due in a round is what
/// the walks reach with one step more, and the steps from the points that
/// have been marked are those that are due in the next round.
pub proof fn lemma_round(
    cells: Seq<Cell>,
    dirs: Seq<Direction>,
    start: Position,
    r: int,
    before: Seq<bool>,
    marks: Seq<bool>,
    steps: Seq<(Position, Direction)>,
    queue: Seq<(Position, Direction)>,
)
    requires
        r >= 0,
        start.valid(),
        marks_are(cells, dirs, start, before, r),
        queue_is_due(cells, dirs, start, steps, r),
        marks_grown(cells, before, marks, steps, steps.len() as int),
        queue_is_new(dirs, before, marks, queue),
    ensures
        marks_are(cells, dirs, start, marks, r + 1),
        queue_is_due(cells, dirs, start, queue, r + 1),
{
    assert forall|x: int, y: int| -8 <= x <= 8 && -8 <= y <= 8 implies marks[cell_index(x, y)]
        == #[trigger] within(cells, dirs, start, x, y, r + 1) by {
        let n = steps.len() as int;
        assert(grown_at(cells, before, marks, steps, x, y, n));
        assert(before[cell_index(x, y)] == within(cells, dirs, start, x, y, r));
        if within(cells, dirs, start, x, y, r) {
            lemma_within_grows(cells, dirs, start, x, y, r);
        }
        if free_at(cells, x, y) && touched(steps, x, y, n) {
            let k = lemma_touching_step(steps, x, y, n);
            let p = steps[k].0;
            let d = steps[k].1;
            assert(due(cells, dirs, start, p.col(), p.row(), d, r));
            assert(arrives(cells, dirs, start, x, y, r + 1, d));
        }
        if within(cells, dirs, start, x, y, r + 1) && !within(cells, dirs, start, x, y, r) {
            let d = if arrives(cells, dirs, start, x, y, r + 1, Direction::Up) {
                Direction::Up
            } else if arrives(cells, dirs, start, x, y, r + 1, Direction::Down) {
                Direction::Down
            } else if arrives(cells, dirs, start, x, y, r + 1, Direction::Left) {
                Direction::Left
            } else {
                Direction::Right
            };
            assert(arrives(cells, dirs, start, x, y, r + 1, d));
            let px = x - d.step().0;
            let py = y - d.step().1;
            if px == start.col() && py == start.row() {
                if r >= 1 {
                    assert(arrives(cells, dirs, start, x, y, 1, d));
                    assert(within(cells, dirs, start, x, y, 1));
                    lemma_within_stays(cells, dirs, start, x, y, 1, r);
                }
            } else {
                assert(within(cells, dirs, start, px, py, r));
                if within(cells, dirs, start, px, py, r - 1) {
                    assert(arrives(cells, dirs, start, x, y, r, d));
                    assert(within(cells, dirs, start, x, y, r));
                }
            }
            assert(due(cells, dirs, start, px, py, d, r));
            let step = (Position::at(px, py), d);
            assert(steps.contains(step));
            let k = choose|k: int| 0 <= k < steps.len() && steps[k] == step;
            Position::lemma_at(px, py);
            lemma_touched(steps, x, y, k, n);
        }
    }
    assert forall|k: int| 0 <= k < queue.len() implies (#[trigger] queue[k]).0.valid() && due(
        cells,
        dirs,
        start,
        queue[k].0.col(),
        queue[k].0.row(),
        queue[k].1,
        r + 1,
    ) by {
        let p = queue[k].0;
        assert(newly(dirs, before, marks, p.col(), p.row(), queue[k].1));
        assert(marks[cell_index(p.col(), p.row())] == within(
            cells,
            dirs,
            start,
            p.col(),
            p.row(),
            r + 1,
        ));
        assert(before[cell_index(p.col(), p.row())] == within(
            cells,
            dirs,
            start,
            p.col(),
            p.row(),
            r,
        ));
    }
    assert forall|x: int, y: int, d: Direction| #[trigger]
        due(cells, dirs, start, x, y, d, r + 1) implies queue.contains((Position::at(x, y), d)) by {
        assert(marks[cell_index(x, y)] == within(cells, dirs, start, x, y, r + 1));
        assert(before[cell_index(x, y)] == within(cells, dirs, start, x, y, r));
        assert(newly(dirs, before, marks, x, y, d));
    }
}

/// Whether every point that is marked is a free point of the board.
pub open spec fn marks_free(cells: Seq<Cell>, marks: Seq<bool>) -> bool {
    &&& marks.len() == 289
    &&& forall|x: int, y: int|
        -8 <= x <= 8 && -8 <= y <= 8 && #[trigger] marks[cell_index(x, y)] ==> free_at(cells, x, y)
}

/// The next tile beyond `start` in direction `d`, unless it stands in a
/// gate.
fn tile_beside(grid: &Grid, start: &Position, d: Direction) -> (r: Option<Tile>)
    requires
        grid.wf(),
        start.valid(),
    ensures
        r == side_tile(grid@, *start, d),
{
    match grid.next_tile_in_direction(start, d) {
        Some((t, p, _)) => if p.is_gate() {
            None
        } else {
            Some(t)
        },
        None => None,
    }
}

/// Adds a step from `p` in each direction of `dirs` to `queue`.
fn add_steps(queue: &mut Vec<(Position, Direction)>, p: Position, dirs: &Vec<Direction>)
    ensures
        final(queue)@ == old(queue)@ + steps_from(p, dirs@, dirs@.len() as int),
{
    let mut k: usize = 0;
    while k < dirs.len()
        invariant
            k <= dirs@.len(),
            queue@ == old(queue)@ + steps_from(p, dirs@, k as int),
        decreases dirs@.len() - k,
    {
        queue.push((p, dirs[k]));
        k = k + 1;
        assert(queue@ =~= old(queue)@ + steps_from(p, dirs@, k as int));
    }
}

/// The points that tile `moving_tile_type` can reach from
/// `starting_position`, by cell.
pub fn flood_fill(grid: &Grid, moving_tile_type: Tile, starting_position: &Position) -> (check_list:
    [bool; 289])
    requires
        grid.wf(),
        starting_position.valid(),
    ensures
        check_list@ == flooded(grid@, moving_tile_type, *starting_position),
        marks_free(grid@, check_list@),
{
    let move_range: usize = match moving_tile_type {
        Tile::Flower(FlowerTile::Rose) | Tile::Flower(FlowerTile::Jasmine) => 3,
        Tile::Flower(FlowerTile::Chrysanthemum) | Tile::Flower(FlowerTile::Lily) => 4,
        Tile::Flower(FlowerTile::Rhododendron) | Tile::Flower(FlowerTile::WhiteJade) => 5,
    };
    let mut check_list: [bool; 289] = [false; 289];
    let up = tile_beside(grid, starting_position, Direction::Up);
    let down = tile_beside(grid, starting_position, Direction::Down);
    let left = tile_beside(grid, starting_position, Direction::Left);
    let right = tile_beside(grid, starting_position, Direction::Right);
    let mut directions_to_check: Vec<Direction> = Vec::with_capacity(4);
    let sideways_blocked = match (up, down) {
        (Some(a), Some(b)) => a.clashes(&b),
        _ => false,
    };
    if !sideways_blocked {
        directions_to_check.push(Direction::Left);
        directions_to_check.push(Direction::Right);
    }
    let upright_blocked = match (left, right) {
        (Some(a), Some(b)) => a.clashes(&b),
        _ => false,
    };
    if !upright_blocked {
        directions_to_check.push(Direction::Up);
        directions_to_check.push(Direction::Down);
    }
    let ghost cells = grid@;
    let ghost start = *starting_position;
    let ghost dirs = fill_directions(cells, start);
    assert(directions_to_check@ =~= dirs);
    let mut left_to_check: Vec<(Position, Direction)> = Vec::new();
    add_steps(&mut left_to_check, *starting_position, &directions_to_check);
    proof {
        assert(left_to_check@ =~= steps_from(start, dirs, dirs.len() as int));
        start.lemma_at_self();
        lemma_steps_hold(start, dirs, dirs.len() as int);
        assert(check_list@ =~= Seq::new(289, |i: int| false));
        assert forall|k: int| 0 <= k < left_to_check@.len() implies (
        #[trigger] left_to_check@[k]).0.valid() && due(
            cells,
            dirs,
            start,
            left_to_check@[k].0.col(),
            left_to_check@[k].0.row(),
            left_to_check@[k].1,
            0,
        ) by {
            assert(dirs.contains(dirs[k]));
        }
        assert forall|x: int, y: int, d: Direction| #[trigger]
            due(cells, dirs, start, x, y, d, 0) implies left_to_check@.contains(
            (Position::at(x, y), d),
        ) by {
            let j = choose|j: int| 0 <= j < dirs.len() && dirs[j] == d;
            assert(left_to_check@[j] == (start, d));
        }
    }
    let mut round: usize = 0;
    while round < move_range
        invariant
            round <= move_range,
            grid.wf(),
            cells == grid@,
            start.valid(),
            directions_to_check@ == dirs,
            marks_are(cells, dirs, start, check_list@, round as int),
            queue_is_due(cells, dirs, start, left_to_check@, round as int),
        decreases move_range - round,
    {
        let current = left_to_check;
        left_to_check = Vec::new();
        let ghost before = check_list@;
        let mut i: usize = 0;
        while i < current.len()
            invariant
                i <= current@.len(),
                grid.wf(),
                cells == grid@,
                directions_to_check@ == dirs,
                forall|k: int| 0 <= k < current@.len() ==> (#[trigger] current@[k]).0.valid(),
                marks_grown(cells, before, check_list@, current@, i as int),
                queue_is_new(dirs, before, check_list@, left_to_check@),
            decreases current@.len() - i,
        {
            let (p, d) = current[i];
            let ghost marks = check_list@;
            let ghost queue = left_to_check@;
            let ghost tx = p.col() + d.step().0;
            let ghost ty = p.row() + d.step().1;
            let ghost done = i as int;
            assert(current@[i as int].0.valid());
            i = i + 1;
            let mut reached: Option<Position> = None;
            if let Some(new_pos) = p.add(d) {
                if !new_pos.is_gate() {
                    let (n_x, n_y) = new_pos.value();
                    let (n_x, n_y) = ((n_x + 8) as usize, (n_y + 8) as usize);
                    if !check_list[n_x + n_y * 17] {
                        if grid.index(&new_pos).is_none() {
                            check_list[n_x + n_y * 17] = true;
                            add_steps(&mut left_to_check, new_pos, &directions_to_check);
                            reached = Some(new_pos);
                        }
                    }
                }
            }
            proof {
                if let Some(new_pos) = reached {
                    new_pos.lemma_at_self();
                    assert(check_list@ =~= marks.update(cell_index(tx, ty), true));
                }
                lemma_fill_step(
                    cells,
                    dirs,
                    before,
                    marks,
                    check_list@,
                    current@,
                    done,
                    queue,
                    left_to_check@,
                );
            }
        }
        proof {
            lemma_round(
                cells,
                dirs,
                start,
                round as int,
                before,
                check_list@,
                current@,
                left_to_check@,
            );
        }
        round = round + 1;
    }
    proof {
        let reach = moving_tile_type.flower().reach();
        assert forall|i: int| 0 <= i < 289 implies check_list@[i] == flooded(
            cells,
            moving_tile_type,
            start,
        )[i] by {
            let x = i % 17 - 8;
            let y = i / 17 - 8;
            assert(cell_index(x, y) == i);
            assert(check_list@[cell_index(x, y)] == within(cells, dirs, start, x, y, reach));
        }
        assert(check_list@ =~= flooded(cells, moving_tile_type, start));
        assert forall|x: int, y: int|
            -8 <= x <= 8 && -8 <= y <= 8 && #[trigger] check_list@[cell_index(x, y)] implies free_at(
            cells,
            x,
            y,
        ) by {
            assert(check_list@[cell_index(x, y)] == within(cells, dirs, start, x, y, reach));
        }
    }
    check_list
}

/// The steps from `p` in the directions `dirs` are the steps that start at
/// `p` in one of these directions.
pub proof fn lemma_steps_hold(p: Position, dirs: Seq<Direction>, n: int)
    requires
        0 <= n <= dirs.len(),
    ensures
        steps_from(p, dirs, n).len() == n,
        forall|k: int| 0 <= k < n ==> #[trigger] steps_from(p, dirs, n)[k] == (p, dirs[k]),
    decreases n,
{
    if n > 0 {
        lemma_steps_hold(p, dirs, n - 1);
    }
}

/// The points of the tiles among the first `n` that clash with tile `t` and
/// do not stand in a gate.
pub open spec fn clash_points_upto(tiles: Seq<(Tile, Position)>, t: Tile, n: int) -> Seq<Position>
    decreases n,
{
    if n <= 0 {
        Seq::empty()
    } else if t.clashes_with(tiles[n - 1].0) && !gate_at(tiles[n - 1].1.col(), tiles[n - 1].1.row()) {
        clash_points_upto(tiles, t, n - 1).push(tiles[n - 1].1)
    } else {
        clash_points_upto(tiles, t, n - 1)
    }
}

/// The points of the tiles on the board that clash with tile `t`, those of
/// the host first.
pub open spec fn clash_points(b: Layout, t: Tile) -> Seq<Position> {
    clash_points_upto(b.played_tiles_host, t, b.played_tiles_host.len() as int)
        + clash_points_upto(b.played_tiles_guest, t, b.played_tiles_guest.len() as int)
}

/// Whether the next tile beyond `p` in direction `d` clashes with tile `t`.
pub open spec fn clash_ahead(cells: Seq<Cell>, p: Position, t: Tile, d: Direction) -> bool {
    match next_tile(cells, p, d) {
        Some(found) => found.0.clashes_with(t),
        None => false,
    }
}

/// Whether the clashing tile on `c` keeps tile `t` from resting on `p`: `c`
/// lies on a line with `p`, and the next tile from `p` towards `c` clashes
/// with `t`.
pub open spec fn blocked_by(cells: Seq<Cell>, p: Position, t: Tile, c: Position) -> bool {
    ||| p.col() == c.col() && p.row() > c.row() && clash_ahead(cells, p, t, Direction::Down)
    ||| p.col() == c.col() && p.row() < c.row() && clash_ahead(cells, p, t, Direction::Up)
    ||| p.row() == c.row() && p.col() > c.col() && clash_ahead(cells, p, t, Direction::Left)
    ||| p.row() == c.row() && p.col() < c.col() && clash_ahead(cells, p, t, Direction::Right)
}

/// Whether one of the first `n` clashing tiles keeps tile `t` from resting
/// on `p`.
pub open spec fn blocked_upto(
    cells: Seq<Cell>,
    p: Position,
    t: Tile,
    clashes: Seq<Position>,
    n: int,
) -> bool
    decreases n,
{
    if n <= 0 {
        false
    } else {
        blocked_upto(cells, p, t, clashes, n - 1) || blocked_by(cells, p, t, clashes[n - 1])
    }
}

/// The point of the cell with index `i`.
pub open spec fn point_of(i: int) -> Position {
    Position::at(i % 17 - 8, i / 17 - 8)
}

/// Whether the tile may be arranged to the point of cell `i`: the point is
/// reached, lies on the board, suits the colour of the tile, and no
/// clashing tile keeps the tile from resting there.
pub open spec fn target_ok(
    cells: Seq<Cell>,
    marks: Seq<bool>,
    clashes: Seq<Position>,
    t: Tile,
    i: int,
) -> bool {
    &&& marks[i]
    &&& on_board(i % 17 - 8, i / 17 - 8)
    &&& garden_ok(point_of(i), t)
    &&& !blocked_upto(cells, point_of(i), t, clashes, clashes.len() as int)
}

/// The moves of the tile on `start` to the points among the first `n`
/// cells that it may be arranged to, by cell.
pub open spec fn targets_upto(
    cells: Seq<Cell>,
    marks: Seq<bool>,
    clashes: Seq<Position>,
    t: Tile,
    start: Position,
    n: int,
) -> Seq<Move>
    decreases n,
{
    if n <= 0 {
        Seq::empty()
    } else if target_ok(cells, marks, clashes, t, n - 1) {
        targets_upto(cells, marks, clashes, t, start, n - 1).push(
            Move::Arranging(start, point_of(n - 1)),
        )
    } else {
        targets_upto(cells, marks, clashes, t, start, n - 1)
    }
}

/// The moves that arrange tile `t` from `start` to another point.
pub open spec fn possibilities(b: Layout, cells: Seq<Cell>, t: Tile, start: Position) -> Seq<Move> {
    targets_upto(cells, flooded(cells, t, start), clash_points(b, t), t, start, 289)
}

/// Whether every tile in the list stands on the grid.
pub open spec fn tiles_on_grid(cells: Seq<Cell>, tiles: Seq<(Tile, Position)>) -> bool {
    forall|k: int|
        0 <= k < tiles.len() ==> (#[trigger] tiles[k]).1.valid() && cell_on(cells, tiles[k].1) is Some
}

/// Whether the point (`tx`, `ty`) lies at or beyond (`x`, `y`) in
/// direction `d`.
pub open spec fn ahead(d: Direction, x: int, y: int, tx: int, ty: int) -> bool {
    match d {
        Direction::Up => tx == x && ty >= y,
        Direction::Down => tx == x && ty <= y,
        Direction::Left => ty == y && tx <= x,
        Direction::Right => ty == y && tx >= x,
    }
}

/// Where a tile stands at or beyond a point in some direction, the walk
/// from the point in that direction finds a tile.
pub proof fn lemma_tile_ahead(cells: Seq<Cell>, x: int, y: int, d: Direction, tx: int, ty: int)
    requires
        on_board(x, y),
        on_board(tx, ty),
        ahead(d, x, y, tx, ty),
        cells[cell_index(tx, ty)] is Some,
    ensures
        tile_from(cells, x, y, d) is Some,
    decreases along(d, tx, ty) - along(d, x, y),
{
    if cells[cell_index(x, y)] is None {
        lemma_tile_ahead(cells, x + d.step().0, y + d.step().1, d, tx, ty);
    }
}

/// The points of the tiles that clash with tile `t` and do not stand in a
/// gate.
fn collect_clashes(
    tiles: &Vec<(Tile, Position)>,
    moving_tile_type: Tile,
    list: &mut Vec<Position>,
    Ghost(cells): Ghost<Seq<Cell>>,
)
    requires
        tiles_on_grid(cells, tiles@),
        forall|k: int|
            0 <= k < old(list)@.len() ==> (#[trigger] old(list)@[k]).valid() && cell_on(
                cells,
                old(list)@[k],
            ) is Some,
    ensures
        final(list)@ == old(list)@ + clash_points_upto(tiles@, moving_tile_type, tiles@.len() as int),
        forall|k: int|
            0 <= k < final(list)@.len() ==> (#[trigger] final(list)@[k]).valid() && cell_on(
                cells,
                final(list)@[k],
            ) is Some,
{
    let mut k: usize = 0;
    while k < tiles.len()
        invariant
            k <= tiles@.len(),
            tiles_on_grid(cells, tiles@),
            list@ == old(list)@ + clash_points_upto(tiles@, moving_tile_type, k as int),
            forall|j: int|
                0 <= j < list@.len() ==> (#[trigger] list@[j]).valid() && cell_on(cells, list@[j]) is Some,
        decreases tiles@.len() - k,
    {
        let (t, p) = tiles[k];
        assert(tiles@[k as int].1.valid());
        if moving_tile_type.clashes(&t) && !p.is_gate() {
            list.push(p);
        }
        k = k + 1;
        assert(list@ =~= old(list)@ + clash_points_upto(tiles@, moving_tile_type, k as int));
    }
}

/// Whether the next tile beyond `p` in direction `d`, which is known to be
/// there, clashes with tile `t`.
fn clashes_ahead(grid: &Grid, p: &Position, t: Tile, d: Direction) -> (r: bool)
    requires
        grid.wf(),
        p.valid(),
        next_tile(grid@, *p, d) is Some,
    ensures
        r == clash_ahead(grid@, *p, t, d),
{
    grid.next_tile_in_direction(p, d).unwrap().0.clashes(&t)
}

/// The moves that arrange the tile `moving_tile_type` from
/// `starting_position` to another point, by the cell of that point. `grid`
/// is the grid of `board`.
pub fn all_possibilities_for_piece_to_move(
    board: &Board,
    grid: &Grid,
    moving_tile_type: Tile,
    starting_position: Position,
) -> (legal_moves: Vec<Move>)
    requires
        grid.wf(),
        starting_position.valid(),
        tiles_on_grid(grid@, board@.played_tiles_host),
        tiles_on_grid(grid@, board@.played_tiles_guest),
    ensures
        legal_moves@ == possibilities(board@, grid@, moving_tile_type, starting_position),
{
    let check_list = flood_fill(grid, moving_tile_type, &starting_position);
    let mut possible_clash_coords: Vec<Position> = Vec::with_capacity(6);
    collect_clashes(board.host_tiles(), moving_tile_type, &mut possible_clash_coords, Ghost(grid@));
    collect_clashes(
        board.guest_tiles(),
        moving_tile_type,
        &mut possible_clash_coords,
        Ghost(grid@),
    );
    let ghost clashes = clash_points(board@, moving_tile_type);
    assert(possible_clash_coords@ =~= clashes);
    let mut legal_moves: Vec<Move> = Vec::with_capacity(50);
    let mut index: usize = 0;
    while index < 289
        invariant
            index <= 289,
            grid.wf(),
            check_list@.len() == 289,
            marks_free(grid@, check_list@),
            possible_clash_coords@ == clashes,
            forall|j: int|
                0 <= j < clashes.len() ==> (#[trigger] clashes[j]).valid() && cell_on(
                    grid@,
                    clashes[j],
                ) is Some,
            legal_moves@ == targets_upto(
                grid@,
                check_list@,
                clashes,
                moving_tile_type,
                starting_position,
                index as int,
            ),
        decreases 289 - index,
    {
        let reachable = check_list[index];
        let here = index;
        index = index + 1;
        if !reachable {
            continue ;
        }
        let x = (here % 17) as i8 - 8;
        let y = (here / 17) as i8 - 8;
        assert(cell_index(x as int, y as int) == here);
        assert(free_at(grid@, x as int, y as int));
        let possible_position = Position::new(x, y).unwrap();
        if !correct_garden(possible_position, moving_tile_type) {
            continue ;
        }
        let mut blocked = false;
        let mut k: usize = 0;
        while k < possible_clash_coords.len() && !blocked
            invariant
                k <= possible_clash_coords@.len(),
                grid.wf(),
                possible_position.valid(),
                possible_clash_coords@ == clashes,
                forall|j: int|
                    0 <= j < clashes.len() ==> (#[trigger] clashes[j]).valid() && cell_on(
                        grid@,
                        clashes[j],
                    ) is Some,
                blocked == blocked_upto(
                    grid@,
                    possible_position,
                    moving_tile_type,
                    clashes,
                    k as int,
                ),
                blocked ==> blocked_upto(
                    grid@,
                    possible_position,
                    moving_tile_type,
                    clashes,
                    clashes.len() as int,
                ),
            decreases possible_clash_coords@.len() - k,
        {
            let c = possible_clash_coords[k];
            let (px, py) = possible_position.value();
            let (cx, cy) = c.value();
            proof {
                assert(clashes[k as int].valid());
                let cells = grid@;
                if px == cx && py > cy {
                    lemma_tile_ahead(cells, px as int, py - 1, Direction::Down, cx as int, cy as int);
                }
                if px == cx && py < cy {
                    lemma_tile_ahead(cells, px as int, py + 1, Direction::Up, cx as int, cy as int);
                }
                if py == cy && px > cx {
                    lemma_tile_ahead(cells, px - 1, py as int, Direction::Left, cx as int, cy as int);
                }
                if py == cy && px < cx {
                    lemma_tile_ahead(cells, px + 1, py as int, Direction::Right, cx as int, cy as int);
                }
            }
            let mut hit = false;
            if px == cx {
                if py > cy {
                    if clashes_ahead(grid, &possible_position, moving_tile_type, Direction::Down) {
                        hit = true;
                    }
                } else if py < cy {
                    if clashes_ahead(grid, &possible_position, moving_tile_type, Direction::Up) {
                        hit = true;
                    }
                }
            }
            if !hit && py == cy {
                if px > cx {
                    if clashes_ahead(grid, &possible_position, moving_tile_type, Direction::Left) {
                        hit = true;
                    }
                } else if px < cx {
                    if clashes_ahead(grid, &possible_position, moving_tile_type, Direction::Right) {
                        hit = true;
                    }
                }
            }
            k = k + 1;
            if hit {
                blocked = true;
                proof {
                    lemma_blocked_stays(
                        grid@,
                        possible_position,
                        moving_tile_type,
                        clashes,
                        k as int,
                        clashes.len() as int,
                    );
                }
            }
        }
        if !blocked {
            proof {
                possible_position.lemma_at_self();
            }
            legal_moves.push(Move::Arranging(starting_position, possible_position));
        }
    }
    legal_moves
}

/// A tile that is kept from resting on a point by one of the first clashing
/// tiles is kept from it by the list as a whole.
pub proof fn lemma_blocked_stays(
    cells: Seq<Cell>,
    p: Position,
    t: Tile,
    clashes: Seq<Position>,
    n: int,
    m: int,
)
    requires
        n <= m,
        blocked_upto(cells, p, t, clashes, n),
    ensures
        blocked_upto(cells, p, t, clashes, m),
    decreases m - n,
{
    if n < m {
        lemma_blocked_stays(cells, p, t, clashes, n, m - 1);
    }
}

/// Every move in the list of targets arranges the tile to the point of a
/// cell that it may go to.
pub proof fn lemma_targets(
    cells: Seq<Cell>,
    marks: Seq<bool>,
    clashes: Seq<Position>,
    t: Tile,
    start: Position,
    n: int,
    j: int,
) -> (i: int)
    requires
        0 <= j < targets_upto(cells, marks, clashes, t, start, n).len(),
    ensures
        0 <= i < n,
        target_ok(cells, marks, clashes, t, i),
        targets_upto(cells, marks, clashes, t, start, n)[j] == Move::Arranging(start, point_of(i)),
    decreases n,
{
    if target_ok(cells, marks, clashes, t, n - 1) && j == targets_upto(
        cells,
        marks,
        clashes,
        t,
        start,
        n - 1,
    ).len() {
        n - 1
    } else {
        lemma_targets(cells, marks, clashes, t, start, n - 1, j)
    }
}

/// Every move among the possibilities of a tile arranges it from its point
/// to a point of the board.
pub proof fn lemma_possibilities(b: Layout, cells: Seq<Cell>, t: Tile, start: Position, mv: Move)
    requires
        possibilities(b, cells, t, start).contains(mv),
    ensures
        mv matches Move::Arranging(from, to) && from == start && to.valid(),
{
    let list = possibilities(b, cells, t, start);
    let j = choose|j: int| 0 <= j < list.len() && list[j] == mv;
    let i = lemma_targets(cells, flooded(cells, t, start), clash_points(b, t), t, start, 289, j);
    Position::lemma_at(i % 17 - 8, i / 17 - 8);
}

} // verus!
