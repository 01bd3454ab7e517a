//! How a game ends: harmony rings around the centre, and the count of
//! harmonies that cross a midline.

use vstd::prelude::*;
use super::board::copy_of;
use super::grid::Harmony;
use super::other::{Owner, Position};

verus! {

/// The two points of a harmony.
pub type Link = (Position, Position);

/// Whether two coordinates lie on different sides of zero.
pub open spec fn opposite(a: int, b: int) -> bool {
    (a < 0 && b > 0) || (a > 0 && b < 0)
}

/// Whether a harmony crosses one of the two midlines of the board.
pub open spec fn crosses_midline(h: Harmony) -> bool {
    opposite(h.1.row(), h.2.row()) || opposite(h.1.col(), h.2.col())
}

/// The number of harmonies of `owner` among the first `n` that cross a
/// midline.
pub open spec fn crossings(list: Seq<Harmony>, owner: Owner, n: int) -> nat
    decreases n,
{
    if n <= 0 {
        0
    } else {
        crossings(list, owner, n - 1) + if list[n - 1].0 == owner && crosses_midline(list[n - 1]) {
            1nat
        } else {
            0nat
        }
    }
}

/// The harmonies of `owner` among the first `n`, in their order.
pub open spec fn links_of(list: Seq<Harmony>, owner: Owner, n: int) -> Seq<Link>
    decreases n,
{
    if n <= 0 {
        Seq::empty()
    } else if list[n - 1].0 == owner {
        links_of(list, owner, n - 1).push((list[n - 1].1, list[n - 1].2))
    } else {
        links_of(list, owner, n - 1)
    }
}

/// The edge of a ring that starts at its point `i`.
pub open spec fn edge(ring: Seq<Position>, i: int) -> Link {
    (ring[i], ring[(i + 1) % (ring.len() as int)])
}

/// Whether an edge passes through the centre of the board: one of its ends
/// is the centre, or it lies on a midline with an end on either side.
pub open spec fn through_centre(e: Link) -> bool {
    ||| e.0.col() == 0 && e.0.row() == 0
    ||| e.1.col() == 0 && e.1.row() == 0
    ||| e.0.col() == 0 && e.1.col() == 0 && opposite(e.0.row(), e.1.row())
    ||| e.0.row() == 0 && e.1.row() == 0 && opposite(e.0.col(), e.1.col())
}

/// On which side of the centre an edge passes the lower half of the
/// vertical midline: the sign of this number tells.
pub open spec fn turn(e: Link) -> int {
    (e.0.col() - e.1.col()) * (0 - e.1.row()) - (0 - e.1.col()) * (e.0.row() - e.1.row())
}

/// What an edge adds to the winding number of its ring around the centre.
pub open spec fn winding_of(e: Link) -> int {
    if e.1.row() <= 0 {
        if e.0.row() > 0 && turn(e) > 0 {
            1
        } else {
            0
        }
    } else {
        if e.0.row() <= 0 && turn(e) < 0 {
            -1
        } else {
            0
        }
    }
}

/// Whether one of the first `n` edges of a ring passes through the centre.
pub open spec fn touches_centre(ring: Seq<Position>, n: int) -> bool
    decreases n,
{
    if n <= 0 {
        false
    } else {
        touches_centre(ring, n - 1) || through_centre(edge(ring, n - 1))
    }
}

/// The winding number of the first `n` edges of a ring around the centre.
pub open spec fn winding(ring: Seq<Position>, n: int) -> int
    decreases n,
{
    if n <= 0 {
        0
    } else {
        winding(ring, n - 1) + winding_of(edge(ring, n - 1))
    }
}

/// Whether a ring goes around the centre of the board without passing
/// through it.
pub open spec fn contains_centre(ring: Seq<Position>) -> bool {
    !touches_centre(ring, ring.len() as int) && winding(ring, ring.len() as int) != 0
}

/// Whether a harmony has an end on point `p`.
pub open spec fn ends_on(link: Link, p: Position) -> bool {
    link.0 == p || link.1 == p
}

/// Whether the chain `fragment` can be closed to a ring around the centre
/// with harmonies from `links`, trying the first `n` of them as the next
/// one. A harmony that ends on both ends of the chain closes it. A harmony
/// that ends on one end of the chain makes the chain longer by its other
/// point, and the search goes on with the other harmonies.
pub open spec fn closes_ring(links: Seq<Link>, fragment: Seq<Position>, n: int) -> bool
    decreases links.len(), n,
{
    if n <= 0 || n > links.len() || fragment.len() == 0 {
        false
    } else {
        let link = links[n - 1];
        let at_start = ends_on(link, fragment.first());
        let at_end = ends_on(link, fragment.last());
        closes_ring(links, fragment, n - 1) || if at_start && at_end {
            contains_centre(fragment)
        } else if at_start || at_end {
            let piece = if at_start {
                fragment.first()
            } else {
                fragment.last()
            };
            closes_ring(
                links.remove(n - 1),
                fragment.push(
                    if link.0 == piece {
                        link.1
                    } else {
                        link.0
                    },
                ),
                links.len() - 1,
            )
        } else {
            false
        }
    }
}

/// Whether one of the first `n` harmonies is part of a ring around the
/// centre that is made of it and of harmonies before it.
pub open spec fn has_ring(links: Seq<Link>, n: int) -> bool
    decreases n,
{
    if n <= 0 {
        false
    } else {
        has_ring(links, n - 1) || closes_ring(
            links.take(n - 1),
            seq![links[n - 1].0, links[n - 1].1],
            n - 1,
        )
    }
}

/// Whether two coordinates lie on different sides of zero.
fn signs_differ(a: i8, b: i8) -> (r: bool)
    ensures
        r == opposite(a as int, b as int),
{
    (a < 0 && b > 0) || (a > 0 && b < 0)
}

/// Whether a ring goes around the centre of the board without passing
/// through it.
pub fn ring_contains_center(ring: &Vec<Position>) -> (r: bool)
    ensures
        r == contains_centre(ring@),
{
    let mut winding_number: i128 = 0;
    let mut i: usize = 0;
    while i < ring.len()
        invariant
            i <= ring@.len(),
            !touches_centre(ring@, i as int),
            winding_number == winding(ring@, i as int),
            -(i as int) <= winding_number <= i,
        decreases ring@.len() - i,
    {
        let start = ring[i].value();
        let next = if i + 1 == ring.len() {
            0
        } else {
            i + 1
        };
        assert(next == (i + 1) % (ring@.len() as int)) by {
            if i + 1 == ring@.len() {
                assert((i + 1) % (ring@.len() as int) == 0) by (nonlinear_arith)
                    requires
                        i + 1 == ring@.len(),
                        ring@.len() > 0,
                ;
            } else {
                assert((i + 1) % (ring@.len() as int) == i + 1) by (nonlinear_arith)
                    requires
                        0 <= i + 1 < ring@.len(),
                ;
            }
        }
        let end = ring[next].value();
        if (start.0 == 0 && start.1 == 0) || (end.0 == 0 && end.1 == 0) || (start.0 == 0 && end.0
            == 0 && signs_differ(start.1, end.1)) || (start.1 == 0 && end.1 == 0 && signs_differ(
            start.0,
            end.0,
        )) {
            proof {
                lemma_touch_stays(ring@, i as int + 1, ring@.len() as int);
            }
            return false;
        }
        let sx = start.0 as i32;
        let sy = start.1 as i32;
        let ex = end.0 as i32;
        let ey = end.1 as i32;
        assert(-255 * 128 <= (sx - ex) * (0 - ey) <= 255 * 128) by (nonlinear_arith)
            requires
                -255 <= sx - ex <= 255,
                -128 <= 0 - ey <= 128,
        ;
        assert(-255 * 128 <= (0 - ex) * (sy - ey) <= 255 * 128) by (nonlinear_arith)
            requires
                -255 <= sy - ey <= 255,
                -128 <= 0 - ex <= 128,
        ;
        let cross = (sx - ex) * (0 - ey) - (0 - ex) * (sy - ey);
        if ey <= 0 {
            if sy > 0 {
                if cross > 0 {
                    winding_number = winding_number + 1;
                }
            }
        } else {
            if sy <= 0 {
                if cross < 0 {
                    winding_number = winding_number - 1;
                }
            }
        }
        i = i + 1;
    }
    winding_number != 0
}

/// A ring that passes through the centre with one of its first edges
/// passes through it.
pub proof fn lemma_touch_stays(ring: Seq<Position>, n: int, m: int)
    requires
        n <= m,
        touches_centre(ring, n),
    ensures
        touches_centre(ring, m),
    decreases m - n,
{
    if n < m {
        lemma_touch_stays(ring, n, m - 1);
    }
}

/// Whether the chain `ring_fragment` can be closed to a ring around the
/// centre with harmonies from `harmonies`.
pub fn finish_ring(harmonies: &Vec<Link>, ring_fragment: &Vec<Position>) -> (r: bool)
    requires
        ring_fragment@.len() > 0,
    ensures
        r == closes_ring(harmonies@, ring_fragment@, harmonies@.len() as int),
    decreases harmonies@.len(),
{
    let mut index: usize = 0;
    while index < harmonies.len()
        invariant
            index <= harmonies@.len(),
            ring_fragment@.len() > 0,
            !closes_ring(harmonies@, ring_fragment@, index as int),
        decreases harmonies@.len() - index,
    {
        let harmony = harmonies[index];
        let fragment_start = ring_fragment[0];
        let fragment_end = ring_fragment[ring_fragment.len() - 1];
        let at_start = harmony.0 == fragment_start || harmony.1 == fragment_start;
        let at_end = harmony.0 == fragment_end || harmony.1 == fragment_end;
        let found = if at_start && at_end {
            ring_contains_center(ring_fragment)
        } else if at_start || at_end {
            let fragment_piece = if at_start {
                fragment_start
            } else {
                fragment_end
            };
            let mut h = copy_of(harmonies);
            let mut r = copy_of(ring_fragment);
            h.remove(index);
            if harmony.0 == fragment_piece {
                r.push(harmony.1);
            } else {
                r.push(harmony.0);
            }
            finish_ring(&h, &r)
        } else {
            false
        };
        index = index + 1;
        if found {
            proof {
                lemma_ring_stays(
                    harmonies@,
                    ring_fragment@,
                    index as int,
                    harmonies@.len() as int,
                );
            }
            return true;
        }
    }
    false
}

/// A chain that one of the first harmonies closes to a ring is closed by
/// the list as a whole.
pub proof fn lemma_ring_stays(links: Seq<Link>, fragment: Seq<Position>, n: int, m: int)
    requires
        n <= m <= links.len(),
        closes_ring(links, fragment, n),
    ensures
        closes_ring(links, fragment, m),
    decreases m - n,
{
    if n < m {
        lemma_ring_stays(links, fragment, n, m - 1);
    }
}

/// Whether one of the harmonies is part of a ring around the centre.
pub fn wins_by_ring(harmonies: Vec<Link>) -> (r: bool)
    ensures
        r == has_ring(harmonies@, harmonies@.len() as int),
{
    let ghost all = harmonies@;
    let mut rest = harmonies;
    assert(rest@ =~= all.take(rest@.len() as int));
    while rest.len() > 0
        invariant
            all == harmonies@,
            rest@ == all.take(rest@.len() as int),
            rest@.len() <= all.len(),
            has_ring(all, all.len() as int) == has_ring(all, rest@.len() as int),
        decreases rest@.len(),
    {
        let ghost n = rest@.len() as int;
        assert(has_ring(all, all.len() as int) == has_ring(all, n));
        let harmony = rest.pop().unwrap();
        let mut r: Vec<Position> = Vec::new();
        r.push(harmony.0);
        r.push(harmony.1);
        assert(r@ =~= seq![all[n - 1].0, all[n - 1].1]);
        assert(rest@ =~= all.take(n - 1));
        if finish_ring(&rest, &r) {
            assert(has_ring(all, n));
            return true;
        }
    }
    false
}

} // verus!
