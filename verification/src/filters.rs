//! Duplicate-state suppression: the policy that decides whether a dequeued
//! cursor is a revisit to be discarded. Two strategies exist: checking the
//! grid's global visited marks (the default), and detecting a cycle within
//! the cursor's own path.

use vstd::prelude::*;

verus! {

use crate::grid::Grid;
use crate::cursor::Cursor;
use crate::search::Direction;

/// Which duplicate-suppression strategy the search engine applies.
#[derive(Clone, Copy, PartialEq, Eq, Structural, Debug)]
pub enum DuplicateFilter {
    /// Discard a cursor whose cell already carries a visited mark.
    GlobalVisited,
    /// Discard a cursor whose own path has returned to an earlier cell.
    PathCycle,
}

/// Checks against the grid whether the cursor's cell has been visited.
pub fn global_duped(map: &Grid, cur: &Cursor) -> (r: bool)
    requires
        map.wf(),
        map.in_bounds(cur.position),
    ensures
        r == crate::grid::is_visited(map.cell(cur.position)),
{
    match map.read_cell(cur.position) {
        crate::grid::CellType::Initial(visited) => *visited,
        crate::grid::CellType::Blank(visited) => *visited,
        crate::grid::CellType::Wall(visited) => *visited,
        crate::grid::CellType::Target => false,
    }
}

/// The (lateral, longitudinal) displacement one move contributes.
pub open spec fn delta(d: Direction) -> (int, int) {
    match d {
        Direction::Up => (0, -1),
        Direction::Down => (0, 1),
        Direction::Left => (-1, 0),
        Direction::Right => (1, 0),
    }
}

/// The total (lateral, longitudinal) displacement of a move sequence.
pub open spec fn displacement(path: Seq<Direction>) -> (int, int)
    decreases path.len(),
{
    if path.len() == 0 {
        (0, 0)
    } else {
        let d = delta(path[0]);
        let rest = displacement(path.skip(1));
        (d.0 + rest.0, d.1 + rest.1)
    }
}

/// Whether some suffix of the path has zero net displacement, that is,
/// whether the path has looped back onto a cell it already crossed.
pub open spec fn has_cycle(path: Seq<Direction>) -> bool {
    exists|i: int| 0 <= i < path.len() && displacement(path.skip(i)) == (0int, 0int)
}

/// Walks the cursor's path backward, accumulating the running displacement,
/// to detect whether the cursor has looped back on its own path.
pub fn branch_duped(map: &Grid, cur: &Cursor) -> (r: bool)
    ensures
        r == has_cycle(cur.path@),
{
    let path = &cur.path;
    let len = path.len();
    let mut lat: i128 = 0;
    let mut long: i128 = 0;
    let mut i: usize = len;
    while i > 0
        invariant
            path@ == cur.path@,
            len == path@.len(),
            i <= len,
            -((len - i) as int) <= lat <= (len - i) as int,
            -((len - i) as int) <= long <= (len - i) as int,
            (lat as int, long as int) == displacement(path@.skip(i as int)),
            forall|j: int| i <= j < len ==> displacement(path@.skip(j)) != (0int, 0int),
        decreases i,
    {
        i -= 1;
        match path[i] {
            Direction::Up => long = long - 1,
            Direction::Down => long = long + 1,
            Direction::Left => lat = lat - 1,
            Direction::Right => lat = lat + 1,
        }
        proof {
            assert(path@.skip(i as int)[0] == path@[i as int]);
            assert(path@.skip(i as int).skip(1) =~= path@.skip(i as int + 1));
        }
        if lat == 0 && long == 0 {
            proof {
                assert(0 <= i && (i as int) < cur.path@.len());
                assert(displacement(cur.path@.skip(i as int)) == (0int, 0int));
                assert(has_cycle(cur.path@));
            }
            return true;
        }
    }
    false
}

} // verus!
