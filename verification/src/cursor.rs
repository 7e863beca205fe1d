//! Frontier entries. A cursor records the path taken from the start cell,
//! the position it has reached, and its cached cost components; the four
//! informed algorithms differ only in the formula that turns those
//! components into the frontier-ordering weight.

use vstd::prelude::*;

verus! {

use crate::search::Direction;

/// Ceiling on a cursor's accumulated path cost: a path has fewer than
/// 2^64 moves and each move costs at most 4.
pub const PATH_COST_CAP: u128 = 73786976294838206464;

/// Ceiling on a heuristic estimate: an axis difference is below 2^64 and is
/// weighted by at most 4 per axis.
pub const ESTIMATE_CAP: u128 = 147573952589676412928;

/// How a cursor's frontier weight is computed from its accumulated path
/// cost and its heuristic estimate. Swapping the formula switches the
/// algorithm without touching the expansion loop.
#[derive(Clone, Copy, PartialEq, Eq, Structural, Debug)]
pub enum Formula {
    /// Greedy best-first: the heuristic estimate alone.
    Greedy,
    /// Uniform-cost: the accumulated path cost alone.
    PathCost,
    /// A*: path cost plus estimate.
    AStar,
    /// Weighted A*: path cost plus twice the estimate.
    WeightedAStar,
}

/// The weight a formula assigns, for specifications.
pub open spec fn spec_combine(f: Formula, path_cost: int, estimate: int) -> int {
    match f {
        Formula::Greedy => estimate,
        Formula::PathCost => path_cost,
        Formula::AStar => path_cost + estimate,
        Formula::WeightedAStar => path_cost + 2 * estimate,
    }
}

/// The weight a formula assigns.
pub fn combine(f: &Formula, path_cost: u128, estimate: u128) -> (r: u128)
    requires
        path_cost <= PATH_COST_CAP,
        estimate <= ESTIMATE_CAP,
    ensures
        r == spec_combine(*f, path_cost as int, estimate as int),
{
    match f {
        Formula::Greedy => estimate,
        Formula::PathCost => path_cost,
        Formula::AStar => path_cost + estimate,
        Formula::WeightedAStar => path_cost + 2 * estimate,
    }
}

/// One frontier entry: the path taken from the start cell, the position
/// reached, and the cached cost components.
pub struct Cursor {
    /// Moves taken from the start cell, in order.
    pub path: Vec<Direction>,
    /// The coordinate the path arrives at.
    pub position: (usize, usize),
    /// The heuristic estimate at `position`, computed once at creation.
    pub heuristic: u128,
    /// The accumulated move cost of `path`.
    pub path_cost: u128,
    /// The frontier-ordering weight the owning algorithm's formula assigned.
    pub weight: u128,
}

impl Cursor {
    /// The most recent move, if any.
    pub open spec fn spec_direction(self) -> Option<Direction> {
        if self.path@.len() == 0 {
            None
        } else {
            Some(self.path@.last())
        }
    }

    /// The most recent move, if any.
    pub fn direction(&self) -> (r: Option<Direction>)
        ensures
            r == self.spec_direction(),
    {
        if self.path.len() == 0 {
            None
        } else {
            Some(self.path[self.path.len() - 1])
        }
    }

    /// Tie-break rank of the most recent move: a cursor with no move yet
    /// ranks before all others, then Up before Left before Down before
    /// Right.
    pub open spec fn spec_dir_rank(self) -> int {
        match self.spec_direction() {
            None => 0,
            Some(d) => 1 + d.spec_rank(),
        }
    }

    /// Tie-break rank of the most recent move.
    pub fn dir_rank(&self) -> (r: usize)
        ensures
            r == self.spec_dir_rank(),
    {
        match self.direction() {
            None => 0,
            Some(d) => 1 + d.rank(),
        }
    }
}

/// The frontier ordering: smaller weight first; among equal weights, the
/// cursor whose most recent move ranks earlier in Up, Left, Down, Right
/// order.
pub open spec fn key_lt(a: Cursor, b: Cursor) -> bool {
    a.weight < b.weight || (a.weight == b.weight && a.spec_dir_rank() < b.spec_dir_rank())
}

/// The frontier ordering, executably.
pub fn cursor_before(a: &Cursor, b: &Cursor) -> (r: bool)
    ensures
        r == key_lt(*a, *b),
{
    a.weight < b.weight || (a.weight == b.weight && a.dir_rank() < b.dir_rank())
}

} // verus!
