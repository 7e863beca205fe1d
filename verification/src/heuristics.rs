//! Heuristics: estimates of the remaining cost from a position to the
//! nearest target. The zero heuristic serves the uniform-cost
//! configuration; the two Manhattan variants serve the informed searches.

use vstd::prelude::*;

verus! {

use crate::grid::Grid;
use crate::cursor::ESTIMATE_CAP;

/// A pluggable estimate of the remaining cost from a position to the
/// nearest target. Estimates stay under [`ESTIMATE_CAP`] so the frontier
/// can combine them with path costs without overflow.
pub trait Heuristic: Sized {
    /// Whether this heuristic is ready to estimate (its target list, if it
    /// keeps one, is non-empty).
    spec fn wf(&self) -> bool;

    /// The estimate, for specifications.
    spec fn spec_estimate(&self, pos: (usize, usize)) -> int;

    fn estimate(&self, pos: (usize, usize)) -> (r: u128)
        requires
            self.wf(),
        ensures
            r == self.spec_estimate(pos),
            r <= ESTIMATE_CAP,
    ;
}

/// The zero heuristic: estimates 0 everywhere, turning best-first search
/// into uniform-cost search.
pub struct DefaultHeuristic;

impl Heuristic for DefaultHeuristic {
    open spec fn wf(&self) -> bool {
        true
    }

    open spec fn spec_estimate(&self, pos: (usize, usize)) -> int {
        0
    }

    fn estimate(&self, _pos: (usize, usize)) -> (r: u128) {
        0
    }
}

/// The absolute difference of two coordinates on one axis.
pub open spec fn abs_diff(a: usize, b: usize) -> int {
    if a >= b {
        a - b
    } else {
        b - a
    }
}

/// Manhattan distance between two coordinates: the sum of the absolute
/// coordinate differences on both axes.
pub open spec fn manhattan(pos: (usize, usize), t: (usize, usize)) -> int {
    abs_diff(pos.0, t.0) + abs_diff(pos.1, t.1)
}

/// Manhattan distance weighted by the asymmetric cost model: each axis's
/// difference is multiplied by the cost of the direction named for that
/// sign of displacement (Right for a target left of the position, Left
/// otherwise; Down for a target above, Up otherwise).
pub open spec fn custom_manhattan(pos: (usize, usize), t: (usize, usize)) -> int {
    (if t.0 < pos.0 {
        2 * (pos.0 - t.0)
    } else {
        3 * (t.0 - pos.0)
    }) + (if t.1 < pos.1 {
        1 * (pos.1 - t.1)
    } else {
        4 * (t.1 - pos.1)
    })
}

/// The smallest plain Manhattan distance from `pos` to any of `ts`.
pub open spec fn min_manhattan(ts: Seq<(usize, usize)>, pos: (usize, usize)) -> int
    recommends
        ts.len() >= 1,
    decreases ts.len(),
{
    if ts.len() <= 1 {
        manhattan(pos, ts[0])
    } else {
        let rest = min_manhattan(ts.drop_last(), pos);
        let last = manhattan(pos, ts.last());
        if last < rest {
            last
        } else {
            rest
        }
    }
}

/// The smallest cost-adjusted Manhattan distance from `pos` to any of `ts`.
pub open spec fn min_custom_manhattan(ts: Seq<(usize, usize)>, pos: (usize, usize)) -> int
    recommends
        ts.len() >= 1,
    decreases ts.len(),
{
    if ts.len() <= 1 {
        custom_manhattan(pos, ts[0])
    } else {
        let rest = min_custom_manhattan(ts.drop_last(), pos);
        let last = custom_manhattan(pos, ts.last());
        if last < rest {
            last
        } else {
            rest
        }
    }
}

/// The plain Manhattan-distance heuristic: the distance to the nearest
/// target, admissible under the uniform cost model.
pub struct ManhattanHeuristic {
    /// The target coordinates the estimates lead towards.
    pub targets: Vec<(usize, usize)>,
}

impl ManhattanHeuristic {
    /// Captures the target list of a grid. A grid without targets is a
    /// caller error: a heuristic needs at least one goal.
    pub fn init(map: &Grid) -> (h: Self)
        requires
            map.targets@.len() >= 1,
        ensures
            h.targets@ == map.targets@,
            h.wf(),
    {
        ManhattanHeuristic { targets: vstd::slice::slice_to_vec(map.targets.as_slice()) }
    }
}

impl Heuristic for ManhattanHeuristic {
    open spec fn wf(&self) -> bool {
        self.targets@.len() >= 1
    }

    open spec fn spec_estimate(&self, pos: (usize, usize)) -> int {
        min_manhattan(self.targets@, pos)
    }

    fn estimate(&self, pos: (usize, usize)) -> (r: u128) {
        let ts = &self.targets;
        let n = ts.len();
        let mut acc: u128 = manhattan_exec(pos, ts[0]);
        let mut i: usize = 1;
        while i < n
            invariant
                n == ts@.len(),
                1 <= i <= n,
                acc == min_manhattan(ts@.take(i as int), pos),
                acc <= ESTIMATE_CAP,
            decreases n - i,
        {
            let d = manhattan_exec(pos, ts[i]);
            proof {
                assert(ts@.take(i + 1).drop_last() =~= ts@.take(i as int));
                assert(ts@.take(i + 1).last() == ts@[i as int]);
            }
            if d < acc {
                acc = d;
            }
            i += 1;
        }
        proof {
            assert(ts@.take(n as int) =~= ts@);
        }
        acc
    }
}

/// The cost-adjusted Manhattan heuristic: the smallest cost-weighted
/// distance to any target, consistent with the asymmetric cost model.
pub struct CustomManhattan {
    /// The target coordinates the estimates lead towards.
    pub targets: Vec<(usize, usize)>,
}

impl CustomManhattan {
    /// Captures the target list of a grid. A grid without targets is a
    /// caller error: a heuristic needs at least one goal.
    pub fn init(map: &Grid) -> (h: Self)
        requires
            map.targets@.len() >= 1,
        ensures
            h.targets@ == map.targets@,
            h.wf(),
    {
        CustomManhattan { targets: vstd::slice::slice_to_vec(map.targets.as_slice()) }
    }
}

impl Heuristic for CustomManhattan {
    open spec fn wf(&self) -> bool {
        self.targets@.len() >= 1
    }

    open spec fn spec_estimate(&self, pos: (usize, usize)) -> int {
        min_custom_manhattan(self.targets@, pos)
    }

    fn estimate(&self, pos: (usize, usize)) -> (r: u128) {
        let ts = &self.targets;
        let n = ts.len();
        let mut acc: u128 = custom_manhattan_exec(pos, ts[0]);
        let mut i: usize = 1;
        while i < n
            invariant
                n == ts@.len(),
                1 <= i <= n,
                acc == min_custom_manhattan(ts@.take(i as int), pos),
                acc <= ESTIMATE_CAP,
            decreases n - i,
        {
            let d = custom_manhattan_exec(pos, ts[i]);
            proof {
                assert(ts@.take(i + 1).drop_last() =~= ts@.take(i as int));
                assert(ts@.take(i + 1).last() == ts@[i as int]);
            }
            if d < acc {
                acc = d;
            }
            i += 1;
        }
        proof {
            assert(ts@.take(n as int) =~= ts@);
        }
        acc
    }
}

/// Manhattan distance, executably.
fn manhattan_exec(pos: (usize, usize), t: (usize, usize)) -> (r: u128)
    ensures
        r == manhattan(pos, t),
        r <= ESTIMATE_CAP,
{
    let dx = if pos.0 >= t.0 {
        pos.0 - t.0
    } else {
        t.0 - pos.0
    };
    let dy = if pos.1 >= t.1 {
        pos.1 - t.1
    } else {
        t.1 - pos.1
    };
    dx as u128 + dy as u128
}

/// Cost-adjusted Manhattan distance, executably.
fn custom_manhattan_exec(pos: (usize, usize), t: (usize, usize)) -> (r: u128)
    ensures
        r == custom_manhattan(pos, t),
        r <= ESTIMATE_CAP,
{
    let x_weight: u128 = if t.0 < pos.0 {
        2 * ((pos.0 - t.0) as u128)
    } else {
        3 * ((t.0 - pos.0) as u128)
    };
    let y_weight: u128 = if t.1 < pos.1 {
        1 * ((pos.1 - t.1) as u128)
    } else {
        4 * ((t.1 - pos.1) as u128)
    };
    x_weight + y_weight
}

} // verus!
