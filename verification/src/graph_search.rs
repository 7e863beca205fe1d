//! The generalized best-first frontier loop. Heuristic, move-cost model,
//! weight formula and duplicate filter are independently replaceable
//! policies; greedy best-first, uniform-cost, A* and weighted A* are all
//! configurations of this one expansion routine. With the default
//! global-visited filter, a run that starts on a grid with no stale
//! visited marks is also proved complete - it reports no solution only
//! when none exists - its node count is exactly the dequeues that passed
//! the filter, and the uniform-cost configuration under the unit move
//! cost is proved to return a shortest solution.

use vstd::prelude::*;

verus! {

use crate::SearchReport;
use crate::grid::{Grid, CellType, same_shape};
use crate::cursor::{Cursor, Formula, spec_combine, combine, PATH_COST_CAP, ESTIMATE_CAP};
use crate::heuristics::Heuristic;
use crate::queue::SortedQueue;
use crate::filters::{DuplicateFilter, global_duped, branch_duped};
use crate::search::{Search, MoveWeight, spec_path_cost, leads_to, lemma_leads_to_target,
    lemma_leads_to_push, lemma_same_shape_reaches, reaches_target, region_closed,
    lemma_closed_unreachable, pos_at, lemma_reaches_suffix, lemma_pos_at_in_bounds,
    lemma_pos_at_same_dims};
use crate::grid::{is_visited, marked, count_unvisited, lemma_count_unvisited_le_len,
    lemma_neighbors_complete};
use crate::search::Direction;
use crate::bfs::copy_path;

/// Whether a frontier entry is consistent with the grid and the engine's
/// policies: its position is on the grid, its path walks from the start
/// cell to that position over traversable cells, and its cached cost
/// components are what the policies assign to that path and position.
pub open spec fn cursor_wf<H: Heuristic, W: MoveWeight>(
    g: Grid,
    h: H,
    w: W,
    f: Formula,
    c: Cursor,
) -> bool {
    &&& g.in_bounds(c.position)
    &&& leads_to(g, g.initial, c.path@, c.position)
    &&& c.path_cost == spec_path_cost(w, c.path@)
    &&& c.path_cost <= 4 * c.path@.len()
    &&& c.path_cost <= PATH_COST_CAP
    &&& c.heuristic == h.spec_estimate(c.position)
    &&& c.heuristic <= ESTIMATE_CAP
    &&& c.weight == spec_combine(f, c.path_cost as int, c.heuristic as int)
}

/// Whether some frontier entry stands at coordinate `n`.
pub open spec fn in_frontier(q: Seq<Cursor>, n: (usize, usize)) -> bool {
    exists|k: int| 0 <= k < q.len() && (#[trigger] q[k]).position == n
}

/// Whether the visited region is closed up to the frontier: every
/// traversable visited cell has each of its neighbours either visited
/// already or still waiting in the queue.
pub open spec fn engine_closed(g: Grid, q: Seq<Cursor>) -> bool {
    forall|c: (usize, usize), d: Direction|
        g.in_bounds(c) && is_visited(g.cell(c)) && crate::grid::is_open(g.cell(c)) && (
        #[trigger] g.spec_adjacent(c, d)) is Some ==> {
            let n = g.spec_adjacent(c, d)->Some_0;
            is_visited(g.cell(n)) || in_frontier(q, n)
        }
}

/// The closure condition for every cell but one: the exempted cell may
/// still owe its own neighbours to the frontier.
pub open spec fn engine_closed_except(g: Grid, q: Seq<Cursor>, p: (usize, usize)) -> bool {
    forall|c: (usize, usize), d: Direction|
        g.in_bounds(c) && c != p && is_visited(g.cell(c)) && crate::grid::is_open(g.cell(c)) && (
        #[trigger] g.spec_adjacent(c, d)) is Some ==> {
            let n = g.spec_adjacent(c, d)->Some_0;
            is_visited(g.cell(n)) || in_frontier(q, n)
        }
}

/// Removing any one entry keeps the visited region closed, provided the
/// removed entry's cell is visited by now.
proof fn lemma_remove_closed(g: Grid, q0: Seq<Cursor>, q1: Seq<Cursor>, k: int, p: (usize, usize))
    requires
        engine_closed(g, q0),
        0 <= k < q0.len(),
        q0[k].position == p,
        q1 == q0.remove(k),
        g.in_bounds(p),
        is_visited(g.cell(p)),
    ensures
        engine_closed(g, q1),
{
    assert forall|c: (usize, usize), d: Direction|
        g.in_bounds(c) && is_visited(g.cell(c)) && crate::grid::is_open(g.cell(c)) && (
        #[trigger] g.spec_adjacent(c, d)) is Some implies {
        let n = g.spec_adjacent(c, d)->Some_0;
        is_visited(g.cell(n)) || in_frontier(q1, n)
    } by {
        let n = g.spec_adjacent(c, d)->Some_0;
        if !is_visited(g.cell(n)) {
            let j = choose|j: int| 0 <= j < q0.len() && (#[trigger] q0[j]).position == n;
            if j == k {
                assert(n == p);
            } else if j < k {
                assert(q1[j].position == n);
            } else {
                assert(q1[j - 1].position == n);
            }
        }
    }
}

/// Removing any one entry and marking its cell keeps the visited region
/// closed for every other cell.
proof fn lemma_engine_expand_setup(
    pre: Grid,
    post: Grid,
    q0: Seq<Cursor>,
    q1: Seq<Cursor>,
    k: int,
    p: (usize, usize),
)
    requires
        pre.wf(),
        engine_closed(pre, q0),
        0 <= k < q0.len(),
        q0[k].position == p,
        q1 == q0.remove(k),
        pre.in_bounds(p),
        !(pre.cell(p) is Target),
        post.rows == pre.rows,
        post.cols == pre.cols,
        post.cell(p) == crate::grid::marked(pre.cell(p)),
        forall|c: (usize, usize)| pre.in_bounds(c) && c != p ==> post.cell(c) == pre.cell(c),
    ensures
        engine_closed_except(post, q1, p),
{
    assert forall|c: (usize, usize), d: Direction|
        post.in_bounds(c) && c != p && is_visited(post.cell(c)) && crate::grid::is_open(
            post.cell(c),
        ) && (#[trigger] post.spec_adjacent(c, d)) is Some implies {
        let n = post.spec_adjacent(c, d)->Some_0;
        is_visited(post.cell(n)) || in_frontier(q1, n)
    } by {
        assert(post.cell(c) == pre.cell(c));
        assert(pre.spec_adjacent(c, d) == post.spec_adjacent(c, d));
        let n = pre.spec_adjacent(c, d)->Some_0;
        assert(pre.in_bounds(n));
        assert(is_visited(pre.cell(n)) || in_frontier(q0, n));
        if n == p {
            assert(is_visited(post.cell(n)));
        } else if is_visited(pre.cell(n)) {
            assert(is_visited(post.cell(n)));
        } else {
            let j = choose|j: int| 0 <= j < q0.len() && (#[trigger] q0[j]).position == n;
            if j == k {
                assert(n == p);
            } else if j < k {
                assert(q1[j].position == n);
            } else {
                assert(q1[j - 1].position == n);
            }
        }
    }
}

/// An entry already queued stays queued when the queue only grows at the
/// back.
proof fn lemma_frontier_grow(q0: Seq<Cursor>, q1: Seq<Cursor>, n: (usize, usize))
    requires
        in_frontier(q0, n),
        q0.len() <= q1.len(),
        forall|k: int| 0 <= k < q0.len() ==> q1[k] == q0[k],
    ensures
        in_frontier(q1, n),
{
    let k = choose|k: int| 0 <= k < q0.len() && (#[trigger] q0[k]).position == n;
    assert(q1[k].position == n);
}

/// Whether the frontier holds a foothold on a valid solution: some entry
/// stands on the position the path reaches after `j` moves, carrying a
/// path of at most `j` moves itself.
pub open spec fn frontier_witness(g: Grid, q: Seq<Cursor>, path: Seq<Direction>) -> bool {
    exists|j: int, k: int|
        {
            &&& 0 <= j <= path.len()
            &&& 0 <= k < q.len()
            &&& (#[trigger] q[k]).position == #[trigger] pos_at(g, g.initial, path, j)
            &&& q[k].path@.len() <= j
        }
}

/// Under a unit cost model, a path's accumulated cost is its length.
proof fn lemma_unit_path_cost<W: MoveWeight>(w: W, path: Seq<Direction>)
    requires
        forall|d: Direction| #[trigger] w.spec_weigh(d) == 1,
    ensures
        spec_path_cost(w, path) == path.len(),
    decreases path.len(),
{
    if path.len() > 0 {
        lemma_unit_path_cost(w, path.drop_last());
    }
}

/// Walking a valid solution out of the visited region: while the frontier
/// is closed and every frontier entry is short enough, the first step of
/// the path that leaves the visited region is held by a frontier entry -
/// and the path cannot end inside the region, as targets are never
/// visited.
proof fn lemma_engine_walk_witness(
    g: Grid,
    q: Seq<Cursor>,
    path: Seq<Direction>,
    j: int,
    maxlen: int,
)
    requires
        g.wf(),
        reaches_target(g, g.initial, path),
        0 <= j <= path.len(),
        is_visited(g.cell(pos_at(g, g.initial, path, j))),
        engine_closed(g, q),
        forall|k: int| 0 <= k < q.len() ==> (#[trigger] q[k]).path@.len() <= maxlen,
        maxlen <= j + 1,
    ensures
        frontier_witness(g, q, path),
    decreases path.len() - j,
{
    lemma_reaches_suffix(g, g.initial, path, j);
    lemma_pos_at_in_bounds(g, g.initial, path, j);
    let p_j = pos_at(g, g.initial, path, j);
    if j == path.len() {
        assert(path.skip(j).len() == 0);
        assert(g.cell(p_j) is Target);
        assert(false);
    } else {
        assert(path.skip(j).len() > 0);
        assert(crate::grid::is_open(g.cell(p_j)));
        assert(path.skip(j)[0] == path[j]);
        assert(g.spec_adjacent(p_j, path[j]) is Some);
        let nxt = g.spec_adjacent(p_j, path[j])->Some_0;
        assert(nxt == pos_at(g, g.initial, path, j + 1));
        if is_visited(g.cell(nxt)) {
            lemma_engine_walk_witness(g, q, path, j + 1, maxlen);
        } else {
            assert(in_frontier(q, nxt));
            let k = choose|k: int| 0 <= k < q.len() && (#[trigger] q[k]).position == nxt;
            assert(q[k].path@.len() <= maxlen <= j + 1);
            assert(frontier_witness(g, q, path));
        }
    }
}

/// Whether some frontier entry with a path of at most `l` moves stands at
/// `n`.
pub open spec fn in_frontier_len(q: Seq<Cursor>, n: (usize, usize), l: int) -> bool {
    exists|k: int| 0 <= k < q.len() && (#[trigger] q[k]).position == n && q[k].path@.len() <= l
}

/// An entry short enough stays available when the queue only grows at the
/// back.
proof fn lemma_frontier_grow_len(q0: Seq<Cursor>, q1: Seq<Cursor>, n: (usize, usize), l: int)
    requires
        in_frontier_len(q0, n, l),
        q0.len() <= q1.len(),
        forall|k: int| 0 <= k < q0.len() ==> q1[k] == q0[k],
    ensures
        in_frontier_len(q1, n, l),
{
    let k = choose|k: int|
        0 <= k < q0.len() && (#[trigger] q0[k]).position == n && q0[k].path@.len() <= l;
    assert(q1[k].position == n);
}

/// The generalized graph search: a heuristic, a move-cost model, a weight
/// formula and a duplicate filter composed over one frontier-expansion
/// loop.
pub struct GraphSearch<H, W> {
    /// Estimates the remaining cost from a position to the nearest target.
    pub heuristic: H,
    /// The per-direction move cost accumulated along paths.
    pub cost: W,
    /// How path cost and estimate combine into the frontier weight.
    pub formula: Formula,
    /// Which duplicate-suppression strategy discards revisits.
    pub filter: DuplicateFilter,
}

impl<H: Heuristic, W: MoveWeight> GraphSearch<H, W> {
    /// Composes an engine from its four policies.
    pub fn init(heuristic: H, cost: W, formula: Formula, filter: DuplicateFilter) -> (r: Self)
        ensures
            r.heuristic == heuristic,
            r.cost == cost,
            r.formula == formula,
            r.filter == filter,
    {
        GraphSearch { heuristic, cost, formula, filter }
    }
}

impl<H: Heuristic, W: MoveWeight> Search for GraphSearch<H, W> {
    open spec fn search_pre(&self, g: Grid) -> bool {
        self.heuristic.wf()
    }

    #[verifier::rlimit(100)]
    fn search(&self, grid: &mut Grid) -> (r: SearchReport)
        ensures
            forall|c: (usize, usize)|
                old(grid).in_bounds(c) ==> (#[trigger] final(grid).cell(c)) == old(grid).cell(c)
                    || final(grid).cell(c) == marked(old(grid).cell(c)),
            self.filter is GlobalVisited ==> r.search_nodes == count_unvisited(
                old(grid).values@,
            ) - count_unvisited(final(grid).values@) + (if r.solution is Some {
                1int
            } else {
                0int
            }),
            ({
                &&& self.filter is GlobalVisited
                &&& forall|c: (usize, usize)|
                    old(grid).in_bounds(c) ==> !is_visited(#[trigger] old(grid).cell(c))
                &&& r.solution is None
            }) ==> forall|path: Seq<Direction>|
                !reaches_target(*final(grid), final(grid).initial, path),
            ({
                &&& self.filter is GlobalVisited
                &&& self.formula is PathCost
                &&& forall|d: Direction| #[trigger] self.cost.spec_weigh(d) == 1
                &&& forall|c: (usize, usize)|
                    old(grid).in_bounds(c) ==> !is_visited(#[trigger] old(grid).cell(c))
            }) ==> (r.solution matches Some(p) ==> forall|other: Seq<Direction>|
                #[trigger] reaches_target(*final(grid), final(grid).initial, other) ==> p@.len()
                    <= other.len()),
            old(grid).cell(old(grid).initial) is Target ==> r.search_nodes == 1 && (
            r.solution matches Some(p) && p@.len() == 0),
    {
        let ghost track = (self.filter is GlobalVisited) && (forall|c: (usize, usize)|
            old(grid).in_bounds(c) ==> !is_visited(#[trigger] old(grid).cell(c)));
        let ghost uni = track && (self.formula is PathCost) && (forall|d: Direction|
            #[trigger] self.cost.spec_weigh(d) == 1);
        let mut queue = SortedQueue::init();
        let h0 = self.heuristic.estimate(grid.initial);
        let w0 = combine(&self.formula, 0, h0);
        queue.queue(
            Cursor {
                path: Vec::new(),
                position: grid.initial,
                heuristic: h0,
                path_cost: 0,
                weight: w0,
            },
        );
        let mut iters: usize = 0;
        let mut count: usize = 0;
        proof {
            lemma_count_unvisited_le_len(grid.values@);
            if track {
                assert(engine_closed(*grid, queue.contents()));
            }
            if uni {
                assert forall|path: Seq<Direction>| #[trigger]
                    reaches_target(*grid, grid.initial, path) implies frontier_witness(
                    *grid,
                    queue.contents(),
                    path,
                ) by {
                    assert(pos_at(*grid, grid.initial, path, 0) == grid.initial);
                    assert(queue.contents()[0].position == grid.initial);
                    assert(queue.contents()[0].path@.len() == 0);
                }
            }
        }
        while iters < usize::MAX
            invariant
                grid.wf(),
                same_shape(*old(grid), *grid),
                self.heuristic.wf(),
                iters >= 1 || queue.contents().len() >= 1,
                count <= iters,
                track == ((self.filter is GlobalVisited) && (forall|c: (usize, usize)|
                    old(grid).in_bounds(c) ==> !is_visited(#[trigger] old(grid).cell(c)))),
                iters == 0 ==> queue.contents().len() == 1 && queue.contents()[0].position
                    == grid.initial && queue.contents()[0].path@.len() == 0 && count == 0,
                old(grid).cell(old(grid).initial) is Target ==> iters == 0,
                self.filter is GlobalVisited ==> count == count_unvisited(old(grid).values@)
                    - count_unvisited(grid.values@),
                track && iters >= 1 ==> is_visited(grid.cell(grid.initial)),
                track ==> engine_closed(*grid, queue.contents()),
                uni == (track && (self.formula is PathCost) && (forall|d: Direction|
                    #[trigger] self.cost.spec_weigh(d) == 1)),
                uni ==> forall|a: int, b: int|
                    0 <= a < queue.contents().len() && 0 <= b < queue.contents().len() ==> (
                    #[trigger] queue.contents()[a]).path@.len() <= (
                    #[trigger] queue.contents()[b]).path@.len() + 1,
                uni ==> forall|path: Seq<Direction>|
                    #[trigger] reaches_target(*grid, grid.initial, path) ==> frontier_witness(
                        *grid,
                        queue.contents(),
                        path,
                    ),
                forall|c: (usize, usize)|
                    old(grid).in_bounds(c) ==> (#[trigger] grid.cell(c)) == old(grid).cell(c)
                        || grid.cell(c) == marked(old(grid).cell(c)),
                self.filter is GlobalVisited ==> iters + queue.contents().len() <= 1 + 4 * (
                grid.values@.len() - count_unvisited(grid.values@)),
                forall|k: int|
                    0 <= k < queue.contents().len() ==> cursor_wf(
                        *grid,
                        self.heuristic,
                        self.cost,
                        self.formula,
                        #[trigger] queue.contents()[k],
                    ),
            decreases usize::MAX - iters,
        {
            let ghost q_before = queue.contents();
            let cur = match queue.dequeue() {
                Some(c) => c,
                None => {
                    proof {
                        if track {
                            assert(iters >= 1);
                            assert(region_closed(*grid));
                            assert forall|path: Seq<Direction>|
                                !reaches_target(*grid, grid.initial, path) by {
                                lemma_closed_unreachable(*grid, grid.initial, path);
                            }
                        }
                    }
                    return SearchReport { search_nodes: count, solution: None };
                }
            };
            let ghost kk = choose|kk: int|
                {
                    &&& crate::queue::picks_first_min(q_before, kk)
                    &&& Some(cur) == Some(q_before[kk])
                    &&& queue.contents() == q_before.remove(kk)
                };
            let ghost iters0 = iters;
            iters += 1;
            // The duplicate filter decides whether this cursor is a revisit;
            // only dequeues that pass it count as expanded nodes.
            let skip = match self.filter {
                DuplicateFilter::GlobalVisited => global_duped(grid, &cur),
                DuplicateFilter::PathCycle => branch_duped(grid, &cur),
            };
            if !skip {
                count += 1;
            }
            let cell = *grid.read_cell(cur.position);
            match cell {
                CellType::Target => {
                    proof {
                        lemma_leads_to_target(*grid, grid.initial, cur.path@, cur.position);
                        if uni {
                            // The frontier hands out a minimum-weight entry,
                            // weights are path lengths under the unit model,
                            // and every valid solution had a foothold in the
                            // frontier - so no valid solution is shorter.
                            assert forall|other: Seq<Direction>| #[trigger]
                                reaches_target(*grid, grid.initial, other) implies cur.path@.len()
                                <= other.len() by {
                                assert(frontier_witness(*grid, q_before, other));
                                let (j, k) = choose|j: int, k: int|
                                    {
                                        &&& 0 <= j <= other.len()
                                        &&& 0 <= k < q_before.len()
                                        &&& (#[trigger] q_before[k]).position == #[trigger] pos_at(
                                            *grid,
                                            grid.initial,
                                            other,
                                            j,
                                        )
                                        &&& q_before[k].path@.len() <= j
                                    };
                                assert(!crate::cursor::key_lt(q_before[k], q_before[kk]));
                                assert(q_before[kk].weight <= q_before[k].weight);
                                assert(cursor_wf(
                                    *grid,
                                    self.heuristic,
                                    self.cost,
                                    self.formula,
                                    q_before[k],
                                ));
                                lemma_unit_path_cost(self.cost, q_before[k].path@);
                                lemma_unit_path_cost(self.cost, q_before[kk].path@);
                                assert(q_before[kk].path@.len() <= q_before[k].path@.len());
                            }
                        }
                    }
                    return SearchReport { search_nodes: count, solution: Some(cur.path) };
                }
                CellType::Initial(_) | CellType::Blank(_) | CellType::Wall(_) => {
                    proof {
                        // A non-target cell was dequeued; if this was the
                        // very first dequeue, the start cell itself is not
                        // a target.
                        if iters0 == 0 {
                            old(grid).lemma_idx(old(grid).initial);
                            assert(crate::grid::kind_eq(
                                old(grid).cell(old(grid).initial),
                                grid.cell(grid.initial),
                            ));
                            assert(!(old(grid).cell(old(grid).initial) is Target));
                        }
                    }
                    if skip {
                        // A revisit: discard without marking or expanding.
                        // Under the global filter its cell is already
                        // inside the closed region, so any solution it
                        // anchored still leaves the region at a frontier
                        // entry at most one move longer.
                        proof {
                            if track {
                                lemma_remove_closed(
                                    *grid,
                                    q_before,
                                    queue.contents(),
                                    kk,
                                    cur.position,
                                );
                            }
                            if uni {
                                assert forall|a: int, b: int|
                                    0 <= a < queue.contents().len() && 0 <= b
                                        < queue.contents().len() implies (
                                #[trigger] queue.contents()[a]).path@.len() <= (
                                #[trigger] queue.contents()[b]).path@.len() + 1 by {
                                    assert(queue.contents()[a] == (if a < kk {
                                        q_before[a]
                                    } else {
                                        q_before[a + 1]
                                    }));
                                    assert(queue.contents()[b] == (if b < kk {
                                        q_before[b]
                                    } else {
                                        q_before[b + 1]
                                    }));
                                }
                                assert forall|k2: int|
                                    0 <= k2 < queue.contents().len() implies (
                                #[trigger] queue.contents()[k2]).path@.len() <= cur.path@.len()
                                    + 1 by {
                                    assert(queue.contents()[k2] == (if k2 < kk {
                                        q_before[k2]
                                    } else {
                                        q_before[k2 + 1]
                                    }));
                                }
                                assert forall|path: Seq<Direction>| #[trigger]
                                    reaches_target(*grid, grid.initial, path) implies
                                    frontier_witness(*grid, queue.contents(), path) by {
                                    assert(frontier_witness(*grid, q_before, path));
                                    let (j, k) = choose|j: int, k: int|
                                        {
                                            &&& 0 <= j <= path.len()
                                            &&& 0 <= k < q_before.len()
                                            &&& (#[trigger] q_before[k]).position
                                                == #[trigger] pos_at(
                                                *grid,
                                                grid.initial,
                                                path,
                                                j,
                                            )
                                            &&& q_before[k].path@.len() <= j
                                        };
                                    if k == kk {
                                        assert(pos_at(*grid, grid.initial, path, j)
                                            == cur.position);
                                        lemma_engine_walk_witness(
                                            *grid,
                                            queue.contents(),
                                            path,
                                            j,
                                            cur.path@.len() as int + 1,
                                        );
                                    } else if k < kk {
                                        assert(queue.contents()[k] == q_before[k]);
                                        assert(frontier_witness(
                                            *grid,
                                            queue.contents(),
                                            path,
                                        ));
                                    } else {
                                        assert(queue.contents()[k - 1] == q_before[k]);
                                        assert(frontier_witness(
                                            *grid,
                                            queue.contents(),
                                            path,
                                        ));
                                    }
                                }
                            }
                        }
                        continue;
                    }
                    let ghost pre_mark = *grid;
                    grid.mark_visited(cur.position);
                    proof {
                        assert(same_shape(pre_mark, *grid));
                        lemma_same_shape_reaches(pre_mark, *grid, pre_mark.initial, cur.path@);
                        assert forall|k: int|
                            0 <= k < queue.contents().len() implies cursor_wf(
                            *grid,
                            self.heuristic,
                            self.cost,
                            self.formula,
                            #[trigger] queue.contents()[k],
                        ) by {
                            lemma_same_shape_reaches(
                                pre_mark,
                                *grid,
                                pre_mark.initial,
                                queue.contents()[k].path@,
                            );
                        }
                        if track {
                            lemma_engine_expand_setup(
                                pre_mark,
                                *grid,
                                q_before,
                                queue.contents(),
                                kk,
                                cur.position,
                            );
                        }
                        if self.filter is GlobalVisited {
                            // The global filter let this cursor through, so
                            // its cell was untouched: one more cell counts
                            // as marked.
                            assert(count_unvisited(grid.values@) + 1 == count_unvisited(
                                pre_mark.values@,
                            ));
                        }
                        // Every cell is still the entry cell, marked or not.
                        assert forall|c: (usize, usize)|
                            old(grid).in_bounds(c) implies (#[trigger] grid.cell(c)) == old(
                            grid,
                        ).cell(c) || grid.cell(c) == marked(old(grid).cell(c)) by {
                            if c != cur.position {
                                assert(grid.cell(c) == pre_mark.cell(c));
                            }
                        }
                    }
                    match cell {
                        CellType::Initial(_) | CellType::Blank(_) => {
                            proof {
                                if uni {
                                    // Remaining entries are between this
                                    // cursor's length and one move longer.
                                    assert forall|k2: int|
                                        0 <= k2 < queue.contents().len() implies cur.path@.len()
                                        <= (#[trigger] queue.contents()[k2]).path@.len()
                                        && queue.contents()[k2].path@.len() <= cur.path@.len()
                                        + 1 by {
                                        let orig = if k2 < kk {
                                            k2
                                        } else {
                                            k2 + 1
                                        };
                                        assert(queue.contents()[k2] == q_before[orig]);
                                        assert(!crate::cursor::key_lt(
                                            q_before[orig],
                                            q_before[kk],
                                        ));
                                        assert(cursor_wf(
                                            pre_mark,
                                            self.heuristic,
                                            self.cost,
                                            self.formula,
                                            q_before[orig],
                                        ));
                                        lemma_unit_path_cost(self.cost, q_before[orig].path@);
                                        lemma_unit_path_cost(self.cost, q_before[kk].path@);
                                    }
                                    // Every anchored solution keeps its
                                    // foothold, or waits on this cell's
                                    // expansion.
                                    assert forall|path: Seq<Direction>| #[trigger]
                                        reaches_target(*grid, grid.initial, path) implies
                                        frontier_witness(*grid, queue.contents(), path) || (
                                    exists|j: int|
                                        0 <= j < path.len() && #[trigger] pos_at(
                                            *grid,
                                            grid.initial,
                                            path,
                                            j,
                                        ) == cur.position && cur.path@.len() <= j) by {
                                        lemma_same_shape_reaches(
                                            pre_mark,
                                            *grid,
                                            pre_mark.initial,
                                            path,
                                        );
                                        assert(frontier_witness(pre_mark, q_before, path));
                                        let (j, k) = choose|j: int, k: int|
                                            {
                                                &&& 0 <= j <= path.len()
                                                &&& 0 <= k < q_before.len()
                                                &&& (#[trigger] q_before[k]).position
                                                    == #[trigger] pos_at(
                                                    pre_mark,
                                                    pre_mark.initial,
                                                    path,
                                                    j,
                                                )
                                                &&& q_before[k].path@.len() <= j
                                            };
                                        lemma_pos_at_same_dims(
                                            pre_mark,
                                            *grid,
                                            grid.initial,
                                            path,
                                            j,
                                        );
                                        if k == kk {
                                            if j == path.len() {
                                                lemma_reaches_suffix(
                                                    *grid,
                                                    grid.initial,
                                                    path,
                                                    j,
                                                );
                                                assert(path.skip(j).len() == 0);
                                                assert(grid.cell(cur.position) is Target);
                                                assert(false);
                                            }
                                        } else if k < kk {
                                            assert(queue.contents()[k] == q_before[k]);
                                            assert(frontier_witness(
                                                *grid,
                                                queue.contents(),
                                                path,
                                            ));
                                        } else {
                                            assert(queue.contents()[k - 1] == q_before[k]);
                                            assert(frontier_witness(
                                                *grid,
                                                queue.contents(),
                                                path,
                                            ));
                                        }
                                    }
                                }
                            }
                            let neighbors = grid.adjacents(cur.position);
                            let n = neighbors.len();
                            proof {
                                assert(n <= 4);
                            }
                            let cur_len = cur.path.len();
                            let mut a: usize = 0;
                            while a < n
                                invariant
                                    grid.wf(),
                                    same_shape(*old(grid), *grid),
                                    self.heuristic.wf(),
                                    n == neighbors@.len(),
                                    a <= n,
                                    cur_len == cur.path@.len(),
                                    grid.in_bounds(cur.position),
                                    leads_to(*grid, grid.initial, cur.path@, cur.position),
                                    crate::grid::is_open(grid.cell(cur.position)),
                                    cur.path_cost == spec_path_cost(self.cost, cur.path@),
                                    cur.path_cost <= 4 * cur.path@.len(),
                                    cur.path_cost <= PATH_COST_CAP,
                                    is_visited(grid.cell(cur.position)),
                                    neighbors@ == grid.spec_neighbors(cur.position),
                                    n <= 4,
                                    self.filter is GlobalVisited ==> iters
                                        + queue.contents().len() <= 1 + a + 4 * (
                                    grid.values@.len() - count_unvisited(grid.values@)) - 4,
                                    forall|c: (usize, usize)|
                                        old(grid).in_bounds(c) ==> (#[trigger] grid.cell(c))
                                            == old(grid).cell(c) || grid.cell(c) == marked(
                                            old(grid).cell(c),
                                        ),
                                    track ==> engine_closed_except(
                                        *grid,
                                        queue.contents(),
                                        cur.position,
                                    ),
                                    track ==> forall|q: int|
                                        0 <= q < a ==> in_frontier(
                                            queue.contents(),
                                            (#[trigger] neighbors@[q]).1,
                                        ),
                                    uni ==> forall|k2: int|
                                        0 <= k2 < queue.contents().len() ==> cur.path@.len() <= (
                                        #[trigger] queue.contents()[k2]).path@.len()
                                            && queue.contents()[k2].path@.len() <= cur.path@.len()
                                            + 1,
                                    uni ==> forall|q2: int|
                                        0 <= q2 < a ==> in_frontier_len(
                                            queue.contents(),
                                            (#[trigger] neighbors@[q2]).1,
                                            cur.path@.len() as int + 1,
                                        ),
                                    uni ==> forall|path: Seq<Direction>|
                                        #[trigger] reaches_target(*grid, grid.initial, path)
                                            ==> frontier_witness(*grid, queue.contents(), path)
                                            || (exists|j: int|
                                            0 <= j < path.len() && #[trigger] pos_at(
                                                *grid,
                                                grid.initial,
                                                path,
                                                j,
                                            ) == cur.position && cur.path@.len() <= j),
                                    forall|q: int|
                                        0 <= q < neighbors@.len() ==> grid.spec_adjacent(
                                            cur.position,
                                            (#[trigger] neighbors@[q]).0,
                                        ) == Some(neighbors@[q].1) && grid.in_bounds(
                                            neighbors@[q].1,
                                        ),
                                    forall|k: int|
                                        0 <= k < queue.contents().len() ==> cursor_wf(
                                            *grid,
                                            self.heuristic,
                                            self.cost,
                                            self.formula,
                                            #[trigger] queue.contents()[k],
                                        ),
                                decreases n - a,
                            {
                                let (d, pos) = neighbors[a];
                                let mv = self.cost.weigh(&d);
                                let child_cost = cur.path_cost + (mv as u128);
                                let child_h = self.heuristic.estimate(pos);
                                let child_w = combine(&self.formula, child_cost, child_h);
                                let mut path = copy_path(&cur.path);
                                path.push(d);
                                let child_len = path.len();
                                proof {
                                    lemma_leads_to_push(
                                        *grid,
                                        grid.initial,
                                        cur.path@,
                                        cur.position,
                                        d,
                                        pos,
                                    );
                                    assert(path@.drop_last() =~= cur.path@);
                                    assert(path@.last() == d);
                                    assert(spec_path_cost(self.cost, path@) == spec_path_cost(
                                        self.cost,
                                        cur.path@,
                                    ) + self.cost.spec_weigh(d));
                                    assert(child_len == cur.path@.len() + 1);
                                    assert(child_cost <= 4 * path@.len());
                                }
                                let ghost q_pre_push = queue.contents();
                                let ghost pushed_len = path@.len();
                                queue.queue(
                                    Cursor {
                                        path,
                                        position: pos,
                                        heuristic: child_h,
                                        path_cost: child_cost,
                                        weight: child_w,
                                    },
                                );
                                proof {
                                    if uni {
                                        assert(pushed_len == cur.path@.len() + 1);
                                        let qn = queue.contents();
                                        assert(qn.last().path@.len() == pushed_len);
                                        assert forall|path2: Seq<Direction>| #[trigger]
                                            reaches_target(*grid, grid.initial, path2) implies
                                            frontier_witness(*grid, qn, path2) || (exists|j: int|
                                                0 <= j < path2.len() && #[trigger] pos_at(
                                                    *grid,
                                                    grid.initial,
                                                    path2,
                                                    j,
                                                ) == cur.position && cur.path@.len() <= j) by {
                                            if frontier_witness(*grid, q_pre_push, path2) {
                                                let (j, k) = choose|j: int, k: int|
                                                    {
                                                        &&& 0 <= j <= path2.len()
                                                        &&& 0 <= k < q_pre_push.len()
                                                        &&& (#[trigger] q_pre_push[k]).position
                                                            == #[trigger] pos_at(
                                                            *grid,
                                                            grid.initial,
                                                            path2,
                                                            j,
                                                        )
                                                        &&& q_pre_push[k].path@.len() <= j
                                                    };
                                                assert(qn[k] == q_pre_push[k]);
                                                assert(frontier_witness(*grid, qn, path2));
                                            }
                                        }
                                        assert forall|q2: int|
                                            0 <= q2 < a + 1 implies in_frontier_len(
                                            queue.contents(),
                                            (#[trigger] neighbors@[q2]).1,
                                            cur.path@.len() as int + 1,
                                        ) by {
                                            if q2 < a {
                                                lemma_frontier_grow_len(
                                                    q_pre_push,
                                                    queue.contents(),
                                                    neighbors@[q2].1,
                                                    cur.path@.len() as int + 1,
                                                );
                                            } else {
                                                assert(queue.contents()[q_pre_push.len() as int].position
                                                    == pos);
                                                assert(queue.contents()[q_pre_push.len() as int].path@.len()
                                                    <= cur.path@.len() + 1);
                                            }
                                        }
                                    }
                                    if track {
                                        assert forall|c: (usize, usize), d2: Direction|
                                            grid.in_bounds(c) && c != cur.position && is_visited(
                                                grid.cell(c),
                                            ) && crate::grid::is_open(grid.cell(c)) && (
                                            #[trigger] grid.spec_adjacent(c, d2)) is Some implies {
                                            let m = grid.spec_adjacent(c, d2)->Some_0;
                                            is_visited(grid.cell(m)) || in_frontier(
                                                queue.contents(),
                                                m,
                                            )
                                        } by {
                                            let m = grid.spec_adjacent(c, d2)->Some_0;
                                            if !is_visited(grid.cell(m)) {
                                                lemma_frontier_grow(
                                                    q_pre_push,
                                                    queue.contents(),
                                                    m,
                                                );
                                            }
                                        }
                                        assert forall|q: int| 0 <= q < a + 1 implies in_frontier(
                                            queue.contents(),
                                            (#[trigger] neighbors@[q]).1,
                                        ) by {
                                            if q < a {
                                                lemma_frontier_grow(
                                                    q_pre_push,
                                                    queue.contents(),
                                                    neighbors@[q].1,
                                                );
                                            } else {
                                                assert(queue.contents()[q_pre_push.len() as int].position
                                                    == pos);
                                            }
                                        }
                                    }
                                }
                                a += 1;
                            }
                            proof {
                                if track {
                                    assert forall|c: (usize, usize), d: Direction|
                                        grid.in_bounds(c) && is_visited(grid.cell(c))
                                            && crate::grid::is_open(grid.cell(c)) && (
                                        #[trigger] grid.spec_adjacent(c, d)) is Some implies {
                                        let m = grid.spec_adjacent(c, d)->Some_0;
                                        is_visited(grid.cell(m)) || in_frontier(
                                            queue.contents(),
                                            m,
                                        )
                                    } by {
                                        if c == cur.position {
                                            let m = grid.spec_adjacent(c, d)->Some_0;
                                            lemma_neighbors_complete(*grid, c, d, m);
                                            let k2 = choose|k2: int|
                                                0 <= k2 < grid.spec_neighbors(c).len() && (
                                                #[trigger] grid.spec_neighbors(c)[k2]) == (d, m);
                                            assert(neighbors@[k2] == (d, m));
                                            assert(in_frontier(
                                                queue.contents(),
                                                neighbors@[k2].1,
                                            ));
                                        }
                                    }
                                }
                                if uni {
                                    // Solutions that waited on this cell now
                                    // have their next step in the frontier,
                                    // one move longer.
                                    assert forall|path: Seq<Direction>| #[trigger]
                                        reaches_target(*grid, grid.initial, path) implies
                                        frontier_witness(*grid, queue.contents(), path) by {
                                        if !frontier_witness(*grid, queue.contents(), path) {
                                            let j = choose|j: int|
                                                0 <= j < path.len() && #[trigger] pos_at(
                                                    *grid,
                                                    grid.initial,
                                                    path,
                                                    j,
                                                ) == cur.position && cur.path@.len() <= j;
                                            lemma_reaches_suffix(*grid, grid.initial, path, j);
                                            lemma_pos_at_in_bounds(*grid, grid.initial, path, j);
                                            assert(path.skip(j).len() > 0);
                                            assert(path.skip(j)[0] == path[j]);
                                            assert(grid.spec_adjacent(cur.position, path[j])
                                                is Some);
                                            let nxt = grid.spec_adjacent(
                                                cur.position,
                                                path[j],
                                            )->Some_0;
                                            assert(nxt == pos_at(
                                                *grid,
                                                grid.initial,
                                                path,
                                                j + 1,
                                            ));
                                            lemma_neighbors_complete(
                                                *grid,
                                                cur.position,
                                                path[j],
                                                nxt,
                                            );
                                            let k2 = choose|k2: int|
                                                0 <= k2 < grid.spec_neighbors(cur.position).len()
                                                    && (#[trigger] grid.spec_neighbors(
                                                    cur.position,
                                                )[k2]) == (path[j], nxt);
                                            assert(neighbors@[k2] == (path[j], nxt));
                                            assert(in_frontier_len(
                                                queue.contents(),
                                                neighbors@[k2].1,
                                                cur.path@.len() as int + 1,
                                            ));
                                            let k3 = choose|k3: int|
                                                0 <= k3 < queue.contents().len() && (
                                                #[trigger] queue.contents()[k3]).position == nxt
                                                    && queue.contents()[k3].path@.len()
                                                    <= cur.path@.len() + 1;
                                            assert(queue.contents()[k3].path@.len() <= j + 1);
                                            assert(frontier_witness(
                                                *grid,
                                                queue.contents(),
                                                path,
                                            ));
                                            assert(false);
                                        }
                                    }
                                }
                            }
                        }
                        _ => {
                            // Walls are marked but never expanded: a wall
                            // cell is not traversable, so the closed region
                            // owes nothing for it, and no valid solution
                            // ever anchored on it.
                            proof {
                                if track {
                                    assert(!crate::grid::is_open(grid.cell(cur.position)));
                                    assert(engine_closed(*grid, queue.contents()));
                                }
                                if uni {
                                    assert forall|a2: int, b2: int|
                                        0 <= a2 < queue.contents().len() && 0 <= b2
                                            < queue.contents().len() implies (
                                    #[trigger] queue.contents()[a2]).path@.len() <= (
                                    #[trigger] queue.contents()[b2]).path@.len() + 1 by {
                                        assert(queue.contents()[a2] == (if a2 < kk {
                                            q_before[a2]
                                        } else {
                                            q_before[a2 + 1]
                                        }));
                                        assert(queue.contents()[b2] == (if b2 < kk {
                                            q_before[b2]
                                        } else {
                                            q_before[b2 + 1]
                                        }));
                                    }
                                    assert forall|path: Seq<Direction>| #[trigger]
                                        reaches_target(*grid, grid.initial, path) implies
                                        frontier_witness(*grid, queue.contents(), path) by {
                                        lemma_same_shape_reaches(
                                            pre_mark,
                                            *grid,
                                            pre_mark.initial,
                                            path,
                                        );
                                        assert(frontier_witness(pre_mark, q_before, path));
                                        let (j, k) = choose|j: int, k: int|
                                            {
                                                &&& 0 <= j <= path.len()
                                                &&& 0 <= k < q_before.len()
                                                &&& (#[trigger] q_before[k]).position
                                                    == #[trigger] pos_at(
                                                    pre_mark,
                                                    pre_mark.initial,
                                                    path,
                                                    j,
                                                )
                                                &&& q_before[k].path@.len() <= j
                                            };
                                        lemma_pos_at_same_dims(
                                            pre_mark,
                                            *grid,
                                            grid.initial,
                                            path,
                                            j,
                                        );
                                        if k == kk {
                                            lemma_reaches_suffix(*grid, grid.initial, path, j);
                                            if j == path.len() {
                                                assert(path.skip(j).len() == 0);
                                                assert(grid.cell(cur.position) is Target);
                                                assert(false);
                                            } else {
                                                assert(path.skip(j).len() > 0);
                                                assert(crate::grid::is_open(
                                                    grid.cell(cur.position),
                                                ));
                                                assert(false);
                                            }
                                        } else if k < kk {
                                            assert(queue.contents()[k] == q_before[k]);
                                            assert(frontier_witness(
                                                *grid,
                                                queue.contents(),
                                                path,
                                            ));
                                        } else {
                                            assert(queue.contents()[k - 1] == q_before[k]);
                                            assert(frontier_witness(
                                                *grid,
                                                queue.contents(),
                                                path,
                                            ));
                                        }
                                    }
                                }
                            }
                        }
                    }
                }
            }
        }
        proof {
            // The counter can only run out with an exhausted frontier: at
            // most one dequeue per enqueue, and at most four enqueues per
            // marked cell, which the grid size bounds.
            if track {
                assert(queue.contents().len() == 0);
                assert(region_closed(*grid));
                assert forall|path: Seq<Direction>| !reaches_target(*grid, grid.initial, path) by {
                    lemma_closed_unreachable(*grid, grid.initial, path);
                }
            }
        }
        SearchReport { search_nodes: count, solution: None }
    }
}

} // verus!
