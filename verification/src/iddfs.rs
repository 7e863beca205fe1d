//! Iterative-deepening depth-first search: a depth-limited depth-first
//! descent run repeatedly with a growing limit, clearing the visited marks
//! between rounds. Each descent also reports whether it was truncated by
//! the limit; the search gives up only on a round that was both unsuccessful
//! and untruncated, which bounds the number of rounds by the cell count.
//! Run on a grid with no stale visited marks, it is also proved complete:
//! it reports no solution only when none exists.

use vstd::prelude::*;

verus! {

use crate::SearchReport;
use crate::grid::{Grid, CellType, same_shape, count_unvisited, lemma_count_unvisited_le_len,
    lemma_count_unvisited_pos};
use crate::search::{Search, Direction, reaches_target, lemma_reaches_prepend, open_violation,
    lemma_no_violation_closed, region_closed, lemma_closed_unreachable};
use crate::grid::{is_visited, cleared, lemma_neighbors_complete};
use crate::dfs::{SearchResult, reverse_path};

/// Iterative-deepening depth-first search over a grid.
pub struct IterativeDeepening;

impl IterativeDeepening {
    /// An iterative-deepening search instance.
    pub fn init() -> (r: IterativeDeepening) {
        IterativeDeepening
    }
}

impl Search for IterativeDeepening {
    open spec fn search_pre(&self, g: Grid) -> bool {
        true
    }

    /// Unlike the single-pass searches, this one cannot promise that
    /// entry visited marks survive: it clears every mark between rounds,
    /// so marks left by earlier runs are erased.
    fn search(&self, grid: &mut Grid) -> (r: SearchReport)
        ensures
            ({
                &&& forall|c: (usize, usize)|
                    old(grid).in_bounds(c) ==> !is_visited(#[trigger] old(grid).cell(c))
                &&& r.solution is None
            }) ==> forall|path: Seq<Direction>|
                !reaches_target(*final(grid), final(grid).initial, path),
            old(grid).cell(old(grid).initial) is Target ==> r.search_nodes == 1 && (
            r.solution matches Some(p) && p@.len() == 0),
    {
        let ghost clean = forall|c: (usize, usize)|
            old(grid).in_bounds(c) ==> !is_visited(#[trigger] old(grid).cell(c));
        let mut limit: usize = 0;
        loop
            invariant
                grid.wf(),
                same_shape(*old(grid), *grid),
                limit <= grid.values@.len(),
                clean == (forall|c: (usize, usize)|
                    old(grid).in_bounds(c) ==> !is_visited(#[trigger] old(grid).cell(c))),
                clean ==> forall|c: (usize, usize)|
                    grid.in_bounds(c) ==> !is_visited(#[trigger] grid.cell(c)),
            decreases grid.values@.len() - limit,
        {
            let start = grid.initial;
            let ghost pre_round = *grid;
            let (result, more) = iddfs_recurse(grid, start, limit);
            proof {
                // If the start cell is a target, the round's entry grid
                // still shows it as one (kinds are never changed), so the
                // descent hit it at once.
                if old(grid).cell(old(grid).initial) is Target {
                    old(grid).lemma_idx(old(grid).initial);
                    assert(crate::grid::kind_eq(
                        old(grid).cell(old(grid).initial),
                        pre_round.cell(old(grid).initial),
                    ));
                    assert(pre_round.cell(pre_round.initial) is Target);
                }
            }
            match result {
                SearchResult::Hit(count, path) => {
                    let forward = reverse_path(&path);
                    proof {
                        if old(grid).cell(old(grid).initial) is Target {
                            assert(count == 1 && path@.len() == 0);
                            assert(forward@.len() == 0);
                        }
                    }
                    return SearchReport { search_nodes: count, solution: Some(forward) };
                }
                SearchResult::Miss(count) => {
                    if more {
                        // Truncated by the limit: some deeper frontier
                        // remains, and its depth is below the number of
                        // cells that were still unvisited, so the limit
                        // stays within the cell count.
                        proof {
                            lemma_count_unvisited_le_len(pre_round.cells());
                        }
                        limit = limit + 1;
                        let ghost pre_clear = *grid;
                        grid.clear_visits();
                        proof {
                            if clean {
                                assert forall|c: (usize, usize)|
                                    grid.in_bounds(c) implies !is_visited(
                                    #[trigger] grid.cell(c),
                                ) by {
                                    grid.lemma_idx(c);
                                    assert(grid.cell(c) == cleared(
                                        pre_clear.values@[grid.idx(c)],
                                    ));
                                }
                            }
                        }
                    } else {
                        // True exhaustion at this depth or beyond: the
                        // untruncated round closed the whole reachable
                        // region without meeting a target.
                        proof {
                            if clean {
                                assert forall|c: (usize, usize), d: Direction|
                                    !(#[trigger] open_violation(*grid, c, d)) by {
                                    if open_violation(*grid, c, d) {
                                        assert(is_visited(pre_round.cell(c)));
                                    }
                                }
                                lemma_no_violation_closed(*grid);
                                assert forall|path: Seq<Direction>|
                                    !reaches_target(*grid, grid.initial, path) by {
                                    lemma_closed_unreachable(*grid, grid.initial, path);
                                }
                            }
                        }
                        return SearchReport { search_nodes: count, solution: None };
                    }
                }
            }
        }
    }
}

/// One depth-limited descent from `cur`. Returns the search outcome and a
/// flag telling whether the descent was cut short by the depth limit rather
/// than by true exhaustion; the flag can only be raised while more cells
/// were unvisited than the limit allows to cross.
fn iddfs_recurse(grid: &mut Grid, cur: (usize, usize), lim: usize) -> (res: (SearchResult, bool))
    requires
        old(grid).wf(),
        old(grid).in_bounds(cur),
    ensures
        final(grid).wf(),
        same_shape(*old(grid), *final(grid)),
        count_unvisited(final(grid).cells()) <= count_unvisited(old(grid).cells()),
        res.1 ==> lim < count_unvisited(old(grid).cells()),
        match res.0 {
            SearchResult::Hit(c, p) => {
                &&& reaches_target(*final(grid), cur, p@.reverse())
                &&& 1 <= c <= 1 + 4 * (count_unvisited(old(grid).cells()) - count_unvisited(
                    final(grid).cells(),
                ))
            }
            SearchResult::Miss(c) => 1 <= c <= 1 + 4 * (count_unvisited(old(grid).cells())
                - count_unvisited(final(grid).cells())),
        },
        forall|c: (usize, usize)|
            old(grid).in_bounds(c) && is_visited(#[trigger] old(grid).cell(c)) ==> is_visited(
                final(grid).cell(c),
            ),
        res.0 matches SearchResult::Hit(c, p) ==> p@.len() <= lim,
        res.0 is Miss && !res.1 ==> is_visited(final(grid).cell(cur)),
        res.0 is Miss && !res.1 ==> forall|c: (usize, usize), d: Direction|
            #[trigger] open_violation(*final(grid), c, d) ==> is_visited(old(grid).cell(c)),
        old(grid).cell(cur) is Target ==> (res.0 matches SearchResult::Hit(c, p) && c == 1
            && p@.len() == 0),
    decreases lim,
{
    let cell = *grid.read_cell(cur);
    match cell {
        CellType::Target => {
            let empty: Vec<Direction> = Vec::new();
            proof {
                assert(empty@.reverse() =~= Seq::<Direction>::empty());
            }
            (SearchResult::Hit(1, empty), false)
        }
        CellType::Wall(_) => {
            // Visit marks on walls are kept for inspection only.
            let ghost g0 = *grid;
            grid.mark_visited(cur);
            proof {
                assert forall|c: (usize, usize), d: Direction| #[trigger]
                    open_violation(*grid, c, d) implies is_visited(g0.cell(c)) by {
                    if c != cur {
                        assert(grid.cell(c) == g0.cell(c));
                    }
                }
            }
            (SearchResult::Miss(1), false)
        }
        CellType::Initial(visited) | CellType::Blank(visited) => {
            if lim == 0 {
                proof {
                    if !visited {
                        grid.lemma_idx(cur);
                        lemma_count_unvisited_pos(grid.cells(), grid.idx(cur));
                    }
                }
                return (SearchResult::Miss(1), !visited);
            }
            if visited {
                return (SearchResult::Miss(1), false);
            }
            grid.mark_visited(cur);
            let ghost u0 = count_unvisited(old(grid).cells());
            let neighbors = grid.adjacents(cur);
            let n = neighbors.len();
            let mut count: usize = 1;
            let mut more = false;
            let mut a: usize = 0;
            while a < n
                invariant
                    grid.wf(),
                    same_shape(*old(grid), *grid),
                    grid.in_bounds(cur),
                    crate::grid::is_open(grid.cell(cur)),
                    u0 == count_unvisited(old(grid).cells()),
                    count_unvisited(grid.cells()) < u0,
                    n == neighbors@.len(),
                    n <= 4,
                    a <= n,
                    1 <= lim,
                    1 <= count,
                    count <= 1 + a + 4 * (u0 - 1 - count_unvisited(grid.cells())),
                    more ==> lim < u0,
                    neighbors@ == grid.spec_neighbors(cur),
                    is_visited(grid.cell(cur)),
                    forall|c: (usize, usize)|
                        old(grid).in_bounds(c) && is_visited(#[trigger] old(grid).cell(c))
                            ==> is_visited(grid.cell(c)),
                    !more ==> forall|q: int|
                        0 <= q < a ==> is_visited(grid.cell((#[trigger] neighbors@[q]).1)),
                    !more ==> forall|c: (usize, usize), d: Direction| #[trigger]
                        open_violation(*grid, c, d) ==> is_visited(old(grid).cell(c)) || c == cur,
                    forall|q: int|
                        0 <= q < neighbors@.len() ==> grid.spec_adjacent(
                            cur,
                            (#[trigger] neighbors@[q]).0,
                        ) == Some(neighbors@[q].1) && grid.in_bounds(neighbors@[q].1),
                decreases n - a,
            {
                let (d, pos) = neighbors[a];
                let ghost pre_child = *grid;
                let (inner, inner_more) = iddfs_recurse(grid, pos, lim - 1);
                proof {
                    pre_child.lemma_idx(cur);
                    assert(crate::grid::kind_eq(pre_child.cell(cur), grid.cell(cur)));
                    assert(crate::grid::is_open(grid.cell(cur)));
                    lemma_count_unvisited_le_len(old(grid).cells());
                    assert(count + 1 + 4 * (count_unvisited(pre_child.cells()) - count_unvisited(
                        grid.cells(),
                    )) <= 1 + 4 * count_unvisited(old(grid).cells()));
                    // Cells visited before the child stay visited.
                    assert forall|c: (usize, usize)|
                        old(grid).in_bounds(c) && is_visited(#[trigger] old(grid).cell(c))
                        implies is_visited(grid.cell(c)) by {
                        assert(is_visited(pre_child.cell(c)));
                    }
                }
                match inner {
                    SearchResult::Hit(inner_count, mut path) => {
                        count = count + inner_count;
                        let ghost p0 = path@;
                        // Built in reverse: append the connecting move last.
                        path.push(d);
                        proof {
                            assert(path@.drop_last() =~= p0);
                            assert(path@.reverse() =~= seq![d] + p0.reverse());
                            lemma_reaches_prepend(*grid, cur, d, pos, p0.reverse());
                        }
                        return (SearchResult::Hit(count, path), inner_more);
                    }
                    SearchResult::Miss(inner_count) => {
                        count = count + inner_count;
                    }
                }
                more = more || inner_more;
                proof {
                    if !more {
                        assert forall|q: int| 0 <= q < a + 1 implies is_visited(
                            grid.cell((#[trigger] neighbors@[q]).1),
                        ) by {
                            if q < a {
                                assert(is_visited(pre_child.cell(neighbors@[q].1)));
                            }
                        }
                        // A closure obligation left open after the child
                        // was already open before it, so it traces back to
                        // the entry grid or to this cell.
                        assert forall|c: (usize, usize), d2: Direction| #[trigger]
                            open_violation(*grid, c, d2) implies is_visited(old(grid).cell(c))
                            || c == cur by {
                            let m = grid.spec_adjacent(c, d2)->Some_0;
                            assert(is_visited(pre_child.cell(c)));
                            grid.lemma_idx(c);
                            grid.lemma_idx(m);
                            assert(crate::grid::kind_eq(pre_child.cell(c), grid.cell(c)));
                            assert(crate::grid::kind_eq(pre_child.cell(m), grid.cell(m)));
                            if is_visited(pre_child.cell(m)) {
                                assert(is_visited(grid.cell(m)));
                            }
                            assert(pre_child.spec_adjacent(c, d2) == grid.spec_adjacent(c, d2));
                            assert(open_violation(pre_child, c, d2));
                        }
                    }
                }
                a += 1;
            }
            proof {
                if !more {
                    assert forall|c: (usize, usize), d: Direction| #[trigger]
                        open_violation(*grid, c, d) implies is_visited(old(grid).cell(c)) by {
                        if c == cur {
                            let m = grid.spec_adjacent(c, d)->Some_0;
                            lemma_neighbors_complete(*grid, c, d, m);
                            let k = choose|k: int|
                                0 <= k < grid.spec_neighbors(c).len() && (
                                #[trigger] grid.spec_neighbors(c)[k]) == (d, m);
                            assert(neighbors@[k] == (d, m));
                            assert(is_visited(grid.cell(neighbors@[k].1)));
                        }
                    }
                }
            }
            (SearchResult::Miss(count), more)
        }
    }
}

} // verus!
