//! Depth-first tree search. The traversal is recursive: at each cell it
//! tries the neighbours in Up, Left, Down, Right order and propagates the
//! first success, building the solution path goal-to-start and reversing it
//! once at the end. Run on a grid with no stale visited marks, it is also
//! proved complete: it reports no solution only when none exists.

use vstd::prelude::*;

verus! {

use crate::SearchReport;
use crate::grid::{Grid, CellType, same_shape, count_unvisited};
use crate::search::{Search, Direction, reaches_target, lemma_reaches_prepend,
    lemma_same_shape_reaches, open_violation, lemma_no_violation_closed, region_closed,
    lemma_closed_unreachable};
use crate::grid::{is_visited, marked, lemma_neighbors_complete};

/// The outcome of one recursive descent: either the goal was found, with
/// the number of cells inspected and the path built in reverse, or it was
/// not, with the number of cells inspected.
pub enum SearchResult {
    /// The goal was reached: cells inspected, and the path goal-to-start.
    Hit(usize, Vec<Direction>),
    /// The goal was not reached: cells inspected.
    Miss(usize),
}

/// Depth-first search over a grid.
pub struct DepthFirst;

impl DepthFirst {
    /// A depth-first search instance.
    pub fn init() -> (r: DepthFirst) {
        DepthFirst
    }
}

impl Search for DepthFirst {
    open spec fn search_pre(&self, g: Grid) -> bool {
        true
    }

    fn search(&self, grid: &mut Grid) -> (r: SearchReport)
        ensures
            forall|c: (usize, usize)|
                old(grid).in_bounds(c) ==> (#[trigger] final(grid).cell(c)) == old(grid).cell(c)
                    || final(grid).cell(c) == marked(old(grid).cell(c)),
            ({
                &&& forall|c: (usize, usize)|
                    old(grid).in_bounds(c) ==> !is_visited(#[trigger] old(grid).cell(c))
                &&& r.solution is None
            }) ==> forall|path: Seq<Direction>|
                !reaches_target(*final(grid), final(grid).initial, path),
            old(grid).cell(old(grid).initial) is Target ==> r.search_nodes == 1 && (
            r.solution matches Some(p) && p@.len() == 0),
    {
        let ghost clean = forall|c: (usize, usize)|
            old(grid).in_bounds(c) ==> !is_visited(#[trigger] old(grid).cell(c));
        let start = grid.initial;
        let res = dfs_recurse(grid, start);
        match res {
            SearchResult::Miss(count) => {
                proof {
                    if clean {
                        assert forall|c: (usize, usize), d: Direction|
                            !(#[trigger] open_violation(*grid, c, d)) by {
                            if open_violation(*grid, c, d) {
                                assert(is_visited(old(grid).cell(c)));
                            }
                        }
                        lemma_no_violation_closed(*grid);
                        assert forall|path: Seq<Direction>|
                            !reaches_target(*grid, grid.initial, path) by {
                            lemma_closed_unreachable(*grid, grid.initial, path);
                        }
                    }
                }
                SearchReport { search_nodes: count, solution: None }
            }
            SearchResult::Hit(count, path) => {
                // The recursion builds the path goal-to-start; put it in
                // travel order once.
                let forward = reverse_path(&path);
                proof {
                    if old(grid).cell(old(grid).initial) is Target {
                        assert(count == 1 && path@.len() == 0);
                        assert(forward@.len() == 0);
                    }
                }
                SearchReport { search_nodes: count, solution: Some(forward) }
            }
        }
    }
}

/// One recursive descent of depth-first search from `cur`. Marks the cells
/// it crosses, inspects neighbours in Up, Left, Down, Right order, and
/// short-circuits on the first success. The inspected-cell count stays
/// below `1 + 4 *` the number of cells this call newly marked, which keeps
/// every counter within `usize`.
fn dfs_recurse(grid: &mut Grid, cur: (usize, usize)) -> (res: SearchResult)
    requires
        old(grid).wf(),
        old(grid).in_bounds(cur),
    ensures
        final(grid).wf(),
        same_shape(*old(grid), *final(grid)),
        count_unvisited(final(grid).cells()) <= count_unvisited(old(grid).cells()),
        match res {
            SearchResult::Hit(c, p) => {
                &&& reaches_target(*final(grid), cur, p@.reverse())
                &&& 1 <= c <= 1 + 4 * (count_unvisited(old(grid).cells()) - count_unvisited(
                    final(grid).cells(),
                ))
            }
            SearchResult::Miss(c) => 1 <= c <= 1 + 4 * (count_unvisited(old(grid).cells())
                - count_unvisited(final(grid).cells())),
        },
        forall|c: (usize, usize)|
            old(grid).in_bounds(c) && is_visited(#[trigger] old(grid).cell(c)) ==> is_visited(
                final(grid).cell(c),
            ),
        forall|c: (usize, usize)|
            old(grid).in_bounds(c) ==> (#[trigger] final(grid).cell(c)) == old(grid).cell(c)
                || final(grid).cell(c) == marked(old(grid).cell(c)),
        res is Miss ==> is_visited(final(grid).cell(cur)),
        res is Miss ==> forall|c: (usize, usize), d: Direction|
            #[trigger] open_violation(*final(grid), c, d) ==> is_visited(old(grid).cell(c)),
        old(grid).cell(cur) is Target ==> (res matches SearchResult::Hit(c, p) && c == 1
            && p@.len() == 0),
        old(grid).cell(cur) is Wall ==> (res matches SearchResult::Miss(c) && c == 1)
            && final(grid).values@ == old(grid).values@.update(
            old(grid).idx(cur),
            marked(old(grid).cell(cur)),
        ),
        crate::grid::is_open(old(grid).cell(cur)) && is_visited(old(grid).cell(cur)) ==> (
        res matches SearchResult::Miss(c) && c == 1)
            && final(grid).values@ == old(grid).values@,
    decreases count_unvisited(grid.cells()),
{
    let cell = *grid.read_cell(cur);
    match cell {
        CellType::Target => {
            let empty: Vec<Direction> = Vec::new();
            proof {
                assert(empty@.reverse() =~= Seq::<Direction>::empty());
            }
            SearchResult::Hit(1, empty)
        }
        CellType::Wall(_) => {
            // Visit marks on walls are kept for inspection only.
            let ghost g0 = *grid;
            grid.mark_visited(cur);
            proof {
                assert forall|c: (usize, usize), d: Direction| #[trigger]
                    open_violation(*grid, c, d) implies is_visited(g0.cell(c)) by {
                    if c != cur {
                        assert(grid.cell(c) == g0.cell(c));
                    }
                }
                assert forall|c: (usize, usize)|
                    old(grid).in_bounds(c) implies (#[trigger] grid.cell(c)) == old(grid).cell(c)
                    || grid.cell(c) == marked(old(grid).cell(c)) by {
                    if c != cur {
                        assert(grid.cell(c) == g0.cell(c));
                    }
                }
            }
            SearchResult::Miss(1)
        }
        CellType::Initial(visited) | CellType::Blank(visited) => {
            if visited {
                return SearchResult::Miss(1);
            }
            let ghost g0 = *grid;
            grid.mark_visited(cur);
            proof {
                assert forall|c: (usize, usize)|
                    old(grid).in_bounds(c) implies (#[trigger] grid.cell(c)) == old(grid).cell(c)
                    || grid.cell(c) == marked(old(grid).cell(c)) by {
                    if c != cur {
                        assert(grid.cell(c) == g0.cell(c));
                    }
                }
            }
            let ghost u0 = count_unvisited(old(grid).cells());
            let neighbors = grid.adjacents(cur);
            let n = neighbors.len();
            let mut count: usize = 1;
            let mut a: usize = 0;
            while a < n
                invariant
                    grid.wf(),
                    same_shape(*old(grid), *grid),
                    grid.in_bounds(cur),
                    crate::grid::is_open(grid.cell(cur)),
                    !is_visited(old(grid).cell(cur)),
                    u0 == count_unvisited(old(grid).cells()),
                    count_unvisited(grid.cells()) < u0,
                    n == neighbors@.len(),
                    n <= 4,
                    a <= n,
                    1 <= count,
                    count <= 1 + a + 4 * (u0 - 1 - count_unvisited(grid.cells())),
                    neighbors@ == grid.spec_neighbors(cur),
                    is_visited(grid.cell(cur)),
                    forall|c: (usize, usize)|
                        old(grid).in_bounds(c) && is_visited(#[trigger] old(grid).cell(c))
                            ==> is_visited(grid.cell(c)),
                    forall|c: (usize, usize)|
                        old(grid).in_bounds(c) ==> (#[trigger] grid.cell(c)) == old(grid).cell(c)
                            || grid.cell(c) == marked(old(grid).cell(c)),
                    forall|q: int|
                        0 <= q < a ==> is_visited(grid.cell((#[trigger] neighbors@[q]).1)),
                    forall|c: (usize, usize), d: Direction| #[trigger]
                        open_violation(*grid, c, d) ==> is_visited(old(grid).cell(c)) || c == cur,
                    forall|q: int|
                        0 <= q < neighbors@.len() ==> grid.spec_adjacent(
                            cur,
                            (#[trigger] neighbors@[q]).0,
                        ) == Some(neighbors@[q].1) && grid.in_bounds(neighbors@[q].1),
                decreases n - a,
            {
                let (d, pos) = neighbors[a];
                let ghost pre_child = *grid;
                let inner = dfs_recurse(grid, pos);
                proof {
                    pre_child.lemma_idx(cur);
                    assert(crate::grid::kind_eq(pre_child.cell(cur), grid.cell(cur)));
                    assert(crate::grid::is_open(grid.cell(cur)));
                    crate::grid::lemma_count_unvisited_le_len(old(grid).cells());
                    assert(count + 1 + 4 * (count_unvisited(pre_child.cells()) - count_unvisited(
                        grid.cells(),
                    )) <= 1 + 4 * count_unvisited(old(grid).cells()));
                    // Cells visited before the child stay visited.
                    assert forall|c: (usize, usize)|
                        old(grid).in_bounds(c) && is_visited(#[trigger] old(grid).cell(c))
                        implies is_visited(grid.cell(c)) by {
                        assert(is_visited(pre_child.cell(c)));
                    }
                    // Cells are still the entry cells, marked or not.
                    assert forall|c: (usize, usize)|
                        old(grid).in_bounds(c) implies (#[trigger] grid.cell(c)) == old(
                        grid,
                    ).cell(c) || grid.cell(c) == marked(old(grid).cell(c)) by {
                        assert(grid.cell(c) == pre_child.cell(c) || grid.cell(c) == marked(
                            pre_child.cell(c),
                        ));
                        assert(pre_child.cell(c) == old(grid).cell(c) || pre_child.cell(c)
                            == marked(old(grid).cell(c)));
                    }
                }
                match inner {
                    SearchResult::Hit(inner_count, mut path) => {
                        count = count + inner_count;
                        let ghost p0 = path@;
                        // Built in reverse: append the connecting move last.
                        path.push(d);
                        proof {
                            assert(path@.drop_last() =~= p0);
                            assert(path@.reverse() =~= seq![d] + p0.reverse());
                            lemma_reaches_prepend(*grid, cur, d, pos, p0.reverse());
                        }
                        return SearchResult::Hit(count, path);
                    }
                    SearchResult::Miss(inner_count) => {
                        count = count + inner_count;
                        proof {
                            assert forall|q: int| 0 <= q < a + 1 implies is_visited(
                                grid.cell((#[trigger] neighbors@[q]).1),
                            ) by {
                                if q < a {
                                    assert(is_visited(pre_child.cell(neighbors@[q].1)));
                                }
                            }
                            // A closure obligation left open after the
                            // child was already open before it, so it
                            // traces back to the entry grid or to this
                            // cell.
                            assert forall|c: (usize, usize), d2: Direction| #[trigger]
                                open_violation(*grid, c, d2) implies is_visited(
                                old(grid).cell(c),
                            ) || c == cur by {
                                let m = grid.spec_adjacent(c, d2)->Some_0;
                                assert(is_visited(pre_child.cell(c)));
                                grid.lemma_idx(c);
                                grid.lemma_idx(m);
                                assert(crate::grid::kind_eq(pre_child.cell(c), grid.cell(c)));
                                assert(crate::grid::kind_eq(pre_child.cell(m), grid.cell(m)));
                                if is_visited(pre_child.cell(m)) {
                                    assert(is_visited(grid.cell(m)));
                                }
                                assert(pre_child.spec_adjacent(c, d2) == grid.spec_adjacent(
                                    c,
                                    d2,
                                ));
                                assert(open_violation(pre_child, c, d2));
                            }
                        }
                    }
                }
                a += 1;
            }
            proof {
                assert forall|c: (usize, usize), d: Direction| #[trigger]
                    open_violation(*grid, c, d) implies is_visited(old(grid).cell(c)) by {
                    if c == cur {
                        let m = grid.spec_adjacent(c, d)->Some_0;
                        lemma_neighbors_complete(*grid, c, d, m);
                        let k = choose|k: int|
                            0 <= k < grid.spec_neighbors(c).len() && (#[trigger] grid.spec_neighbors(
                                c,
                            )[k]) == (d, m);
                        assert(neighbors@[k] == (d, m));
                        assert(is_visited(grid.cell(neighbors@[k].1)));
                    }
                }
            }
            SearchResult::Miss(count)
        }
    }
}

/// The same moves in opposite order.
pub fn reverse_path(p: &Vec<Direction>) -> (r: Vec<Direction>)
    ensures
        r@ == p@.reverse(),
{
    let n = p.len();
    let mut r: Vec<Direction> = Vec::new();
    let mut i: usize = 0;
    while i < n
        invariant
            n == p@.len(),
            i <= n,
            r@.len() == i,
            forall|j: int| 0 <= j < i ==> r@[j] == p@[n - 1 - j],
        decreases n - i,
    {
        r.push(p[n - 1 - i]);
        i += 1;
    }
    proof {
        assert(r@ =~= p@.reverse());
    }
    r
}

} // verus!
