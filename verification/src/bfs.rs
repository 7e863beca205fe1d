//! Breadth-first tree search: the frontier loop with a plain FIFO queue,
//! no heuristic, and the grid's visited marks as the duplicate check.
//! Besides returning only valid solutions, breadth-first search is proved
//! complete and optimal: run on a grid with no stale visited marks, it
//! reports no solution only when no valid solution exists, and any
//! solution it reports is shortest in move count.

use vstd::prelude::*;

verus! {

use crate::SearchReport;
use crate::grid::{Grid, CellType, same_shape, is_visited, marked, count_unvisited,
    lemma_count_unvisited_le_len, lemma_neighbors_complete};
use crate::queue::FIFOQueue;
use crate::search::{Search, Direction, reaches_target, leads_to, lemma_leads_to_target,
    lemma_leads_to_push, lemma_same_shape_reaches, region_closed, lemma_closed_unreachable, pos_at,
    lemma_reaches_suffix, lemma_pos_at_in_bounds, lemma_pos_at_same_dims};

/// A frontier entry of breadth-first search: the path taken from the start
/// cell and the coordinate it arrives at.
#[derive(Debug)]
pub struct BFSCursor {
    /// Moves taken from the start cell, in order.
    pub path: Vec<Direction>,
    /// The coordinate the path arrives at.
    pub cursor: (usize, usize),
}

/// Whether a frontier entry is consistent with the grid: its position is on
/// the grid and its path walks from the start cell to that position over
/// traversable cells.
pub open spec fn bfs_cursor_ok(g: Grid, c: BFSCursor) -> bool {
    &&& g.in_bounds(c.cursor)
    &&& leads_to(g, g.initial, c.path@, c.cursor)
}

/// Whether some frontier entry stands at coordinate `n`.
pub open spec fn in_queue(q: Seq<BFSCursor>, n: (usize, usize)) -> bool {
    exists|k: int| 0 <= k < q.len() && (#[trigger] q[k]).cursor == n
}

/// Whether some frontier entry of path length at most `l` stands at `n`.
pub open spec fn in_queue_len(q: Seq<BFSCursor>, n: (usize, usize), l: int) -> bool {
    exists|k: int| 0 <= k < q.len() && (#[trigger] q[k]).cursor == n && q[k].path@.len() <= l
}

/// Frontier entries come in at most two consecutive path lengths, shortest
/// first: the queue is sorted by length and its last entry is at most one
/// move longer than its first.
pub open spec fn two_level(q: Seq<BFSCursor>) -> bool {
    &&& forall|a: int, b: int|
        0 <= a <= b < q.len() ==> (#[trigger] q[a]).path@.len() <= (#[trigger] q[b]).path@.len()
    &&& q.len() > 0 ==> q.last().path@.len() <= q[0].path@.len() + 1
}

/// Whether the frontier holds a foothold on a valid solution: some entry
/// stands on the position the path reaches after `j` moves, carrying a
/// path of at most `j` moves itself.
pub open spec fn has_witness(g: Grid, q: Seq<BFSCursor>, path: Seq<Direction>) -> bool {
    exists|j: int, k: int|
        {
            &&& 0 <= j <= path.len()
            &&& 0 <= k < q.len()
            &&& (#[trigger] q[k]).cursor == #[trigger] pos_at(g, g.initial, path, j)
            &&& q[k].path@.len() <= j
        }
}

/// Taking the front entry off keeps the frontier two-levelled.
proof fn lemma_two_level_skip(q0: Seq<BFSCursor>, q1: Seq<BFSCursor>)
    requires
        two_level(q0),
        q0.len() > 0,
        q1 == q0.skip(1),
    ensures
        two_level(q1),
{
    assert forall|a: int, b: int|
        0 <= a <= b < q1.len() implies (#[trigger] q1[a]).path@.len() <= (
    #[trigger] q1[b]).path@.len() by {
        assert(q1[a] == q0[a + 1]);
        assert(q1[b] == q0[b + 1]);
    }
    if q1.len() > 0 {
        assert(q1.last() == q0.last());
        assert(q1[0] == q0[1]);
        assert(q0[0].path@.len() <= q0[1].path@.len());
    }
}

/// Walking a valid solution out of the visited region: while the frontier
/// is closed and every frontier entry is short enough, the first step of
/// the path that leaves the visited region is held by a frontier entry -
/// and the path cannot end inside the region, as targets are never
/// visited.
proof fn lemma_walk_witness(
    g: Grid,
    q: Seq<BFSCursor>,
    path: Seq<Direction>,
    j: int,
    maxlen: int,
)
    requires
        g.wf(),
        reaches_target(g, g.initial, path),
        0 <= j <= path.len(),
        is_visited(g.cell(pos_at(g, g.initial, path, j))),
        frontier_closed(g, q),
        forall|k: int| 0 <= k < q.len() ==> (#[trigger] q[k]).path@.len() <= maxlen,
        maxlen <= j + 1,
    ensures
        has_witness(g, q, path),
    decreases path.len() - j,
{
    lemma_reaches_suffix(g, g.initial, path, j);
    lemma_pos_at_in_bounds(g, g.initial, path, j);
    let p_j = pos_at(g, g.initial, path, j);
    if j == path.len() {
        assert(path.skip(j).len() == 0);
        assert(g.cell(p_j) is Target);
        assert(false);
    } else {
        assert(path.skip(j).len() > 0);
        assert(crate::grid::is_open(g.cell(p_j)));
        assert(path.skip(j)[0] == path[j]);
        assert(g.spec_adjacent(p_j, path[j]) is Some);
        let nxt = g.spec_adjacent(p_j, path[j])->Some_0;
        assert(nxt == pos_at(g, g.initial, path, j + 1));
        if is_visited(g.cell(nxt)) {
            lemma_walk_witness(g, q, path, j + 1, maxlen);
        } else {
            assert(in_queue(q, nxt));
            let k = choose|k: int| 0 <= k < q.len() && (#[trigger] q[k]).cursor == nxt;
            assert(q[k].path@.len() <= maxlen <= j + 1);
            assert(has_witness(g, q, path));
        }
    }
}

/// Whether the visited region is closed up to the frontier: every
/// traversable visited cell has each of its neighbours either visited
/// already or still waiting in the queue.
pub open spec fn frontier_closed(g: Grid, q: Seq<BFSCursor>) -> bool {
    forall|c: (usize, usize), d: Direction|
        g.in_bounds(c) && is_visited(g.cell(c)) && crate::grid::is_open(g.cell(c)) && (
        #[trigger] g.spec_adjacent(c, d)) is Some ==> {
            let n = g.spec_adjacent(c, d)->Some_0;
            is_visited(g.cell(n)) || in_queue(q, n)
        }
}

/// Removing the front entry keeps the visited region closed, provided the
/// removed entry's cell is visited by now.
proof fn lemma_dequeue_closed(g: Grid, q0: Seq<BFSCursor>, q1: Seq<BFSCursor>, p: (usize, usize))
    requires
        frontier_closed(g, q0),
        q0.len() > 0,
        q0[0].cursor == p,
        q1 == q0.skip(1),
        g.in_bounds(p),
        is_visited(g.cell(p)),
    ensures
        frontier_closed(g, q1),
{
    assert forall|c: (usize, usize), d: Direction|
        g.in_bounds(c) && is_visited(g.cell(c)) && crate::grid::is_open(g.cell(c)) && (
        #[trigger] g.spec_adjacent(c, d)) is Some implies {
        let n = g.spec_adjacent(c, d)->Some_0;
        is_visited(g.cell(n)) || in_queue(q1, n)
    } by {
        let n = g.spec_adjacent(c, d)->Some_0;
        if !is_visited(g.cell(n)) {
            let k = choose|k: int| 0 <= k < q0.len() && (#[trigger] q0[k]).cursor == n;
            if k == 0 {
                assert(n == p);
            } else {
                assert(q1[k - 1].cursor == n);
            }
        }
    }
}

/// The closure condition for every cell but one: the exempted cell may
/// still owe its own neighbours to the frontier.
pub open spec fn frontier_closed_except(g: Grid, q: Seq<BFSCursor>, p: (usize, usize)) -> bool {
    forall|c: (usize, usize), d: Direction|
        g.in_bounds(c) && c != p && is_visited(g.cell(c)) && crate::grid::is_open(g.cell(c)) && (
        #[trigger] g.spec_adjacent(c, d)) is Some ==> {
            let n = g.spec_adjacent(c, d)->Some_0;
            is_visited(g.cell(n)) || in_queue(q, n)
        }
}

/// Taking the front entry off the frontier and marking its cell keeps the
/// visited region closed for every other cell.
proof fn lemma_expand_setup(
    pre: Grid,
    post: Grid,
    q0: Seq<BFSCursor>,
    q1: Seq<BFSCursor>,
    p: (usize, usize),
)
    requires
        pre.wf(),
        frontier_closed(pre, q0),
        q0.len() > 0,
        q0[0].cursor == p,
        q1 == q0.skip(1),
        pre.in_bounds(p),
        !(pre.cell(p) is Target),
        post.rows == pre.rows,
        post.cols == pre.cols,
        post.cell(p) == crate::grid::marked(pre.cell(p)),
        forall|c: (usize, usize)| pre.in_bounds(c) && c != p ==> post.cell(c) == pre.cell(c),
    ensures
        frontier_closed_except(post, q1, p),
{
    assert forall|c: (usize, usize), d: Direction|
        post.in_bounds(c) && c != p && is_visited(post.cell(c)) && crate::grid::is_open(
            post.cell(c),
        ) && (#[trigger] post.spec_adjacent(c, d)) is Some implies {
        let n = post.spec_adjacent(c, d)->Some_0;
        is_visited(post.cell(n)) || in_queue(q1, n)
    } by {
        assert(post.cell(c) == pre.cell(c));
        assert(pre.spec_adjacent(c, d) == post.spec_adjacent(c, d));
        let n = pre.spec_adjacent(c, d)->Some_0;
        assert(pre.in_bounds(n));
        assert(is_visited(pre.cell(n)) || in_queue(q0, n));
        if n == p {
            assert(is_visited(post.cell(n)));
        } else if is_visited(pre.cell(n)) {
            assert(is_visited(post.cell(n)));
        } else {
            let k = choose|k: int| 0 <= k < q0.len() && (#[trigger] q0[k]).cursor == n;
            if k == 0 {
                assert(n == p);
            } else {
                assert(q1[k - 1].cursor == n);
            }
        }
    }
}

/// An entry already queued stays queued when the queue only grows at the
/// back.
proof fn lemma_push_in_queue(q0: Seq<BFSCursor>, q1: Seq<BFSCursor>, n: (usize, usize))
    requires
        in_queue(q0, n),
        q0.len() <= q1.len(),
        forall|k: int| 0 <= k < q0.len() ==> q1[k] == q0[k],
    ensures
        in_queue(q1, n),
{
    let k = choose|k: int| 0 <= k < q0.len() && (#[trigger] q0[k]).cursor == n;
    assert(q1[k].cursor == n);
}

/// An entry short enough stays available when the queue only grows at
/// the back.
proof fn lemma_push_in_queue_len(q0: Seq<BFSCursor>, q1: Seq<BFSCursor>, n: (usize, usize), l: int)
    requires
        in_queue_len(q0, n, l),
        q0.len() <= q1.len(),
        forall|k: int| 0 <= k < q0.len() ==> q1[k] == q0[k],
    ensures
        in_queue_len(q1, n, l),
{
    let k = choose|k: int|
        0 <= k < q0.len() && (#[trigger] q0[k]).cursor == n && q0[k].path@.len() <= l;
    assert(q1[k].cursor == n);
}

/// Breadth-first search over a grid.
pub struct BreadthFirst;

impl BreadthFirst {
    /// A breadth-first search instance.
    pub fn init() -> (r: BreadthFirst) {
        BreadthFirst
    }
}

impl Search for BreadthFirst {
    open spec fn search_pre(&self, g: Grid) -> bool {
        true
    }

    #[verifier::rlimit(80)]
    fn search(&self, grid: &mut Grid) -> (r: SearchReport)
        ensures
            forall|c: (usize, usize)|
                old(grid).in_bounds(c) ==> (#[trigger] final(grid).cell(c)) == old(grid).cell(c)
                    || final(grid).cell(c) == marked(old(grid).cell(c)),
            ({
                &&& forall|c: (usize, usize)|
                    old(grid).in_bounds(c) ==> !is_visited(#[trigger] old(grid).cell(c))
                &&& r.solution is None
            }) ==> forall|path: Seq<Direction>|
                !reaches_target(*final(grid), final(grid).initial, path),
            (forall|c: (usize, usize)|
                old(grid).in_bounds(c) ==> !is_visited(#[trigger] old(grid).cell(c))) ==> (
            r.solution matches Some(p) ==> forall|other: Seq<Direction>|
                #[trigger] reaches_target(*final(grid), final(grid).initial, other) ==> p@.len()
                    <= other.len()),
            r.search_nodes == count_unvisited(old(grid).values@) - count_unvisited(
                final(grid).values@,
            ) + (if r.solution is Some {
                1int
            } else {
                0int
            }),
            old(grid).cell(old(grid).initial) is Target ==> r.search_nodes == 1 && (
            r.solution matches Some(p) && p@.len() == 0),
    {
        let ghost clean = forall|c: (usize, usize)|
            old(grid).in_bounds(c) ==> !is_visited(#[trigger] old(grid).cell(c));
        let mut queue: FIFOQueue<BFSCursor> = FIFOQueue::init();
        queue.queue(BFSCursor { path: Vec::new(), cursor: grid.initial });
        let mut iters: usize = 0;
        let mut count: usize = 0;
        proof {
            lemma_count_unvisited_le_len(grid.values@);
            if clean {
                assert(frontier_closed(*grid, queue.contents()));
                assert(two_level(queue.contents()));
                assert forall|path: Seq<Direction>| #[trigger]
                    reaches_target(*grid, grid.initial, path) implies has_witness(
                    *grid,
                    queue.contents(),
                    path,
                ) by {
                    assert(pos_at(*grid, grid.initial, path, 0) == grid.initial);
                    assert(queue.contents()[0].cursor == grid.initial);
                    assert(queue.contents()[0].path@.len() == 0);
                }
            }
        }
        while iters < usize::MAX
            invariant
                grid.wf(),
                same_shape(*old(grid), *grid),
                iters >= 1 || queue.contents().len() >= 1,
                count <= iters,
                count == count_unvisited(old(grid).values@) - count_unvisited(grid.values@),
                clean == (forall|c: (usize, usize)|
                    old(grid).in_bounds(c) ==> !is_visited(#[trigger] old(grid).cell(c))),
                iters == 0 ==> queue.contents().len() == 1 && queue.contents()[0].cursor
                    == grid.initial && queue.contents()[0].path@.len() == 0 && count == 0,
                old(grid).cell(old(grid).initial) is Target ==> iters == 0,
                clean && iters >= 1 ==> is_visited(grid.cell(grid.initial)),
                clean ==> frontier_closed(*grid, queue.contents()),
                clean ==> two_level(queue.contents()),
                clean ==> forall|path: Seq<Direction>|
                    #[trigger] reaches_target(*grid, grid.initial, path) ==> has_witness(
                        *grid,
                        queue.contents(),
                        path,
                    ),
                forall|c: (usize, usize)|
                    old(grid).in_bounds(c) ==> (#[trigger] grid.cell(c)) == old(grid).cell(c)
                        || grid.cell(c) == marked(old(grid).cell(c)),
                iters + queue.contents().len() <= 1 + 4 * (grid.values@.len()
                    - count_unvisited(grid.values@)),
                forall|k: int|
                    0 <= k < queue.contents().len() ==> bfs_cursor_ok(
                        *grid,
                        #[trigger] queue.contents()[k],
                    ),
            decreases usize::MAX - iters,
        {
            let ghost q_before = queue.contents();
            let cur = match queue.dequeue() {
                Some(c) => c,
                None => {
                    proof {
                        if clean {
                            assert(iters >= 1);
                            assert(region_closed(*grid));
                            assert forall|path: Seq<Direction>|
                                !reaches_target(*grid, grid.initial, path) by {
                                lemma_closed_unreachable(*grid, grid.initial, path);
                            }
                        }
                    }
                    return SearchReport { search_nodes: count, solution: None };
                }
            };
            let ghost iters0 = iters;
            iters += 1;
            let cell = *grid.read_cell(cur.cursor);
            match cell {
                CellType::Target => {
                    count += 1;
                    proof {
                        lemma_leads_to_target(*grid, grid.initial, cur.path@, cur.cursor);
                        if clean {
                            // The frontier is dequeued shortest-first, and
                            // every valid solution had a foothold in it, so
                            // no valid solution is shorter than this one.
                            assert forall|other: Seq<Direction>| #[trigger]
                                reaches_target(*grid, grid.initial, other) implies cur.path@.len()
                                <= other.len() by {
                                assert(has_witness(*grid, q_before, other));
                                let (j, k) = choose|j: int, k: int|
                                    {
                                        &&& 0 <= j <= other.len()
                                        &&& 0 <= k < q_before.len()
                                        &&& (#[trigger] q_before[k]).cursor == #[trigger] pos_at(
                                            *grid,
                                            grid.initial,
                                            other,
                                            j,
                                        )
                                        &&& q_before[k].path@.len() <= j
                                    };
                                assert(q_before[0].path@.len() <= q_before[k].path@.len());
                            }
                        }
                    }
                    return SearchReport { search_nodes: count, solution: Some(cur.path) };
                }
                CellType::Initial(visited) | CellType::Blank(visited) | CellType::Wall(visited) => {
                    proof {
                        // A non-target cell was dequeued; if this was the
                        // very first dequeue, the start cell itself is not
                        // a target.
                        if iters0 == 0 {
                            old(grid).lemma_idx(old(grid).initial);
                            assert(crate::grid::kind_eq(
                                old(grid).cell(old(grid).initial),
                                grid.cell(grid.initial),
                            ));
                            assert(!(old(grid).cell(old(grid).initial) is Target));
                        }
                    }
                    if visited {
                        // A repeated state: discard without expanding. Its
                        // cell is already inside the closed region, so any
                        // solution it anchored still leaves the region at a
                        // queued entry at most one move longer.
                        proof {
                            if clean {
                                lemma_dequeue_closed(
                                    *grid,
                                    q_before,
                                    queue.contents(),
                                    cur.cursor,
                                );
                                lemma_two_level_skip(q_before, queue.contents());
                                assert forall|k2: int|
                                    0 <= k2 < queue.contents().len() implies (
                                #[trigger] queue.contents()[k2]).path@.len() <= q_before[0].path@.len()
                                    + 1 by {
                                    assert(queue.contents()[k2] == q_before[k2 + 1]);
                                    assert(q_before[k2 + 1].path@.len()
                                        <= q_before.last().path@.len());
                                }
                                assert forall|path: Seq<Direction>| #[trigger]
                                    reaches_target(*grid, grid.initial, path) implies has_witness(
                                    *grid,
                                    queue.contents(),
                                    path,
                                ) by {
                                    assert(has_witness(*grid, q_before, path));
                                    let (j, k) = choose|j: int, k: int|
                                        {
                                            &&& 0 <= j <= path.len()
                                            &&& 0 <= k < q_before.len()
                                            &&& (#[trigger] q_before[k]).cursor
                                                == #[trigger] pos_at(*grid, grid.initial, path, j)
                                            &&& q_before[k].path@.len() <= j
                                        };
                                    if k == 0 {
                                        assert(pos_at(*grid, grid.initial, path, j)
                                            == cur.cursor);
                                        lemma_walk_witness(
                                            *grid,
                                            queue.contents(),
                                            path,
                                            j,
                                            q_before[0].path@.len() as int + 1,
                                        );
                                    } else {
                                        assert(queue.contents()[k - 1] == q_before[k]);
                                        assert(has_witness(*grid, queue.contents(), path));
                                    }
                                }
                            }
                        }
                        continue;
                    }
                    count += 1;
                    let ghost pre_mark = *grid;
                    grid.mark_visited(cur.cursor);
                    proof {
                        assert(same_shape(pre_mark, *grid));
                        lemma_same_shape_reaches(pre_mark, *grid, pre_mark.initial, cur.path@);
                        assert forall|k: int|
                            0 <= k < queue.contents().len() implies bfs_cursor_ok(
                            *grid,
                            #[trigger] queue.contents()[k],
                        ) by {
                            lemma_same_shape_reaches(
                                pre_mark,
                                *grid,
                                pre_mark.initial,
                                queue.contents()[k].path@,
                            );
                        }
                        if clean {
                            lemma_expand_setup(
                                pre_mark,
                                *grid,
                                q_before,
                                queue.contents(),
                                cur.cursor,
                            );
                        }
                        // The newly marked cell was untouched, so one more
                        // cell counts as marked.
                        assert(count_unvisited(grid.values@) + 1 == count_unvisited(
                            pre_mark.values@,
                        ));
                        // Every cell is still the entry cell, marked or not.
                        assert forall|c: (usize, usize)|
                            old(grid).in_bounds(c) implies (#[trigger] grid.cell(c)) == old(
                            grid,
                        ).cell(c) || grid.cell(c) == marked(old(grid).cell(c)) by {
                            if c != cur.cursor {
                                assert(grid.cell(c) == pre_mark.cell(c));
                            }
                        }
                    }
                    match cell {
                        CellType::Initial(_) | CellType::Blank(_) => {
                            proof {
                                if clean {
                                    lemma_two_level_skip(q_before, queue.contents());
                                    assert forall|k2: int|
                                        0 <= k2 < queue.contents().len() implies cur.path@.len()
                                        <= (#[trigger] queue.contents()[k2]).path@.len()
                                        && queue.contents()[k2].path@.len() <= cur.path@.len()
                                        + 1 by {
                                        assert(queue.contents()[k2] == q_before[k2 + 1]);
                                        assert(q_before[0].path@.len()
                                            <= q_before[k2 + 1].path@.len());
                                        assert(q_before[k2 + 1].path@.len()
                                            <= q_before.last().path@.len());
                                    }
                                    // Every anchored solution keeps its
                                    // foothold, or waits on this cell's
                                    // expansion.
                                    assert forall|path: Seq<Direction>| #[trigger]
                                        reaches_target(*grid, grid.initial, path) implies
                                        has_witness(*grid, queue.contents(), path) || (exists|
                                            j: int,
                                        |
                                            0 <= j < path.len() && #[trigger] pos_at(
                                                *grid,
                                                grid.initial,
                                                path,
                                                j,
                                            ) == cur.cursor && cur.path@.len() <= j) by {
                                        lemma_same_shape_reaches(
                                            pre_mark,
                                            *grid,
                                            pre_mark.initial,
                                            path,
                                        );
                                        assert(has_witness(pre_mark, q_before, path));
                                        let (j, k) = choose|j: int, k: int|
                                            {
                                                &&& 0 <= j <= path.len()
                                                &&& 0 <= k < q_before.len()
                                                &&& (#[trigger] q_before[k]).cursor
                                                    == #[trigger] pos_at(
                                                    pre_mark,
                                                    pre_mark.initial,
                                                    path,
                                                    j,
                                                )
                                                &&& q_before[k].path@.len() <= j
                                            };
                                        lemma_pos_at_same_dims(
                                            pre_mark,
                                            *grid,
                                            grid.initial,
                                            path,
                                            j,
                                        );
                                        if k == 0 {
                                            if j == path.len() {
                                                lemma_reaches_suffix(
                                                    *grid,
                                                    grid.initial,
                                                    path,
                                                    j,
                                                );
                                                assert(path.skip(j).len() == 0);
                                                assert(grid.cell(cur.cursor) is Target);
                                                assert(false);
                                            }
                                        } else {
                                            assert(queue.contents()[k - 1] == q_before[k]);
                                            assert(has_witness(*grid, queue.contents(), path));
                                        }
                                    }
                                }
                            }
                            let neighbors = grid.adjacents(cur.cursor);
                            let n = neighbors.len();
                            proof {
                                assert(n <= 4);
                            }
                            let mut a: usize = 0;
                            while a < n
                                invariant
                                    grid.wf(),
                                    same_shape(*old(grid), *grid),
                                    n == neighbors@.len(),
                                    n <= 4,
                                    a <= n,
                                    grid.in_bounds(cur.cursor),
                                    leads_to(*grid, grid.initial, cur.path@, cur.cursor),
                                    crate::grid::is_open(grid.cell(cur.cursor)),
                                    is_visited(grid.cell(cur.cursor)),
                                    neighbors@ == grid.spec_neighbors(cur.cursor),
                                    iters + queue.contents().len() <= 1 + a + 4 * (
                                    grid.values@.len() - count_unvisited(grid.values@)) - 4,
                                    forall|c: (usize, usize)|
                                        old(grid).in_bounds(c) ==> (#[trigger] grid.cell(c))
                                            == old(grid).cell(c) || grid.cell(c) == marked(
                                            old(grid).cell(c),
                                        ),
                                    forall|q: int|
                                        0 <= q < neighbors@.len() ==> grid.spec_adjacent(
                                            cur.cursor,
                                            (#[trigger] neighbors@[q]).0,
                                        ) == Some(neighbors@[q].1) && grid.in_bounds(
                                            neighbors@[q].1,
                                        ),
                                    forall|k: int|
                                        0 <= k < queue.contents().len() ==> bfs_cursor_ok(
                                            *grid,
                                            #[trigger] queue.contents()[k],
                                        ),
                                    clean ==> frontier_closed_except(
                                        *grid,
                                        queue.contents(),
                                        cur.cursor,
                                    ),
                                    clean ==> forall|q: int|
                                        0 <= q < a ==> in_queue(
                                            queue.contents(),
                                            (#[trigger] neighbors@[q]).1,
                                        ),
                                    clean ==> two_level(queue.contents()),
                                    clean ==> forall|k2: int|
                                        0 <= k2 < queue.contents().len() ==> cur.path@.len() <= (
                                        #[trigger] queue.contents()[k2]).path@.len()
                                            && queue.contents()[k2].path@.len() <= cur.path@.len()
                                            + 1,
                                    clean ==> forall|q2: int|
                                        0 <= q2 < a ==> in_queue_len(
                                            queue.contents(),
                                            (#[trigger] neighbors@[q2]).1,
                                            cur.path@.len() as int + 1,
                                        ),
                                    clean ==> forall|path: Seq<Direction>|
                                        #[trigger] reaches_target(*grid, grid.initial, path)
                                            ==> has_witness(*grid, queue.contents(), path) || (
                                        exists|j: int|
                                            0 <= j < path.len() && #[trigger] pos_at(
                                                *grid,
                                                grid.initial,
                                                path,
                                                j,
                                            ) == cur.cursor && cur.path@.len() <= j),
                                decreases n - a,
                            {
                                let (d, pos) = neighbors[a];
                                let mut path = copy_path(&cur.path);
                                path.push(d);
                                proof {
                                    lemma_leads_to_push(
                                        *grid,
                                        grid.initial,
                                        cur.path@,
                                        cur.cursor,
                                        d,
                                        pos,
                                    );
                                }
                                let ghost q_pre_push = queue.contents();
                                let ghost pushed_len = path@.len();
                                queue.queue(BFSCursor { path, cursor: pos });
                                proof {
                                    if clean {
                                        assert(pushed_len == cur.path@.len() + 1);
                                        let qn = queue.contents();
                                        assert(qn.len() == q_pre_push.len() + 1);
                                        assert(qn.last().path@.len() == pushed_len);
                                        assert forall|x: int, y: int|
                                            0 <= x <= y < qn.len() implies (
                                        #[trigger] qn[x]).path@.len() <= (
                                        #[trigger] qn[y]).path@.len() by {
                                            if y < qn.len() - 1 {
                                                assert(qn[x] == q_pre_push[x]);
                                                assert(qn[y] == q_pre_push[y]);
                                            } else if x < qn.len() - 1 {
                                                assert(qn[x] == q_pre_push[x]);
                                            }
                                        }
                                        assert(two_level(qn));
                                        assert forall|path2: Seq<Direction>| #[trigger]
                                            reaches_target(*grid, grid.initial, path2) implies
                                            has_witness(*grid, qn, path2) || (exists|j: int|
                                                0 <= j < path2.len() && #[trigger] pos_at(
                                                    *grid,
                                                    grid.initial,
                                                    path2,
                                                    j,
                                                ) == cur.cursor && cur.path@.len() <= j) by {
                                            if has_witness(*grid, q_pre_push, path2) {
                                                let (j, k) = choose|j: int, k: int|
                                                    {
                                                        &&& 0 <= j <= path2.len()
                                                        &&& 0 <= k < q_pre_push.len()
                                                        &&& (#[trigger] q_pre_push[k]).cursor
                                                            == #[trigger] pos_at(
                                                            *grid,
                                                            grid.initial,
                                                            path2,
                                                            j,
                                                        )
                                                        &&& q_pre_push[k].path@.len() <= j
                                                    };
                                                assert(qn[k] == q_pre_push[k]);
                                                assert(has_witness(*grid, qn, path2));
                                            }
                                        }
                                        assert forall|c: (usize, usize), d2: Direction|
                                            grid.in_bounds(c) && c != cur.cursor && is_visited(
                                                grid.cell(c),
                                            ) && crate::grid::is_open(grid.cell(c)) && (
                                            #[trigger] grid.spec_adjacent(c, d2)) is Some implies {
                                            let m = grid.spec_adjacent(c, d2)->Some_0;
                                            is_visited(grid.cell(m)) || in_queue(
                                                queue.contents(),
                                                m,
                                            )
                                        } by {
                                            let m = grid.spec_adjacent(c, d2)->Some_0;
                                            if !is_visited(grid.cell(m)) {
                                                lemma_push_in_queue(
                                                    q_pre_push,
                                                    queue.contents(),
                                                    m,
                                                );
                                            }
                                        }
                                        assert forall|q: int| 0 <= q < a + 1 implies in_queue(
                                            queue.contents(),
                                            (#[trigger] neighbors@[q]).1,
                                        ) by {
                                            if q < a {
                                                lemma_push_in_queue(
                                                    q_pre_push,
                                                    queue.contents(),
                                                    neighbors@[q].1,
                                                );
                                            } else {
                                                assert(queue.contents()[q_pre_push.len() as int].cursor
                                                    == pos);
                                            }
                                        }
                                        assert forall|q2: int|
                                            0 <= q2 < a + 1 implies in_queue_len(
                                            queue.contents(),
                                            (#[trigger] neighbors@[q2]).1,
                                            cur.path@.len() as int + 1,
                                        ) by {
                                            if q2 < a {
                                                lemma_push_in_queue_len(
                                                    q_pre_push,
                                                    queue.contents(),
                                                    neighbors@[q2].1,
                                                    cur.path@.len() as int + 1,
                                                );
                                            } else {
                                                assert(queue.contents()[q_pre_push.len() as int].cursor
                                                    == pos);
                                                assert(queue.contents()[q_pre_push.len() as int].path@.len()
                                                    <= cur.path@.len() + 1);
                                            }
                                        }
                                    }
                                }
                                a += 1;
                            }
                            proof {
                                if clean {
                                    assert forall|c: (usize, usize), d: Direction|
                                        grid.in_bounds(c) && is_visited(grid.cell(c))
                                            && crate::grid::is_open(grid.cell(c)) && (
                                        #[trigger] grid.spec_adjacent(c, d)) is Some implies {
                                        let m = grid.spec_adjacent(c, d)->Some_0;
                                        is_visited(grid.cell(m)) || in_queue(queue.contents(), m)
                                    } by {
                                        if c == cur.cursor {
                                            let m = grid.spec_adjacent(c, d)->Some_0;
                                            lemma_neighbors_complete(*grid, c, d, m);
                                            let k = choose|k: int|
                                                0 <= k < grid.spec_neighbors(c).len() && (
                                                #[trigger] grid.spec_neighbors(c)[k]) == (d, m);
                                            assert(neighbors@[k] == (d, m));
                                            assert(in_queue(queue.contents(), neighbors@[k].1));
                                        }
                                    }
                                    // Solutions that waited on this cell now
                                    // have their next step in the frontier,
                                    // one move longer.
                                    assert forall|path: Seq<Direction>| #[trigger]
                                        reaches_target(*grid, grid.initial, path) implies
                                        has_witness(*grid, queue.contents(), path) by {
                                        if !has_witness(*grid, queue.contents(), path) {
                                            let j = choose|j: int|
                                                0 <= j < path.len() && #[trigger] pos_at(
                                                    *grid,
                                                    grid.initial,
                                                    path,
                                                    j,
                                                ) == cur.cursor && cur.path@.len() <= j;
                                            lemma_reaches_suffix(*grid, grid.initial, path, j);
                                            lemma_pos_at_in_bounds(*grid, grid.initial, path, j);
                                            assert(path.skip(j).len() > 0);
                                            assert(path.skip(j)[0] == path[j]);
                                            assert(grid.spec_adjacent(cur.cursor, path[j])
                                                is Some);
                                            let nxt = grid.spec_adjacent(
                                                cur.cursor,
                                                path[j],
                                            )->Some_0;
                                            assert(nxt == pos_at(
                                                *grid,
                                                grid.initial,
                                                path,
                                                j + 1,
                                            ));
                                            lemma_neighbors_complete(
                                                *grid,
                                                cur.cursor,
                                                path[j],
                                                nxt,
                                            );
                                            let k2 = choose|k2: int|
                                                0 <= k2 < grid.spec_neighbors(cur.cursor).len()
                                                    && (#[trigger] grid.spec_neighbors(
                                                    cur.cursor,
                                                )[k2]) == (path[j], nxt);
                                            assert(neighbors@[k2] == (path[j], nxt));
                                            assert(in_queue_len(
                                                queue.contents(),
                                                neighbors@[k2].1,
                                                cur.path@.len() as int + 1,
                                            ));
                                            let k3 = choose|k3: int|
                                                0 <= k3 < queue.contents().len() && (
                                                #[trigger] queue.contents()[k3]).cursor == nxt
                                                    && queue.contents()[k3].path@.len()
                                                    <= cur.path@.len() + 1;
                                            assert(queue.contents()[k3].path@.len() <= j + 1);
                                            assert(has_witness(*grid, queue.contents(), path));
                                        }
                                    }
                                }
                            }
                        }
                        _ => {
                            // Walls are marked but never expanded: a wall
                            // cell is not traversable, so the closed region
                            // owes nothing for it, and no valid solution
                            // ever anchored on it.
                            proof {
                                if clean {
                                    assert(!crate::grid::is_open(grid.cell(cur.cursor)));
                                    assert(frontier_closed(*grid, queue.contents()));
                                    lemma_two_level_skip(q_before, queue.contents());
                                    assert forall|path: Seq<Direction>| #[trigger]
                                        reaches_target(*grid, grid.initial, path) implies
                                        has_witness(*grid, queue.contents(), path) by {
                                        lemma_same_shape_reaches(
                                            pre_mark,
                                            *grid,
                                            pre_mark.initial,
                                            path,
                                        );
                                        assert(has_witness(pre_mark, q_before, path));
                                        let (j, k) = choose|j: int, k: int|
                                            {
                                                &&& 0 <= j <= path.len()
                                                &&& 0 <= k < q_before.len()
                                                &&& (#[trigger] q_before[k]).cursor
                                                    == #[trigger] pos_at(
                                                    pre_mark,
                                                    pre_mark.initial,
                                                    path,
                                                    j,
                                                )
                                                &&& q_before[k].path@.len() <= j
                                            };
                                        lemma_pos_at_same_dims(
                                            pre_mark,
                                            *grid,
                                            grid.initial,
                                            path,
                                            j,
                                        );
                                        if k == 0 {
                                            lemma_reaches_suffix(*grid, grid.initial, path, j);
                                            if j == path.len() {
                                                assert(path.skip(j).len() == 0);
                                                assert(grid.cell(cur.cursor) is Target);
                                                assert(false);
                                            } else {
                                                assert(path.skip(j).len() > 0);
                                                assert(crate::grid::is_open(
                                                    grid.cell(cur.cursor),
                                                ));
                                                assert(false);
                                            }
                                        } else {
                                            assert(queue.contents()[k - 1] == q_before[k]);
                                            assert(has_witness(*grid, queue.contents(), path));
                                        }
                                    }
                                }
                            }
                        }
                    }
                }
            }
        }
        proof {
            // The counter can only run out with an exhausted frontier: at
            // most one dequeue per enqueue, and at most four enqueues per
            // marked cell, which the grid size bounds.
            assert(queue.contents().len() == 0);
            if clean {
                assert(region_closed(*grid));
                assert forall|path: Seq<Direction>| !reaches_target(*grid, grid.initial, path) by {
                    lemma_closed_unreachable(*grid, grid.initial, path);
                }
            }
        }
        SearchReport { search_nodes: count, solution: None }
    }
}

/// A fresh copy of a path, so a child cursor owns its own move list.
pub fn copy_path(p: &Vec<Direction>) -> (r: Vec<Direction>)
    ensures
        r@ == p@,
{
    vstd::slice::slice_to_vec(p.as_slice())
}

} // verus!
