//! The direction vocabulary shared by every component, and the validity
//! predicate that every search algorithm's result is proved against.

use vstd::prelude::*;

verus! {

use crate::grid::{Grid, CellType};

/// The four moves the agent can take. The fixed enumeration order
/// Up, Left, Down, Right is load-bearing: it decides tie-breaks everywhere
/// downstream.
#[derive(Clone, Copy, PartialEq, Eq, Structural, Debug)]
pub enum Direction {
    Up,
    Left,
    Down,
    Right,
}

impl Direction {
    /// Position of this direction in the fixed enumeration order.
    pub open spec fn spec_rank(self) -> int {
        match self {
            Direction::Up => 0,
            Direction::Left => 1,
            Direction::Down => 2,
            Direction::Right => 3,
        }
    }

    /// Executable counterpart of `spec_rank`.
    pub fn rank(&self) -> (r: usize)
        ensures
            r == self.spec_rank(),
    {
        match self {
            Direction::Up => 0,
            Direction::Left => 1,
            Direction::Down => 2,
            Direction::Right => 3,
        }
    }

    /// All directions, in the order Up, Left, Down, Right.
    pub fn iter() -> (r: Vec<Direction>)
        ensures
            r@ == seq![Direction::Up, Direction::Left, Direction::Down, Direction::Right],
    {
        let mut v: Vec<Direction> = Vec::new();
        v.push(Direction::Up);
        v.push(Direction::Left);
        v.push(Direction::Down);
        v.push(Direction::Right);
        proof {
            assert(v@ =~= seq![Direction::Up, Direction::Left, Direction::Down, Direction::Right]);
        }
        v
    }
}

/// Whether the moves in `path`, taken in order from `from`, stay inside the
/// grid, cross only traversable (initial or blank) cells, and end on a target
/// cell. This is what "a valid solution" means for every algorithm.
pub open spec fn reaches_target(g: Grid, from: (usize, usize), path: Seq<Direction>) -> bool
    decreases path.len(),
{
    if path.len() == 0 {
        g.cell(from) is Target
    } else {
        &&& crate::grid::is_open(g.cell(from))
        &&& match g.spec_adjacent(from, path[0]) {
            Some(next) => reaches_target(g, next, path.skip(1)),
            None => false,
        }
    }
}

/// Whether the moves in `path`, taken in order from `from`, stay inside the
/// grid, cross only traversable cells, and stop at `to` (which may be any
/// kind of cell).
pub open spec fn leads_to(g: Grid, from: (usize, usize), path: Seq<Direction>, to: (usize, usize)) -> bool
    decreases path.len(),
{
    if path.len() == 0 {
        from == to
    } else {
        &&& crate::grid::is_open(g.cell(from))
        &&& match g.spec_adjacent(from, path[0]) {
            Some(next) => leads_to(g, next, path.skip(1), to),
            None => false,
        }
    }
}

/// A partial path that has arrived at a target cell is a valid solution.
pub proof fn lemma_leads_to_target(g: Grid, from: (usize, usize), path: Seq<Direction>, to: (usize, usize))
    requires
        leads_to(g, from, path, to),
        g.cell(to) is Target,
    ensures
        reaches_target(g, from, path),
    decreases path.len(),
{
    if path.len() != 0 {
        let next = g.spec_adjacent(from, path[0])->Some_0;
        lemma_leads_to_target(g, next, path.skip(1), to);
    }
}

/// Extending a partial path by one legal move from a traversable endpoint
/// keeps it a partial path.
pub proof fn lemma_leads_to_push(
    g: Grid,
    from: (usize, usize),
    path: Seq<Direction>,
    to: (usize, usize),
    d: Direction,
    next: (usize, usize),
)
    requires
        leads_to(g, from, path, to),
        crate::grid::is_open(g.cell(to)),
        g.spec_adjacent(to, d) == Some(next),
    ensures
        leads_to(g, from, path.push(d), next),
    decreases path.len(),
{
    let ext = path.push(d);
    if path.len() == 0 {
        assert(from == to);
        assert(ext[0] == d);
        assert(ext.skip(1) =~= Seq::<Direction>::empty());
        assert(leads_to(g, next, ext.skip(1), next));
    } else {
        let mid = g.spec_adjacent(from, path[0])->Some_0;
        lemma_leads_to_push(g, mid, path.skip(1), to, d, next);
        assert(ext[0] == path[0]);
        assert(ext.skip(1) =~= path.skip(1).push(d));
        assert(leads_to(g, mid, ext.skip(1), next));
    }
}

/// Prepending a legal move onto a valid solution from the reached neighbour
/// gives a valid solution from the earlier cell.
pub proof fn lemma_reaches_prepend(
    g: Grid,
    from: (usize, usize),
    d: Direction,
    next: (usize, usize),
    path: Seq<Direction>,
)
    requires
        crate::grid::is_open(g.cell(from)),
        g.spec_adjacent(from, d) == Some(next),
        reaches_target(g, next, path),
    ensures
        reaches_target(g, from, seq![d] + path),
{
    let whole = seq![d] + path;
    assert(whole[0] == d);
    assert(whole.skip(1) =~= path);
}

/// Path validity only reads the kinds of cells, never their visited flags,
/// so it carries over between grids of the same shape.
pub proof fn lemma_same_shape_reaches(g1: Grid, g2: Grid, from: (usize, usize), path: Seq<Direction>)
    requires
        g1.wf(),
        crate::grid::same_shape(g1, g2),
        g1.in_bounds(from),
    ensures
        reaches_target(g1, from, path) == reaches_target(g2, from, path),
        forall|to: (usize, usize)| leads_to(g1, from, path, to) == leads_to(g2, from, path, to),
    decreases path.len(),
{
    g1.lemma_idx(from);
    assert(crate::grid::kind_eq(g1.cell(from), g2.cell(from)));
    if path.len() != 0 {
        match g1.spec_adjacent(from, path[0]) {
            Some(next) => {
                assert(g1.in_bounds(next));
                lemma_same_shape_reaches(g1, g2, next, path.skip(1));
                assert forall|to: (usize, usize)|
                    leads_to(g1, from, path, to) == leads_to(g2, from, path, to) by {
                    assert(leads_to(g1, next, path.skip(1), to) == leads_to(
                        g2,
                        next,
                        path.skip(1),
                        to,
                    ));
                }
            }
            None => {}
        }
    }
}

/// Whether the visited region of a grid is closed: every traversable
/// visited cell has only visited neighbours. A search that has exhausted
/// its frontier leaves the grid in this state.
pub open spec fn region_closed(g: Grid) -> bool {
    forall|c: (usize, usize), d: Direction|
        g.in_bounds(c) && crate::grid::is_visited(g.cell(c)) && crate::grid::is_open(g.cell(c))
            && (#[trigger] g.spec_adjacent(c, d)) is Some ==> crate::grid::is_visited(
            g.cell(g.spec_adjacent(c, d)->Some_0),
        )
}

/// One unmet closure obligation: a traversable visited cell with a
/// neighbour that is not visited yet.
pub open spec fn open_violation(g: Grid, c: (usize, usize), d: Direction) -> bool {
    &&& g.in_bounds(c)
    &&& crate::grid::is_visited(g.cell(c))
    &&& crate::grid::is_open(g.cell(c))
    &&& g.spec_adjacent(c, d) is Some
    &&& !crate::grid::is_visited(g.cell(g.spec_adjacent(c, d)->Some_0))
}

/// A grid without unmet closure obligations has a closed visited region.
pub proof fn lemma_no_violation_closed(g: Grid)
    requires
        forall|c: (usize, usize), d: Direction| !(#[trigger] open_violation(g, c, d)),
    ensures
        region_closed(g),
{
    assert forall|c: (usize, usize), d: Direction|
        g.in_bounds(c) && crate::grid::is_visited(g.cell(c)) && crate::grid::is_open(g.cell(c))
            && (#[trigger] g.spec_adjacent(c, d)) is Some implies crate::grid::is_visited(
        g.cell(g.spec_adjacent(c, d)->Some_0),
    ) by {
        assert(!open_violation(g, c, d));
    }
}

/// From a visited cell of a grid whose visited region is closed, no move
/// sequence reaches a target: a target cell never carries a visited mark,
/// and every step from the closed region stays inside it.
pub proof fn lemma_closed_unreachable(g: Grid, c: (usize, usize), path: Seq<Direction>)
    requires
        g.wf(),
        g.in_bounds(c),
        crate::grid::is_visited(g.cell(c)),
        region_closed(g),
    ensures
        !reaches_target(g, c, path),
    decreases path.len(),
{
    if path.len() == 0 {
        assert(!(g.cell(c) is Target));
    } else {
        if crate::grid::is_open(g.cell(c)) {
            match g.spec_adjacent(c, path[0]) {
                Some(n) => {
                    assert(crate::grid::is_visited(g.cell(n)));
                    assert(g.in_bounds(n));
                    lemma_closed_unreachable(g, n, path.skip(1));
                }
                None => {}
            }
        }
    }
}

/// The coordinate reached after the first `j` moves of a path.
pub open spec fn pos_at(g: Grid, start: (usize, usize), path: Seq<Direction>, j: int) -> (
    usize,
    usize,
)
    decreases j,
{
    if j <= 0 {
        start
    } else {
        g.spec_adjacent(pos_at(g, start, path, j - 1), path[j - 1])->Some_0
    }
}

/// Along a valid solution, every tail is itself a valid solution from the
/// coordinate the head of the path reaches.
pub proof fn lemma_reaches_suffix(g: Grid, start: (usize, usize), path: Seq<Direction>, j: int)
    requires
        reaches_target(g, start, path),
        0 <= j <= path.len(),
    ensures
        reaches_target(g, pos_at(g, start, path, j), path.skip(j)),
    decreases j,
{
    if j == 0 {
        assert(path.skip(0) =~= path);
    } else {
        lemma_reaches_suffix(g, start, path, j - 1);
        let prev = pos_at(g, start, path, j - 1);
        assert(path.skip(j - 1).len() > 0);
        assert(path.skip(j - 1)[0] == path[j - 1]);
        assert(path.skip(j - 1).skip(1) =~= path.skip(j));
    }
}

/// Every position along a valid solution lies on the grid.
pub proof fn lemma_pos_at_in_bounds(g: Grid, start: (usize, usize), path: Seq<Direction>, j: int)
    requires
        reaches_target(g, start, path),
        g.in_bounds(start),
        0 <= j <= path.len(),
    ensures
        g.in_bounds(pos_at(g, start, path, j)),
    decreases j,
{
    if j > 0 {
        lemma_pos_at_in_bounds(g, start, path, j - 1);
        lemma_reaches_suffix(g, start, path, j - 1);
        let prev = pos_at(g, start, path, j - 1);
        assert(path.skip(j - 1).len() > 0);
        assert(path.skip(j - 1)[0] == path[j - 1]);
        assert(g.spec_adjacent(prev, path[j - 1]) is Some);
    }
}

/// A path's positions do not depend on the grid's cells, only on its
/// dimensions.
pub proof fn lemma_pos_at_same_dims(
    g1: Grid,
    g2: Grid,
    start: (usize, usize),
    path: Seq<Direction>,
    j: int,
)
    requires
        g1.rows == g2.rows,
        g1.cols == g2.cols,
    ensures
        pos_at(g1, start, path, j) == pos_at(g2, start, path, j),
    decreases j,
{
    if j > 0 {
        lemma_pos_at_same_dims(g1, g2, start, path, j - 1);
    }
}

/// On a grid that admits no valid solution at all, any report whose
/// returned solutions are valid - as every algorithm here guarantees -
/// must be a report of no solution. This is the sound half of the
/// round-trip between "a path exists" and "a path is returned"; that a
/// search finds a path whenever one exists is checked by tests, not proved.
pub proof fn lemma_unsolvable_grid_reports_none(g: Grid, r: SearchReport)
    requires
        forall|p: Seq<Direction>| !reaches_target(g, g.initial, p),
        r.solution matches Some(p) ==> reaches_target(g, g.initial, p@),
    ensures
        r.solution is None,
{
}

/// Interface of every search algorithm: one call runs the whole search on a
/// grid and returns a report. Any returned solution is proved to be a valid
/// wall-free path from the grid's start cell to a target cell.
pub trait Search {
    /// Extra requirement an algorithm places on the grid it is run on.
    spec fn search_pre(&self, g: Grid) -> bool;

    fn search(&self, grid: &mut Grid) -> (r: SearchReport)
        requires
            old(grid).wf(),
            self.search_pre(*old(grid)),
        ensures
            final(grid).wf(),
            crate::grid::same_shape(*old(grid), *final(grid)),
            r.solution matches Some(p) ==> reaches_target(
                *final(grid),
                final(grid).initial,
                p@,
            ),
    ;
}

use crate::SearchReport;

/// The per-direction move cost of the asymmetric-cost experiment:
/// Up costs 4, Down 1, Left 3, Right 2.
pub open spec fn custom_cost(d: Direction) -> int {
    match d {
        Direction::Up => 4,
        Direction::Down => 1,
        Direction::Left => 3,
        Direction::Right => 2,
    }
}

/// A pluggable per-direction move cost. Every cost is between 1 and 4, which
/// keeps accumulated path costs well under the width of the counters the
/// frontier stores them in.
pub trait MoveWeight: Sized {
    /// The cost of one move in direction `d`, for specifications.
    spec fn spec_weigh(&self, d: Direction) -> int;

    fn weigh(&self, d: &Direction) -> (r: usize)
        ensures
            r == self.spec_weigh(*d),
            1 <= r <= 4,
    ;
}

/// The uniform cost model: every move costs 1.
pub struct UniformMoveWeight;

impl MoveWeight for UniformMoveWeight {
    open spec fn spec_weigh(&self, d: Direction) -> int {
        1
    }

    fn weigh(&self, _d: &Direction) -> (r: usize) {
        1
    }
}

/// The asymmetric cost model: moving in different directions costs
/// differently.
pub struct CustomMoveWeight;

impl CustomMoveWeight {
    /// The asymmetric per-direction cost, usable without an instance.
    pub fn weigh(d: &Direction) -> (r: usize)
        ensures
            r == custom_cost(*d),
    {
        match *d {
            Direction::Up => 4,
            Direction::Down => 1,
            Direction::Left => 3,
            Direction::Right => 2,
        }
    }
}

impl MoveWeight for CustomMoveWeight {
    open spec fn spec_weigh(&self, d: Direction) -> int {
        custom_cost(d)
    }

    fn weigh(&self, d: &Direction) -> (r: usize) {
        CustomMoveWeight::weigh(d)
    }
}

/// The accumulated move cost of a whole path under a cost model.
pub open spec fn spec_path_cost<W: MoveWeight>(w: W, path: Seq<Direction>) -> int
    decreases path.len(),
{
    if path.len() == 0 {
        0
    } else {
        spec_path_cost(w, path.drop_last()) + w.spec_weigh(path.last())
    }
}

} // verus!
