//! The grid data model: a rows x cols array of typed cells in row-major
//! order, with one start cell, a list of target cells, and bounds-checked
//! adjacency queries.

use vstd::prelude::*;

verus! {

use crate::search::Direction;

/// The possible states of one cell of a [`Grid`]. The boolean on the
/// traversable kinds is the mutable visited mark a search run writes.
#[derive(Clone, Copy, PartialEq, Eq, Structural, Debug)]
pub enum CellType {
    /// The start position, tagged with its visited mark.
    Initial(bool),
    /// One of the target positions.
    Target,
    /// A cell that cannot be traversed, tagged with its visited mark.
    Wall(bool),
    /// An ordinary traversable cell, tagged with its visited mark.
    Blank(bool),
}

/// The same cell with its visited mark set.
pub open spec fn marked(c: CellType) -> CellType {
    match c {
        CellType::Initial(_) => CellType::Initial(true),
        CellType::Target => CellType::Target,
        CellType::Wall(_) => CellType::Wall(true),
        CellType::Blank(_) => CellType::Blank(true),
    }
}

/// The same cell with its visited mark cleared.
pub open spec fn cleared(c: CellType) -> CellType {
    match c {
        CellType::Initial(_) => CellType::Initial(false),
        CellType::Target => CellType::Target,
        CellType::Wall(_) => CellType::Wall(false),
        CellType::Blank(_) => CellType::Blank(false),
    }
}

/// Whether two cells are of the same kind, visited marks aside.
pub open spec fn kind_eq(a: CellType, b: CellType) -> bool {
    marked(a) == marked(b)
}

/// A cell a path may travel through: the start cell or a blank cell.
pub open spec fn is_open(c: CellType) -> bool {
    c is Initial || c is Blank
}

/// Whether a cell carries a set visited mark.
pub open spec fn is_visited(c: CellType) -> bool {
    match c {
        CellType::Initial(b) => b,
        CellType::Target => false,
        CellType::Wall(b) => b,
        CellType::Blank(b) => b,
    }
}

/// A cell that counts as untouched: any marked kind whose mark is clear.
pub open spec fn is_unvisited(c: CellType) -> bool {
    match c {
        CellType::Initial(b) => !b,
        CellType::Target => false,
        CellType::Wall(b) => !b,
        CellType::Blank(b) => !b,
    }
}

/// Number of untouched cells in a cell sequence.
pub open spec fn count_unvisited(s: Seq<CellType>) -> nat
    decreases s.len(),
{
    if s.len() == 0 {
        0
    } else {
        count_unvisited(s.drop_last()) + (if is_unvisited(s.last()) {
            1nat
        } else {
            0nat
        })
    }
}

/// No more cells are untouched than there are cells.
pub proof fn lemma_count_unvisited_le_len(s: Seq<CellType>)
    ensures
        count_unvisited(s) <= s.len(),
    decreases s.len(),
{
    if s.len() != 0 {
        lemma_count_unvisited_le_len(s.drop_last());
    }
}

/// A sequence holding an untouched cell has a positive untouched count.
pub proof fn lemma_count_unvisited_pos(s: Seq<CellType>, i: int)
    requires
        0 <= i < s.len(),
        is_unvisited(s[i]),
    ensures
        count_unvisited(s) >= 1,
    decreases s.len(),
{
    if i < s.len() - 1 {
        lemma_count_unvisited_pos(s.drop_last(), i);
    }
}

/// Overwriting one cell changes the untouched count by exactly the
/// difference the two cells contribute.
pub proof fn lemma_count_unvisited_update(s: Seq<CellType>, i: int, v: CellType)
    requires
        0 <= i < s.len(),
    ensures
        count_unvisited(s.update(i, v)) + (if is_unvisited(s[i]) {
            1nat
        } else {
            0nat
        }) == count_unvisited(s) + (if is_unvisited(v) {
            1nat
        } else {
            0nat
        }),
    decreases s.len(),
{
    let t = s.update(i, v);
    if i == s.len() - 1 {
        assert(t.drop_last() =~= s.drop_last());
        assert(t.last() == v);
    } else {
        assert(t.drop_last() =~= s.drop_last().update(i, v));
        assert(t.last() == s.last());
        lemma_count_unvisited_update(s.drop_last(), i, v);
    }
}

/// The grid object: dimensions, the start coordinate, the target
/// coordinates, and the row-major cell array.
#[derive(Debug)]
pub struct Grid {
    /// Number of rows.
    pub rows: usize,
    /// Number of columns.
    pub cols: usize,
    /// Coordinate of the start cell, as (x, y).
    pub initial: (usize, usize),
    /// Coordinates of the target cells, as (x, y).
    pub targets: Vec<(usize, usize)>,
    /// The cells, addressed by `x + y * cols`.
    pub values: Vec<CellType>,
}

/// Whether two grids agree on everything but the visited marks.
pub open spec fn same_shape(a: Grid, b: Grid) -> bool {
    &&& a.rows == b.rows
    &&& a.cols == b.cols
    &&& a.initial == b.initial
    &&& a.targets@ == b.targets@
    &&& a.cells().len() == b.cells().len()
    &&& forall|i: int| 0 <= i < a.cells().len() ==> kind_eq(#[trigger] a.cells()[i], b.cells()[i])
}

impl Grid {
    /// The cell array, for specifications.
    pub open spec fn cells(self) -> Seq<CellType> {
        self.values@
    }

    /// Whether a coordinate lies on the grid.
    pub open spec fn in_bounds(self, c: (usize, usize)) -> bool {
        c.0 < self.cols && c.1 < self.rows
    }

    /// Row-major position of a coordinate in the cell array.
    pub open spec fn idx(self, c: (usize, usize)) -> int {
        c.0 + c.1 * self.cols
    }

    /// The cell at a coordinate.
    pub open spec fn cell(self, c: (usize, usize)) -> CellType {
        self.values@[self.idx(c)]
    }

    /// Well-formedness: positive dimensions, a cell array of matching size
    /// small enough that node counters cannot wrap, and the start and target
    /// coordinates on the grid.
    pub open spec fn wf(self) -> bool {
        &&& 1 <= self.rows
        &&& 1 <= self.cols
        &&& self.values@.len() == self.rows * self.cols
        &&& 4 * self.values@.len() + 1 <= usize::MAX
        &&& self.in_bounds(self.initial)
        &&& forall|i: int|
            0 <= i < self.targets@.len() ==> self.in_bounds(#[trigger] self.targets@[i])
    }

    /// A coordinate on the grid addresses a cell of the array, and no two
    /// coordinates share one.
    pub proof fn lemma_idx(self, c: (usize, usize))
        requires
            self.wf(),
            self.in_bounds(c),
        ensures
            0 <= self.idx(c) < self.values@.len(),
    {
        assert(c.0 + c.1 * self.cols < self.rows * self.cols) by (nonlinear_arith)
            requires
                c.0 < self.cols,
                c.1 < self.rows,
                1 <= self.cols,
                1 <= self.rows,
        ;
    }

    /// Two distinct on-grid coordinates address distinct cells.
    pub proof fn lemma_idx_injective(self, c1: (usize, usize), c2: (usize, usize))
        requires
            self.wf(),
            self.in_bounds(c1),
            self.in_bounds(c2),
            c1 != c2,
        ensures
            self.idx(c1) != self.idx(c2),
    {
        assert(c1.0 + c1.1 * self.cols != c2.0 + c2.1 * self.cols) by (nonlinear_arith)
            requires
                c1.0 < self.cols,
                c2.0 < self.cols,
                c1 != c2,
        ;
    }

    /// Row-major position of `coords` in the cell array.
    pub fn index(&self, coords: (usize, usize)) -> (r: usize)
        requires
            self.wf(),
            self.in_bounds(coords),
        ensures
            r == self.idx(coords),
            r < self.values@.len(),
    {
        proof {
            self.lemma_idx(coords);
        }
        coords.0 + coords.1 * self.cols
    }

    /// The cell at the requested coordinate.
    pub fn read_cell(&self, cur: (usize, usize)) -> (r: &CellType)
        requires
            self.wf(),
            self.in_bounds(cur),
        ensures
            *r == self.cell(cur),
    {
        let i = self.index(cur);
        &self.values[i]
    }

    /// A mutable reference to the cell at the requested coordinate.
    pub fn read_cell_mut(&mut self, cur: (usize, usize)) -> (r: &mut CellType)
        requires
            old(self).wf(),
            old(self).in_bounds(cur),
        ensures
            *r == old(self).cell(cur),
            final(self).rows == old(self).rows,
            final(self).cols == old(self).cols,
            final(self).initial == old(self).initial,
            final(self).targets@ == old(self).targets@,
            final(self).values@ == old(self).values@.update(old(self).idx(cur), *final(r)),
    {
        let i = self.index(cur);
        &mut self.values[i]
    }

    /// Overwrites the cell at an on-grid coordinate.
    pub fn set_cell(&mut self, cur: (usize, usize), v: CellType)
        requires
            old(self).wf(),
            old(self).in_bounds(cur),
        ensures
            final(self).wf(),
            final(self).rows == old(self).rows,
            final(self).cols == old(self).cols,
            final(self).initial == old(self).initial,
            final(self).targets@ == old(self).targets@,
            final(self).values@ == old(self).values@.update(old(self).idx(cur), v),
            final(self).cell(cur) == v,
            forall|c: (usize, usize)|
                old(self).in_bounds(c) && c != cur ==> final(self).cell(c) == old(self).cell(c),
    {
        let i = self.index(cur);
        self.values[i] = v;
        proof {
            assert forall|c: (usize, usize)|
                old(self).in_bounds(c) && c != cur implies self.cell(c) == old(self).cell(c) by {
                old(self).lemma_idx(c);
                old(self).lemma_idx_injective(c, cur);
            }
        }
    }

    /// Sets the visited mark of the cell at an on-grid coordinate.
    pub fn mark_visited(&mut self, cur: (usize, usize))
        requires
            old(self).wf(),
            old(self).in_bounds(cur),
        ensures
            final(self).wf(),
            same_shape(*old(self), *final(self)),
            final(self).values@ == old(self).values@.update(
                old(self).idx(cur),
                marked(old(self).cell(cur)),
            ),
            final(self).cell(cur) == marked(old(self).cell(cur)),
            forall|c: (usize, usize)|
                old(self).in_bounds(c) && c != cur ==> final(self).cell(c) == old(self).cell(c),
            count_unvisited(final(self).values@) + (if is_unvisited(old(self).cell(cur)) {
                1nat
            } else {
                0nat
            }) == count_unvisited(old(self).values@),
    {
        proof {
            old(self).lemma_idx(cur);
            lemma_count_unvisited_update(
                old(self).values@,
                old(self).idx(cur),
                marked(old(self).cell(cur)),
            );
        }
        let i = self.index(cur);
        let v = marked_cell(&self.values[i]);
        self.set_cell(cur, v);
    }

    /// Clears every visited mark, so the grid can be reused by another
    /// independent search run.
    pub fn clear_visits(&mut self)
        requires
            old(self).wf(),
        ensures
            final(self).wf(),
            same_shape(*old(self), *final(self)),
            final(self).values@.len() == old(self).values@.len(),
            forall|i: int|
                0 <= i < old(self).values@.len() ==> final(self).values@[i] == cleared(
                    #[trigger] old(self).values@[i],
                ),
    {
        let n = self.values.len();
        let mut i: usize = 0;
        while i < n
            invariant
                n == self.values@.len(),
                n == old(self).values@.len(),
                i <= n,
                self.rows == old(self).rows,
                self.cols == old(self).cols,
                self.initial == old(self).initial,
                self.targets@ == old(self).targets@,
                forall|j: int| 0 <= j < i ==> self.values@[j] == cleared(#[trigger] old(self).values@[j]),
                forall|j: int| i <= j < n ==> self.values@[j] == old(self).values@[j],
            decreases n - i,
        {
            self.values[i] = cleared_cell(&self.values[i]);
            i += 1;
        }
    }

    /// How many cells have been visited or written during searches: the
    /// total cell count minus the cells still untouched. Target cells never
    /// carry a mark, so they always count as written.
    pub fn count_visited(&self) -> (r: usize)
        requires
            self.wf(),
        ensures
            r == self.rows * self.cols - count_unvisited(self.values@),
    {
        let n = self.values.len();
        let mut unvisited: usize = 0;
        let mut i: usize = 0;
        while i < n
            invariant
                n == self.values@.len(),
                i <= n,
                unvisited == count_unvisited(self.values@.take(i as int)),
                unvisited <= i,
            decreases n - i,
        {
            let c = &self.values[i];
            let untouched = match c {
                CellType::Initial(b) => !*b,
                CellType::Target => false,
                CellType::Wall(b) => !*b,
                CellType::Blank(b) => !*b,
            };
            proof {
                assert(self.values@.take(i + 1).drop_last() =~= self.values@.take(i as int));
                assert(self.values@.take(i + 1).last() == self.values@[i as int]);
            }
            if untouched {
                unvisited += 1;
            }
            i += 1;
        }
        proof {
            assert(self.values@.take(n as int) =~= self.values@);
            lemma_count_unvisited_le_len(self.values@);
        }
        self.rows * self.cols - unvisited
    }

    /// The coordinate one step in `direction` from `(x, y)`, or `None` when
    /// the grid boundary blocks the move.
    pub fn adjacent(&self, c: (usize, usize), direction: Direction) -> (r: Option<(usize, usize)>)
        requires
            self.wf(),
            self.in_bounds(c),
        ensures
            r == self.spec_adjacent(c, direction),
            r matches Some(n) ==> self.in_bounds(n),
    {
        let (x, y) = c;
        match direction {
            Direction::Up => {
                if y > 0 {
                    return Some((x, y - 1));
                }
            }
            Direction::Left => {
                if x > 0 {
                    return Some((x - 1, y));
                }
            }
            Direction::Down => {
                if y < self.rows - 1 {
                    return Some((x, y + 1));
                }
            }
            Direction::Right => {
                if x < self.cols - 1 {
                    return Some((x + 1, y));
                }
            }
        }
        None
    }

    /// The coordinate one step away, for specifications. `Up` needs `y > 0`,
    /// `Left` needs `x > 0`, `Down` needs `y < rows - 1`, `Right` needs
    /// `x < cols - 1`.
    pub open spec fn spec_adjacent(self, c: (usize, usize), direction: Direction) -> Option<
        (usize, usize),
    > {
        match direction {
            Direction::Up => if c.1 > 0 {
                Some((c.0, (c.1 - 1) as usize))
            } else {
                None
            },
            Direction::Left => if c.0 > 0 {
                Some((((c.0 - 1) as usize), c.1))
            } else {
                None
            },
            Direction::Down => if c.1 < self.rows - 1 {
                Some((c.0, (c.1 + 1) as usize))
            } else {
                None
            },
            Direction::Right => if c.0 < self.cols - 1 {
                Some((((c.0 + 1) as usize), c.1))
            } else {
                None
            },
        }
    }

    /// One neighbour entry as a (possibly empty) sequence, for assembling
    /// the neighbour list specification.
    pub open spec fn opt_neighbor(self, c: (usize, usize), d: Direction) -> Seq<
        (Direction, (usize, usize)),
    > {
        match self.spec_adjacent(c, d) {
            Some(n) => seq![(d, n)],
            None => seq![],
        }
    }

    /// The neighbour list: the reachable neighbours of `c`, strictly in the
    /// order Up, Left, Down, Right.
    pub open spec fn spec_neighbors(self, c: (usize, usize)) -> Seq<(Direction, (usize, usize))> {
        self.opt_neighbor(c, Direction::Up) + self.opt_neighbor(c, Direction::Left)
            + self.opt_neighbor(c, Direction::Down) + self.opt_neighbor(c, Direction::Right)
    }

    /// Finds the directions not blocked by the boundary and the coordinates
    /// they lead to, in the order Up, Left, Down, Right.
    pub fn adjacents(&self, cur: (usize, usize)) -> (r: Vec<(Direction, (usize, usize))>)
        requires
            self.wf(),
            self.in_bounds(cur),
        ensures
            r@ == self.spec_neighbors(cur),
            forall|i: int|
                0 <= i < r@.len() ==> self.spec_adjacent(cur, (#[trigger] r@[i]).0) == Some(r@[i].1)
                    && self.in_bounds(r@[i].1),
    {
        let mut v: Vec<(Direction, (usize, usize))> = Vec::new();
        if let Some(n) = self.adjacent(cur, Direction::Up) {
            v.push((Direction::Up, n));
        }
        if let Some(n) = self.adjacent(cur, Direction::Left) {
            v.push((Direction::Left, n));
        }
        if let Some(n) = self.adjacent(cur, Direction::Down) {
            v.push((Direction::Down, n));
        }
        if let Some(n) = self.adjacent(cur, Direction::Right) {
            v.push((Direction::Right, n));
        }
        proof {
            assert(v@ =~= self.spec_neighbors(cur));
            assert forall|i: int|
                0 <= i < v@.len() implies self.spec_adjacent(cur, (#[trigger] v@[i]).0) == Some(
                v@[i].1,
            ) && self.in_bounds(v@[i].1) by {
                let s = self.spec_neighbors(cur);
                let a = self.opt_neighbor(cur, Direction::Up);
                let b = self.opt_neighbor(cur, Direction::Left);
                let cc = self.opt_neighbor(cur, Direction::Down);
                let dd = self.opt_neighbor(cur, Direction::Right);
                assert(s == a + b + cc + dd);
                if i < a.len() {
                    assert(s[i] == a[0]);
                } else if i < a.len() + b.len() {
                    assert(s[i] == b[i - a.len()]);
                } else if i < a.len() + b.len() + cc.len() {
                    assert(s[i] == cc[i - a.len() - b.len()]);
                } else {
                    assert(s[i] == dd[i - a.len() - b.len() - cc.len()]);
                }
            }
        }
        v
    }
}

/// The neighbour list is complete: every direction whose step stays on
/// the grid appears in it, with the coordinate it leads to.
pub proof fn lemma_neighbors_complete(g: Grid, c: (usize, usize), d: Direction, n: (usize, usize))
    requires
        g.spec_adjacent(c, d) == Some(n),
    ensures
        exists|k: int|
            0 <= k < g.spec_neighbors(c).len() && #[trigger] g.spec_neighbors(c)[k] == (d, n),
{
    let up = g.opt_neighbor(c, Direction::Up);
    let left = g.opt_neighbor(c, Direction::Left);
    let down = g.opt_neighbor(c, Direction::Down);
    let right = g.opt_neighbor(c, Direction::Right);
    let s = g.spec_neighbors(c);
    assert(s == up + left + down + right);
    match d {
        Direction::Up => {
            assert(up == seq![(d, n)]);
            assert(s[0] == (d, n));
        }
        Direction::Left => {
            assert(left == seq![(d, n)]);
            assert(s[up.len() as int] == (d, n));
        }
        Direction::Down => {
            assert(down == seq![(d, n)]);
            assert(s[up.len() as int + left.len() as int] == (d, n));
        }
        Direction::Right => {
            assert(right == seq![(d, n)]);
            assert(s[up.len() as int + left.len() as int + down.len() as int] == (d, n));
        }
    }
}

/// Clearing restores a searched grid exactly: a grid that carries no
/// visited marks is recovered, cell for cell, by clearing any grid of the
/// same shape - so one `clear_visits` call undoes whatever marks any
/// number of search runs left behind.
pub proof fn lemma_clear_restores(g: Grid, searched: Grid)
    requires
        same_shape(g, searched),
        forall|i: int| 0 <= i < g.values@.len() ==> #[trigger] g.values@[i] == cleared(g.values@[i]),
    ensures
        forall|i: int|
            0 <= i < searched.values@.len() ==> cleared(#[trigger] searched.values@[i])
                == g.values@[i],
{
    assert forall|i: int|
        0 <= i < searched.values@.len() implies cleared(#[trigger] searched.values@[i])
        == g.values@[i] by {
        assert(kind_eq(g.values@[i], searched.values@[i]));
    }
}

/// The same cell with its visited mark set, executably.
fn marked_cell(c: &CellType) -> (r: CellType)
    ensures
        r == marked(*c),
{
    match c {
        CellType::Initial(_) => CellType::Initial(true),
        CellType::Target => CellType::Target,
        CellType::Wall(_) => CellType::Wall(true),
        CellType::Blank(_) => CellType::Blank(true),
    }
}

/// The same cell with its visited mark cleared, executably.
fn cleared_cell(c: &CellType) -> (r: CellType)
    ensures
        r == cleared(*c),
{
    match c {
        CellType::Initial(_) => CellType::Initial(false),
        CellType::Target => CellType::Target,
        CellType::Wall(_) => CellType::Wall(false),
        CellType::Blank(_) => CellType::Blank(false),
    }
}

} // verus!
