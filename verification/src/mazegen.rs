//! The maze generator: recursive spatial subdivision. A region is split by
//! a random wall cross, one arm of the cross stays closed and the other
//! three get one random gap each, and the four quadrants are subdivided in
//! turn while they are large enough. The start cell and the requested
//! number of target cells are stamped afterwards at random coordinates.

use vstd::prelude::*;

verus! {

use crate::grid::{Grid, CellType, is_visited};

/// Relies on `rand::random`: draws a value of the requested type from the
/// thread-local generator. Nothing is promised of the result; every caller
/// must handle every outcome.
pub assume_specification<T>[ rand::random::<T> ]() -> (r: T)
    where
        rand::distributions::Standard: rand::distributions::Distribution<T>,
;

/// Whether a coordinate lies in the region of size `rows` x `cols` whose
/// top-left corner is `topleft`.
pub open spec fn in_region(c: (usize, usize), topleft: (usize, usize), rows: usize, cols: usize) -> bool {
    &&& topleft.0 <= c.0 < topleft.0 + cols
    &&& topleft.1 <= c.1 < topleft.1 + rows
}

/// Whether a coordinate lies in the span of `nrows` rows and `ncols`
/// columns starting at `(x0, y0)`, measured in unbounded integers.
pub open spec fn in_span(c: (usize, usize), x0: int, y0: int, nrows: int, ncols: int) -> bool {
    &&& x0 <= c.0 < x0 + ncols
    &&& y0 <= c.1 < y0 + nrows
}

/// Whether `b` differs from `a` only by cells inside the given region
/// repainted to fresh walls or fresh blanks, with everything outside the
/// region and everything else about the grid unchanged.
pub open spec fn region_repainted(
    a: Grid,
    b: Grid,
    topleft: (usize, usize),
    rows: usize,
    cols: usize,
) -> bool {
    &&& b.rows == a.rows
    &&& b.cols == a.cols
    &&& b.initial == a.initial
    &&& b.targets@ == a.targets@
    &&& b.values@.len() == a.values@.len()
    &&& forall|c: (usize, usize)|
        a.in_bounds(c) ==> (#[trigger] b.cell(c)) == a.cell(c) || (in_region(
            c,
            topleft,
            rows,
            cols,
        ) && (b.cell(c) == CellType::Wall(false) || b.cell(c) == CellType::Blank(false)))
}

/// Repainting confined to a sub-region composes into repainting confined
/// to the enclosing region.
proof fn lemma_region_compose(
    a: Grid,
    b: Grid,
    c2: Grid,
    topleft: (usize, usize),
    rows: usize,
    cols: usize,
    sub_topleft: (usize, usize),
    sub_rows: usize,
    sub_cols: usize,
)
    requires
        region_repainted(a, b, topleft, rows, cols),
        region_repainted(b, c2, sub_topleft, sub_rows, sub_cols),
        topleft.0 <= sub_topleft.0,
        topleft.1 <= sub_topleft.1,
        sub_topleft.0 + sub_cols <= topleft.0 + cols,
        sub_topleft.1 + sub_rows <= topleft.1 + rows,
    ensures
        region_repainted(a, c2, topleft, rows, cols),
{
    assert forall|c: (usize, usize)|
        a.in_bounds(c) implies (#[trigger] c2.cell(c)) == a.cell(c) || (in_region(
        c,
        topleft,
        rows,
        cols,
    ) && (c2.cell(c) == CellType::Wall(false) || c2.cell(c) == CellType::Blank(false))) by {
        assert(b.cell(c) == a.cell(c) || (in_region(c, topleft, rows, cols) && (b.cell(c)
            == CellType::Wall(false) || b.cell(c) == CellType::Blank(false))));
    }
}

impl Grid {
    /// Recursively subdivides the region of size `rows` x `cols` whose
    /// top-left corner is at `topleft`: paints a random wall cross, carves
    /// a gap into three of its four arms, and recurses into each quadrant
    /// that is still larger than 3 cells in both dimensions. Writes stay
    /// inside the given region, and a start-kind cell is never turned into
    /// a wall: the cross skips it, and at worst a carved gap blanks it.
    #[verifier::rlimit(100)]
    fn random_maze_subdivision(&mut self, topleft: (usize, usize), rows: usize, cols: usize)
        requires
            old(self).wf(),
            2 <= rows,
            2 <= cols,
            topleft.0 + cols <= old(self).cols,
            topleft.1 + rows <= old(self).rows,
        ensures
            final(self).wf(),
            region_repainted(*old(self), *final(self), topleft, rows, cols),
            forall|c: (usize, usize)|
                old(self).in_bounds(c) && old(self).cell(c) is Initial ==> (
                #[trigger] final(self).cell(c)) == old(self).cell(c) || final(self).cell(c)
                    == CellType::Blank(false),
        decreases rows,
    {
        // A random even offset strictly inside the region on each axis.
        let victim_row = (random_usize() % (rows - 1)) / 2 * 2 + 1;
        let victim_col = (random_usize() % (cols - 1)) / 2 * 2 + 1;

        // Paint the wall cross, leaving any start cell untouched. The
        // region is walked directly here: a reusable iterate-a-region
        // helper would take a mutable per-cell closure, which the proofs
        // avoid in favour of a plain double loop.
        let mut dy: usize = 0;
        while dy < rows
            invariant
                self.wf(),
                region_repainted(*old(self), *self, topleft, rows, cols),
                forall|c: (usize, usize)|
                    old(self).in_bounds(c) && old(self).cell(c) is Initial ==> (
                #[trigger] self.cell(c)) == old(self).cell(c),
                self.cols == old(self).cols,
                self.rows == old(self).rows,
                topleft.0 + cols <= self.cols,
                topleft.1 + rows <= self.rows,
                dy <= rows,
            decreases rows - dy,
        {
            let mut dx: usize = 0;
            while dx < cols
                invariant
                    self.wf(),
                    region_repainted(*old(self), *self, topleft, rows, cols),
                    forall|c: (usize, usize)|
                        old(self).in_bounds(c) && old(self).cell(c) is Initial ==> (
                    #[trigger] self.cell(c)) == old(self).cell(c),
                    self.cols == old(self).cols,
                    self.rows == old(self).rows,
                    topleft.0 + cols <= self.cols,
                    topleft.1 + rows <= self.rows,
                    dy < rows,
                    dx <= cols,
                decreases cols - dx,
            {
                if dx == victim_col || dy == victim_row {
                    let pos = (topleft.0 + dx, topleft.1 + dy);
                    let cell = *self.read_cell(pos);
                    match cell {
                        CellType::Initial(_) => {}
                        _ => {
                            self.set_cell(pos, CellType::Wall(false));
                        }
                    }
                }
                dx += 1;
            }
            dy += 1;
        }

        // Keep one arm of the cross fully closed; carve one random gap into
        // each of the other three so its quadrant stays reachable.
        let retain_wall = random_u8() % 4;
        if retain_wall != 0 {
            let row = (random_usize() % victim_row) / 2 * 2;
            self.set_cell((victim_col + topleft.0, row + topleft.1), CellType::Blank(false));
        }
        if retain_wall != 2 {
            let row = (random_usize() % (rows - victim_row) + victim_row) / 2 * 2;
            self.set_cell((victim_col + topleft.0, row + topleft.1), CellType::Blank(false));
        }
        if retain_wall != 1 {
            let col = (random_usize() % (cols - victim_col) + victim_col) / 2 * 2;
            self.set_cell((col + topleft.0, victim_row + topleft.1), CellType::Blank(false));
        }
        if retain_wall != 3 {
            let col = (random_usize() % victim_col) / 2 * 2;
            self.set_cell((col + topleft.0, victim_row + topleft.1), CellType::Blank(false));
        }

        // The cross skipped start-kind cells, so only the carved gaps can
        // have blanked one - and every gap lies on the cross, outside all
        // four quadrants.
        proof {
            assert forall|c: (usize, usize)|
                old(self).in_bounds(c) && old(self).cell(c) is Initial implies (
            #[trigger] self.cell(c)) == old(self).cell(c) || (self.cell(c)
                == CellType::Blank(false) && (
                    (victim_row > 3 && victim_col > 3 ==> !in_span(
                        c,
                        topleft.0 as int + 1,
                        topleft.1 as int + 1,
                        victim_row as int - 2,
                        victim_col as int - 2,
                    ))
                    &&                     (rows - victim_row > 3 && victim_col > 3 ==> !in_span(
                        c,
                        topleft.0 as int + 1,
                        victim_row as int + topleft.1 as int + 1,
                        rows - victim_row as int - 2,
                        victim_col as int - 2,
                    ))
                    &&                     (cols - victim_col > 3 && victim_row > 3 ==> !in_span(
                        c,
                        topleft.0 as int + victim_col as int + 1,
                        topleft.1 as int + 1,
                        victim_row as int - 2,
                        cols - victim_col as int - 2,
                    ))
                    &&                     (rows - victim_row > 3 && cols - victim_col > 3 ==> !in_span(
                        c,
                        topleft.0 as int + victim_col as int + 1,
                        topleft.1 as int + victim_row as int + 1,
                        rows - victim_row as int - 2,
                        cols - victim_col as int - 2,
                    ))
                )) by {}
            }

        // Recurse into each quadrant that is still large enough; each
        // quadrant lies strictly inside the region, so its writes stay
        // confined too.
        if victim_row > 3 && victim_col > 3 {
            let ghost pre = *self;
            self.random_maze_subdivision(
                (topleft.0 + 1, topleft.1 + 1),
                victim_row - 2,
                victim_col - 2,
            );
            proof {
                lemma_region_compose(
                    *old(self),
                    pre,
                    *self,
                    topleft,
                    rows,
                    cols,
                    (((topleft.0 + 1) as usize), ((topleft.1 + 1) as usize)),
                    ((victim_row - 2) as usize),
                    ((victim_col - 2) as usize),
                );
            }
        }
            proof {
                assert forall|c: (usize, usize)|
                    old(self).in_bounds(c) && old(self).cell(c) is Initial implies (
                #[trigger] self.cell(c)) == old(self).cell(c) || (self.cell(c)
                    == CellType::Blank(false) && (
                    (rows - victim_row > 3 && victim_col > 3 ==> !in_span(
                        c,
                        topleft.0 as int + 1,
                        victim_row as int + topleft.1 as int + 1,
                        rows - victim_row as int - 2,
                        victim_col as int - 2,
                    ))
                    &&                     (cols - victim_col > 3 && victim_row > 3 ==> !in_span(
                        c,
                        topleft.0 as int + victim_col as int + 1,
                        topleft.1 as int + 1,
                        victim_row as int - 2,
                        cols - victim_col as int - 2,
                    ))
                    &&                     (rows - victim_row > 3 && cols - victim_col > 3 ==> !in_span(
                        c,
                        topleft.0 as int + victim_col as int + 1,
                        topleft.1 as int + victim_row as int + 1,
                        rows - victim_row as int - 2,
                        cols - victim_col as int - 2,
                    ))
                )) by {}
            }
        if rows - victim_row > 3 && victim_col > 3 {
            let ghost pre = *self;
            self.random_maze_subdivision(
                (topleft.0 + 1, victim_row + topleft.1 + 1),
                rows - victim_row - 2,
                victim_col - 2,
            );
            proof {
                lemma_region_compose(
                    *old(self),
                    pre,
                    *self,
                    topleft,
                    rows,
                    cols,
                    (((topleft.0 + 1) as usize), ((victim_row + topleft.1 + 1) as usize)),
                    ((rows - victim_row - 2) as usize),
                    ((victim_col - 2) as usize),
                );
            }
        }
            proof {
                assert forall|c: (usize, usize)|
                    old(self).in_bounds(c) && old(self).cell(c) is Initial implies (
                #[trigger] self.cell(c)) == old(self).cell(c) || (self.cell(c)
                    == CellType::Blank(false) && (
                    (cols - victim_col > 3 && victim_row > 3 ==> !in_span(
                        c,
                        topleft.0 as int + victim_col as int + 1,
                        topleft.1 as int + 1,
                        victim_row as int - 2,
                        cols - victim_col as int - 2,
                    ))
                    &&                     (rows - victim_row > 3 && cols - victim_col > 3 ==> !in_span(
                        c,
                        topleft.0 as int + victim_col as int + 1,
                        topleft.1 as int + victim_row as int + 1,
                        rows - victim_row as int - 2,
                        cols - victim_col as int - 2,
                    ))
                )) by {}
            }
        if cols - victim_col > 3 && victim_row > 3 {
            let ghost pre = *self;
            self.random_maze_subdivision(
                (topleft.0 + victim_col + 1, topleft.1 + 1),
                victim_row - 2,
                cols - victim_col - 2,
            );
            proof {
                lemma_region_compose(
                    *old(self),
                    pre,
                    *self,
                    topleft,
                    rows,
                    cols,
                    (((topleft.0 + victim_col + 1) as usize), ((topleft.1 + 1) as usize)),
                    ((victim_row - 2) as usize),
                    ((cols - victim_col - 2) as usize),
                );
            }
        }
            proof {
                assert forall|c: (usize, usize)|
                    old(self).in_bounds(c) && old(self).cell(c) is Initial implies (
                #[trigger] self.cell(c)) == old(self).cell(c) || (self.cell(c)
                    == CellType::Blank(false) && (
                    (rows - victim_row > 3 && cols - victim_col > 3 ==> !in_span(
                        c,
                        topleft.0 as int + victim_col as int + 1,
                        topleft.1 as int + victim_row as int + 1,
                        rows - victim_row as int - 2,
                        cols - victim_col as int - 2,
                    ))
                )) by {}
            }
        if rows - victim_row > 3 && cols - victim_col > 3 {
            let ghost pre = *self;
            self.random_maze_subdivision(
                (topleft.0 + victim_col + 1, topleft.1 + victim_row + 1),
                rows - victim_row - 2,
                cols - victim_col - 2,
            );
            proof {
                lemma_region_compose(
                    *old(self),
                    pre,
                    *self,
                    topleft,
                    rows,
                    cols,
                    (((topleft.0 + victim_col + 1) as usize), ((topleft.1 + victim_row + 1) as usize)),
                    ((rows - victim_row - 2) as usize),
                    ((cols - victim_col - 2) as usize),
                );
            }
        }
            proof {
                assert forall|c: (usize, usize)|
                    old(self).in_bounds(c) && old(self).cell(c) is Initial implies (
                #[trigger] self.cell(c)) == old(self).cell(c) || self.cell(c)
                    == CellType::Blank(false) by {}
            }
    }

    /// Generates a random maze of the requested size with `targets`
    /// randomly placed target cells. The carved gaps usually leave every
    /// room reachable, but a gap offset is rounded down to an even number
    /// and can land on the cross intersection or beside it, so a quadrant
    /// can occasionally end up sealed: the result is not guaranteed to be
    /// connected. The start cell is stamped
    /// after subdivision and every requested target after that, so a target
    /// drawn onto the start coordinate overwrites it; exactly the listed
    /// coordinates hold target cells, and the start cell exists if and only
    /// if no target landed on it.
    pub fn random_maze(rows: usize, cols: usize, targets: usize) -> (r: Grid)
        requires
            2 <= rows,
            2 <= cols,
            rows * cols <= (usize::MAX - 1) / 4,
        ensures
            r.wf(),
            r.rows == rows,
            r.cols == cols,
            r.targets@.len() == targets,
            forall|c: (usize, usize)|
                r.in_bounds(c) ==> ((#[trigger] r.cell(c)) is Target <==> r.targets@.contains(c)),
            forall|c: (usize, usize)|
                r.in_bounds(c) ==> ((#[trigger] r.cell(c)) is Initial <==> c == r.initial
                    && !r.targets@.contains(c)),
            forall|c: (usize, usize)| r.in_bounds(c) ==> !is_visited(#[trigger] r.cell(c)),
    {
        let ix = random_usize() % cols;
        let iy = random_usize() % rows;
        let mut map = Grid {
            rows,
            cols,
            initial: (ix, iy),
            targets: Vec::new(),
            values: blank_cells(rows * cols),
        };
        let ghost g0 = map;
        proof {
            assert(map.wf());
        }

        map.random_maze_subdivision((0, 0), rows, cols);
        let ghost g1 = map;

        let start = map.initial;
        map.set_cell(start, CellType::Initial(false));
        proof {
            assert forall|c: (usize, usize)| map.in_bounds(c) implies {
                &&& !((#[trigger] map.cell(c)) is Target)
                &&& (map.cell(c) is Initial <==> c == map.initial)
                &&& !is_visited(map.cell(c))
            } by {
                g0.lemma_idx(c);
                assert(g0.cell(c) == CellType::Blank(false));
                assert(g1.cell(c) == CellType::Blank(false) || g1.cell(c) == CellType::Wall(false));
                if c != start {
                    assert(map.cell(c) == g1.cell(c));
                }
            }
        }

        let mut t: usize = 0;
        while t < targets
            invariant
                map.wf(),
                map.rows == rows,
                map.cols == cols,
                t <= targets,
                map.targets@.len() == t,
                forall|c: (usize, usize)|
                    map.in_bounds(c) ==> ((#[trigger] map.cell(c)) is Target
                        <==> map.targets@.contains(c)),
                forall|c: (usize, usize)|
                    map.in_bounds(c) ==> ((#[trigger] map.cell(c)) is Initial <==> c == map.initial
                        && !map.targets@.contains(c)),
                forall|c: (usize, usize)| map.in_bounds(c) ==> !is_visited(#[trigger] map.cell(c)),
            decreases targets - t,
        {
            let coords = (random_usize() % cols, random_usize() % rows);
            let ghost pre = map;
            let ghost before = map.targets@;
            map.targets.push(coords);
            map.set_cell(coords, CellType::Target);
            proof {
                assert forall|c: (usize, usize)| #[trigger]
                    map.targets@.contains(c) == (before.contains(c) || c == coords) by {
                    if map.targets@.contains(c) {
                        let j = choose|j: int| 0 <= j < map.targets@.len() && map.targets@[j] == c;
                        if j < before.len() {
                            assert(before[j] == c);
                        }
                    }
                    if before.contains(c) {
                        let j = choose|j: int| 0 <= j < before.len() && before[j] == c;
                        assert(map.targets@[j] == c);
                    }
                    if c == coords {
                        assert(map.targets@[before.len() as int] == c);
                    }
                }
                assert forall|c: (usize, usize)| map.in_bounds(c) implies {
                    &&& ((#[trigger] map.cell(c)) is Target <==> map.targets@.contains(c))
                    &&& (map.cell(c) is Initial <==> c == map.initial && !map.targets@.contains(c))
                    &&& !is_visited(map.cell(c))
                } by {
                    assert(pre.cell(c) is Target <==> before.contains(c));
                    assert(pre.cell(c) is Initial <==> c == pre.initial && !before.contains(c));
                    assert(!is_visited(pre.cell(c)));
                    if c != coords {
                        assert(map.cell(c) == pre.cell(c));
                    }
                }
            }
            t += 1;
        }
        map
    }
}

/// A generated maze whose drawn target coordinates are distinct and avoid
/// the start coordinate has exactly one initial cell - the start - and
/// exactly the requested number of target cells.
pub proof fn lemma_generated_maze_counts(g: Grid, goal_count: int)
    requires
        g.wf(),
        g.targets@.len() == goal_count,
        forall|c: (usize, usize)|
            g.in_bounds(c) ==> ((#[trigger] g.cell(c)) is Target <==> g.targets@.contains(c)),
        forall|c: (usize, usize)|
            g.in_bounds(c) ==> ((#[trigger] g.cell(c)) is Initial <==> c == g.initial
                && !g.targets@.contains(c)),
        g.targets@.no_duplicates(),
        !g.targets@.contains(g.initial),
    ensures
        Set::new(|c: (usize, usize)| g.in_bounds(c) && g.cell(c) is Initial) =~= set![g.initial],
        Set::new(|c: (usize, usize)| g.in_bounds(c) && g.cell(c) is Target) =~= g.targets@.to_set(),
        g.targets@.to_set().finite(),
        g.targets@.to_set().len() == goal_count,
{
    assert forall|c: (usize, usize)|
        g.targets@.to_set().contains(c) implies g.in_bounds(c) && g.cell(c) is Target by {
        let j = choose|j: int| 0 <= j < g.targets@.len() && g.targets@[j] == c;
        assert(g.in_bounds(g.targets@[j]));
    }
    vstd::seq_lib::seq_to_set_is_finite(g.targets@);
    g.targets@.unique_seq_to_set();
}

/// Relies on `rand::random` at type `usize`, through the specification
/// above.
fn random_usize() -> usize {
    rand::random::<usize>()
}

/// Relies on `rand::random` at type `u8`, through the specification above.
fn random_u8() -> u8 {
    rand::random::<u8>()
}

/// A run of `n` untouched blank cells.
pub(crate) fn blank_cells(n: usize) -> (r: Vec<CellType>)
    ensures
        r@.len() == n,
        forall|i: int| 0 <= i < n ==> r@[i] == CellType::Blank(false),
{
    let mut v: Vec<CellType> = Vec::new();
    let mut i: usize = 0;
    while i < n
        invariant
            i <= n,
            v@.len() == i,
            forall|j: int| 0 <= j < i ==> v@[j] == CellType::Blank(false),
        decreases n - i,
    {
        v.push(CellType::Blank(false));
        i += 1;
    }
    v
}

} // verus!
