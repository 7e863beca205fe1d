//! Grid pathfinding: a grid data model, a family of search algorithms built
//! around one generalized frontier-expansion loop, and a random maze
//! generator that produces the grids the searches run on.

use vstd::prelude::*;

pub mod bfs;
pub mod cursor;
pub mod dfs;
pub mod filters;
pub mod graph_search;
pub mod grid;
pub mod heuristics;
pub mod iddfs;
pub mod mazegen;
pub mod textform;
pub mod queue;
pub mod search;

verus! {

use crate::search::{Search, Direction, UniformMoveWeight, CustomMoveWeight, reaches_target};
use crate::grid::{Grid, same_shape};
use crate::heuristics::{DefaultHeuristic, ManhattanHeuristic, CustomManhattan};
use crate::graph_search::GraphSearch;
use crate::cursor::Formula;
use crate::filters::DuplicateFilter;
use crate::bfs::BreadthFirst;
use crate::dfs::DepthFirst;
use crate::iddfs::IterativeDeepening;

/// The one output object of any search run: the number of frontier entries
/// taken off the queue, and the winning move sequence if a target was reached.
pub struct SearchReport {
    /// Number of nodes expanded: dequeued frontier entries that passed the
    /// duplicate filter for the queue-driven searches, or recursive cell
    /// inspections for the depth-first family.
    pub search_nodes: usize,
    /// The winning path, or `None` when the frontier was exhausted.
    pub solution: Option<Vec<Direction>>,
}

/// The search strategies `run_search` can apply.
#[derive(Clone, Copy, PartialEq, Eq, Structural, Debug)]
pub enum Algorithm {
    /// Breadth-first tree search.
    Bfs,
    /// Depth-first tree search.
    Dfs,
    /// Iterative-deepening depth-first search.
    Iddfs,
    /// Greedy best-first search.
    Gbfs,
    /// A* search.
    AStar,
    /// Weighted A* search.
    WeightedAStar,
    /// Uniform-cost search.
    UniformCost,
}

/// The move-cost models `run_search` can plug in.
#[derive(Clone, Copy, PartialEq, Eq, Structural, Debug)]
pub enum CostModel {
    /// Every move costs 1.
    Uniform,
    /// Up costs 4, Down 1, Left 3, Right 2.
    Custom,
}

/// Whether an algorithm computes heuristic estimates, and so needs the
/// grid to name at least one target. A grid without targets handed to such
/// an algorithm is a caller error, not a runtime condition.
pub open spec fn needs_targets(a: Algorithm) -> bool {
    a is Gbfs || a is AStar || a is WeightedAStar
}

/// Runs one complete search of `grid` with the selected algorithm and cost
/// model and returns its report. Any returned solution is a valid wall-free
/// path from the grid's start cell to a target cell; a run that starts on a
/// grid without stale visited marks reports no solution only when no valid
/// path exists at all; cells are only ever marked, never changed in kind -
/// except that iterative deepening clears marks between its rounds; a grid
/// whose start cell is itself a target reports one inspected node and the
/// empty path; and a solution found from a mark-free grid by breadth-first
/// search, or by uniform-cost search under the uniform move-cost model, is
/// shortest in move count. For the frontier searches `search_nodes` counts
/// the dequeues that passed the duplicate filter - exactly the cells newly
/// marked, plus one for a reached target. The uninformed algorithms and
/// uniform-cost search ignore the cost model, as the heuristic selection
/// does not arise for them.
pub fn run_search(grid: &mut Grid, algorithm: Algorithm, cost_model: CostModel) -> (r: SearchReport)
    requires
        old(grid).wf(),
        needs_targets(algorithm) ==> old(grid).targets@.len() >= 1,
    ensures
        final(grid).wf(),
        same_shape(*old(grid), *final(grid)),
        r.solution matches Some(p) ==> reaches_target(*final(grid), final(grid).initial, p@),
        ({
            &&& forall|c: (usize, usize)|
                old(grid).in_bounds(c) ==> !crate::grid::is_visited(#[trigger] old(grid).cell(c))
            &&& r.solution is None
        }) ==> forall|path: Seq<Direction>|
            !reaches_target(*final(grid), final(grid).initial, path),
        !(algorithm is Iddfs) ==> forall|c: (usize, usize)|
            old(grid).in_bounds(c) ==> (#[trigger] final(grid).cell(c)) == old(grid).cell(c)
                || final(grid).cell(c) == crate::grid::marked(old(grid).cell(c)),
        ((algorithm is Bfs || (algorithm is UniformCost && cost_model is Uniform)) && (forall|
            c: (usize, usize),
        |
            old(grid).in_bounds(c) ==> !crate::grid::is_visited(#[trigger] old(grid).cell(c))))
            ==> (r.solution matches Some(p) ==> forall|other: Seq<Direction>|
                #[trigger] reaches_target(*final(grid), final(grid).initial, other) ==> p@.len()
                    <= other.len()),
        old(grid).cell(old(grid).initial) is Target ==> r.search_nodes == 1 && (
        r.solution matches Some(p) && p@.len() == 0),
{
    match algorithm {
        Algorithm::Bfs => BreadthFirst::init().search(grid),
        Algorithm::Dfs => DepthFirst::init().search(grid),
        Algorithm::Iddfs => IterativeDeepening::init().search(grid),
        Algorithm::Gbfs => match cost_model {
            CostModel::Uniform => {
                let h = ManhattanHeuristic::init(grid);
                GraphSearch::init(
                    h,
                    UniformMoveWeight,
                    Formula::Greedy,
                    DuplicateFilter::GlobalVisited,
                ).search(grid)
            }
            CostModel::Custom => {
                let h = CustomManhattan::init(grid);
                GraphSearch::init(
                    h,
                    CustomMoveWeight,
                    Formula::Greedy,
                    DuplicateFilter::GlobalVisited,
                ).search(grid)
            }
        },
        Algorithm::AStar => match cost_model {
            CostModel::Uniform => {
                let h = ManhattanHeuristic::init(grid);
                GraphSearch::init(
                    h,
                    UniformMoveWeight,
                    Formula::AStar,
                    DuplicateFilter::GlobalVisited,
                ).search(grid)
            }
            CostModel::Custom => {
                let h = CustomManhattan::init(grid);
                GraphSearch::init(
                    h,
                    CustomMoveWeight,
                    Formula::AStar,
                    DuplicateFilter::GlobalVisited,
                ).search(grid)
            }
        },
        Algorithm::WeightedAStar => match cost_model {
            CostModel::Uniform => {
                let h = ManhattanHeuristic::init(grid);
                GraphSearch::init(
                    h,
                    UniformMoveWeight,
                    Formula::WeightedAStar,
                    DuplicateFilter::GlobalVisited,
                ).search(grid)
            }
            CostModel::Custom => {
                let h = CustomManhattan::init(grid);
                GraphSearch::init(
                    h,
                    CustomMoveWeight,
                    Formula::WeightedAStar,
                    DuplicateFilter::GlobalVisited,
                ).search(grid)
            }
        },
        Algorithm::UniformCost => match cost_model {
            CostModel::Uniform => GraphSearch::init(
                DefaultHeuristic,
                UniformMoveWeight,
                Formula::PathCost,
                DuplicateFilter::GlobalVisited,
            ).search(grid),
            CostModel::Custom => GraphSearch::init(
                DefaultHeuristic,
                CustomMoveWeight,
                Formula::PathCost,
                DuplicateFilter::GlobalVisited,
            ).search(grid),
        },
    }
}

/// Produces a random maze of the requested size with the requested number
/// of randomly placed target cells; see [`Grid::random_maze`] for what is
/// and is not guaranteed of its layout.
pub fn generate_maze(rows: usize, cols: usize, goal_count: usize) -> (r: Grid)
    requires
        2 <= rows,
        2 <= cols,
        rows * cols <= (usize::MAX - 1) / 4,
    ensures
        r.wf(),
        r.rows == rows,
        r.cols == cols,
        r.targets@.len() == goal_count,
        forall|c: (usize, usize)|
            r.in_bounds(c) ==> ((#[trigger] r.cell(c)) is Target <==> r.targets@.contains(c)),
        forall|c: (usize, usize)|
            r.in_bounds(c) ==> ((#[trigger] r.cell(c)) is Initial <==> c == r.initial
                && !r.targets@.contains(c)),
        forall|c: (usize, usize)|
            r.in_bounds(c) ==> !crate::grid::is_visited(#[trigger] r.cell(c)),
{
    Grid::random_maze(rows, cols, goal_count)
}

/// Run configuration, as an external argument parser fills it in.
#[derive(Clone)]
pub struct Config {
    /// The maze file to load, or a marker asking for a random maze.
    pub map_file: String,
    /// The requested search method.
    pub method: String,
    /// Where to save the grid that was searched, if anywhere.
    pub save_map: Option<String>,
    /// Whether the asymmetric move-cost experiment is active.
    pub var_move_wt: bool,
    /// Size of the random maze to generate, if fixed by the caller.
    pub rand_size: Option<(usize, usize)>,
    /// Number of target cells to place in a random maze, if fixed.
    pub target_count: Option<usize>,
}

impl Config {
    /// The maze size to generate: the configured one, or a random size
    /// of 16 to 31 rows and 16 to 127 columns.
    pub fn rand_size(&self) -> (r: (usize, usize))
        ensures
            match self.rand_size {
                Some(s) => r == s,
                None => 16 <= r.0 < 32 && 16 <= r.1 < 128,
            },
    {
        match &self.rand_size {
            Some(s) => *s,
            None => (rand::random::<usize>() % 16 + 16, rand::random::<usize>() % 112 + 16),
        }
    }

    /// The number of targets to place: the configured one, or 2.
    pub fn target_count(&self) -> (r: usize)
        ensures
            r == match self.target_count {
                Some(c) => c,
                None => 2usize,
            },
    {
        match &self.target_count {
            Some(c) => *c,
            None => 2,
        }
    }
}

impl Default for Config {
    /// An empty configuration: no file, no method, nothing fixed.
    fn default() -> (c: Config)
        ensures
            c.map_file@.len() == 0,
            c.method@.len() == 0,
            c.save_map is None,
            !c.var_move_wt,
            c.rand_size is None,
            c.target_count is None,
    {
        Config {
            map_file: String::new(),
            method: String::new(),
            save_map: None,
            var_move_wt: false,
            rand_size: None,
            target_count: None,
        }
    }
}

} // verus!
