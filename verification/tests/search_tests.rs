use robot_nav::grid::{CellType, Grid};
use robot_nav::search::{CustomMoveWeight, Direction, Search, UniformMoveWeight};
use robot_nav::heuristics::{CustomManhattan, ManhattanHeuristic};
use robot_nav::graph_search::GraphSearch;
use robot_nav::cursor::Formula;
use robot_nav::filters::DuplicateFilter;
use robot_nav::{run_search, Algorithm, CostModel, SearchReport};

const MAZE_TEXT: &str = "[5,11]\n(0,1)\n(7,0) | (10,3)\n(2,0,2,2)\n(8,0,1,2)\n(10,0,1,1)\n(2,3,1,1)\n(9,3,1,1)\n(8,4,2,1)\n(2,4,4,1)\n";

const OPEN_5X5: &str = "[5, 5]\n(0, 0)\n(4, 4)\n";

const WALLED_OFF: &str = "[3, 3]\n(0, 0)\n(2, 2)\n(1, 1, 2, 1)\n(1, 2, 1, 1)\n";

fn maze() -> Grid {
    Grid::parse(MAZE_TEXT.as_bytes()).unwrap()
}

/// Replays a reported path on its grid and checks that it starts at the
/// start cell, crosses no wall, and ends on a target cell.
fn assert_valid_solution(map: &Grid, path: &[Direction]) {
    let mut pos = map.initial;
    for (i, d) in path.iter().enumerate() {
        match map.read_cell(pos) {
            CellType::Initial(_) | CellType::Blank(_) => {}
            other => panic!("cell {:?} crossed mid-path at step {}", other, i),
        }
        pos = map.adjacent(pos, *d).expect("path walked off the grid");
    }
    assert_eq!(*map.read_cell(pos), CellType::Target);
}

fn path_cost_uniform(path: &[Direction]) -> usize {
    path.len()
}

fn path_cost_custom(path: &[Direction]) -> usize {
    path.iter().map(CustomMoveWeight::weigh).sum()
}

const ALL_ALGORITHMS: [Algorithm; 7] = [
    Algorithm::Bfs,
    Algorithm::Dfs,
    Algorithm::Iddfs,
    Algorithm::Gbfs,
    Algorithm::AStar,
    Algorithm::WeightedAStar,
    Algorithm::UniformCost,
];

#[test]
fn all_algorithms_return_valid_solutions() {
    for algorithm in ALL_ALGORITHMS {
        let mut map = maze();
        let report = run_search(&mut map, algorithm, CostModel::Uniform);
        let path = report
            .solution
            .unwrap_or_else(|| panic!("{:?} found no solution", algorithm));
        assert_valid_solution(&map, &path);
    }
}

#[test]
fn all_algorithms_agree_when_no_path_exists() {
    for algorithm in ALL_ALGORITHMS {
        let mut map = Grid::parse(WALLED_OFF.as_bytes()).unwrap();
        let report = run_search(&mut map, algorithm, CostModel::Uniform);
        assert!(report.solution.is_none(), "{:?} invented a path", algorithm);
        let report = run_search(&mut map, algorithm, CostModel::Custom);
        assert!(report.solution.is_none(), "{:?} invented a path", algorithm);
    }
}

#[test]
fn bfs_and_iddfs_agree_on_shortest_length() {
    // The depth-limited rounds of iterative deepening prune revisits
    // against the marks left earlier in the same round, so on grids where
    // a dead-end branch claims cells of the shortest route first, the
    // round at the shortest depth can miss. On this open grid the first
    // descent reaches the goal and both lengths are the true shortest.
    let mut map = Grid::parse(OPEN_5X5.as_bytes()).unwrap();
    let bfs = run_search(&mut map, Algorithm::Bfs, CostModel::Uniform);
    let mut map = Grid::parse(OPEN_5X5.as_bytes()).unwrap();
    let iddfs = run_search(&mut map, Algorithm::Iddfs, CostModel::Uniform);
    let bfs_len = bfs.solution.unwrap().len();
    let iddfs_len = iddfs.solution.unwrap().len();
    assert_eq!(bfs_len, 8);
    assert_eq!(bfs_len, iddfs_len);
}

#[test]
fn astar_and_uniform_cost_are_optimal() {
    // Under the uniform cost model the true optimum is the shortest length,
    // which breadth-first search finds.
    let mut map = maze();
    let shortest = run_search(&mut map, Algorithm::Bfs, CostModel::Uniform)
        .solution
        .unwrap()
        .len();

    let mut map = maze();
    let astar = run_search(&mut map, Algorithm::AStar, CostModel::Uniform)
        .solution
        .unwrap();
    assert_eq!(path_cost_uniform(&astar), shortest);

    let mut map = maze();
    let ucs = run_search(&mut map, Algorithm::UniformCost, CostModel::Uniform)
        .solution
        .unwrap();
    assert_eq!(path_cost_uniform(&ucs), shortest);

    // Under the asymmetric cost model the cost-adjusted heuristic only
    // underestimates towards targets above and to the left, so A* is
    // guaranteed optimal on grids whose goal lies that way; uniform-cost
    // search is optimal regardless.
    let text = "[4, 4]\n(3, 3)\n(0, 0)\n";
    let mut map = Grid::parse(text.as_bytes()).unwrap();
    let astar_custom = run_search(&mut map, Algorithm::AStar, CostModel::Custom)
        .solution
        .unwrap();
    let mut map = Grid::parse(text.as_bytes()).unwrap();
    let ucs_custom = run_search(&mut map, Algorithm::UniformCost, CostModel::Custom)
        .solution
        .unwrap();
    // Three Left moves (cost 3 each) and three Up moves (cost 4 each).
    assert_eq!(path_cost_custom(&ucs_custom), 21);
    assert_eq!(path_cost_custom(&astar_custom), 21);
}

#[test]
fn open_grid_scenario() {
    // A 5 x 5 empty-interior grid, start at (0,0), one goal at (4,4):
    // breadth-first and A* under uniform cost both report a path of
    // exactly 8 moves, and A* expands no more nodes than breadth-first.
    let mut map = Grid::parse(OPEN_5X5.as_bytes()).unwrap();
    let bfs = run_search(&mut map, Algorithm::Bfs, CostModel::Uniform);
    assert_eq!(bfs.solution.as_ref().unwrap().len(), 8);

    let mut map = Grid::parse(OPEN_5X5.as_bytes()).unwrap();
    let astar = run_search(&mut map, Algorithm::AStar, CostModel::Uniform);
    assert_eq!(astar.solution.as_ref().unwrap().len(), 8);

    assert!(astar.search_nodes <= bfs.search_nodes);
}

fn same_report(a: &SearchReport, b: &SearchReport) -> bool {
    a.search_nodes == b.search_nodes && a.solution == b.solution
}

#[test]
fn clearing_visits_makes_reruns_identical() {
    for algorithm in ALL_ALGORITHMS {
        let mut map = maze();
        let first = run_search(&mut map, algorithm, CostModel::Uniform);
        map.clear_visits();
        let second = run_search(&mut map, algorithm, CostModel::Uniform);
        assert!(
            same_report(&first, &second),
            "{:?} changed its report after a clear",
            algorithm
        );
    }
}

#[test]
fn repeated_runs_are_deterministic() {
    for algorithm in ALL_ALGORITHMS {
        let mut map1 = maze();
        let r1 = run_search(&mut map1, algorithm, CostModel::Custom);
        let mut map2 = maze();
        let r2 = run_search(&mut map2, algorithm, CostModel::Custom);
        assert!(same_report(&r1, &r2), "{:?} was not deterministic", algorithm);
        assert_eq!(map1.values, map2.values);
    }
}

#[test]
fn path_cycle_filter_also_finds_valid_paths() {
    let mut map = Grid::parse(OPEN_5X5.as_bytes()).unwrap();
    let h = ManhattanHeuristic::init(&map);
    let engine = GraphSearch::init(
        h,
        UniformMoveWeight,
        Formula::AStar,
        DuplicateFilter::PathCycle,
    );
    let report = engine.search(&mut map);
    let path = report.solution.unwrap();
    assert_eq!(path.len(), 8);
    assert_valid_solution(&map, &path);
}

#[test]
fn custom_cost_engine_prefers_cheap_directions() {
    // From (0,1) with the asymmetric model, moving Down (cost 1) twice and
    // Right twice (cost 2 each) is cheaper than any Up-heavy detour; the
    // optimal cost to the goal is pinned by uniform-cost search.
    let text = "[4, 4]\n(0, 0)\n(3, 3)\n";
    let mut map = Grid::parse(text.as_bytes()).unwrap();
    let report = run_search(&mut map, Algorithm::UniformCost, CostModel::Custom);
    let path = report.solution.unwrap();
    // Three Down moves (cost 1 each) and three Right moves (cost 2 each).
    assert_eq!(path_cost_custom(&path), 9);
    assert_valid_solution(&map, &path);
}

#[test]
fn weighted_astar_with_custom_model_stays_valid() {
    let mut map = maze();
    let report = run_search(&mut map, Algorithm::WeightedAStar, CostModel::Custom);
    let path = report.solution.unwrap();
    assert_valid_solution(&map, &path);

    let mut map = maze();
    let h = CustomManhattan::init(&map);
    let engine = GraphSearch::init(
        h,
        CustomMoveWeight,
        Formula::Greedy,
        DuplicateFilter::GlobalVisited,
    );
    let report = engine.search(&mut map);
    let path = report.solution.unwrap();
    assert_valid_solution(&map, &path);
}

#[test]
fn generated_maze_counts() {
    let map = robot_nav::generate_maze(9, 9, 3);
    assert_eq!(map.rows, 9);
    assert_eq!(map.cols, 9);
    assert_eq!(map.targets.len(), 3);

    // The target cells are exactly the drawn coordinates; the start cell
    // survives exactly when no target landed on it.
    let mut distinct: Vec<(usize, usize)> = Vec::new();
    for t in map.targets.iter() {
        if !distinct.contains(t) {
            distinct.push(*t);
        }
    }
    let mut initial_cells = 0;
    let mut target_cells = 0;
    for y in 0..map.rows {
        for x in 0..map.cols {
            match map.read_cell((x, y)) {
                CellType::Initial(_) => initial_cells += 1,
                CellType::Target => target_cells += 1,
                _ => {}
            }
        }
    }
    assert_eq!(target_cells, distinct.len());
    let expected_initials = if map.targets.contains(&map.initial) { 0 } else { 1 };
    assert_eq!(initial_cells, expected_initials);
}

#[test]
fn generated_maze_is_searchable() {
    let mut map = robot_nav::generate_maze(16, 16, 2);
    let report = run_search(&mut map, Algorithm::Bfs, CostModel::Uniform);
    if let Some(path) = report.solution {
        assert_valid_solution(&map, &path);
    }
}

#[test]
fn start_on_target_reports_one_node_and_empty_path() {
    // The start coordinate can carry a target cell; every algorithm then
    // reports exactly one inspected node and the empty path.
    let text = "[3, 3]\n(1, 1)\n(1, 1)\n";
    for algorithm in ALL_ALGORITHMS {
        let mut map = Grid::parse(text.as_bytes()).unwrap();
        let report = run_search(&mut map, algorithm, CostModel::Uniform);
        assert_eq!(report.search_nodes, 1, "{:?}", algorithm);
        assert_eq!(report.solution, Some(vec![]), "{:?}", algorithm);
    }
}

#[test]
fn searches_never_clear_marks() {
    // The single-pass searches only add visited marks; a mark present
    // before the run survives it. (Iterative deepening is the exception:
    // it clears all marks between its rounds.)
    for algorithm in [Algorithm::Bfs, Algorithm::Dfs, Algorithm::Gbfs, Algorithm::AStar,
        Algorithm::WeightedAStar, Algorithm::UniformCost]
    {
        let mut map = maze();
        map.mark_visited((10, 4));
        let _ = run_search(&mut map, algorithm, CostModel::Uniform);
        assert_eq!(*map.read_cell((10, 4)), CellType::Blank(true), "{:?}", algorithm);
    }
}

#[test]
fn node_count_equals_passed_dequeues() {
    // For the frontier searches the node count is the number of dequeues
    // that passed the duplicate filter: one per newly marked cell, plus
    // one for the reached target.
    let mut map = Grid::parse(OPEN_5X5.as_bytes()).unwrap();
    let before = map.count_visited();
    let report = run_search(&mut map, Algorithm::Bfs, CostModel::Uniform);
    assert!(report.solution.is_some());
    assert_eq!(report.search_nodes, map.count_visited() - before + 1);

    let mut map = Grid::parse(OPEN_5X5.as_bytes()).unwrap();
    let before = map.count_visited();
    let report = run_search(&mut map, Algorithm::AStar, CostModel::Uniform);
    assert!(report.solution.is_some());
    assert_eq!(report.search_nodes, map.count_visited() - before + 1);
}
