use robot_nav::grid::{CellType, Grid};
use robot_nav::search::{CustomMoveWeight, Direction, MoveWeight, UniformMoveWeight};
use robot_nav::heuristics::{CustomManhattan, DefaultHeuristic, Heuristic, ManhattanHeuristic};
use robot_nav::cursor::Cursor;
use robot_nav::queue::{FIFOQueue, SortedQueue};
use robot_nav::filters::{branch_duped, global_duped};
use robot_nav::{run_search, Algorithm, Config, CostModel};

fn maze() -> Grid {
    let text = "[5,11]\n(0,1)\n(7,0) | (10,3)\n(2,0,2,2)\n(8,0,1,2)\n(10,0,1,1)\n(2,3,1,1)\n(9,3,1,1)\n(8,4,2,1)\n(2,4,4,1)\n";
    Grid::parse(text.as_bytes()).unwrap()
}

#[test]
fn direction_enumeration_order() {
    assert_eq!(
        Direction::iter(),
        vec![Direction::Up, Direction::Left, Direction::Down, Direction::Right]
    );
}

#[test]
fn move_weights() {
    for d in Direction::iter() {
        assert_eq!(UniformMoveWeight.weigh(&d), 1);
    }
    assert_eq!(CustomMoveWeight::weigh(&Direction::Up), 4);
    assert_eq!(CustomMoveWeight::weigh(&Direction::Down), 1);
    assert_eq!(CustomMoveWeight::weigh(&Direction::Left), 3);
    assert_eq!(CustomMoveWeight::weigh(&Direction::Right), 2);
    assert_eq!(CustomMoveWeight.weigh(&Direction::Up), 4);
}

#[test]
fn adjacency_respects_boundaries() {
    let map = maze();
    assert_eq!(map.adjacent((0, 0), Direction::Up), None);
    assert_eq!(map.adjacent((0, 0), Direction::Left), None);
    assert_eq!(map.adjacent((0, 0), Direction::Down), Some((0, 1)));
    assert_eq!(map.adjacent((0, 0), Direction::Right), Some((1, 0)));
    assert_eq!(map.adjacent((10, 4), Direction::Down), None);
    assert_eq!(map.adjacent((10, 4), Direction::Right), None);

    // Neighbours come strictly in Up, Left, Down, Right order.
    let n = map.adjacents((5, 2));
    assert_eq!(
        n,
        vec![
            (Direction::Up, (5, 1)),
            (Direction::Left, (4, 2)),
            (Direction::Down, (5, 3)),
            (Direction::Right, (6, 2)),
        ]
    );
    let corner = map.adjacents((0, 0));
    assert_eq!(corner, vec![(Direction::Down, (0, 1)), (Direction::Right, (1, 0))]);
}

#[test]
fn heuristic_estimates() {
    let map = maze();
    assert_eq!(DefaultHeuristic.estimate((0, 1)), 0);
    let manhattan = ManhattanHeuristic::init(&map);
    // Targets are (7,0) and (10,3): distances 8 and 12 from (0,1).
    assert_eq!(manhattan.estimate((0, 1)), 8);
    assert_eq!(manhattan.estimate((7, 0)), 0);
    let custom = CustomManhattan::init(&map);
    // Towards (7,0): 7 columns weighted 3, 1 row weighted 1 = 22;
    // towards (10,3): 10 columns weighted 3, 2 rows weighted 4 = 38.
    assert_eq!(custom.estimate((0, 1)), 22);
}

fn cursor_with(path: Vec<Direction>, weight: u128) -> Cursor {
    Cursor { path, position: (0, 0), heuristic: 0, path_cost: 0, weight }
}

#[test]
fn fifo_queue_is_first_in_first_out() {
    let mut q: FIFOQueue<usize> = FIFOQueue::init();
    assert!(q.dequeue().is_none());
    q.queue(1);
    q.queue(2);
    q.queue(3);
    assert_eq!(q.dequeue(), Some(1));
    q.queue(4);
    assert_eq!(q.dequeue(), Some(2));
    assert_eq!(q.dequeue(), Some(3));
    assert_eq!(q.dequeue(), Some(4));
    assert!(q.dequeue().is_none());
}

#[test]
fn sorted_queue_orders_by_weight_then_direction() {
    let mut q = SortedQueue::init();
    assert!(q.dequeue().is_none());
    q.queue(cursor_with(vec![Direction::Right], 5));
    q.queue(cursor_with(vec![Direction::Down], 5));
    q.queue(cursor_with(vec![Direction::Up], 5));
    q.queue(cursor_with(vec![Direction::Left], 5));
    q.queue(cursor_with(vec![Direction::Right], 2));
    // Lightest weight first; on ties Up beats Left beats Down beats Right.
    assert_eq!(q.dequeue().unwrap().weight, 2);
    assert_eq!(q.dequeue().unwrap().path, vec![Direction::Up]);
    assert_eq!(q.dequeue().unwrap().path, vec![Direction::Left]);
    assert_eq!(q.dequeue().unwrap().path, vec![Direction::Down]);
    assert_eq!(q.dequeue().unwrap().path, vec![Direction::Right]);
    assert!(q.dequeue().is_none());
}

#[test]
fn sorted_queue_breaks_full_ties_by_insertion() {
    let mut q = SortedQueue::init();
    let mut a = cursor_with(vec![Direction::Up], 7);
    a.heuristic = 1;
    let mut b = cursor_with(vec![Direction::Up], 7);
    b.heuristic = 2;
    q.queue(a);
    q.queue(b);
    assert_eq!(q.dequeue().unwrap().heuristic, 1);
    assert_eq!(q.dequeue().unwrap().heuristic, 2);
}

#[test]
fn duplicate_filters() {
    let mut map = maze();
    let fresh = cursor_with(vec![Direction::Down], 0);
    assert!(!global_duped(&map, &fresh));
    map.mark_visited((0, 0));
    let revisit = Cursor { path: vec![], position: (0, 0), heuristic: 0, path_cost: 0, weight: 0 };
    assert!(global_duped(&map, &revisit));

    // A path that returns to an earlier cell is a cycle; one that does not
    // is kept even over visited cells.
    let looped = cursor_with(vec![Direction::Down, Direction::Right, Direction::Up, Direction::Left], 0);
    assert!(branch_duped(&map, &looped));
    let straight = cursor_with(vec![Direction::Down, Direction::Down, Direction::Right], 0);
    assert!(!branch_duped(&map, &straight));
}

#[test]
fn visits_are_counted_and_cleared() {
    let mut map = maze();
    // A fresh grid has only its two target cells in the written count.
    assert_eq!(map.count_visited(), 2);
    let _ = run_search(&mut map, Algorithm::Bfs, CostModel::Uniform);
    assert!(map.count_visited() > 2);
    map.clear_visits();
    assert_eq!(map.count_visited(), 2);
}

#[test]
fn cell_access() {
    let mut map = maze();
    assert_eq!(map.index((3, 2)), 3 + 2 * 11);
    assert_eq!(*map.read_cell((2, 0)), CellType::Wall(false));
    map.set_cell((5, 2), CellType::Wall(false));
    assert_eq!(*map.read_cell((5, 2)), CellType::Wall(false));
    *map.read_cell_mut((5, 2)) = CellType::Blank(true);
    assert_eq!(*map.read_cell((5, 2)), CellType::Blank(true));
    map.mark_visited((0, 1));
    assert_eq!(*map.read_cell((0, 1)), CellType::Initial(true));
}

#[test]
fn config_defaults() {
    let config = Config::default();
    assert!(config.map_file.is_empty());
    assert!(config.method.is_empty());
    assert!(config.save_map.is_none());
    assert!(!config.var_move_wt);
    assert_eq!(config.target_count(), 2);
    let (rows, cols) = config.rand_size();
    assert!((16..32).contains(&rows));
    assert!((16..128).contains(&cols));

    let fixed = Config { rand_size: Some((6, 7)), target_count: Some(4), ..Config::default() };
    assert_eq!(fixed.rand_size(), (6, 7));
    assert_eq!(fixed.target_count(), 4);
}

#[test]
fn smallest_generated_maze() {
    let map = robot_nav::generate_maze(2, 2, 1);
    assert_eq!(map.rows, 2);
    assert_eq!(map.cols, 2);
    assert_eq!(map.targets.len(), 1);
    assert!(map.initial.0 < 2 && map.initial.1 < 2);
}

#[test]
fn uninformed_search_needs_no_targets() {
    // A grid can hold no target at all; the uninformed searches simply
    // exhaust it.
    let mut map = Grid {
        rows: 2,
        cols: 2,
        initial: (0, 0),
        targets: Vec::new(),
        values: vec![
            CellType::Initial(false),
            CellType::Blank(false),
            CellType::Blank(false),
            CellType::Blank(false),
        ],
    };
    let report = run_search(&mut map, Algorithm::Bfs, CostModel::Uniform);
    assert!(report.solution.is_none());
    assert_eq!(map.count_visited(), 4);
}
