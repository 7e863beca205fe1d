use robot_nav::grid::{CellType, Grid};
use robot_nav::textform::GridError;

const DEFAULT_TEXT: &str = "[5,11]\n(0,1)\n(7,0) | (10,3)\n(2,0,2,2)\n(8,0,1,2)\n(10,0,1,1)\n(2,3,1,1)\n(9,3,1,1)\n(8,4,2,1)\n(2,4,4,1)\n";

const MESSY_TEXT: &str = "[ 5 , 11 ]\r\n ( 0 , 1 ) \r\n ( 7 , 0 )  |  ( 10 , 3 ) \n( 2, 0, 2, 2 )\n(8 ,0 ,1 ,2)\n( 10,0,1,1)\n(2,3,1,1 )\n  (9,3,1,1)\n(8,4,2,1)  \n(2,4,4,1)\n";

fn parse_test(map: &Grid) {
    let rendered = String::from_utf8(map.render()).unwrap();
    rendered
        .lines()
        .zip(
            [
                "  XX   TX X",
                "I XX    X  ",
                "           ",
                "  X      XT",
                "  XXXX  XX ",
            ]
            .iter(),
        )
        .for_each(|(gen, expect)| {
            assert_eq!(gen, *expect);
        });
}

#[test]
fn default_file_parse() {
    let map = Grid::parse(DEFAULT_TEXT.as_bytes()).unwrap();
    parse_test(&map);
}

#[test]
fn messy_space_file_parse() {
    let map = Grid::parse(MESSY_TEXT.as_bytes()).unwrap();
    parse_test(&map);
}

#[test]
fn parse_reads_fields() {
    let map = Grid::parse(DEFAULT_TEXT.as_bytes()).unwrap();
    assert_eq!(map.rows, 5);
    assert_eq!(map.cols, 11);
    assert_eq!(map.initial, (0, 1));
    assert_eq!(map.targets, vec![(7, 0), (10, 3)]);
    assert_eq!(*map.read_cell((0, 1)), CellType::Initial(false));
    assert_eq!(*map.read_cell((7, 0)), CellType::Target);
    assert_eq!(*map.read_cell((2, 0)), CellType::Wall(false));
    assert_eq!(*map.read_cell((0, 0)), CellType::Blank(false));
}

#[test]
fn parse_accepts_plus_signs() {
    let map = Grid::parse("[+3, +4]\n(+1, +2)\n(+2, +2)\n".as_bytes()).unwrap();
    assert_eq!(map.rows, 3);
    assert_eq!(map.cols, 4);
    assert_eq!(map.initial, (1, 2));
    assert_eq!(map.targets, vec![(2, 2)]);
}

fn expect_err(input: &[u8], expected: GridError) {
    match Grid::parse(input) {
        Ok(_) => panic!("expected a parse error"),
        Err(e) => assert_eq!(e, expected),
    }
}

#[test]
fn parse_missing_lines() {
    expect_err(b"", GridError::MissingLine);
    expect_err(b"[3, 3]\n(0, 0)\n", GridError::MissingLine);
}

#[test]
fn parse_bad_number() {
    expect_err(b"[3, x]\n(0, 0)\n(2, 2)\n", GridError::BadNumber);
    expect_err(b"[3]\n(0, 0)\n(2, 2)\n", GridError::BadNumber);
    expect_err(b"[3, 3]\n(0, 0)\n(2, 2)\n(1, 1, 1)\n", GridError::BadNumber);
}

#[test]
fn parse_bad_size() {
    expect_err(b"[0, 3]\n(0, 0)\n(2, 2)\n", GridError::BadSize);
    expect_err(b"[3, 0]\n(0, 0)\n(2, 2)\n", GridError::BadSize);
}

#[test]
fn parse_out_of_bounds() {
    expect_err(b"[3, 3]\n(3, 0)\n(2, 2)\n", GridError::OutOfBounds);
    expect_err(b"[3, 3]\n(0, 0)\n(2, 3)\n", GridError::OutOfBounds);
    expect_err(b"[3, 3]\n(0, 0)\n(2, 2)\n(2, 2, 2, 1)\n", GridError::OutOfBounds);
}

#[test]
fn serialize_round_trip() {
    let text = DEFAULT_TEXT;
    let map = Grid::parse(text.as_bytes()).unwrap();
    let written = map.serialize();
    let back = Grid::parse(written.as_slice()).unwrap();
    assert_eq!(back.rows, map.rows);
    assert_eq!(back.cols, map.cols);
    assert_eq!(back.initial, map.initial);
    assert_eq!(back.targets, map.targets);
    assert_eq!(back.values, map.values);
}

#[test]
fn generated_maze_round_trips() {
    let map = robot_nav::generate_maze(8, 12, 2);
    let written = map.serialize();
    let back = Grid::parse(written.as_slice()).unwrap();
    assert_eq!(back.rows, map.rows);
    assert_eq!(back.cols, map.cols);
    assert_eq!(back.initial, map.initial);
    assert_eq!(back.targets, map.targets);
    assert_eq!(back.values, map.values);
}

#[test]
fn serialize_exact_format() {
    let text = "[2, 3]\n(0, 0)\n(2, 1)\n(1, 0, 1, 1)\n";
    let map = Grid::parse(text.as_bytes()).unwrap();
    let written = String::from_utf8(map.serialize()).unwrap();
    assert_eq!(written, text);
}
