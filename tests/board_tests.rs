use std::str::FromStr;
use tiling_mino_solver::{check_wall_count, Board, Mino, Rotation, Shape, SolveError, TransForm};

const FIXTURE_BOARD: &str = "####...
#......
.......
......#
......#
......#
#...###";

fn fixture_board() -> Board {
    Board::new(Shape::from_str(FIXTURE_BOARD).unwrap())
}

#[test]
fn test_put_mino() {
    let mut board = fixture_board();
    let mino = Mino::from_str(
        "a.
aa
aa
aa",
    )
    .unwrap();
    let t = TransForm {
        x: 1,
        y: 1,
        rotation: Rotation::Neutral,
    };
    assert!(board.can_put(&mino, &t));
    let expected = "####...
#a.....
.aa....
.aa...#
.aa...#
......#
#...###";
    board.put_mino(mino, t);
    assert_eq!(board.pretty_shape(), expected);
}

#[test]
fn test_put_rotated_mino() {
    let mut board = fixture_board();
    let mino = Mino::from_str(
        "a.
aa
aa
aa",
    )
    .unwrap();
    let t = TransForm {
        x: 1,
        y: 1,
        rotation: Rotation::Right,
    };
    assert!(board.can_put(&mino, &t));
    let expected = "####...
#aaaa..
.aaa...
......#
......#
......#
#...###";
    board.put_mino(mino, t);
    assert_eq!(board.pretty_shape(), expected);
}

#[test]
fn can_put_refuses_overlap() {
    let board = fixture_board();
    let mino = Mino::from_str("a.\naa\naa\naa").unwrap();
    let on_wall = TransForm { x: 0, y: 0, rotation: Rotation::Neutral };
    assert!(!board.can_put(&mino, &on_wall));
    let shifted = TransForm { x: 4, y: 0, rotation: Rotation::Neutral };
    assert!(board.can_put(&mino, &shifted));
    let corner = Mino::from_str("b.\nbb").unwrap();
    let hole = TransForm { x: 2, y: 0, rotation: Rotation::Neutral };
    assert!(!board.can_put(&corner, &hole));
    let next_to_wall = TransForm { x: 3, y: 0, rotation: Rotation::Right };
    assert!(!board.can_put(&corner, &next_to_wall));
}

#[test]
fn can_put_ignores_the_pieces_vacant_cells() {
    let board = Board::new(Shape::from_str("#.\n..").unwrap());
    let hook = Mino::from_str(".a\naa").unwrap();
    let t = TransForm { x: 0, y: 0, rotation: Rotation::Neutral };
    assert!(board.can_put(&hook, &t));
    let turned = TransForm { x: 0, y: 0, rotation: Rotation::OneEighty };
    assert!(!board.can_put(&hook, &turned));
}

#[test]
fn can_put_after_put_mino() {
    let mut board = fixture_board();
    let mino = Mino::from_str("a.\naa\naa\naa").unwrap();
    let t = TransForm { x: 1, y: 1, rotation: Rotation::Neutral };
    board.put_mino(mino.clone(), t);
    assert!(!board.can_put(&mino, &t));
    assert_eq!(board.shape.count_wall(), 12 + 7);
}

#[test]
fn search_can_put_lists_every_placement() {
    let board = Board::new(Shape::from_str("..\n.#").unwrap());
    let domino = Mino::from_str("aa").unwrap();
    let ts = board.search_can_put(&domino);
    assert_eq!(
        ts,
        vec![
            TransForm { x: 0, y: 0, rotation: Rotation::Neutral },
            TransForm { x: 0, y: 0, rotation: Rotation::Left },
            TransForm { x: 0, y: 0, rotation: Rotation::Right },
            TransForm { x: 0, y: 0, rotation: Rotation::OneEighty },
        ]
    );
}

#[test]
fn search_can_put_piece_larger_than_board() {
    let board = Board::new(Shape::from_str("..").unwrap());
    let bar = Mino::from_str("aaa").unwrap();
    assert!(board.search_can_put(&bar).is_empty());
}

fn small_pieces() -> Vec<Mino> {
    Mino::minos_from_text("1\nbbb\n-\n1\naaaa").unwrap()
}

#[test]
fn tile_serial_finds_tiling() {
    let board = Board::new(Shape::from_str("#...\n....").unwrap());
    let tiled = board.tile_serial(&small_pieces()).unwrap();
    assert_eq!(tiled.pretty_shape(), "#bbb\naaaa");
}

#[test]
fn tile_parallel_finds_tiling() {
    let board = Board::new(Shape::from_str("#...\n....").unwrap());
    let tiled = board.tile_parallel(&small_pieces()).unwrap();
    assert_eq!(tiled.pretty_shape(), "#bbb\naaaa");
}

#[test]
fn tile_with_no_pieces_returns_the_board() {
    let board = Board::new(Shape::from_str("#.\n..").unwrap());
    assert_eq!(board.tile_serial(&[]), Some(board.clone()));
    assert_eq!(board.tile_parallel(&[]), Some(board.clone()));
}

#[test]
fn serial_and_parallel_agree() {
    let ring = Board::new(Shape::from_str("...\n.#.\n...").unwrap());
    let squares = Mino::minos_from_text("2\nss\nss").unwrap();
    assert!(ring.tile_serial(&squares).is_none());
    assert!(ring.tile_parallel(&squares).is_none());
    let bars = Mino::minos_from_text("2\nbbb\n-\n2\nc").unwrap();
    assert!(ring.tile_serial(&bars).is_some());
    assert!(ring.tile_parallel(&bars).is_some());
}

#[test]
fn bench_tile_parallel() {
    let board = Board::new(Shape::from_str("#....\n.....\n.....\n....#").unwrap());
    let minos = Mino::minos_from_text("2\nl..\nlll\n-\n1\nss\nss\n-\n1\niiii\n-\n1\ndd").unwrap();
    assert!(board.tile_parallel(&minos).is_some());
}

#[test]
fn bench_tile_serial() {
    let board = Board::new(Shape::from_str("#....\n.....\n.....\n....#").unwrap());
    let minos = Mino::minos_from_text("2\nl..\nlll\n-\n1\nss\nss\n-\n1\niiii\n-\n1\ndd").unwrap();
    assert!(board.tile_serial(&minos).is_some());
}

#[test]
fn check_wall_count_reports_mismatch() {
    let board = Board::new(Shape::from_str("#...\n....").unwrap());
    let minos = Mino::minos_from_text("1\nbbb").unwrap();
    assert_eq!(
        check_wall_count(&minos, &board),
        Err(SolveError::WallCountMismatch { piece_walls: 3, vacant: 7 })
    );
    assert_eq!(check_wall_count(&small_pieces(), &board), Ok(()));
}

#[test]
fn solve_refuses_mismatch_without_search() {
    let board = Board::new(Shape::from_str("#...\n....").unwrap());
    let minos = Mino::minos_from_text("3\naaaa").unwrap();
    assert_eq!(
        board.solve(minos),
        Err(SolveError::WallCountMismatch { piece_walls: 12, vacant: 7 })
    );
}

#[test]
fn solve_reports_unsatisfiable() {
    let ring = Board::new(Shape::from_str("...\n.#.\n...").unwrap());
    let squares = Mino::minos_from_text("2\nss\nss").unwrap();
    assert_eq!(ring.solve(squares), Err(SolveError::Unsatisfiable));
}

#[test]
fn solve_covers_every_cell() {
    let board = Board::new(Shape::from_str("#....\n.....\n.....\n....#").unwrap());
    let minos = Mino::minos_from_text("1\ndd\n-\n1\nss\nss\n-\n1\niiii\n-\n2\nl..\nlll").unwrap();
    let solved = board.solve(minos).unwrap();
    assert_eq!(solved.shape.count_wall(), solved.width() * solved.height());
    assert_eq!(solved.shape.count_vacant(), 0);
    let drawn = solved.pretty_shape();
    assert!(!drawn.contains('.'));
    assert_eq!(drawn.chars().filter(|&c| c == '#').count(), 2);
    assert_eq!(drawn.chars().filter(|&c| c == 's').count(), 4);
    assert_eq!(drawn.chars().filter(|&c| c == 'l').count(), 8);
    assert_eq!(drawn.chars().filter(|&c| c == 'i').count(), 4);
    assert_eq!(drawn.chars().filter(|&c| c == 'd').count(), 2);
}

#[test]
fn tile_serial_takes_first_placement_in_search_order() {
    let board = Board::new(Shape::from_str("....\n....").unwrap());
    let minos = Mino::minos_from_text("1\naa\n-\n1\nbb").unwrap();
    let tiled = board.tile_serial(&minos).unwrap();
    assert_eq!(tiled.pretty_shape(), "aabb\n....");
}

#[test]
fn board_shape_getter_matches_field() {
    let board = fixture_board();
    assert_eq!(board.shape().count_wall(), 12);
    assert_eq!(board.shape().count_vacant(), 37);
}
