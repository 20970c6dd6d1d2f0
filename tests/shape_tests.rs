use std::str::FromStr;
use tiling_mino_solver::{Rotation, Scale, Shape};

#[test]
fn test_shape_toggle() {
    let mut shape = Shape::from_str("##\n.#").unwrap();
    assert_eq!(shape.is_wall(0, 0), true);
    assert_eq!(shape.is_wall(1, 0), true);
    assert_eq!(shape.is_wall(0, 1), false);
    assert_eq!(shape.is_wall(1, 1), true);

    shape.toggle(0, 1);
    assert_eq!(shape.is_wall(0, 0), true);
    assert_eq!(shape.is_wall(1, 0), true);
    assert_eq!(shape.is_wall(0, 1), true);
    assert_eq!(shape.is_wall(1, 1), true);
    shape.toggle(0, 0);
    assert_eq!(shape.is_wall(0, 0), false);
    assert_eq!(shape.is_wall(1, 0), true);
    assert_eq!(shape.is_wall(0, 1), true);
    assert_eq!(shape.is_wall(1, 1), true);
}

#[test]
fn test_shape_new() {
    let shape = Shape::new(vec![vec![true, true], vec![false, true]]);
    let expected = Shape::from_str("##\n.#").unwrap();
    assert_eq!(shape, expected);
}

#[test]
fn scale_shape_test() {
    // #.
    // .#
    let mut shape = Shape::new(vec![vec![true, false], vec![false, true]]);
    let first = shape.clone();
    assert_eq!(shape.width(), 2);
    assert_eq!(shape.height(), 2);
    // #..
    // .#.
    shape.increment_width();
    assert_eq!(shape.width(), 3);
    assert_eq!(shape.height(), 2);
    assert!(!shape.is_wall(2, 0));
    assert!(!shape.is_wall(2, 1));
    assert!(shape.is_wall(1, 1));
    assert_eq!(
        shape,
        Shape::new(vec![vec![true, false, false], vec![false, true, false]])
    );
    // #..
    // .#.
    // ...
    shape.increment_height();
    assert_eq!(shape.width(), 3);
    assert_eq!(shape.height(), 3);
    assert!(!shape.is_wall(0, 2));
    assert!(!shape.is_wall(1, 2));
    assert!(!shape.is_wall(2, 2));
    assert_eq!(
        shape,
        Shape::new(vec![
            vec![true, false, false],
            vec![false, true, false],
            vec![false, false, false]
        ])
    );
    // #.
    // .#
    // ..
    shape.decrement_width();
    assert_eq!(shape.width(), 2);
    assert_eq!(shape.height(), 3);
    assert_eq!(
        shape,
        Shape::new(vec![
            vec![true, false],
            vec![false, true],
            vec![false, false]
        ])
    );
    shape.decrement_height();
    assert_eq!(shape.width(), 2);
    assert_eq!(shape.height(), 2);
    assert_eq!(shape, first);
}

#[test]
fn shape_from_text_skips_empty_lines() {
    let shape = Shape::from_text("\n#.\n\n.#\n").unwrap();
    assert_eq!(
        *shape.rows(),
        vec![vec![true, false], vec![false, true]]
    );
}

#[test]
fn shape_from_text_rejects_ragged_rows() {
    assert!(Shape::from_text("##\n#").is_err());
}

#[test]
fn shape_from_text_rejects_empty_text() {
    assert!(Shape::from_text("").is_err());
    assert!(Shape::from_text("\n\n").is_err());
}

#[test]
fn shape_counts_walls_and_vacant_cells() {
    let shape = Shape::from_text("##.\n.#.").unwrap();
    assert_eq!(shape.count_wall(), 3);
    assert_eq!(shape.count_vacant(), 3);
    let full = Shape::from_text("xx\nxx").unwrap();
    assert_eq!(full.count_wall(), 4);
    assert_eq!(full.count_vacant(), 0);
}

#[test]
fn shape_put_on_only_sets() {
    let mut shape = Shape::from_text("#.\n..").unwrap();
    shape.put_on(0, 0, false);
    assert!(shape.is_wall(0, 0));
    shape.put_on(1, 1, false);
    assert!(!shape.is_wall(1, 1));
    shape.put_on(1, 1, true);
    assert!(shape.is_wall(1, 1));
}

#[test]
fn shape_coordinates_row_major() {
    let shape = Shape::from_text("#.\n.#\n..").unwrap();
    assert_eq!(
        shape.coordinates(),
        vec![
            (0, 0, true),
            (1, 0, false),
            (0, 1, false),
            (1, 1, true),
            (0, 2, false),
            (1, 2, false),
        ]
    );
}

#[test]
fn shape_four_turns_give_it_back() {
    let shape = Shape::from_text("###\n..#").unwrap();
    for r in [Rotation::Neutral, Rotation::Left, Rotation::Right, Rotation::OneEighty] {
        let turned = shape.rotated(&r).rotated(&r).rotated(&r).rotated(&r);
        assert_eq!(turned, shape);
    }
}

#[test]
fn shape_two_quarter_turns_are_a_half_turn() {
    let shape = Shape::from_text("##.\n..#\n#..\n.##").unwrap();
    let half = shape.rotated(&Rotation::OneEighty);
    assert_eq!(shape.rotated(&Rotation::Left).rotated(&Rotation::Left), half);
    assert_eq!(shape.rotated(&Rotation::Right).rotated(&Rotation::Right), half);
}

#[test]
fn shape_turn_dimensions() {
    let shape = Shape::from_text("###\n..#").unwrap();
    let left = shape.rotated(&Rotation::Left);
    let right = shape.rotated(&Rotation::Right);
    let half = shape.rotated(&Rotation::OneEighty);
    assert_eq!((left.width(), left.height()), (2, 3));
    assert_eq!((right.width(), right.height()), (2, 3));
    assert_eq!((half.width(), half.height()), (3, 2));
}

#[test]
fn shape_from_text_drops_carriage_returns() {
    let shape = Shape::from_text("#.\r\n.#\r\n").unwrap();
    assert_eq!(
        *shape.rows(),
        vec![vec![true, false], vec![false, true]]
    );
    assert!(Shape::from_text("#\r\n##").is_err());
}
