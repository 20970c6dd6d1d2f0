use std::str::FromStr;
use tiling_mino_solver::{sort_by_wall_count, Mino, Rotation, Shape};

#[test]
fn test_mino_from_str() {
    let mino = Mino::from_str("###\n.##").unwrap();
    assert_eq!(
        *mino.shape.rows(),
        vec![vec![true, true, true], vec![false, true, true]]
    );
    assert_eq!(mino.height(), 2);
    assert_eq!(mino.width(), 3);
}

#[test]
fn test_mino_rotated_left() {
    // ###
    // ..#
    let mino = Mino::from_str("###\n..#").unwrap();
    // ##
    // #.
    // #.
    assert_eq!(
        mino.rotated(&Rotation::Left),
        Mino::from_str("##\n#.\n#.").unwrap()
    );
}

#[test]
fn test_mino_rotated_right() {
    // ###
    // ..#
    let mino = Mino::from_str("###\n..#").unwrap();
    // .#
    // .#
    // ##
    assert_eq!(
        mino.rotated(&Rotation::Right),
        Mino::from_str(".#\n.#\n##").unwrap()
    );
}

#[test]
fn test_mino_rotated_one_eighty() {
    // ###
    // ..#
    let mino = Mino::from_str("###\n..#").unwrap();
    // #..
    // ###
    assert_eq!(
        mino.rotated(&Rotation::OneEighty),
        Mino::from_str("#..\n###").unwrap()
    );
}

#[test]
fn mino_from_text_takes_the_label() {
    let mino = Mino::from_text("b.\nbb").unwrap();
    assert_eq!(mino.name, 'b');
    assert_eq!(mino.count_wall(), 3);
    assert_eq!(mino.rotated(&Rotation::Left).name, 'b');
}

#[test]
fn mino_from_text_rejects_two_labels() {
    assert!(Mino::from_text("ab\naa").is_err());
}

#[test]
fn mino_from_text_rejects_no_label() {
    assert!(Mino::from_text("..\n..").is_err());
}

#[test]
fn mino_from_text_rejects_ragged_rows() {
    assert!(Mino::from_text("aa\na.a").is_err());
}

#[test]
fn minos_from_text_expands_counts() {
    let minos = Mino::minos_from_text("2\naa\n-----\n1\nb.\nbb\n").unwrap();
    assert_eq!(minos.len(), 3);
    let domino = Mino::new('a', Shape::new(vec![vec![true, true]]));
    let corner = Mino::new('b', Shape::new(vec![vec![true, false], vec![true, true]]));
    assert_eq!(minos, vec![domino.clone(), domino, corner]);
}

#[test]
fn minos_from_text_zero_count_gives_nothing() {
    let minos = Mino::minos_from_text("0\naa").unwrap();
    assert!(minos.is_empty());
}

#[test]
fn minos_from_text_rejects_bad_count() {
    assert!(Mino::minos_from_text("x\naa").is_err());
    assert!(Mino::minos_from_text("2\naa\n---\n").is_err());
    assert!(Mino::minos_from_text("99999999999999999999999\naa").is_err());
}

#[test]
fn minos_from_text_rejects_bad_piece() {
    assert!(Mino::minos_from_text("1\nab").is_err());
}

#[test]
fn sort_puts_larger_pieces_first() {
    let minos = Mino::minos_from_text("1\na\n-\n1\nbbb\n-\n1\ncc\n-\n1\nd.\ndd").unwrap();
    let sorted = sort_by_wall_count(minos);
    let names: Vec<char> = sorted.iter().map(|m| m.name).collect();
    assert_eq!(names, vec!['b', 'd', 'c', 'a']);
}

#[test]
fn minos_from_text_reads_crlf_lines() {
    let minos = Mino::minos_from_text("1\r\na").unwrap();
    assert_eq!(minos, vec![Mino::new('a', Shape::new(vec![vec![true]]))]);
    let more = Mino::minos_from_text("2\r\naa\r\n-----\r\n1\r\nb.\r\nbb\r\n").unwrap();
    assert_eq!(more.len(), 3);
    assert_eq!(more[2], Mino::new('b', Shape::new(vec![vec![true, false], vec![true, true]])));
}

#[test]
fn mino_from_text_reads_crlf_lines() {
    let mino = Mino::from_text("a.\r\naa").unwrap();
    assert_eq!(mino, Mino::from_text("a.\naa").unwrap());
}
