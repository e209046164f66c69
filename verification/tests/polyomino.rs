use std::collections::HashSet;

use exact_cover::problems::polyomino::{Board, CompoundConstraint, Orientation, Polyomino};
use exact_cover::vector::Vector2D;

fn v(x: i32, y: i32) -> Vector2D {
    Vector2D { x, y }
}

fn compare_unique_orientations(piece: &Polyomino, expected: &[(bool, i32)]) {
    assert_eq!(
        piece.unique_orientations().into_iter().collect::<HashSet<_>>(),
        expected
            .iter()
            .map(|&(f, r)| Orientation { reflection: f, rotation: r })
            .collect::<HashSet<_>>()
    )
}

#[test]
fn unique_orientations_can_be_found() {
    let tetro_l = Polyomino::from_bytes_array(&[b".#.", b".#.", b".##"]).unwrap();
    compare_unique_orientations(
        &tetro_l,
        &[(false, 0), (false, 1), (false, 2), (false, 3), (true, 0), (true, 1), (true, 2), (true, 3)],
    );

    let tetro_s = Polyomino::from_bytes_array(&[b"...", b".##", b"##."]).unwrap();
    compare_unique_orientations(&tetro_s, &[(false, 0), (false, 1), (true, 0), (true, 1)]);

    let tetro_o = Polyomino::from_bytes_array(&[b"...", b".##", b".##"]).unwrap();
    compare_unique_orientations(&tetro_o, &[(false, 0)]);

    let pento_w = Polyomino::from_bytes_array(&[b"..#", b".##", b"##."]).unwrap();
    compare_unique_orientations(&pento_w, &[(false, 0), (false, 1), (false, 2), (false, 3)]);
}

#[test]
fn unique_orientations_come_in_order() {
    let tetro_s = Polyomino::from_bytes_array(&[b"...", b".##", b"##."]).unwrap();
    assert_eq!(
        tetro_s.unique_orientations(),
        vec![
            Orientation { reflection: false, rotation: 0 },
            Orientation { reflection: false, rotation: 1 },
            Orientation { reflection: true, rotation: 0 },
            Orientation { reflection: true, rotation: 1 },
        ]
    );
}

#[test]
fn new_piece_is_normalized_and_sorted() {
    let piece = Polyomino::new(&[v(5, 7), v(4, 7), v(5, 6), v(5, 8)]).unwrap();
    assert_eq!(piece.cells(), &vec![v(0, 1), v(1, 0), v(1, 1), v(1, 2)]);
    assert_eq!(piece.size(), v(2, 3));
}

#[test]
fn blank_piece_is_refused() {
    let err = Polyomino::new(&[]).unwrap_err();
    assert_eq!(err.message(), "Invalid (blank) piece.");
    assert!(Polyomino::from_bytes_array(&[b"...", b"..."]).is_err());
    assert!(Polyomino::from_bytes_array(&[]).is_err());
}

#[test]
fn piece_from_bytes_reads_hashes() {
    let piece = Polyomino::from_bytes_array(&[b"....", b".#x.", b".##."]).unwrap();
    assert_eq!(piece.cells(), &vec![v(0, 0), v(0, 1), v(1, 1)]);
    assert_eq!(piece.size(), v(2, 2));
}

#[test]
fn piece_is_reflected_and_rotated() {
    // #.
    // ##
    // #.
    let piece = Polyomino::from_bytes_array(&[b"#.", b"##", b"#."]).unwrap();
    assert_eq!(piece.reflect().cells(), &vec![v(0, 1), v(1, 0), v(1, 1), v(1, 2)]);
    assert_eq!(piece.rotate(0).cells(), piece.cells());
    assert_eq!(piece.rotate(1).cells(), &vec![v(0, 0), v(1, 0), v(1, 1), v(2, 0)]);
    assert_eq!(piece.rotate(1).size(), v(3, 2));
    assert_eq!(piece.rotate(2).cells(), &vec![v(0, 1), v(1, 0), v(1, 1), v(1, 2)]);
    assert_eq!(piece.rotate(3).cells(), &vec![v(0, 1), v(1, 0), v(1, 1), v(2, 1)]);
    assert_eq!(piece.rotate(-1), piece.rotate(3));
    assert_eq!(piece.rotate(5), piece.rotate(1));
    assert_eq!(piece.orient(Orientation { reflection: true, rotation: 0 }), piece.reflect());
    assert_eq!(piece.orient(Orientation { reflection: true, rotation: 1 }), piece.reflect().rotate(1));
    assert_eq!(piece.orient(Orientation { reflection: false, rotation: 2 }), piece.rotate(2));
}

#[test]
fn cells_are_translated() {
    let piece = Polyomino::from_bytes_array(&[b"##", b"#."]).unwrap();
    assert_eq!(piece.translated_cells(v(3, -2)), vec![v(3, -2), v(3, -1), v(4, -2)]);
}

#[test]
fn vector_is_rotated_added_and_subtracted() {
    assert_eq!(v(2, 1).rotate(0), v(2, 1));
    assert_eq!(v(2, 1).rotate(1), v(-1, 2));
    assert_eq!(v(2, 1).rotate(2), v(-2, -1));
    assert_eq!(v(2, 1).rotate(3), v(1, -2));
    assert_eq!(v(2, 1).rotate(4), v(2, 1));
    assert_eq!(v(2, 1).rotate(-1), v(1, -2));
    assert_eq!(v(2, 1).rotate(-6), v(-2, -1));
    assert_eq!(v(2, 1) + v(10, -20), v(12, -19));
    assert_eq!(v(2, 1) - v(10, -20), v(-8, 21));
    assert!(v(1, 5) < v(2, 0));
    assert!(v(1, 5) < v(1, 6));
}

#[test]
fn board_is_read_from_bytes() {
    let board = Board::from_bytes_array(&[b"..#", b"#.."]);
    assert_eq!(board.size(), v(3, 2));
    assert_eq!(board.cells(), &vec![vec![true, true, false], vec![false, true, true]]);
    let same = Board::new(vec![vec![true, true, false], vec![false, true, true]]);
    assert_eq!(same.size(), v(3, 2));
    assert_eq!(same.cells(), board.cells());
}

#[test]
fn piece_fits_on_empty_cells_within_the_board() {
    let board = Board::from_bytes_array(&[b"..#", b"#..", b"..."]);
    let piece = Polyomino::from_bytes_array(&[b"##"]).unwrap();
    let flat = Orientation { reflection: false, rotation: 0 };
    let upright = Orientation { reflection: false, rotation: 1 };
    assert!(board.piece_fits(&piece, flat, v(0, 0)));
    assert!(!board.piece_fits(&piece, flat, v(1, 0)));
    assert!(!board.piece_fits(&piece, flat, v(0, 1)));
    assert!(board.piece_fits(&piece, flat, v(1, 1)));
    assert!(!board.piece_fits(&piece, flat, v(2, 1)));
    assert!(!board.piece_fits(&piece, flat, v(-1, 2)));
    assert!(!board.piece_fits(&piece, flat, v(0, 3)));
    assert!(board.piece_fits(&piece, upright, v(1, 0)));
    assert!(!board.piece_fits(&piece, upright, v(0, 0)));
    assert!(!board.piece_fits(&piece, upright, v(1, 2)));
}

#[test]
fn constraints_are_told_apart() {
    assert_eq!(CompoundConstraint::Piece(1), CompoundConstraint::Piece(1));
    assert_ne!(CompoundConstraint::Piece(1), CompoundConstraint::Piece(2));
    assert_ne!(CompoundConstraint::Piece(1), CompoundConstraint::Cell(v(1, 0)));
    assert_eq!(CompoundConstraint::Cell(v(1, 0)), CompoundConstraint::Cell(v(1, 0)));
}
