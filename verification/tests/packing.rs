use exact_cover::dlx::callback::SolutionCallback;
use exact_cover::problems::polyomino::{
    generate_subset, Board, CompoundConstraint, CompoundName, Orientation, Polyomino, PolyominoPacking,
};
use exact_cover::solver::{Command, Solver, SolverEvent, SolverThreadEvent};
use exact_cover::vector::Vector2D;

fn v(x: i32, y: i32) -> Vector2D {
    Vector2D { x, y }
}

fn o(reflection: bool, rotation: i32) -> Orientation {
    Orientation { reflection, rotation }
}

fn solve(prob: &PolyominoPacking) -> Vec<Vec<CompoundName>> {
    let gen_prob = prob.generate_problem();
    let names = gen_prob.names;
    let mut solver = Solver::new(gen_prob.problem);
    let mut mat = match solver.run() {
        Ok(Command::Spawn(mat)) => mat,
        _ => panic!("no worker to start"),
    };
    let mut cb = SolutionCallback::default();
    mat.solve(&mut cb);
    let mut solutions = vec![];
    for sol in cb.solutions {
        if let SolverEvent::SolutionFound(sol) = solver.map_event(SolverThreadEvent::SolutionFound(sol)) {
            solutions.push(sol.iter().map(|&s| names[s as usize]).collect());
        }
    }
    solutions
}

#[test]
fn problem_can_be_solved() {
    let board = Board::from_bytes_array(&[b"...", b"...", b"..."]);

    let p1 = Polyomino::from_bytes_array(&[b"###", b"#.#"]).unwrap();
    let p2 = Polyomino::from_bytes_array(&[b"###", b".#."]).unwrap();

    let mut prob = PolyominoPacking::default();
    *prob.board_mut() = board;
    prob.add_piece(1, p1);
    prob.add_piece(2, p2);

    let solutions = solve(&prob);

    assert_eq!(solutions.len(), 4);
}

#[test]
fn packing_problem_lists_constraints_and_places() {
    let mut prob = PolyominoPacking::default();
    *prob.board_mut() = Board::from_bytes_array(&[b"..#", b"..."]);
    prob.add_piece(7, Polyomino::from_bytes_array(&[b"##"]).unwrap());
    prob.add_piece(9, Polyomino::from_bytes_array(&[b"#", b"#", b"#"]).unwrap());
    assert_eq!(prob.board().size(), v(3, 2));
    assert_eq!(prob.pieces().len(), 2);

    let gen = prob.generate_problem();
    assert_eq!(
        gen.constraints,
        vec![
            CompoundConstraint::Piece(7),
            CompoundConstraint::Piece(9),
            CompoundConstraint::Cell(v(0, 0)),
            CompoundConstraint::Cell(v(1, 0)),
            CompoundConstraint::Cell(v(0, 1)),
            CompoundConstraint::Cell(v(1, 1)),
            CompoundConstraint::Cell(v(2, 1)),
        ]
    );
    assert_eq!(
        gen.names,
        vec![
            (7, o(false, 0), v(0, 0)),
            (7, o(false, 0), v(0, 1)),
            (7, o(false, 0), v(1, 1)),
            (7, o(false, 1), v(0, 0)),
            (7, o(false, 1), v(1, 0)),
            (9, o(false, 1), v(0, 1)),
        ]
    );
    assert_eq!(gen.problem.constraint_count(), 7);
    for i in 0..7 {
        assert_eq!(gen.problem.constraint_at(i), Some((i as u64, (1, 1))));
    }
    assert_eq!(gen.problem.subset_count(), 6);
    assert_eq!(gen.problem.subset_at(0), Some((0, &vec![0, 2, 3])));
    assert_eq!(gen.problem.subset_at(2), Some((2, &vec![0, 5, 6])));
    assert_eq!(gen.problem.subset_at(3), Some((3, &vec![0, 2, 4])));
    assert_eq!(gen.problem.subset_at(5), Some((5, &vec![1, 4, 5, 6])));
}

#[test]
fn adding_a_piece_again_replaces_it() {
    let mut prob = PolyominoPacking::default();
    *prob.board_mut() = Board::from_bytes_array(&[b".."]);
    prob.add_piece(1, Polyomino::from_bytes_array(&[b"#"]).unwrap());
    prob.add_piece(2, Polyomino::from_bytes_array(&[b"#"]).unwrap());
    prob.add_piece(1, Polyomino::from_bytes_array(&[b"##"]).unwrap());
    assert_eq!(prob.pieces().len(), 2);
    assert_eq!(prob.pieces().get_index(0).unwrap().1.size(), v(2, 1));
    prob.pieces_mut().swap_remove_index(1);
    assert_eq!(solve(&prob), vec![vec![(1, o(false, 0), v(0, 0))]]);
}

#[test]
fn board_places_a_piece_in_each_orientation_that_differs() {
    let board = Board::from_bytes_array(&[b"...", b".#."]);
    let piece = Polyomino::from_bytes_array(&[b"##"]).unwrap();
    assert_eq!(
        board.placements(&piece),
        vec![(o(false, 0), v(0, 0)), (o(false, 0), v(1, 0)), (o(false, 1), v(0, 0)), (o(false, 1), v(2, 0))]
    );
    assert_eq!(board.free_cells(), vec![v(0, 0), v(1, 0), v(2, 0), v(0, 1), v(2, 1)]);
    let large = Polyomino::from_bytes_array(&[b"####"]).unwrap();
    assert_eq!(board.placements(&large), vec![]);
}

#[test]
fn placed_piece_covers_itself_and_its_cells() {
    let piece = Polyomino::from_bytes_array(&[b"##", b"#."]).unwrap();
    assert_eq!(
        generate_subset(4, &piece, v(2, 3)),
        vec![
            CompoundConstraint::Piece(4),
            CompoundConstraint::Cell(v(2, 3)),
            CompoundConstraint::Cell(v(2, 4)),
            CompoundConstraint::Cell(v(3, 3)),
        ]
    );
}
