use exact_cover::dlx::callback::{Callback, SolutionCallback};
use exact_cover::dlx::dlx_m::Matrix;

fn solve_all(mat: &mut Matrix) -> Vec<Vec<usize>> {
    let mut cb = SolutionCallback::default();
    mat.solve(&mut cb);
    cb.solutions
}

fn sorted(mut sols: Vec<Vec<usize>>) -> Vec<Vec<usize>> {
    for s in sols.iter_mut() {
        s.sort();
    }
    sols.sort();
    sols
}

fn snapshot(mat: &Matrix) -> Vec<(usize, usize, usize, usize)> {
    (0..mat.node_count()).map(|i| mat.links(i)).collect()
}

/// Every choice of rows, each at most once, that covers each column within
/// its range.
fn brute_force(cols: usize, rows: &[&[usize]], ranges: &[(usize, usize)]) -> Vec<Vec<usize>> {
    let mut found = vec![];
    for mask in 0u32..(1 << rows.len()) {
        let mut count = vec![0usize; cols + 1];
        let mut chosen = vec![];
        for (i, row) in rows.iter().enumerate() {
            if mask & (1 << i) != 0 {
                chosen.push(i + 1);
                for &c in row.iter() {
                    count[c] += 1;
                }
            }
        }
        if (1..=cols).all(|c| ranges[c - 1].0 <= count[c] && count[c] <= ranges[c - 1].1) {
            found.push(chosen);
        }
    }
    found.sort();
    found
}

fn knuth() -> Matrix {
    let rows: [&[usize]; 6] = [&[3, 5, 6], &[1, 4, 7], &[2, 3, 6], &[1, 4], &[2, 7], &[4, 5, 7]];
    Matrix::with_rows(7, &rows)
}

fn four() -> Matrix {
    let rows: [&[usize]; 6] = [&[1, 2, 3], &[1], &[2], &[3], &[1, 2], &[2, 3]];
    Matrix::with_rows(3, &rows)
}

#[test]
fn matrix_search_should_solve_exact_cover() {
    let mut mat = knuth();
    let sols = solve_all(&mut mat);
    // options A, D and E: rows 1, 4 and 5
    assert_eq!(sorted(sols), vec![vec![1, 4, 5]]);
}

#[test]
fn knuth_solution_comes_in_search_order() {
    let mut mat = knuth();
    assert_eq!(solve_all(&mut mat), vec![vec![4, 1, 5]]);
}

#[test]
fn four_exact_covers() {
    let mut mat = four();
    let sols = solve_all(&mut mat);
    assert_eq!(sols, vec![vec![1], vec![2, 3, 4], vec![2, 6], vec![5, 4]]);
}

#[test]
fn new_matrix_has_root_and_headers() {
    let mat = Matrix::new(3);
    assert_eq!(mat.col_count(), 3);
    assert_eq!(mat.row_count(), 0);
    assert_eq!(mat.node_count(), 4);
    // left, right, up, down
    assert_eq!(mat.links(0), (3, 1, 0, 0));
    assert_eq!(mat.links(1), (0, 2, 1, 1));
    assert_eq!(mat.links(3), (2, 0, 3, 3));
    assert!(!mat.is_aborted());
}

#[test]
fn default_matrix_is_solved_by_no_row() {
    let mut mat = Matrix::default();
    assert_eq!(mat.node_count(), 1);
    assert_eq!(solve_all(&mut mat), vec![Vec::<usize>::new()]);
}

#[test]
fn add_row_links_items_into_rows_and_columns() {
    let mut mat = Matrix::new(3);
    mat.add_row(&[1, 3]);
    mat.add_row(&[3]);
    assert_eq!(mat.row_count(), 2);
    assert_eq!(mat.node_count(), 7);
    // row 1: nodes 4 and 5, row 2: node 6
    assert_eq!(mat.links(4), (5, 5, 1, 1));
    assert_eq!(mat.links(5), (4, 4, 3, 6));
    assert_eq!(mat.links(6), (6, 6, 5, 3));
    assert_eq!(mat.links(1), (0, 2, 4, 4));
    assert_eq!(mat.links(3), (2, 0, 6, 5));
    assert_eq!(mat.size_of(1), 1);
    assert_eq!(mat.size_of(2), 0);
    assert_eq!(mat.size_of(3), 2);
}

#[test]
fn empty_row_adds_no_node() {
    let mut mat = Matrix::new(1);
    mat.add_row(&[]);
    mat.add_row(&[1]);
    assert_eq!(mat.row_count(), 2);
    assert_eq!(mat.node_count(), 3);
    assert_eq!(solve_all(&mut mat), vec![vec![2]]);
}

#[test]
fn cover_then_uncover_restores_every_link() {
    let mut mat = knuth();
    let before = snapshot(&mat);
    let sizes: Vec<usize> = (0..=7).map(|c| mat.size_of(c)).collect();
    mat.cover_col(1);
    assert_ne!(snapshot(&mat), before);
    // column 1 left the header list
    assert_eq!(mat.links(0).1, 2);
    mat.cover_col(4);
    mat.cover_col(7);
    mat.uncover_col(7);
    mat.uncover_col(4);
    mat.cover_col(3);
    mat.uncover_col(3);
    mat.uncover_col(1);
    assert_eq!(snapshot(&mat), before);
    assert_eq!((0..=7).map(|c| mat.size_of(c)).collect::<Vec<_>>(), sizes);
}

#[test]
fn cover_hides_the_rows_that_cross_the_column() {
    let mut mat = knuth();
    mat.cover_col(1);
    // rows B = [1, 4, 7] and D = [1, 4] are hidden from columns 4 and 7
    assert_eq!(mat.size_of(1), 2);
    assert_eq!(mat.size_of(4), 1);
    assert_eq!(mat.size_of(7), 2);
    assert_eq!(mat.size_of(3), 2);
}

#[test]
fn solve_restores_links_and_weights() {
    let mut mat = four();
    let before = snapshot(&mat);
    let _ = solve_all(&mut mat);
    assert_eq!(snapshot(&mat), before);
    for c in 0..=3 {
        assert_eq!(mat.weight_of(c), 0);
    }
    assert!(!mat.is_aborted());
}

#[test]
fn two_runs_find_the_same_solutions_in_the_same_order() {
    let mut mat = four();
    let first = solve_all(&mut mat);
    let second = solve_all(&mut mat);
    assert_eq!(first, second);
    let mut other = four();
    assert_eq!(solve_all(&mut other), first);
}

#[test]
fn every_solution_is_within_the_ranges() {
    let rows: [&[usize]; 4] = [&[1, 2, 3], &[2], &[1, 2], &[2, 3]];
    let ranges = [(1, 1), (1, 2), (0, 1)];
    let mut mat = Matrix::with_rows(3, &rows);
    for (c, &(min, max)) in ranges.iter().enumerate() {
        mat.set_multiplicity(c + 1, min, max);
    }
    let sols = solve_all(&mut mat);
    assert!(!sols.is_empty());
    for sol in &sols {
        for c in 1..=3 {
            let count = sol.iter().filter(|&&r| rows[r - 1].contains(&c)).count();
            assert!(ranges[c - 1].0 <= count && count <= ranges[c - 1].1);
        }
    }
}

#[test]
fn multiplicity_matches_brute_force() {
    let rows: [&[usize]; 4] = [&[1, 2, 3], &[2], &[1, 2], &[2, 3]];
    let ranges = [(1, 1), (1, 2), (0, 1)];
    let mut mat = Matrix::with_rows(3, &rows);
    for (c, &(min, max)) in ranges.iter().enumerate() {
        mat.set_multiplicity(c + 1, min, max);
    }
    let sols = sorted(solve_all(&mut mat));
    assert_eq!(sols, brute_force(3, &rows, &ranges));
    assert_eq!(sols, vec![vec![1], vec![1, 2], vec![2, 3], vec![3], vec![3, 4]]);
}

#[test]
fn exact_cover_matches_brute_force() {
    let instances: Vec<(usize, Vec<&[usize]>)> = vec![
        (3, vec![&[1, 2, 3], &[1], &[2], &[3], &[1, 2], &[2, 3]]),
        (7, vec![&[3, 5, 6], &[1, 4, 7], &[2, 3, 6], &[1, 4], &[2, 7], &[4, 5, 7]]),
        (4, vec![&[1, 2], &[3, 4], &[1, 3], &[2, 4], &[1, 4], &[2, 3], &[1, 2, 3, 4]]),
        (6, vec![&[1], &[2], &[3], &[4], &[5], &[6], &[1, 2, 3], &[4, 5, 6], &[1, 6], &[2, 5], &[3, 4]]),
        (2, vec![&[1]]),
        (5, vec![&[1, 2, 3, 4, 5], &[5, 4, 3, 2, 1], &[2, 4], &[1, 3, 5]]),
    ];
    for (cols, rows) in instances {
        let mut mat = Matrix::with_rows(cols, &rows);
        let ranges = vec![(1, 1); cols];
        assert_eq!(sorted(solve_all(&mut mat)), brute_force(cols, &rows, &ranges));
    }
}

#[test]
fn wider_ranges_match_brute_force() {
    let rows: Vec<&[usize]> = vec![&[1, 2], &[2, 3], &[1, 3], &[1], &[2], &[3], &[1, 2, 3]];
    let all_ranges = [
        [(0, 2), (1, 2), (2, 3)],
        [(2, 2), (2, 2), (2, 2)],
        [(0, 0), (1, 3), (0, 1)],
        [(0, 4), (0, 4), (0, 4)],
        [(3, 4), (1, 1), (0, 2)],
    ];
    for ranges in all_ranges {
        let mut mat = Matrix::with_rows(3, &rows);
        for (c, &(min, max)) in ranges.iter().enumerate() {
            mat.set_multiplicity(c + 1, min, max);
        }
        assert_eq!(sorted(solve_all(&mut mat)), brute_force(3, &rows, &ranges));
    }
}

#[test]
fn item_without_option_and_least_zero_is_left_out() {
    // column 2 may stay uncovered and no row holds it
    let rows: [&[usize]; 2] = [&[1], &[3]];
    let mut mat = Matrix::with_rows(3, &rows);
    mat.set_multiplicity(2, 0, 1);
    assert_eq!(sorted(solve_all(&mut mat)), vec![vec![1, 2]]);
}

#[test]
fn item_without_option_and_least_one_has_no_solution() {
    let rows: [&[usize]; 2] = [&[1], &[3]];
    let mut mat = Matrix::with_rows(3, &rows);
    assert_eq!(solve_all(&mut mat), Vec::<Vec<usize>>::new());
}

#[test]
fn two_optional_items_have_four_solutions() {
    let rows: [&[usize]; 2] = [&[1], &[2]];
    let mut mat = Matrix::with_rows(2, &rows);
    mat.set_multiplicity(1, 0, 1);
    mat.set_multiplicity(2, 0, 1);
    assert_eq!(sorted(solve_all(&mut mat)), vec![vec![], vec![1], vec![1, 2], vec![2]]);
}

struct StopAfter {
    limit: usize,
    seen: Vec<Vec<usize>>,
    steps: usize,
    aborts: usize,
    finishes: usize,
}

impl StopAfter {
    fn new(limit: usize) -> StopAfter {
        StopAfter { limit, seen: vec![], steps: 0, aborts: 0, finishes: 0 }
    }
}

impl Callback for StopAfter {
    fn on_solution(&mut self, sol: Vec<usize>, mat: &mut Matrix) {
        self.seen.push(sol);
        if self.seen.len() >= self.limit {
            mat.abort();
        }
    }

    fn on_iteration(&mut self, _mat: &mut Matrix) {
        self.steps += 1;
    }

    fn on_abort(&mut self, _mat: &mut Matrix) {
        self.aborts += 1;
    }

    fn on_finish(&mut self) {
        self.finishes += 1;
    }
}

#[test]
fn abort_stops_the_search_and_restores_the_matrix() {
    let mut mat = four();
    let before = snapshot(&mat);
    let mut cb = StopAfter::new(2);
    mat.solve(&mut cb);
    assert_eq!(cb.seen, vec![vec![1], vec![2, 3, 4]]);
    assert_eq!(cb.aborts, 1);
    assert_eq!(cb.finishes, 0);
    assert!(mat.is_aborted());
    assert_eq!(snapshot(&mat), before);
    for c in 0..=3 {
        assert_eq!(mat.weight_of(c), 0);
    }
    // a new search starts over
    assert_eq!(solve_all(&mut mat).len(), 4);
    assert!(!mat.is_aborted());
}

#[test]
fn finish_is_told_once_after_a_full_search() {
    let mut mat = four();
    let mut cb = StopAfter::new(100);
    mat.solve(&mut cb);
    assert_eq!(cb.seen.len(), 4);
    assert_eq!(cb.aborts, 0);
    assert_eq!(cb.finishes, 1);
    assert!(cb.steps >= 4);
}

#[test]
fn abort_in_multiplicity_search_restores_the_matrix() {
    let rows: [&[usize]; 4] = [&[1, 2, 3], &[2], &[1, 2], &[2, 3]];
    let mut mat = Matrix::with_rows(3, &rows);
    mat.set_multiplicity(2, 1, 2);
    mat.set_multiplicity(3, 0, 1);
    let before = snapshot(&mat);
    for limit in 1..=5 {
        let mut cb = StopAfter::new(limit);
        mat.solve(&mut cb);
        assert_eq!(cb.seen.len(), limit);
        assert_eq!(snapshot(&mat), before);
        for c in 0..=3 {
            assert_eq!(mat.weight_of(c), 0);
            assert_eq!(mat.size_of(c), [0, 2, 4, 2][c]);
        }
    }
}

#[test]
fn abort_flag_is_set_by_abort() {
    let mut mat = Matrix::new(1);
    assert!(!mat.is_aborted());
    mat.abort();
    assert!(mat.is_aborted());
}

fn solve_all_iteratively(mat: &mut Matrix) -> Vec<Vec<usize>> {
    let mut cb = SolutionCallback::default();
    mat.iterative_solve(&mut cb);
    cb.solutions
}

#[test]
fn iterative_search_finds_the_same_solutions_in_the_same_order() {
    let mut mat = four();
    assert_eq!(solve_all_iteratively(&mut mat), vec![vec![1], vec![2, 3, 4], vec![2, 6], vec![5, 4]]);
    let mut mat = knuth();
    assert_eq!(solve_all_iteratively(&mut mat), vec![vec![4, 1, 5]]);
    let rows: Vec<&[usize]> = vec![&[1, 2], &[2, 3], &[1, 3], &[1], &[2], &[3], &[1, 2, 3]];
    let all_ranges = [
        [(0, 2), (1, 2), (2, 3)],
        [(2, 2), (2, 2), (2, 2)],
        [(0, 0), (1, 3), (0, 1)],
        [(0, 4), (0, 4), (0, 4)],
        [(3, 4), (1, 1), (0, 2)],
        [(1, 1), (1, 1), (1, 1)],
    ];
    for ranges in all_ranges {
        let mut mat = Matrix::with_rows(3, &rows);
        for (c, &(min, max)) in ranges.iter().enumerate() {
            mat.set_multiplicity(c + 1, min, max);
        }
        let before = snapshot(&mat);
        let recursive = solve_all(&mut mat);
        let iterative = solve_all_iteratively(&mut mat);
        assert_eq!(iterative, recursive);
        assert_eq!(snapshot(&mat), before);
        assert_eq!(sorted(iterative), brute_force(3, &rows, &ranges));
    }
}

#[test]
fn iterative_search_makes_the_same_calls() {
    let rows: [&[usize]; 4] = [&[1, 2, 3], &[2], &[1, 2], &[2, 3]];
    let mut mat = Matrix::with_rows(3, &rows);
    mat.set_multiplicity(2, 1, 2);
    mat.set_multiplicity(3, 0, 1);
    let before = snapshot(&mat);
    for limit in 1..=6 {
        let mut recursive = StopAfter::new(limit);
        mat.solve(&mut recursive);
        let stopped = mat.is_aborted();
        let mut iterative = StopAfter::new(limit);
        mat.iterative_solve(&mut iterative);
        assert_eq!(mat.is_aborted(), stopped);
        assert_eq!(stopped, limit <= 5);
        assert_eq!(iterative.seen, recursive.seen);
        assert_eq!(iterative.steps, recursive.steps);
        assert_eq!(iterative.aborts, recursive.aborts);
        assert_eq!(iterative.finishes, recursive.finishes);
        assert_eq!(iterative.aborts + iterative.finishes, 1);
        assert_eq!(snapshot(&mat), before);
        for c in 0..=3 {
            assert_eq!(mat.weight_of(c), 0);
        }
    }
}

#[test]
fn iterative_search_of_the_default_matrix() {
    let mut mat = Matrix::default();
    assert_eq!(solve_all_iteratively(&mut mat), vec![Vec::<usize>::new()]);
}

#[test]
fn no_cover_is_handed_over_twice() {
    let rows: [&[usize]; 6] = [&[1, 2], &[1], &[2], &[1, 3], &[2, 3], &[3]];
    let mut mat = Matrix::with_rows(3, &rows);
    mat.set_multiplicity(1, 1, 2);
    mat.set_multiplicity(2, 0, 2);
    mat.set_multiplicity(3, 1, 1);
    let sols = sorted(solve_all(&mut mat));
    assert!(!sols.is_empty());
    for i in 0..sols.len() {
        for j in (i + 1)..sols.len() {
            assert_ne!(sols[i], sols[j]);
        }
    }
    assert_eq!(sols, brute_force(3, &rows, &[(1, 2), (0, 2), (1, 1)]));
}
