use exact_cover::dlx::callback::SolutionCallback;
use exact_cover::problem::{Problem, ProblemError};
use exact_cover::solver::{
    react, Command, Inbox, Next, Notice, Reaction, Solver, SolverEvent, SolverThreadEvent, SolverThreadSignal,
};

const A: u64 = 10;
const B: u64 = 11;
const C: u64 = 12;
const D: u64 = 13;
const E: u64 = 14;
const F: u64 = 15;

fn solutions_of(prob: Problem) -> Vec<Vec<u64>> {
    let mut solver = Solver::new(prob);
    let mut solutions = vec![];
    let mut mat = match solver.run() {
        Ok(Command::Spawn(mat)) => mat,
        _ => panic!("no worker to start"),
    };
    let mut cb = SolutionCallback::default();
    mat.solve(&mut cb);
    for sol in cb.solutions {
        if let SolverEvent::SolutionFound(sol) = solver.map_event(SolverThreadEvent::SolutionFound(sol)) {
            solutions.push(sol);
        }
    }
    solutions
}

#[test]
fn problem_can_be_created() {
    let mut prob = Problem::default();
    prob.add_exact_constraints((1..=7).collect());
    prob.add_subset(A, vec![3, 5, 6]);
    prob.add_subset(B, vec![1, 4, 7]);
    prob.add_subset(C, vec![2, 3, 6]);
    prob.add_subset(D, vec![1, 4]);
    prob.add_subset(E, vec![2, 7]);
    prob.add_subset(F, vec![4, 5, 7]);
    assert_eq!(prob.constraint_count(), 7);
    assert_eq!(prob.subset_count(), 6);
    assert_eq!(prob.constraint_at(2), Some((3, (1, 1))));
    assert_eq!(prob.subset_at(3), Some((D, &vec![1, 4])));
    assert_eq!(prob.constraints().len(), 7);
    assert_eq!(prob.subsets().get_index(0), Some((&A, &vec![3, 5, 6])));
}

#[test]
fn solver_can_solve_problem() {
    let mut prob = Problem::default();
    prob.add_exact_constraints((1..=3).collect());
    prob.add_subset(A, vec![1, 2, 3]);
    prob.add_subset(B, vec![1]);
    prob.add_subset(C, vec![2]);
    prob.add_subset(D, vec![3]);
    prob.add_subset(E, vec![1, 2]);
    prob.add_subset(F, vec![2, 3]);

    let solutions = solutions_of(prob);

    assert_eq!(solutions.len(), 4);
    assert_eq!(solutions, vec![vec![A], vec![B, C, D], vec![B, F], vec![E, D]]);
}

#[test]
fn solver_can_solve_problem_with_multiplicity() {
    let mut prob = Problem::default();
    prob.add_constraint(1, 0, 1).unwrap();
    prob.add_constraint(2, 0, 1).unwrap();
    prob.add_subset(B, vec![1]);
    prob.add_subset(C, vec![2]);

    let solutions = solutions_of(prob);

    assert_eq!(solutions.len(), 4);
}

#[test]
fn knuth_problem_has_one_solution() {
    let mut prob = Problem::default();
    prob.add_exact_constraints((1..=7).collect());
    prob.add_subset(A, vec![3, 5, 6]);
    prob.add_subset(B, vec![1, 4, 7]);
    prob.add_subset(C, vec![2, 3, 6]);
    prob.add_subset(D, vec![1, 4]);
    prob.add_subset(E, vec![2, 7]);
    prob.add_subset(F, vec![4, 5, 7]);
    let mut solutions = solutions_of(prob);
    for s in solutions.iter_mut() {
        s.sort();
    }
    assert_eq!(solutions, vec![vec![A, D, E]]);
}

#[test]
fn multiplicity_problem_has_five_solutions() {
    let mut prob = Problem::default();
    prob.add_constraint(1, 1, 1).unwrap();
    prob.add_constraint(2, 1, 2).unwrap();
    prob.add_constraint(3, 0, 1).unwrap();
    prob.add_subset(A, vec![1, 2, 3]);
    prob.add_subset(B, vec![2]);
    prob.add_subset(C, vec![1, 2]);
    prob.add_subset(D, vec![2, 3]);
    let mut solutions = solutions_of(prob);
    for s in solutions.iter_mut() {
        s.sort();
    }
    solutions.sort();
    assert_eq!(solutions, vec![vec![A], vec![A, B], vec![B, C], vec![C], vec![C, D]]);
}

#[test]
fn item_without_option_is_not_mentioned() {
    let mut prob = Problem::default();
    prob.add_exact_constraint(1);
    prob.add_constraint(2, 0, 3).unwrap();
    prob.add_subset(A, vec![1]);
    assert_eq!(solutions_of(prob), vec![vec![A]]);
}

#[test]
fn items_are_columns_in_the_order_of_insertion() {
    let mut prob = Problem::default();
    prob.add_exact_constraint(30);
    prob.add_constraint(10, 0, 2).unwrap();
    prob.add_exact_constraint(20);
    prob.add_subset(A, vec![20, 30]);
    prob.add_subset(B, vec![10]);
    assert_eq!(prob.constraint_index(30), Some(0));
    assert_eq!(prob.constraint_index(10), Some(1));
    assert_eq!(prob.constraint_index(20), Some(2));
    assert_eq!(prob.constraint_index(40), None);
    let mat = Solver::generate_matrix(&prob).unwrap();
    assert_eq!(mat.col_count(), 3);
    assert_eq!(mat.row_count(), 2);
    assert_eq!(mat.node_count(), 7);
    // row 1 is [3, 1]: node 4 in column 3, node 5 in column 1
    assert_eq!(mat.links(4), (5, 5, 3, 3));
    assert_eq!(mat.links(5), (4, 4, 1, 1));
    assert_eq!(mat.links(6), (6, 6, 2, 2));
    assert_eq!(mat.size_of(1), 1);
    assert_eq!(mat.size_of(2), 1);
    assert_eq!(mat.size_of(3), 1);
}

#[test]
fn adding_an_item_again_keeps_its_place_and_takes_the_new_range() {
    let mut prob = Problem::default();
    prob.add_exact_constraint(1);
    prob.add_exact_constraint(2);
    prob.add_constraint(1, 0, 5).unwrap();
    assert_eq!(prob.constraint_count(), 2);
    assert_eq!(prob.constraint_at(0), Some((1, (0, 5))));
    assert_eq!(prob.constraint_at(1), Some((2, (1, 1))));
    assert_eq!(prob.constraint_at(2), None);
}

#[test]
fn adding_a_subset_again_replaces_it() {
    let mut prob = Problem::default();
    prob.add_exact_constraints(vec![1, 2]);
    prob.add_subset(A, vec![1]);
    prob.add_subset(B, vec![2]);
    prob.add_subset(A, vec![1, 2]);
    assert_eq!(prob.subset_count(), 2);
    assert_eq!(prob.subset_at(0), Some((A, &vec![1, 2])));
    assert_eq!(prob.subset_at(1), Some((B, &vec![2])));
    assert_eq!(prob.subset_at(2), None);
    assert_eq!(solutions_of(prob), vec![vec![A]]);
}

#[test]
fn range_with_greatest_below_least_is_refused() {
    let mut prob = Problem::default();
    assert_eq!(prob.add_constraint(1, 2, 1), Err(ProblemError::InvalidMultiplicity));
    assert_eq!(prob.constraint_count(), 0);
    assert_eq!(prob.add_constraint(1, 2, 2), Ok(()));
    assert_eq!(prob.constraint_count(), 1);
}

#[test]
fn unknown_item_is_refused() {
    let mut prob = Problem::default();
    prob.add_exact_constraints(vec![1, 2]);
    prob.add_subset(A, vec![1, 3]);
    assert!(matches!(Solver::generate_matrix(&prob), Err(ProblemError::InvalidItemRef)));
    let mut solver = Solver::new(prob);
    assert!(matches!(solver.run(), Err(ProblemError::InvalidItemRef)));
    // no worker was started
    assert_eq!(solver.pause(), None);
}

#[test]
fn item_named_twice_in_a_subset_is_refused() {
    let mut prob = Problem::default();
    prob.add_exact_constraints(vec![1, 2]);
    prob.add_subset(A, vec![1, 2, 1]);
    assert!(matches!(Solver::generate_matrix(&prob), Err(ProblemError::DuplicateItem)));
}

#[test]
fn unknown_item_comes_before_item_named_twice() {
    let mut prob = Problem::default();
    prob.add_exact_constraints(vec![1, 2]);
    prob.add_subset(A, vec![1, 1]);
    prob.add_subset(B, vec![7]);
    assert!(matches!(Solver::generate_matrix(&prob), Err(ProblemError::InvalidItemRef)));
}

#[test]
fn run_starts_a_worker_once_and_then_sends_run() {
    let mut prob = Problem::default();
    prob.add_exact_constraint(1);
    prob.add_subset(A, vec![1]);
    let mut solver = Solver::new(prob);
    assert_eq!(solver.request_progress(), None);
    assert_eq!(solver.pause(), None);
    assert_eq!(solver.abort(), None);
    assert!(matches!(solver.run(), Ok(Command::Spawn(_))));
    assert!(matches!(solver.run(), Ok(Command::Send(SolverThreadSignal::Run))));
    assert_eq!(solver.request_progress(), Some(SolverThreadSignal::RequestProgress));
    assert_eq!(solver.pause(), Some(SolverThreadSignal::Pause));
    assert_eq!(solver.abort(), Some(SolverThreadSignal::Abort));
    assert_eq!(solver.get_problem().subset_count(), 1);
}

#[test]
fn events_are_handed_on() {
    let mut prob = Problem::default();
    prob.add_exact_constraint(1);
    prob.add_subset(A, vec![1]);
    prob.add_subset(B, vec![1]);
    let solver = Solver::new(prob);
    assert_eq!(solver.solution_names(&vec![2, 1, 2]), vec![B, A, B]);
    assert!(matches!(solver.map_event(SolverThreadEvent::ProgressUpdated), SolverEvent::ProgressUpdated));
    assert!(matches!(solver.map_event(SolverThreadEvent::Paused), SolverEvent::Paused));
    assert!(matches!(solver.map_event(SolverThreadEvent::Aborted), SolverEvent::Aborted));
    assert!(matches!(solver.map_event(SolverThreadEvent::Finished), SolverEvent::Finished));
}

#[test]
fn running_worker_reacts_to_signals() {
    let r = |next, notice| Reaction { paused: false, next, notice };
    assert_eq!(react(false, Inbox::Empty), r(Next::Resume, Notice::Nothing));
    assert_eq!(react(false, Inbox::Signal(SolverThreadSignal::Run)), r(Next::Poll, Notice::Nothing));
    assert_eq!(
        react(false, Inbox::Signal(SolverThreadSignal::RequestProgress)),
        r(Next::Poll, Notice::ProgressUpdated)
    );
    assert_eq!(
        react(false, Inbox::Signal(SolverThreadSignal::Pause)),
        Reaction { paused: true, next: Next::Wait, notice: Notice::Paused }
    );
    assert_eq!(react(false, Inbox::Signal(SolverThreadSignal::Abort)), r(Next::Stop, Notice::Nothing));
    assert_eq!(react(false, Inbox::Closed), r(Next::Stop, Notice::Nothing));
}

#[test]
fn paused_worker_reacts_to_signals() {
    let p = |next, notice| Reaction { paused: true, next, notice };
    assert_eq!(react(true, Inbox::Empty), p(Next::Wait, Notice::Nothing));
    assert_eq!(
        react(true, Inbox::Signal(SolverThreadSignal::Run)),
        Reaction { paused: false, next: Next::Poll, notice: Notice::Nothing }
    );
    assert_eq!(
        react(true, Inbox::Signal(SolverThreadSignal::RequestProgress)),
        p(Next::Wait, Notice::ProgressUpdated)
    );
    assert_eq!(react(true, Inbox::Signal(SolverThreadSignal::Pause)), p(Next::Wait, Notice::Nothing));
    assert_eq!(
        react(true, Inbox::Signal(SolverThreadSignal::Abort)),
        Reaction { paused: false, next: Next::Stop, notice: Notice::Nothing }
    );
    assert_eq!(
        react(true, Inbox::Closed),
        Reaction { paused: false, next: Next::Stop, notice: Notice::Nothing }
    );
}
