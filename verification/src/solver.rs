//! The rules of a solver for a [`Problem`]: how a problem becomes a matrix,
//! how a solution becomes a list of names, and what the controller and the
//! worker of a search do with each signal.

use vstd::prelude::*;
use crate::dlx::dlx_m::{Matrix, span};
use crate::dlx::grid::Grid;
use crate::problem::{Problem, ProblemView, ProblemError, key_index, lemma_key_index};

verus! {

impl ProblemView {
    /// Every item of every subset is an item of the problem.
    pub open spec fn refs_ok(self) -> bool {
        forall|s: int, k: int|
            0 <= s < self.subsets.len() && 0 <= k < self.subsets[s].1.len() ==> key_index(
                self.items,
                #[trigger] self.subsets[s].1[k],
            ) >= 0
    }

    /// No subset names an item twice.
    pub open spec fn no_repeats(self) -> bool {
        forall|s: int, i: int, j: int|
            0 <= s < self.subsets.len() && 0 <= i < j < self.subsets[s].1.len() ==> #[trigger] self.subsets[s].1[i]
                != #[trigger] self.subsets[s].1[j]
    }

    /// The columns of a list of items: for each item its place among the
    /// items of the problem, counted from 1.
    pub open spec fn columns(self, items: Seq<u64>) -> Seq<usize> {
        Seq::new(items.len(), |k: int| (key_index(self.items, items[k]) + 1) as usize)
    }

    /// The rows of the matrix: the columns of each subset, in the order of
    /// the subsets.
    pub open spec fn rows(self) -> Seq<Seq<usize>> {
        Seq::new(self.subsets.len(), |s: int| self.columns(self.subsets[s].1))
    }

    /// The matrix without rows in which the first `n` columns have the
    /// ranges of the first `n` items.
    pub open spec fn ranged(self, n: int) -> Grid
        decreases n,
    {
        if n <= 0 {
            Grid::blank(self.items.len() as int)
        } else {
            let g = self.ranged(n - 1);
            Grid {
                min: g.min.update(n, self.items[n - 1].1.0 as int),
                max: g.max.update(n, self.items[n - 1].1.1 as int),
                ..g
            }
        }
    }

    /// The matrix of the problem: a column for each item, with its range,
    /// and a row for each subset.
    pub open spec fn matrix(self) -> Grid {
        self.ranged(self.items.len() as int).with_rows(self.rows())
    }

    /// The matrix of the problem has room in memory.
    pub open spec fn fits(self) -> bool {
        self.items.len() + 1 + span(self.rows(), self.subsets.len() as int) <= usize::MAX
    }
}

/// Whether a value comes twice in the list.
fn has_repeat(row: &Vec<usize>) -> (b: bool)
    ensures
        b == exists|i: int, j: int| 0 <= i < j < row@.len() && row@[i] == row@[j],
{
    let mut j: usize = 0;
    while j < row.len()
        invariant
            0 <= j <= row@.len(),
            forall|a: int, b: int| 0 <= a < b < j ==> row@[a] != row@[b],
        decreases row@.len() - j,
    {
        let mut i: usize = 0;
        while i < j
            invariant
                0 <= i <= j < row@.len(),
                forall|a: int| 0 <= a < i ==> row@[a] != row@[j as int],
            decreases j - i,
        {
            if row[i] == row[j] {
                return true;
            }
            i += 1;
        }
        j += 1;
    }
    false
}

/// A signal from the controller to the worker.
#[derive(Clone, Copy, Debug, PartialEq, Eq, Structural)]
pub enum SolverThreadSignal {
    Run,
    RequestProgress,
    Pause,
    Abort,
}

/// An event from the worker to the controller.
pub enum SolverThreadEvent {
    /// A solution: the numbers of its rows.
    SolutionFound(Vec<usize>),
    ProgressUpdated,
    Paused,
    Aborted,
    Finished,
}

/// Events that a solver emits.
pub enum SolverEvent {
    /// A solution: the names of its subsets.
    SolutionFound(Vec<u64>),
    ProgressUpdated,
    Paused,
    Aborted,
    Finished,
}

/// What the controller has to do.
pub enum Command {
    /// Start a worker that solves this matrix.
    Spawn(Matrix),
    /// Send the worker this signal.
    Send(SolverThreadSignal),
}

/// The controller's side of a solver for a [`Problem`] instance.
pub struct Solver {
    problem: Problem,
    started: bool,
}

impl Solver {
    /// The problem that is solved.
    pub closed spec fn problem(&self) -> ProblemView {
        self.problem@
    }

    /// Whether a worker was started.
    pub closed spec fn started(&self) -> bool {
        self.started
    }

    /// Creates a new solver that solves `problem`. No worker is started.
    pub fn new(problem: Problem) -> (solver: Solver)
        ensures
            solver.problem() == problem@,
            !solver.started(),
    {
        Solver { problem, started: false }
    }

    /// Returns the problem that is solved.
    pub fn get_problem(&self) -> (problem: &Problem)
        ensures
            problem@ == self.problem(),
    {
        &self.problem
    }

    /// Builds the matrix of a problem: a column for each item, in the order
    /// of the items, and a row for each subset, in the order of the
    /// subsets. Fails if a subset names an item that the problem lacks, or
    /// names an item twice.
    pub fn generate_matrix(problem: &Problem) -> (res: Result<Matrix, ProblemError>)
        requires
            problem@.wf(),
            problem@.fits(),
        ensures
            !problem@.refs_ok() ==> res is Err && res->Err_0 == ProblemError::InvalidItemRef,
            problem@.refs_ok() && !problem@.no_repeats() ==> res is Err && res->Err_0 == ProblemError::DuplicateItem,
            problem@.refs_ok() && problem@.no_repeats() ==> res is Ok && res->Ok_0.ready() && res->Ok_0@
                == problem@.matrix() && !res->Ok_0.aborted(),
    {
        let ghost pv = problem@;
        let n = problem.constraint_count();
        proof {
            crate::dlx::dlx_m::lemma_span_grows(pv.rows(), 0, pv.subsets.len() as int);
        }
        let mut mat = Matrix::new(n);
        let mut c: usize = 0;
        while c < n
            invariant
                pv == problem@,
                pv.wf(),
                n == pv.items.len(),
                0 <= c <= n < usize::MAX,
                mat.ready(),
                mat@ == pv.ranged(c as int),
                mat@.cols == n,
                mat@.nodes() == n + 1,
                mat@.row_count == 0,
                !mat.aborted(),
            decreases n - c,
        {
            let entry = problem.constraint_at(c);
            let (min, max) = entry.unwrap().1;
            mat.set_multiplicity(c + 1, min, max);
            c += 1;
        }
        // The columns of each subset
        let count = problem.subset_count();
        let mut rows: Vec<Vec<usize>> = Vec::new();
        let mut s: usize = 0;
        while s < count
            invariant
                pv == problem@,
                n == pv.items.len(),
                count == pv.subsets.len(),
                0 <= s <= count,
                rows@.len() == s,
                forall|t: int| 0 <= t < s ==> (#[trigger] rows@[t])@ == pv.columns(pv.subsets[t].1),
                forall|t: int, k: int|
                    0 <= t < s && 0 <= k < pv.subsets[t].1.len() ==> key_index(
                        pv.items,
                        #[trigger] pv.subsets[t].1[k],
                    ) >= 0,
            decreases count - s,
        {
            let items = problem.subset_at(s).unwrap().1;
            let mut row: Vec<usize> = Vec::new();
            let mut k: usize = 0;
            while k < items.len()
                invariant
                    pv == problem@,
                    n == pv.items.len(),
                    0 <= s < pv.subsets.len(),
                    items@ == pv.subsets[s as int].1,
                    0 <= k <= items@.len(),
                    row@ == pv.columns(items@).take(k as int),
                    forall|j: int| 0 <= j < k ==> key_index(pv.items, #[trigger] items@[j]) >= 0,
                decreases items@.len() - k,
            {
                proof {
                    lemma_key_index(pv.items, items@[k as int]);
                }
                match problem.constraint_index(items[k]) {
                    Some(i) => {
                        row.push(i + 1);
                    },
                    None => {
                        assert(key_index(pv.items, pv.subsets[s as int].1[k as int]) < 0);
                        return Err(ProblemError::InvalidItemRef);
                    },
                }
                proof {
                    assert(row@ =~= pv.columns(items@).take(k as int + 1));
                }
                k += 1;
            }
            proof {
                assert(pv.columns(items@).take(k as int) =~= pv.columns(items@));
            }
            rows.push(row);
            s += 1;
        }
        assert(pv.refs_ok());
        assert(Seq::new(rows@.len(), |t: int| rows@[t]@) =~= pv.rows());
        let mut s: usize = 0;
        while s < count
            invariant
                pv == problem@,
                pv.wf(),
                pv.refs_ok(),
                pv.items.len() < usize::MAX,
                count == pv.subsets.len(),
                rows@.len() == count,
                0 <= s <= count,
                forall|t: int| 0 <= t < rows@.len() ==> (#[trigger] rows@[t])@ == pv.columns(pv.subsets[t].1),
                forall|t: int, i: int, j: int|
                    0 <= t < s && 0 <= i < j < pv.subsets[t].1.len() ==> #[trigger] pv.subsets[t].1[i]
                        != #[trigger] pv.subsets[t].1[j],
            decreases count - s,
        {
            let twice = has_repeat(&rows[s]);
            proof {
                let items = pv.subsets[s as int].1;
                let row = rows@[s as int]@;
                if twice {
                    let (i, j) = choose|i: int, j: int| 0 <= i < j < row.len() && row[i] == row[j];
                    lemma_key_index(pv.items, items[i]);
                    lemma_key_index(pv.items, items[j]);
                    assert(key_index(pv.items, pv.subsets[s as int].1[i]) >= 0);
                    assert(key_index(pv.items, pv.subsets[s as int].1[j]) >= 0);
                    assert(row[i] == (key_index(pv.items, items[i]) + 1) as usize);
                    assert(row[j] == (key_index(pv.items, items[j]) + 1) as usize);
                    assert(items[i] == items[j]);
                } else {
                    assert forall|i: int, j: int| 0 <= i < j < items.len() implies #[trigger] items[i]
                        != #[trigger] items[j] by {
                        assert(row[i] != row[j]);
                    }
                }
            }
            if twice {
                return Err(ProblemError::DuplicateItem);
            }
            s += 1;
        }
        assert(pv.no_repeats());
        let ghost all = pv.rows();
        let ghost base = pv.ranged(n as int);
        proof {
            assert(all.take(0) =~= Seq::<Seq<usize>>::empty());
        }
        let mut s: usize = 0;
        while s < count
            invariant
                pv == problem@,
                pv.wf(),
                pv.refs_ok(),
                pv.no_repeats(),
                pv.fits(),
                all == pv.rows(),
                base == pv.ranged(n as int),
                n == pv.items.len(),
                count == pv.subsets.len(),
                rows@.len() == count,
                0 <= s <= count,
                forall|t: int| 0 <= t < rows@.len() ==> (#[trigger] rows@[t])@ == pv.columns(pv.subsets[t].1),
                mat.ready(),
                mat@ == base.with_rows(all.take(s as int)),
                mat@.cols == n,
                mat@.row_count == s,
                mat@.nodes() == n + 1 + span(all, s as int),
                !mat.aborted(),
            decreases count - s,
        {
            proof {
                let items = pv.subsets[s as int].1;
                let row = rows@[s as int]@;
                crate::dlx::dlx_m::lemma_span_grows(all, s as int + 1, count as int);
                assert(all[s as int] == row);
                assert(all.take(s as int + 1).drop_last() =~= all.take(s as int));
                assert(all.take(s as int + 1).last() == row);
                assert(mat@.takes(row)) by {
                    assert forall|i: int| 0 <= i < row.len() implies mat@.is_column(#[trigger] row[i] as int) by {
                        lemma_key_index(pv.items, items[i]);
                    }
                    assert forall|i: int, j: int| 0 <= i < j < row.len() implies #[trigger] row[i]
                        != #[trigger] row[j] by {
                        lemma_key_index(pv.items, items[i]);
                        lemma_key_index(pv.items, items[j]);
                        assert(items[i] != items[j]);
                    }
                }
            }
            mat.add_row(rows[s].as_slice());
            s += 1;
        }
        proof {
            assert(all.take(count as int) =~= all);
        }
        Ok(mat)
    }

    /// Runs the solver: the first time this starts a worker on the matrix
    /// of the problem; later it tells the worker to go on. Nothing is
    /// started for a problem that has no matrix.
    pub fn run(&mut self) -> (res: Result<Command, ProblemError>)
        requires
            old(self).problem().wf(),
            old(self).problem().fits(),
        ensures
            final(self).problem() == old(self).problem(),
            old(self).started() ==> final(self).started() && res is Ok && res->Ok_0 == Command::Send(
                SolverThreadSignal::Run,
            ),
            !old(self).started() ==> {
                let pv = old(self).problem();
                &&& final(self).started() == (pv.refs_ok() && pv.no_repeats())
                &&& !pv.refs_ok() ==> res is Err && res->Err_0 == ProblemError::InvalidItemRef
                &&& pv.refs_ok() && !pv.no_repeats() ==> res is Err && res->Err_0 == ProblemError::DuplicateItem
                &&& pv.refs_ok() && pv.no_repeats() ==> res is Ok && res->Ok_0 is Spawn && res->Ok_0->Spawn_0.ready()
                    && res->Ok_0->Spawn_0@ == pv.matrix()
            },
    {
        if self.started {
            Ok(Command::Send(SolverThreadSignal::Run))
        } else {
            match Solver::generate_matrix(&self.problem) {
                Ok(mat) => {
                    self.started = true;
                    Ok(Command::Spawn(mat))
                },
                Err(e) => Err(e),
            }
        }
    }

    /// The signal to send so that the worker reports its progress, if there
    /// is a worker.
    pub fn request_progress(&self) -> (signal: Option<SolverThreadSignal>)
        ensures
            signal == if self.started() {
                Some(SolverThreadSignal::RequestProgress)
            } else {
                None
            },
    {
        self.signal(SolverThreadSignal::RequestProgress)
    }

    /// The signal to send so that the worker pauses, if there is a worker.
    pub fn pause(&self) -> (signal: Option<SolverThreadSignal>)
        ensures
            signal == if self.started() {
                Some(SolverThreadSignal::Pause)
            } else {
                None
            },
    {
        self.signal(SolverThreadSignal::Pause)
    }

    /// The signal to send so that the worker stops, if there is a worker.
    pub fn abort(&self) -> (signal: Option<SolverThreadSignal>)
        ensures
            signal == if self.started() {
                Some(SolverThreadSignal::Abort)
            } else {
                None
            },
    {
        self.signal(SolverThreadSignal::Abort)
    }

    /// The signal, if there is a worker to send it to.
    fn signal(&self, signal: SolverThreadSignal) -> (sent: Option<SolverThreadSignal>)
        ensures
            sent == if self.started() {
                Some(signal)
            } else {
                None
            },
    {
        if self.started {
            Some(signal)
        } else {
            None
        }
    }
}

impl ProblemView {
    /// The numbers in `sol` are numbers of rows of the matrix.
    pub open spec fn row_numbers(self, sol: Seq<usize>) -> bool {
        forall|i: int| 0 <= i < sol.len() ==> 1 <= #[trigger] sol[i] <= self.subsets.len()
    }

    /// The names of the subsets that stand behind the rows of `sol`.
    pub open spec fn names(self, sol: Seq<usize>) -> Seq<u64> {
        Seq::new(sol.len(), |i: int| self.subsets[sol[i] - 1].0)
    }
}

impl Solver {
    /// The names of the subsets of a solution, in the order of its rows.
    pub fn solution_names(&self, sol: &Vec<usize>) -> (names: Vec<u64>)
        requires
            self.problem().row_numbers(sol@),
        ensures
            names@ == self.problem().names(sol@),
    {
        let mut names: Vec<u64> = Vec::new();
        let mut i: usize = 0;
        while i < sol.len()
            invariant
                0 <= i <= sol@.len(),
                self.problem().row_numbers(sol@),
                names@ == self.problem().names(sol@).take(i as int),
            decreases sol@.len() - i,
        {
            let entry = self.problem.subset_at(sol[i] - 1);
            names.push(entry.unwrap().0);
            proof {
                assert(names@ =~= self.problem().names(sol@).take(i as int + 1));
            }
            i += 1;
        }
        proof {
            assert(self.problem().names(sol@).take(i as int) =~= self.problem().names(sol@));
        }
        names
    }

    /// What the controller hands on for an event of the worker: a solution
    /// with the names of its subsets, any other event as it is.
    pub fn map_event(&self, event: SolverThreadEvent) -> (res: SolverEvent)
        requires
            event matches SolverThreadEvent::SolutionFound(sol) ==> self.problem().row_numbers(sol@),
        ensures
            match event {
                SolverThreadEvent::SolutionFound(sol) => res matches SolverEvent::SolutionFound(names) && names@
                    == self.problem().names(sol@),
                SolverThreadEvent::ProgressUpdated => res is ProgressUpdated,
                SolverThreadEvent::Paused => res is Paused,
                SolverThreadEvent::Aborted => res is Aborted,
                SolverThreadEvent::Finished => res is Finished,
            },
    {
        match event {
            SolverThreadEvent::SolutionFound(sol) => SolverEvent::SolutionFound(self.solution_names(&sol)),
            SolverThreadEvent::ProgressUpdated => SolverEvent::ProgressUpdated,
            SolverThreadEvent::Paused => SolverEvent::Paused,
            SolverThreadEvent::Aborted => SolverEvent::Aborted,
            SolverThreadEvent::Finished => SolverEvent::Finished,
        }
    }
}

/// What the worker finds when it looks for a signal.
#[derive(Clone, Copy, Debug, PartialEq, Eq, Structural)]
pub enum Inbox {
    /// A signal from the controller.
    Signal(SolverThreadSignal),
    /// No signal is waiting.
    Empty,
    /// The controller is gone.
    Closed,
}

/// What the worker does next at a step of the search.
#[derive(Clone, Copy, Debug, PartialEq, Eq, Structural)]
pub enum Next {
    /// Look for another signal, without waiting.
    Poll,
    /// Wait for another signal.
    Wait,
    /// Go on with the search.
    Resume,
    /// Ask the search to stop.
    Stop,
}

/// What the worker tells the controller at a step of the search.
#[derive(Clone, Copy, Debug, PartialEq, Eq, Structural)]
pub enum Notice {
    Nothing,
    ProgressUpdated,
    Paused,
}

/// The worker's answer to what it found when it looked for a signal.
#[derive(Clone, Copy, Debug, PartialEq, Eq, Structural)]
pub struct Reaction {
    /// Whether the worker is paused from now on.
    pub paused: bool,
    pub next: Next,
    pub notice: Notice,
}

/// The answer of a worker, paused or not, as a function of what it found.
pub open spec fn reaction(paused: bool, inbox: Inbox) -> Reaction {
    match inbox {
        Inbox::Signal(SolverThreadSignal::Run) => Reaction { paused: false, next: Next::Poll, notice: Notice::Nothing },
        Inbox::Signal(SolverThreadSignal::RequestProgress) => Reaction {
            paused,
            next: if paused {
                Next::Wait
            } else {
                Next::Poll
            },
            notice: Notice::ProgressUpdated,
        },
        Inbox::Signal(SolverThreadSignal::Pause) => Reaction {
            paused: true,
            next: Next::Wait,
            notice: if paused {
                Notice::Nothing
            } else {
                Notice::Paused
            },
        },
        Inbox::Signal(SolverThreadSignal::Abort) => Reaction { paused: false, next: Next::Stop, notice: Notice::Nothing },
        Inbox::Closed => Reaction { paused: false, next: Next::Stop, notice: Notice::Nothing },
        Inbox::Empty => Reaction {
            paused,
            next: if paused {
                Next::Wait
            } else {
                Next::Resume
            },
            notice: Notice::Nothing,
        },
    }
}

/// Decides what a worker does at a step of the search with what it found
/// when it looked for a signal.
///
/// A running worker looks for signals without waiting until none is left,
/// and then goes on with the search. A pause makes it wait for signals; it
/// leaves the pause when it is told to run. Asked for its progress it
/// reports it, paused or not. It asks the search to stop when it is told
/// to abort or when the controller is gone.
pub fn react(paused: bool, inbox: Inbox) -> (r: Reaction)
    ensures
        r == reaction(paused, inbox),
{
    match inbox {
        Inbox::Signal(signal) => match signal {
            SolverThreadSignal::Run => Reaction { paused: false, next: Next::Poll, notice: Notice::Nothing },
            SolverThreadSignal::RequestProgress => Reaction {
                paused,
                next: if paused {
                    Next::Wait
                } else {
                    Next::Poll
                },
                notice: Notice::ProgressUpdated,
            },
            SolverThreadSignal::Pause => Reaction {
                paused: true,
                next: Next::Wait,
                notice: if paused {
                    Notice::Nothing
                } else {
                    Notice::Paused
                },
            },
            SolverThreadSignal::Abort => Reaction { paused: false, next: Next::Stop, notice: Notice::Nothing },
        },
        Inbox::Closed => Reaction { paused: false, next: Next::Stop, notice: Notice::Nothing },
        Inbox::Empty => Reaction {
            paused,
            next: if paused {
                Next::Wait
            } else {
                Next::Resume
            },
            notice: Notice::Nothing,
        },
    }
}

} // verus!
