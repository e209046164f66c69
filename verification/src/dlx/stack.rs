//! The levels of a search that keeps its own stack, and what holds of them
//! between two of its steps.

use vstd::prelude::*;
use crate::dlx::grid::{Grid, succ};
use crate::dlx::search::{Call, sent};
use crate::dlx::links::lemma_total_nonneg;

verus! {

impl Grid {
    /// Number of steps that a search with a stack of its own takes, if it
    /// is not stopped.
    pub open spec fn ticks(self) -> int
        decreases self.measure(), 1int, 0int,
    {
        if !self.searching() {
            1
        } else if self.active.len() == 0 {
            1
        } else {
            let c = self.best_col();
            proof {
                self.lemma_best_col();
                lemma_total_nonneg(self.live, self.cols + 1);
            }
            if !self.fulfillable(c) {
                1
            } else {
                3 + self.rows_ticks(c, 0) + self.skip_ticks(c)
            }
        }
    }

    /// Number of steps that the search takes without a row of the chosen
    /// column `c`.
    pub open spec fn skip_ticks(self, c: int) -> int
        decreases self.measure(), 0int, 0int,
    {
        if !(self.searching() && self.is_active(c) && self.fulfilled(c)) {
            0
        } else {
            proof {
                self.lemma_skip(c);
                lemma_total_nonneg(self.skip(c).live, self.cols + 1);
                lemma_total_nonneg(self.live, self.cols + 1);
            }
            1 + self.skip(c).ticks()
        }
    }

    /// Number of steps that the search takes with the rows of column `c`
    /// from row `k` on.
    pub open spec fn rows_ticks(self, c: int, k: int) -> int
        decreases self.measure(), 0int, self.live[c].len() - k,
    {
        if !(self.searching() && self.is_active(c) && 0 <= k < self.live[c].len()) {
            0
        } else {
            self.row_ticks(c, k) + self.rows_ticks(c, k + 1)
        }
    }

    /// Number of steps that the search takes with row `k` of column `c`.
    pub open spec fn row_ticks(self, c: int, k: int) -> int
        decreases self.measure(), 0int, 0int,
    {
        if !(self.searching() && self.is_active(c) && 0 <= k < self.live[c].len()) {
            2
        } else {
            proof {
                self.lemma_trial(c, k);
                lemma_total_nonneg(self.trial(c, k).live, self.cols + 1);
                lemma_total_nonneg(self.live, self.cols + 1);
            }
            if self.trial(c, k).fulfillable(c) {
                2 + self.trial(c, k).ticks()
            } else {
                2
            }
        }
    }

    /// A search takes a step at least.
    pub proof fn lemma_ticks(self)
        ensures
            self.ticks() >= 1,
        decreases self.measure(), 1int, 0int,
    {
        if self.searching() && self.active.len() > 0 {
            let c = self.best_col();
            self.lemma_best_col();
            lemma_total_nonneg(self.live, self.cols + 1);
            if self.fulfillable(c) {
                self.lemma_rows_ticks(c, 0);
                self.lemma_skip_ticks(c);
            }
        }
    }

    /// The search without a row takes no negative number of steps.
    pub proof fn lemma_skip_ticks(self, c: int)
        ensures
            self.skip_ticks(c) >= 0,
        decreases self.measure(), 0int, 0int,
    {
        if self.searching() && self.is_active(c) && self.fulfilled(c) {
            self.lemma_skip(c);
            lemma_total_nonneg(self.skip(c).live, self.cols + 1);
            lemma_total_nonneg(self.live, self.cols + 1);
            self.skip(c).lemma_ticks();
        }
    }

    /// The search with rows takes no negative number of steps.
    pub proof fn lemma_rows_ticks(self, c: int, k: int)
        ensures
            self.rows_ticks(c, k) >= 0,
        decreases self.measure(), 0int, self.live[c].len() - k,
    {
        if self.searching() && self.is_active(c) && 0 <= k < self.live[c].len() {
            self.lemma_rows_ticks(c, k + 1);
            self.lemma_trial(c, k);
            lemma_total_nonneg(self.trial(c, k).live, self.cols + 1);
            lemma_total_nonneg(self.live, self.cols + 1);
            if self.trial(c, k).fulfillable(c) {
                self.trial(c, k).lemma_ticks();
            }
            assert(self.row_ticks(c, k) >= 2);
        }
    }
}

/// A level of the search: the grid in which it began, the row of the
/// chosen column that it has come to, and whether it has gone on without a
/// row of the column.
pub struct Level {
    pub g: Grid,
    pub k: int,
    pub skipping: bool,
}

impl Level {
    /// The chosen column.
    pub open spec fn col(self) -> int {
        self.g.best_col()
    }

    /// The rows of the chosen column, top to bottom.
    pub open spec fn rows(self) -> Seq<int> {
        self.g.live[self.col()]
    }

    /// The level began in a grid in which the search chooses a column, and
    /// has come to a row of the column or beyond its rows.
    pub open spec fn wf(self) -> bool {
        &&& self.g.searching()
        &&& self.g.active.len() > 0
        &&& self.g.fulfillable(self.col())
        &&& 0 <= self.k <= self.rows().len()
        &&& self.skipping ==> self.k == self.rows().len() && self.g.fulfilled(self.col())
    }

    /// The level has gone down: with a row, or without any.
    pub open spec fn busy(self) -> bool {
        self.wf() && (self.skipping || self.k < self.rows().len())
    }

    /// The grid in which the search goes on below the level.
    pub open spec fn child(self) -> Grid {
        if self.skipping {
            self.g.skip(self.col())
        } else {
            self.g.trial(self.col(), self.k)
        }
    }

    /// The calls that the level is due to make when the search below it
    /// has come back.
    pub open spec fn left(self) -> Seq<Call> {
        if self.skipping {
            Seq::empty()
        } else {
            self.g.rows_trace(self.col(), self.k + 1) + self.g.skip_trace(self.col())
        }
    }

    /// The steps that the level is due to take when the search below it
    /// has come back.
    pub open spec fn left_ticks(self) -> int {
        if self.skipping {
            2
        } else {
            3 + self.g.rows_ticks(self.col(), self.k + 1) + self.g.skip_ticks(self.col())
        }
    }
}

/// The calls that the levels are due to make when the search below the
/// last of them has come back.
pub open spec fn rest(levels: Seq<Level>) -> Seq<Call>
    decreases levels.len(),
{
    if levels.len() == 0 {
        Seq::empty()
    } else {
        levels.last().left() + rest(levels.drop_last())
    }
}

/// The steps that the levels are due to take when the search below the
/// last of them has come back.
pub open spec fn rest_ticks(levels: Seq<Level>) -> int
    decreases levels.len(),
{
    if levels.len() == 0 {
        0
    } else {
        levels.last().left_ticks() + rest_ticks(levels.drop_last())
    }
}

/// Levels are due to take no negative number of steps.
pub proof fn lemma_rest_ticks(levels: Seq<Level>)
    ensures
        rest_ticks(levels) >= 0,
    decreases levels.len(),
{
    if levels.len() > 0 {
        lemma_rest_ticks(levels.drop_last());
        let l = levels.last();
        l.g.lemma_rows_ticks(l.col(), l.k + 1);
        l.g.lemma_skip_ticks(l.col());
    }
}

/// What a level keeps on the stack.
#[derive(Clone, Copy)]
pub struct Frame {
    /// The chosen column.
    pub col: usize,
    /// The first row of the column when it was chosen, or the column.
    pub first: usize,
    /// The row that the level has come to, or the column.
    pub row: usize,
    /// Whether the column is covered.
    pub covered: bool,
    /// Whether the level has gone on without a row of the column.
    pub skipping: bool,
}

/// What the search does next.
#[derive(Clone, Copy, PartialEq, Eq, Structural)]
pub enum Task {
    /// Begin a level in the present grid.
    Enter,
    /// Go on to the next row of the top level, or beyond its rows.
    Advance,
    /// Take back what led below the top level.
    Resume,
    /// Take back what the top level did to the grid, and leave it.
    Undo,
    /// Nothing.
    Done,
}

/// The frame is that of the level.
pub open spec fn bound(f: Frame, l: Level) -> bool {
    &&& l.wf()
    &&& f.col == l.col()
    &&& f.covered == l.g.fills(l.col())
    &&& f.first == succ(l.rows(), l.col(), -1)
    &&& f.skipping == l.skipping
}

/// The level has gone down, and its frame holds the row with which it did
/// if it did with one.
pub open spec fn engaged(f: Frame, l: Level) -> bool {
    l.busy() && (!l.skipping ==> f.row == l.rows()[l.k])
}

/// The frames are those of the levels, each level but the last has gone
/// down into the next, and the first began in `g0`.
pub open spec fn stacked(stack: Seq<Frame>, levels: Seq<Level>, g0: Grid) -> bool {
    &&& stack.len() == levels.len()
    &&& forall|i: int| 0 <= i < levels.len() ==> #[trigger] bound(stack[i], levels[i])
    &&& levels.len() > 0 ==> levels[0].g == g0
    &&& forall|i: int| 0 <= i < levels.len() - 1 ==> #[trigger] linked_up(stack, levels, i)
}

/// Level `i` has gone down into the next level.
pub open spec fn linked_up(stack: Seq<Frame>, levels: Seq<Level>, i: int) -> bool {
    engaged(stack[i], levels[i]) && levels[i + 1].g == levels[i].child()
}

/// The grid in which the search goes on below the last level.
pub open spec fn entry(levels: Seq<Level>, g0: Grid) -> Grid {
    if levels.len() == 0 {
        g0
    } else {
        levels.last().child()
    }
}

/// What holds of the grid and the stack before the search does `task`.
pub open spec fn poised(task: Task, grid: Grid, stack: Seq<Frame>, levels: Seq<Level>, g0: Grid) -> bool {
    &&& stacked(stack, levels, g0)
    &&& match task {
        Task::Enter => {
            &&& grid == entry(levels, g0)
            &&& grid.searching()
            &&& levels.len() > 0 ==> engaged(stack.last(), levels.last())
        },
        Task::Resume => {
            &&& levels.len() > 0
            &&& engaged(stack.last(), levels.last())
            &&& grid == levels.last().child()
        },
        Task::Advance => {
            &&& levels.len() > 0
            &&& !levels.last().skipping
            &&& grid == levels.last().g.stage(levels.last().col(), levels.last().k)
            &&& stack.last().row == succ(levels.last().rows(), levels.last().col(), levels.last().k - 1)
        },
        Task::Undo => {
            &&& levels.len() > 0
            &&& grid == levels.last().g.stage(levels.last().col(), levels.last().k).unbump(levels.last().col())
        },
        Task::Done => levels.len() == 0 && grid == g0,
    }
}

/// The calls that the search is due to make from `task` on, if it is not
/// stopped.
pub open spec fn todo(task: Task, levels: Seq<Level>, g0: Grid) -> Seq<Call> {
    match task {
        Task::Enter => entry(levels, g0).trace() + rest(levels),
        Task::Resume => rest(levels),
        Task::Advance => levels.last().g.rows_trace(levels.last().col(), levels.last().k) + levels.last().g.skip_trace(
            levels.last().col(),
        ) + rest(levels.drop_last()),
        Task::Undo => rest(levels.drop_last()),
        Task::Done => Seq::empty(),
    }
}

/// The steps that the search is due to take from `task` on, if it is not
/// stopped.
pub open spec fn fuel(task: Task, levels: Seq<Level>, g0: Grid) -> int {
    match task {
        Task::Enter => entry(levels, g0).ticks() + rest_ticks(levels),
        Task::Resume => rest_ticks(levels),
        Task::Advance => 2 + levels.last().g.rows_ticks(levels.last().col(), levels.last().k)
            + levels.last().g.skip_ticks(levels.last().col()) + rest_ticks(levels.drop_last()),
        Task::Undo => 1 + rest_ticks(levels.drop_last()),
        Task::Done => 0,
    }
}

/// The search is never due to take less than no step.
pub proof fn lemma_fuel(task: Task, levels: Seq<Level>, g0: Grid)
    ensures
        fuel(task, levels, g0) >= 0,
{
    lemma_rest_ticks(levels);
    lemma_rest_ticks(levels.drop_last());
    entry(levels, g0).lemma_ticks();
    levels.last().g.lemma_rows_ticks(levels.last().col(), levels.last().k);
    levels.last().g.lemma_skip_ticks(levels.last().col());
}

/// What holds between two steps of the search: the grid and the stack are
/// poised for `task`, and the calls made so far and those that are due are
/// the calls of the search from `g0`; or, if the search was stopped, the
/// calls made are the first so many of them and the call that tells of the
/// stop.
pub open spec fn steady(
    task: Task,
    grid: Grid,
    stopped: bool,
    calls: Seq<Call>,
    stack: Seq<Frame>,
    levels: Seq<Level>,
    done: Seq<Call>,
    g0: Grid,
    log: Seq<Call>,
) -> bool {
    &&& poised(task, grid, stack, levels, g0)
    &&& task == Task::Enter ==> !stopped
    &&& !stopped ==> calls == log + done && done + todo(task, levels, g0) == g0.trace()
    &&& stopped ==> sent(log, calls, true, g0.trace())
}

/// One more level on the stack.
pub proof fn lemma_rest_push(levels: Seq<Level>, l: Level)
    ensures
        rest(levels.push(l)) == l.left() + rest(levels),
        rest_ticks(levels.push(l)) == l.left_ticks() + rest_ticks(levels),
{
    assert(levels.push(l).drop_last() =~= levels);
    assert(levels.push(l).last() == l);
}

/// Another level in the place of the last one.
pub proof fn lemma_rest_swap(levels: Seq<Level>, l: Level)
    requires
        levels.len() > 0,
    ensures
        rest(levels.update(levels.len() - 1, l)) == l.left() + rest(levels.drop_last()),
        rest_ticks(levels.update(levels.len() - 1, l)) == l.left_ticks() + rest_ticks(levels.drop_last()),
        levels.update(levels.len() - 1, l).drop_last() == levels.drop_last(),
{
    let after = levels.update(levels.len() - 1, l);
    assert(after.drop_last() =~= levels.drop_last());
    assert(after.last() == l);
}

/// What going on to the next row does to the levels: nothing, if the level
/// goes down with a row or comes to its end; or the last level goes on
/// without a row.
pub open spec fn advanced(next: Task, levels: Seq<Level>, after: Seq<Level>, stopped: bool) -> bool {
    let l = levels.last();
    match next {
        Task::Enter => if after == levels {
            l.k < l.rows().len() && l.g.trial(l.col(), l.k).fulfillable(l.col())
        } else {
            after == levels.update(levels.len() - 1, Level { g: l.g, k: l.k, skipping: true }) && l.k == l.rows().len()
                && l.g.fulfilled(l.col())
        },
        Task::Resume => after == levels && l.k < l.rows().len() && !l.g.trial(l.col(), l.k).fulfillable(l.col()),
        Task::Undo => after == levels && (stopped || (l.k == l.rows().len() && !l.g.fulfilled(l.col()))),
        _ => false,
    }
}

/// What taking back a choice does to the levels: the last level comes to
/// its next row, or, after the choice of no row, to its end.
pub open spec fn resumed(next: Task, levels: Seq<Level>, after: Seq<Level>) -> bool {
    let l = levels.last();
    match next {
        Task::Advance => !l.skipping && after == levels.update(
            levels.len() - 1,
            Level { g: l.g, k: l.k + 1, skipping: false },
        ),
        Task::Undo => l.skipping && after == levels,
        _ => false,
    }
}

/// Going on to the next row keeps what holds between two steps, and takes
/// a step.
pub proof fn lemma_advance(
    task: Task,
    next: Task,
    levels: Seq<Level>,
    after: Seq<Level>,
    g0: Grid,
    stopped: bool,
    calls: Seq<Call>,
    done: Seq<Call>,
    log: Seq<Call>,
)
    requires
        task == Task::Advance,
        levels.len() > 0,
        levels.last().wf(),
        !levels.last().skipping,
        advanced(next, levels, after, stopped),
        next == Task::Enter ==> !stopped,
        !stopped ==> calls == log + done && done + todo(task, levels, g0) == g0.trace(),
        stopped ==> sent(log, calls, true, g0.trace()),
    ensures
        !stopped ==> calls == log + done && done + todo(next, after, g0) == g0.trace(),
        stopped ==> sent(log, calls, true, g0.trace()),
        fuel(next, after, g0) < fuel(task, levels, g0),
{
    let l = levels.last();
    let c = l.col();
    let below = levels.drop_last();
    l.g.lemma_best_col();
    l.g.lemma_rows_ticks(c, l.k);
    l.g.lemma_rows_ticks(c, l.k + 1);
    l.g.lemma_skip_ticks(c);
    lemma_rest_ticks(below);
    assert(levels =~= below.push(l));
    lemma_rest_push(below, l);
    if next == Task::Enter && after != levels {
        let top = Level { g: l.g, k: l.k, skipping: true };
        lemma_rest_swap(levels, top);
        assert(l.g.rows_trace(c, l.k) =~= Seq::<Call>::empty());
        assert(todo(next, after, g0) =~= todo(task, levels, g0));
        assert(l.g.rows_ticks(c, l.k) == 0);
        assert(l.g.skip_ticks(c) == 1 + l.g.skip(c).ticks());
    } else if next == Task::Enter || next == Task::Resume {
        assert(l.g.rows_trace(c, l.k) == l.g.row_trace(c, l.k) + l.g.rows_trace(c, l.k + 1));
        assert(todo(next, after, g0) =~= todo(task, levels, g0));
        assert(l.g.rows_ticks(c, l.k) == l.g.row_ticks(c, l.k) + l.g.rows_ticks(c, l.k + 1));
        assert(l.g.row_ticks(c, l.k) == if l.g.trial(c, l.k).fulfillable(c) {
            2 + l.g.trial(c, l.k).ticks()
        } else {
            2
        });
    } else if !stopped {
        assert(l.g.rows_trace(c, l.k) =~= Seq::<Call>::empty());
        assert(l.g.skip_trace(c) =~= Seq::<Call>::empty());
        assert(todo(next, after, g0) =~= todo(task, levels, g0));
    }
}

/// Taking back a choice keeps what holds between two steps, and takes a
/// step.
pub proof fn lemma_resume(
    task: Task,
    next: Task,
    levels: Seq<Level>,
    after: Seq<Level>,
    g0: Grid,
    stopped: bool,
    calls: Seq<Call>,
    done: Seq<Call>,
    log: Seq<Call>,
)
    requires
        task == Task::Resume,
        levels.len() > 0,
        levels.last().busy(),
        resumed(next, levels, after),
        !stopped ==> calls == log + done && done + todo(task, levels, g0) == g0.trace(),
        stopped ==> sent(log, calls, true, g0.trace()),
    ensures
        !stopped ==> calls == log + done && done + todo(next, after, g0) == g0.trace(),
        stopped ==> sent(log, calls, true, g0.trace()),
        fuel(next, after, g0) < fuel(task, levels, g0),
{
    let l = levels.last();
    let c = l.col();
    let below = levels.drop_last();
    l.g.lemma_best_col();
    lemma_rest_ticks(below);
    assert(levels =~= below.push(l));
    lemma_rest_push(below, l);
    if next == Task::Advance {
        let top = Level { g: l.g, k: l.k + 1, skipping: false };
        lemma_rest_swap(levels, top);
        assert(todo(next, after, g0) =~= todo(task, levels, g0));
    } else {
        assert(todo(next, after, g0) =~= todo(task, levels, g0));
    }
}

/// Leaving a level keeps what holds between two steps, and takes a step.
pub proof fn lemma_undo(
    task: Task,
    next: Task,
    levels: Seq<Level>,
    after: Seq<Level>,
    g0: Grid,
    stopped: bool,
    calls: Seq<Call>,
    done: Seq<Call>,
    log: Seq<Call>,
)
    requires
        task == Task::Undo,
        levels.len() > 0,
        after == levels.drop_last(),
        next == Task::Resume || (next == Task::Done && after.len() == 0),
        !stopped ==> calls == log + done && done + todo(task, levels, g0) == g0.trace(),
        stopped ==> sent(log, calls, true, g0.trace()),
    ensures
        !stopped ==> calls == log + done && done + todo(next, after, g0) == g0.trace(),
        stopped ==> sent(log, calls, true, g0.trace()),
        fuel(next, after, g0) < fuel(task, levels, g0),
{
    lemma_rest_ticks(after);
    if next == Task::Done {
        assert(rest(after) =~= Seq::<Call>::empty());
    }
}

} // verus!
