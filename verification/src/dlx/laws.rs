//! What holds of covering and uncovering, and of the solutions that the
//! search finds.

use vstd::prelude::*;
use crate::dlx::grid::{Grid, tally};
use crate::dlx::search::{Call, sent, picks, plain, stopped_at, lemma_picks_add, lemma_picks_push};
use crate::dlx::links::lemma_total_nonneg;

verus! {

/// A step that takes a column out of play or brings it back.
pub enum Move {
    Cover(int),
    Uncover(int),
}

impl Grid {
    /// The grid after the columns of `cs` were covered, first to last.
    pub open spec fn covers(self, cs: Seq<int>) -> Grid
        decreases cs.len(),
    {
        if cs.len() == 0 {
            self
        } else {
            self.covers(cs.drop_last()).cover(cs.last())
        }
    }

    /// Each of the columns of `cs` is active when its turn to be covered
    /// comes.
    pub open spec fn coverable(self, cs: Seq<int>) -> bool
        decreases cs.len(),
    {
        if cs.len() == 0 {
            true
        } else {
            self.coverable(cs.drop_last()) && self.covers(cs.drop_last()).is_active(cs.last())
        }
    }

    /// The columns that are covered and not yet uncovered after `moves`,
    /// in the order in which they were covered, if the moves are in order:
    /// a cover takes an active column, and an uncover brings back the
    /// column that was covered last.
    pub open spec fn open_covers(self, moves: Seq<Move>) -> Option<Seq<int>>
        decreases moves.len(),
    {
        if moves.len() == 0 {
            Some(Seq::empty())
        } else {
            match self.open_covers(moves.drop_last()) {
                None => None,
                Some(cs) => match moves.last() {
                    Move::Cover(c) => if self.covers(cs).is_active(c) {
                        Some(cs.push(c))
                    } else {
                        None
                    },
                    Move::Uncover(c) => if cs.len() > 0 && cs.last() == c {
                        Some(cs.drop_last())
                    } else {
                        None
                    },
                },
            }
        }
    }

    /// The grid after the moves were made, first to last.
    pub open spec fn run(self, moves: Seq<Move>) -> Grid
        decreases moves.len(),
    {
        if moves.len() == 0 {
            self
        } else {
            match moves.last() {
                Move::Cover(c) => self.run(moves.drop_last()).cover(c),
                Move::Uncover(c) => self.run(moves.drop_last()).uncover(c),
            }
        }
    }

    /// Covering columns that are active in their turn keeps the grid
    /// well-formed and coherent.
    pub proof fn lemma_covers(self, cs: Seq<int>)
        requires
            self.wf(),
            self.coherent(),
            self.coverable(cs),
        ensures
            self.covers(cs).wf(),
            self.covers(cs).coherent(),
        decreases cs.len(),
    {
        if cs.len() > 0 {
            self.lemma_covers(cs.drop_last());
            self.covers(cs.drop_last()).lemma_cover(cs.last());
        }
    }

    /// Cover symmetry, one column: uncovering a column that was just
    /// covered gives back the grid, every link of every node.
    pub proof fn law_cover_uncover(self, c: int)
        requires
            self.wf(),
            self.coherent(),
            self.is_active(c),
        ensures
            self.cover(c).uncover(c) == self,
    {
        self.lemma_cover(c);
    }

    /// After moves that are in order, the grid is the grid with the open
    /// covers made.
    pub proof fn lemma_run(self, moves: Seq<Move>)
        requires
            self.wf(),
            self.coherent(),
            self.open_covers(moves) is Some,
        ensures
            self.coverable(self.open_covers(moves)->Some_0),
            self.run(moves) == self.covers(self.open_covers(moves)->Some_0),
        decreases moves.len(),
    {
        if moves.len() > 0 {
            let init = moves.drop_last();
            self.lemma_run(init);
            let cs = self.open_covers(init)->Some_0;
            self.lemma_covers(cs);
            match moves.last() {
                Move::Cover(c) => {
                    assert(cs.push(c).drop_last() =~= cs);
                },
                Move::Uncover(c) => {
                    let rest = cs.drop_last();
                    self.lemma_covers(rest);
                    self.covers(rest).lemma_cover(c);
                },
            }
        }
    }

    /// Cover symmetry: after covers and uncovers in which every cover is
    /// matched by one uncover, last covered first uncovered, the grid is
    /// what it was, every link of every node.
    pub proof fn law_cover_symmetry(self, moves: Seq<Move>)
        requires
            self.wf(),
            self.coherent(),
            self.open_covers(moves) == Some(Seq::<int>::empty()),
        ensures
            self.run(moves) == self,
    {
        self.lemma_run(moves);
    }

    /// Solution validity: every solution that the search finds covers
    /// every column a number of times within its range.
    pub proof fn law_solutions_valid(self)
        requires
            self.searching(),
        ensures
            forall|i: int| 0 <= i < self.solutions().len() ==> self.is_cover(#[trigger] self.solutions()[i]),
        decreases self.measure(), 1int,
    {
        if self.active.len() == 0 {
            self.lemma_found();
        } else {
            let c = self.best_col();
            self.lemma_best_col();
            lemma_total_nonneg(self.live, self.cols + 1);
            if self.fulfillable(c) {
                self.lemma_rows_valid(c, 0);
                let rows = self.rows_from(c, 0);
                if self.fulfilled(c) {
                    self.lemma_skip(c);
                    lemma_total_nonneg(self.skip(c).live, self.cols + 1);
                    self.skip(c).law_solutions_valid();
                    let more = self.skip(c).solutions();
                    assert(self.solutions() == rows + more);
                    assert forall|i: int| 0 <= i < self.solutions().len() implies self.is_cover(
                        #[trigger] self.solutions()[i],
                    ) by {
                        if i < rows.len() {
                            assert(self.solutions()[i] == rows[i]);
                        } else {
                            assert(self.solutions()[i] == more[i - rows.len()]);
                            self.lemma_same_covers(self.skip(c), more[i - rows.len()]);
                        }
                    }
                } else {
                    assert(self.solutions() =~= rows);
                }
            }
        }
    }

    /// The solutions found from row `k` of column `c` on are covers.
    pub proof fn lemma_rows_valid(self, c: int, k: int)
        requires
            self.searching(),
            self.is_active(c),
            0 <= k,
        ensures
            forall|i: int| 0 <= i < self.rows_from(c, k).len() ==> self.is_cover(#[trigger] self.rows_from(c, k)[i]),
        decreases self.measure(), 0int, self.live[c].len() - k,
    {
        if k < self.live[c].len() {
            self.lemma_rows_valid(c, k + 1);
            let t = self.trial(c, k);
            self.lemma_trial(c, k);
            lemma_total_nonneg(self.live, self.cols + 1);
            lemma_total_nonneg(t.live, self.cols + 1);
            let one = self.row_at(c, k);
            let rest = self.rows_from(c, k + 1);
            assert(self.rows_from(c, k) == one + rest);
            if t.fulfillable(c) {
                t.law_solutions_valid();
            }
            assert forall|i: int| 0 <= i < self.rows_from(c, k).len() implies self.is_cover(
                #[trigger] self.rows_from(c, k)[i],
            ) by {
                if i < one.len() {
                    assert(self.rows_from(c, k)[i] == one[i]);
                    assert(one == t.solutions());
                    assert(t.is_cover(t.solutions()[i]));
                    self.lemma_same_covers(t, one[i]);
                } else {
                    assert(self.rows_from(c, k)[i] == rest[i - one.len()]);
                }
            }
        }
    }

    /// Grids with the same rows and ranges have the same covers.
    pub proof fn lemma_same_covers(self, other: Grid, sol: Seq<usize>)
        requires
            other.cols == self.cols,
            other.rows == self.rows,
            other.min == self.min,
            other.max == self.max,
            other.is_cover(sol),
        ensures
            self.is_cover(sol),
    {
        assert forall|c: int| self.is_column(c) implies self.min[c] <= #[trigger] tally(self.rows, sol, c)
            <= self.max[c] by {
            assert(other.is_column(c));
        }
    }
}

/// Order determinism: two searches of one matrix that are not stopped make
/// the same calls in the same order, and so hand over the same solutions
/// in the same order, whether they keep their levels on the call stack or
/// on a stack of their own.
pub proof fn law_same_order(g: Grid, before1: Seq<Call>, after1: Seq<Call>, before2: Seq<Call>, after2: Seq<Call>)
    requires
        after1 == before1 + g.trace().push(Call::Finish),
        after2 == before2 + g.trace().push(Call::Finish),
    ensures
        after1.skip(before1.len() as int) == after2.skip(before2.len() as int),
        picks(after1.skip(before1.len() as int)) == g.solutions(),
        picks(after2.skip(before2.len() as int)) == g.solutions(),
{
    assert(after1.skip(before1.len() as int) =~= g.trace().push(Call::Finish));
    assert(after2.skip(before2.len() as int) =~= g.trace().push(Call::Finish));
    g.lemma_trace_picks();
    lemma_picks_push(g.trace(), Call::Finish);
}

/// A search that is not stopped tells of its end once, behind every other
/// call, and never of a stop: its calls before the last are solutions and
/// steps with the flag down.
pub proof fn law_finish_once(g: Grid, before: Seq<Call>, after: Seq<Call>)
    requires
        after == before + g.trace().push(Call::Finish),
    ensures
        after.len() > before.len(),
        after.last() == Call::Finish,
        forall|i: int| before.len() <= i < after.len() - 1 ==> plain(#[trigger] after[i]),
{
    g.lemma_trace_quiet();
    assert forall|i: int| before.len() <= i < after.len() - 1 implies plain(#[trigger] after[i]) by {
        assert(after[i] == g.trace()[i - before.len()]);
    }
}

/// The solutions that a search hands over if it is not stopped are the
/// solutions of the search, behind those handed over before.
pub proof fn lemma_finished(g: Grid, before: Seq<Call>, after: Seq<Call>)
    requires
        after == before + g.trace().push(Call::Finish),
    ensures
        picks(after) == picks(before) + g.solutions(),
{
    g.lemma_trace_picks();
    lemma_picks_push(g.trace(), Call::Finish);
    lemma_picks_add(before, g.trace().push(Call::Finish));
}

/// The solutions among the first calls of a search are the first
/// solutions of the search.
pub proof fn lemma_picks_take(calls: Seq<Call>, n: int)
    requires
        0 <= n <= calls.len(),
    ensures
        picks(calls.take(n)).len() <= picks(calls).len(),
        picks(calls.take(n)) == picks(calls).take(picks(calls.take(n)).len() as int),
{
    lemma_picks_add(calls.take(n), calls.skip(n));
    assert(calls.take(n) + calls.skip(n) =~= calls);
    let a = picks(calls.take(n));
    let b = picks(calls.skip(n));
    assert((a + b).take(a.len() as int) =~= a);
}

/// The solutions that a search hands over if it is stopped are the first
/// so many solutions of the search, behind those handed over before.
pub proof fn lemma_stopped(g: Grid, before: Seq<Call>, after: Seq<Call>)
    requires
        sent(before, after, true, g.trace()),
    ensures
        picks(before).len() <= picks(after).len() <= picks(before).len() + g.solutions().len(),
        picks(after) == picks(before) + g.solutions().take(picks(after).len() - picks(before).len()),
{
    g.lemma_trace_picks();
    let whole = g.trace();
    let n = after.len() - before.len() - 1;
    let part = whole.take(n);
    lemma_picks_take(whole, n);
    let cut = if after == before + stopped_at(whole, n, false) {
        stopped_at(whole, n, false)
    } else {
        stopped_at(whole, n, true)
    };
    assert(picks(cut) == picks(part)) by {
        if after == before + stopped_at(whole, n, false) {
            let head = whole.take(n - 1);
            assert(part =~= head.push(whole[n - 1]));
            lemma_picks_push(head, whole[n - 1]);
            lemma_picks_push(head, Call::Iteration(false, true));
            lemma_picks_push(head.push(Call::Iteration(false, true)), Call::Abort);
        } else {
            let head = whole.take(n - 2);
            let sol = whole[n - 2]->Solution_0;
            assert(part =~= head.push(whole[n - 2]).push(whole[n - 1]));
            lemma_picks_push(head, whole[n - 2]);
            lemma_picks_push(head.push(whole[n - 2]), whole[n - 1]);
            lemma_picks_push(head, Call::Solution(sol, true));
            lemma_picks_push(head.push(Call::Solution(sol, true)), Call::Iteration(true, true));
            lemma_picks_push(head.push(Call::Solution(sol, true)).push(Call::Iteration(true, true)), Call::Abort);
        }
    }
    lemma_picks_add(before, cut);
}

} // verus!
