//! The order in which the search finds its solutions, and what holds of the
//! grid at each of its steps.

use vstd::prelude::*;
use crate::dlx::grid::{Grid, tally, holds, succ, first_least};
use crate::dlx::links::{lemma_total_nonneg, lemma_index_of};

verus! {

/// A row added to the chosen ones counts for the columns it holds.
pub proof fn lemma_tally_push(rows: Seq<Seq<usize>>, sol: Seq<usize>, r: usize, c: int)
    ensures
        tally(rows, sol.push(r), c) == tally(rows, sol, c) + if holds(rows, r as int, c) {
            1int
        } else {
            0int
        },
{
    assert(sol.push(r).drop_last() =~= sol);
    assert(sol.push(r).last() == r);
}

/// No column counts more rows than were chosen.
pub proof fn lemma_tally_bound(rows: Seq<Seq<usize>>, sol: Seq<usize>, c: int)
    ensures
        0 <= tally(rows, sol, c) <= sol.len(),
    decreases sol.len(),
{
    if sol.len() > 0 {
        lemma_tally_bound(rows, sol.drop_last(), c);
    }
}

impl Grid {
    /// While a column is active, every weight is below the number of nodes.
    pub proof fn lemma_weight_room(self, c: int)
        requires
            self.searching(),
            self.active.len() > 0,
            self.is_column(c),
        ensures
            0 <= self.weight[c] < self.nodes(),
            self.weight[c] < usize::MAX,
            self.sol.len() < usize::MAX,
    {
        lemma_tally_bound(self.rows, self.sol, c);
        lemma_total_nonneg(self.live, self.cols + 1);
    }

    /// Choosing a row changes nothing but the chosen rows.
    pub proof fn lemma_push_sol(self, r: usize)
        requires
            self.wf(),
        ensures
            self.push_sol(r).wf(),
            self.coherent() ==> self.push_sol(r).coherent(),
            self.push_sol(r).measure() == self.measure(),
    {
        let g = self.push_sol(r);
        assert forall|c2: int| 0 <= c2 <= g.cols implies #[trigger] g.header_ok(c2) by {
            assert(self.header_ok(c2));
        }
        assert forall|k: int| g.is_item(k) implies #[trigger] g.item_ok(k) by {
            assert(self.item_ok(k));
        }
        assert forall|k: int, m: int| g.is_item(k) && #[trigger] g.in_row(k, m) implies g.row_ok(k, m) by {
            assert(self.in_row(k, m));
            assert(self.row_ok(k, m));
        }
        assert forall|c2: int| g.is_column(c2) implies #[trigger] g.column_ok(c2) by {
            assert(self.column_ok(c2));
            assert forall|k: int| 0 <= k < g.live[c2].len() implies #[trigger] g.member_ok(c2, k) by {
                assert(self.member_ok(c2, k));
            }
        }
        if self.coherent() {
            assert forall|j: int| g.is_item(j) && #[trigger] g.is_live(j) && g.is_active(g.col[j]) implies g.intact(
                j,
            ) by {
                assert(self.is_live(j));
                assert(self.intact(j));
                assert forall|k: int| #[trigger] g.in_row(j, k) implies g.is_live(k) && g.is_active(g.col[k]) by {
                    assert(self.in_row(j, k));
                }
            }
        }
    }

    /// The grid after the search has committed to an active column and is
    /// done with `k` of its rows.
    pub proof fn lemma_stage(self, c: int, k: int)
        requires
            self.searching(),
            self.is_active(c),
            0 <= k <= self.live[c].len(),
        ensures
            ({
                let rs = self.live[c];
                let s = self.stage(c, k);
                &&& self.is_column(c)
                &&& self.weight[c] < usize::MAX
                &&& self.bump(c).wf()
                &&& self.bump(c).coherent()
                &&& self.bump(c).is_active(c)
                &&& self.bump(c).live[c] == rs
                &&& self.bump(c).full(c) == self.fills(c)
                &&& s.wf()
                &&& s.coherent()
                &&& self.same_frame(s)
                &&& s.weight == self.weight.update(c, self.weight[c] + 1)
                &&& s.measure() <= self.measure()
                &&& self.fills(c) ==> s.measure() < self.measure()
                &&& !self.fills(c) ==> s.measure() <= self.measure() - k
                &&& forall|c2: int| #[trigger] s.is_active(c2) <==> self.is_active(c2) && !(self.fills(c) && c2 == c)
                &&& forall|i: int| 0 <= i < rs.len() ==> s.is_item(#[trigger] rs[i]) && s.col[rs[i]] == c
                &&& forall|i: int|
                    0 <= i < rs.len() && (self.fills(c) || i < k) ==> s.down[#[trigger] rs[i]] == succ(rs, c, i)
                &&& s.down[c] == succ(
                    rs,
                    c,
                    if self.fills(c) {
                        -1
                    } else {
                        k - 1
                    },
                )
                &&& s.size[c] == if self.fills(c) {
                    rs.len() as int
                } else {
                    rs.len() - k
                }
                &&& k < rs.len() && !self.fills(c) ==> {
                    &&& s.is_live(rs[k])
                    &&& self.stage(c, k + 1) == s.tweak(rs[k])
                    &&& s.down[rs[k]] == succ(rs, c, k)
                }
                &&& self.fills(c) ==> s.unbump(c) == self.cover(c)
                &&& !self.fills(c) ==> s.unbump(c) == self.tweak_rows(rs.take(k))
            }),
    {
        let rs = self.live[c];
        self.lemma_unlink(c);
        self.lemma_weight_room(c);
        self.lemma_bump(c);
        let g1 = self.bump(c);
        let s = self.stage(c, k);
        assert(self.header_ok(c));
        assert(self.column_ok(c));
        assert forall|i: int| 0 <= i < rs.len() implies s.is_item(#[trigger] rs[i]) && s.col[rs[i]] == c by {
            assert(self.member_ok(c, i));
            if self.fills(c) {
                g1.lemma_cover(c);
            } else {
                g1.lemma_tweak_take(c, k);
            }
        }
        if self.fills(c) {
            g1.lemma_cover(c);
            g1.lemma_cover_take(c, rs.len() as int);
            self.lemma_blind_cover(c, g1.weight);
            assert(self.cover(c).weight =~= self.weight) by {
                self.lemma_cover(c);
            }
            assert(s.unbump(c).weight =~= self.weight);
            assert(s.unbump(c) == self.cover(c));
            assert(s.column_ok(c));
        } else {
            g1.lemma_tweak_take(c, k);
            self.lemma_blind_tweak_rows(rs.take(k), g1.weight);
            self.lemma_tweak_take(c, k);
            assert(s.unbump(c).weight =~= self.weight);
            assert(s.unbump(c) == self.tweak_rows(rs.take(k)));
            assert(s.column_ok(c));
            assert(rs.skip(k).len() == rs.len() - k);
        }
    }

    /// The grid after a row of the chosen column has been chosen.
    pub proof fn lemma_trial(self, c: int, k: int)
        requires
            self.searching(),
            self.is_active(c),
            0 <= k < self.live[c].len(),
        ensures
            ({
                let r = self.live[c][k];
                let base = self.stage(
                    c,
                    if self.fills(c) {
                        k
                    } else {
                        k + 1
                    },
                );
                &&& base.wf()
                &&& base.coherent()
                &&& base.is_item(r)
                &&& base.selectable(base.mates(r))
                &&& 1 <= self.row[r] <= usize::MAX
                &&& base.row[r] == self.row[r]
                &&& base.select_row(r).wf()
                &&& base.select_row(r).sol == self.sol
                &&& base.select_row(r).cols == self.cols
                &&& base.select_row(r).row == self.row
                &&& self.trial(c, k) == base.select_row(r).push_sol(self.row[r] as usize)
                &&& self.trial(c, k).searching()
                &&& self.trial(c, k).measure() < self.measure()
                &&& self.trial(c, k).cols == self.cols
                &&& self.trial(c, k).rows == self.rows
                &&& self.trial(c, k).min == self.min
                &&& self.trial(c, k).max == self.max
            }),
    {
        let rs = self.live[c];
        let r = rs[k];
        let n = if self.fills(c) { k } else { k + 1 };
        let base = self.stage(c, n);
        self.lemma_stage(c, n);
        assert(self.column_ok(c));
        assert(self.member_ok(c, k));
        lemma_index_of(rs, k);
        assert(self.is_live(r));
        self.lemma_intact(r);
        self.lemma_mates(r);
        assert(self.item_ok(r));
        let ms = self.mates(r);
        assert(base.mates(r) == ms);
        assert(base.selectable(ms)) by {
            assert forall|i: int| 0 <= i < ms.len() implies {
                &&& base.is_item(#[trigger] ms[i])
                &&& base.is_active(base.col[ms[i]])
                &&& base.weight[base.col[ms[i]]] < usize::MAX
            } by {
                assert(self.is_active(self.col[ms[i]]));
                assert(self.item_ok(ms[i]));
                self.lemma_weight_room(self.col[ms[i]]);
            }
            assert forall|i: int, j: int| 0 <= i < j < ms.len() implies base.col[#[trigger] ms[i]] != base.col[
                #[trigger] ms[j]
            ] by {
                assert(self.in_row(ms[i], ms[j]));
                assert(self.row_ok(ms[i], ms[j]));
                crate::dlx::links::lemma_distinct(ms, i, j);
            }
        }
        base.lemma_select_nodes(ms);
        let picked = base.select_row(r);
        let row = self.row[r] as usize;
        picked.lemma_push_sol(row);
        let t = picked.push_sol(row);
        assert(t == self.trial(c, k));
        assert(t.ranged());
        assert(t.tallied()) by {
            assert forall|c2: int| t.is_column(c2) implies #[trigger] t.weight[c2] == tally(t.rows, t.sol, c2) by {
                lemma_tally_push(self.rows, self.sol, row, c2);
                self.lemma_row_holds(r, c2);
                assert(self.weight[c2] == tally(self.rows, self.sol, c2));
                assert(picked.weight[c2] == base.weight[c2] + if base.touches(ms, c2) {
                    1int
                } else {
                    0int
                });
                assert(base.touches(ms, c2) == self.touches(ms, c2));
                if self.touches(ms, c) {
                    let i = choose|i: int| 0 <= i < ms.len() && self.col[#[trigger] ms[i]] == c;
                }
            }
        }
        assert(t.settled()) by {
            assert forall|c2: int| t.is_column(c2) && !(#[trigger] t.is_active(c2)) implies t.fulfilled(c2) by {
                assert(self.min[c2] <= self.max[c2]);
                assert(picked.weight[c2] == base.weight[c2] + if base.touches(ms, c2) {
                    1int
                } else {
                    0int
                });
                if base.is_active(c2) {
                    assert(!picked.is_active(c2));
                } else if self.is_active(c2) {
                    assert(c2 == c && self.fills(c));
                    if base.touches(ms, c) {
                        let i = choose|i: int| 0 <= i < ms.len() && base.col[#[trigger] ms[i]] == c;
                    }
                } else {
                    assert(self.fulfilled(c2));
                    if base.touches(ms, c2) {
                        let i = choose|i: int| 0 <= i < ms.len() && base.col[#[trigger] ms[i]] == c2;
                        assert(self.is_active(self.col[ms[i]]));
                    }
                }
            }
        }
        assert(t.row_numbers(t.sol)) by {
            assert forall|i: int| 0 <= i < t.sol.len() implies 1 <= #[trigger] t.sol[i] <= t.rows.len() by {
                if i < self.sol.len() {
                    assert(t.sol[i] == self.sol[i]);
                }
            }
        }
    }

    /// The grid after the search has chosen to take no row of the chosen
    /// column.
    pub proof fn lemma_skip(self, c: int)
        requires
            self.searching(),
            self.is_active(c),
            self.fulfilled(c),
        ensures
            self.skip(c).searching(),
            self.skip(c).measure() < self.measure(),
            self.same_frame(self.skip(c)),
            self.skip(c).weight == self.weight,
            self.fills(c) ==> self.skip(c) == self.stage(c, self.live[c].len() as int).unbump(c),
            !self.fills(c) ==> self.skip(c) == self.stage(c, self.live[c].len() as int).unbump(c).unlink(c)
                && self.stage(c, self.live[c].len() as int).unbump(c).wf() && self.stage(
                c,
                self.live[c].len() as int,
            ).unbump(c).is_active(c),
    {
        let rs = self.live[c];
        let n = rs.len() as int;
        self.lemma_stage(c, n);
        assert(rs.take(n) =~= rs);
        let s = self.skip(c);
        if self.fills(c) {
            self.lemma_cover(c);
        } else {
            self.lemma_tweak_take(c, n);
            let mid = self.tweak_rows(rs);
            mid.lemma_unlink(c);
            assert forall|j: int| s.is_item(j) && #[trigger] s.is_live(j) && s.is_active(s.col[j]) implies s.intact(
                j,
            ) by {
                assert(mid.is_live(j));
                assert(mid.intact(j));
                assert forall|m: int| #[trigger] s.in_row(j, m) implies s.is_live(m) && s.is_active(s.col[m]) by {
                    assert(mid.in_row(j, m));
                    assert(mid.row_ok(j, m));
                    assert(mid.item_ok(j));
                    assert(mid.item_ok(m));
                    if mid.col[m] == c {
                        assert(mid.is_live(m));
                        assert(mid.live[c].len() == 0);
                    }
                }
            }
        }
        assert(s.tallied()) by {
            assert forall|c2: int| s.is_column(c2) implies #[trigger] s.weight[c2] == tally(s.rows, s.sol, c2) by {
                assert(self.weight[c2] == tally(self.rows, self.sol, c2));
            }
        }
        assert(s.settled()) by {
            assert forall|c2: int| s.is_column(c2) && !(#[trigger] s.is_active(c2)) implies s.fulfilled(c2) by {
                if c2 != c {
                    assert(!self.is_active(c2));
                }
            }
        }
        assert(s.ranged()) by {
            assert forall|c2: int| s.is_column(c2) implies #[trigger] s.min[c2] <= s.max[c2] by {
                assert(self.min[c2] <= self.max[c2]);
            }
        }
    }

    /// The search can start from a grid at rest.
    pub proof fn lemma_ready(self)
        requires
            self.ready(),
        ensures
            self.searching(),
    {
        assert forall|j: int|
            self.is_item(j) && #[trigger] self.is_live(j) && self.is_active(self.col[j]) implies self.intact(j) by {
            assert forall|k: int| #[trigger] self.in_row(j, k) implies self.is_live(k) && self.is_active(
                self.col[k],
            ) by {
                assert(self.row_ok(j, k));
                assert(self.item_ok(j));
                assert(self.item_ok(k));
                assert(self.active[self.col[k] - 1] == self.col[k]);
            }
        }
        assert forall|c: int| self.is_column(c) implies #[trigger] self.weight[c] == tally(self.rows, self.sol, c) by {}
        assert forall|c: int| self.is_column(c) && !(#[trigger] self.is_active(c)) implies self.fulfilled(c) by {
            assert(self.active[c - 1] == c);
        }
    }

    /// The chosen column is an active column.
    pub proof fn lemma_best_col(self)
        requires
            self.wf(),
            self.active.len() > 0,
        ensures
            self.is_active(self.best_col()),
            self.is_column(self.best_col()),
    {
        let sizes = self.active_sizes();
        lemma_first_least(sizes, self.active.len() as int);
        let i = first_least(sizes, self.active.len() as int);
        assert(self.is_column(self.active[i]));
    }

    /// When no column is active, the chosen rows are a cover.
    pub proof fn lemma_found(self)
        requires
            self.searching(),
            self.active.len() == 0,
        ensures
            self.is_cover(self.sol),
    {
        assert forall|c: int| self.is_column(c) implies self.min[c] <= #[trigger] tally(self.rows, self.sol, c)
            <= self.max[c] by {
            assert(!self.is_active(c));
            assert(self.fulfilled(c));
            assert(self.weight[c] == tally(self.rows, self.sol, c));
        }
    }

    /// The solutions in the order in which the search finds them.
    ///
    /// With no active column left, the chosen rows are the one solution.
    /// Otherwise the search takes the active column with the fewest live
    /// items, the first of them; gives up if its weight can no longer come
    /// within its range; tries its live rows top to bottom; and at last, if
    /// the column is content with the rows chosen before, goes on without a
    /// row of it.
    pub open spec fn solutions(self) -> Seq<Seq<usize>>
        decreases self.measure(), 1int, 0int,
    {
        if !self.searching() {
            Seq::empty()
        } else if self.active.len() == 0 {
            seq![self.sol]
        } else {
            let c = self.best_col();
            proof {
                self.lemma_best_col();
                if self.fulfilled(c) {
                    self.lemma_skip(c);
                    lemma_total_nonneg(self.skip(c).live, self.cols + 1);
                }
                lemma_total_nonneg(self.live, self.cols + 1);
            }
            if !self.fulfillable(c) {
                Seq::empty()
            } else {
                self.rows_from(c, 0) + if self.fulfilled(c) {
                    self.skip(c).solutions()
                } else {
                    Seq::empty()
                }
            }
        }
    }

    /// The solutions that hold row `k` of column `c`, or a later row of it
    /// and none of the earlier ones.
    pub open spec fn rows_from(self, c: int, k: int) -> Seq<Seq<usize>>
        decreases self.measure(), 0int, self.live[c].len() - k,
    {
        if !(self.searching() && self.is_active(c) && 0 <= k < self.live[c].len()) {
            Seq::empty()
        } else {
            self.row_at(c, k) + self.rows_from(c, k + 1)
        }
    }

    /// The solutions that hold row `k` of column `c` and none of the
    /// earlier ones.
    pub open spec fn row_at(self, c: int, k: int) -> Seq<Seq<usize>>
        decreases self.measure(), 0int, 0int,
    {
        if !(self.searching() && self.is_active(c) && 0 <= k < self.live[c].len()) {
            Seq::empty()
        } else {
            proof {
                self.lemma_trial(c, k);
                lemma_total_nonneg(self.trial(c, k).live, self.cols + 1);
                lemma_total_nonneg(self.live, self.cols + 1);
            }
            if self.trial(c, k).fulfillable(c) {
                self.trial(c, k).solutions()
            } else {
                Seq::empty()
            }
        }
    }
}

/// The first least element stands among the first `n`.
pub proof fn lemma_first_least(s: Seq<int>, n: int)
    requires
        0 < n <= s.len(),
    ensures
        0 <= first_least(s, n) < n,
        forall|i: int| 0 <= i < n ==> s[first_least(s, n)] <= #[trigger] s[i],
        forall|i: int| 0 <= i < first_least(s, n) ==> s[first_least(s, n)] < #[trigger] s[i],
    decreases n,
{
    if n > 1 {
        lemma_first_least(s, n - 1);
    }
}

/// A call of a hook of a callback.
pub enum Call {
    /// `on_solution` with these rows, and whether a stop was asked for when
    /// the hook returned.
    Solution(Seq<usize>, bool),
    /// `on_iteration`, whether a stop was asked for when the hook was
    /// called, and whether one was when it returned.
    Iteration(bool, bool),
    /// `on_abort`.
    Abort,
    /// `on_finish`.
    Finish,
}

/// A stop was asked for when the hook of the call returned.
pub open spec fn loud(call: Call) -> bool {
    match call {
        Call::Solution(_, stop) => stop,
        Call::Iteration(_, stop) => stop,
        _ => false,
    }
}

/// Whether a call is one that a search makes while nothing asks for a stop:
/// a solution or a step, with the flag down before it and behind it.
pub open spec fn plain(call: Call) -> bool {
    match call {
        Call::Solution(_, stop) => !stop,
        Call::Iteration(was, stop) => !was && !stop,
        _ => false,
    }
}

/// A stop was asked for when a hook of one of the calls returned.
pub open spec fn asked(calls: Seq<Call>) -> bool {
    exists|i: int| 0 <= i < calls.len() && loud(#[trigger] calls[i])
}

/// The solutions among the calls, in their order.
pub open spec fn picks(calls: Seq<Call>) -> Seq<Seq<usize>>
    decreases calls.len(),
{
    if calls.len() == 0 {
        Seq::empty()
    } else {
        match calls.last() {
            Call::Solution(sol, _) => picks(calls.drop_last()).push(sol),
            _ => picks(calls.drop_last()),
        }
    }
}

/// One more call is one more solution if it is a call with a solution.
pub proof fn lemma_picks_push(calls: Seq<Call>, call: Call)
    ensures
        picks(calls.push(call)) == match call {
            Call::Solution(sol, _) => picks(calls).push(sol),
            _ => picks(calls),
        },
{
    assert(calls.push(call).drop_last() =~= calls);
    assert(calls.push(call).last() == call);
}

/// The solutions of two lists of calls are those of the one and then those
/// of the other.
pub proof fn lemma_picks_add(a: Seq<Call>, b: Seq<Call>)
    ensures
        picks(a + b) == picks(a) + picks(b),
    decreases b.len(),
{
    if b.len() == 0 {
        assert(a + b =~= a);
        assert(picks(a) + picks(b) =~= picks(a));
    } else {
        lemma_picks_add(a, b.drop_last());
        assert((a + b).drop_last() =~= a + b.drop_last());
        assert((a + b).last() == b.last());
        match b.last() {
            Call::Solution(sol, _) => {
                assert(picks(a + b) =~= picks(a) + picks(b));
            },
            _ => {},
        }
    }
}

/// The calls of a search that is due to make the calls of `whole` and is
/// stopped at its `n`-th call, a call of `on_iteration`: the calls before
/// it, that call, which returns with a stop asked for, and the call that
/// tells of the stop. The stop is asked for in `on_iteration` itself, or,
/// if `early`, in the call of `on_solution` right before it.
pub open spec fn stopped_at(whole: Seq<Call>, n: int, early: bool) -> Seq<Call> {
    if early {
        whole.take(n - 2).push(Call::Solution(whole[n - 2]->Solution_0, true)).push(Call::Iteration(true, true)).push(
            Call::Abort,
        )
    } else {
        whole.take(n - 1).push(Call::Iteration(false, true)).push(Call::Abort)
    }
}

/// What a search that is due to make the calls of `whole`, none of which
/// asks for a stop, has made of them: `after` is `before` and then all of
/// them; or, if the search was stopped, the calls up to a call of
/// `on_iteration` that returned with a stop asked for, and then the call
/// that tells of the stop.
pub open spec fn sent(before: Seq<Call>, after: Seq<Call>, stopped: bool, whole: Seq<Call>) -> bool {
    if stopped {
        let n = after.len() - before.len() - 1;
        &&& 1 <= n <= whole.len()
        &&& whole[n - 1] == Call::Iteration(false, false)
        &&& (after == before + stopped_at(whole, n, false) || (n >= 2 && whole[n - 2] is Solution && after == before
            + stopped_at(whole, n, true)))
    } else {
        after == before + whole
    }
}

/// The calls of a part of a search are calls of the search.
pub proof fn lemma_sent_within(
    log: Seq<Call>,
    done: Seq<Call>,
    part: Seq<Call>,
    rest: Seq<Call>,
    end: Seq<Call>,
    stopped: bool,
)
    requires
        sent(log + done, end, stopped, part),
    ensures
        stopped ==> sent(log, end, true, done + part + rest),
        !stopped ==> end == log + (done + part),
{
    let mid = log + done;
    let whole = done + part + rest;
    if stopped {
        let n = end.len() - mid.len() - 1;
        let m = done.len() + n;
        assert(whole[m - 1] == part[n - 1]);
        assert(whole.take(m - 1) =~= done + part.take(n - 1));
        if end == mid + stopped_at(part, n, false) {
            assert(end =~= log + stopped_at(whole, m, false));
        } else {
            assert(whole[m - 2] == part[n - 2]);
            assert(whole.take(m - 2) =~= done + part.take(n - 2));
            assert(end =~= log + stopped_at(whole, m, true));
        }
    } else {
        assert(end =~= log + (done + part));
    }
}

/// The calls of a search that came to its end ask for no stop.
pub proof fn lemma_finish_quiet(before: Seq<Call>, after: Seq<Call>, whole: Seq<Call>)
    requires
        after == before + whole.push(Call::Finish),
        !asked(whole),
    ensures
        !asked(after.skip(before.len() as int)),
{
    let new = after.skip(before.len() as int);
    assert(new =~= whole.push(Call::Finish));
    if asked(new) {
        let i = choose|i: int| 0 <= i < new.len() && loud(#[trigger] new[i]);
        if i < whole.len() {
            assert(loud(whole[i]));
        }
    }
}

/// A search that was stopped was asked to stop; the calls of a search that
/// was not stopped ask for no stop.
pub proof fn lemma_sent_asked(before: Seq<Call>, after: Seq<Call>, stopped: bool, whole: Seq<Call>)
    requires
        sent(before, after, stopped, whole),
        !asked(whole),
    ensures
        asked(after.skip(before.len() as int)) == stopped,
{
    let new = after.skip(before.len() as int);
    if stopped {
        let n = after.len() - before.len() - 1;
        if after == before + stopped_at(whole, n, false) {
            assert(new =~= stopped_at(whole, n, false));
        } else {
            assert(new =~= stopped_at(whole, n, true));
        }
        assert(loud(new[n - 1]));
    } else {
        assert(new =~= whole);
    }
}

impl Grid {
    /// The calls that a search makes if it is not stopped, in their order.
    ///
    /// With no active column left, the chosen rows are a solution, and the
    /// step is told. Otherwise the step is told, and the search takes the
    /// active column with the fewest live items, the first of them; gives
    /// up if its weight can no longer come within its range; tries its
    /// live rows top to bottom; and at last, if the column is content with
    /// the rows chosen before, goes on without a row of it.
    pub open spec fn trace(self) -> Seq<Call>
        decreases self.measure(), 1int, 0int,
    {
        if !self.searching() {
            Seq::empty()
        } else if self.active.len() == 0 {
            seq![Call::Solution(self.sol, false), Call::Iteration(false, false)]
        } else {
            let c = self.best_col();
            proof {
                self.lemma_best_col();
                if self.fulfilled(c) {
                    self.lemma_skip(c);
                    lemma_total_nonneg(self.skip(c).live, self.cols + 1);
                }
                lemma_total_nonneg(self.live, self.cols + 1);
            }
            if !self.fulfillable(c) {
                seq![Call::Iteration(false, false)]
            } else {
                seq![Call::Iteration(false, false)] + self.rows_trace(c, 0) + self.skip_trace(c)
            }
        }
    }

    /// The calls of the search without a row of the chosen column `c`.
    pub open spec fn skip_trace(self, c: int) -> Seq<Call>
        decreases self.measure(), 0int, 0int,
    {
        if !(self.searching() && self.is_active(c) && self.fulfilled(c)) {
            Seq::empty()
        } else {
            proof {
                self.lemma_skip(c);
                lemma_total_nonneg(self.skip(c).live, self.cols + 1);
                lemma_total_nonneg(self.live, self.cols + 1);
            }
            self.skip(c).trace()
        }
    }

    /// The calls of the search with row `k` of column `c`, and then with
    /// the later rows.
    pub open spec fn rows_trace(self, c: int, k: int) -> Seq<Call>
        decreases self.measure(), 0int, self.live[c].len() - k,
    {
        if !(self.searching() && self.is_active(c) && 0 <= k < self.live[c].len()) {
            Seq::empty()
        } else {
            self.row_trace(c, k) + self.rows_trace(c, k + 1)
        }
    }

    /// The calls of the search with row `k` of column `c`.
    pub open spec fn row_trace(self, c: int, k: int) -> Seq<Call>
        decreases self.measure(), 0int, 0int,
    {
        if !(self.searching() && self.is_active(c) && 0 <= k < self.live[c].len()) {
            Seq::empty()
        } else {
            proof {
                self.lemma_trial(c, k);
                lemma_total_nonneg(self.trial(c, k).live, self.cols + 1);
                lemma_total_nonneg(self.live, self.cols + 1);
            }
            if self.trial(c, k).fulfillable(c) {
                self.trial(c, k).trace()
            } else {
                Seq::empty()
            }
        }
    }

    /// The solutions among the calls of a search are the solutions of the
    /// search.
    pub proof fn lemma_trace_picks(self)
        ensures
            picks(self.trace()) == self.solutions(),
        decreases self.measure(), 1int, 0int,
    {
        if !self.searching() {
        } else if self.active.len() == 0 {
            let none = Seq::<Call>::empty();
            lemma_picks_push(none, Call::Solution(self.sol, false));
            lemma_picks_push(none.push(Call::Solution(self.sol, false)), Call::Iteration(false, false));
            assert(self.trace() =~= none.push(Call::Solution(self.sol, false)).push(Call::Iteration(false, false)));
            assert(picks(none) =~= Seq::<Seq<usize>>::empty());
            assert(picks(self.trace()) =~= seq![self.sol]);
        } else {
            let c = self.best_col();
            self.lemma_best_col();
            lemma_total_nonneg(self.live, self.cols + 1);
            let head = seq![Call::Iteration(false, false)];
            lemma_picks_push(Seq::<Call>::empty(), Call::Iteration(false, false));
            assert(head =~= Seq::<Call>::empty().push(Call::Iteration(false, false)));
            assert(picks(Seq::<Call>::empty()) =~= Seq::<Seq<usize>>::empty());
            assert(picks(head) =~= Seq::<Seq<usize>>::empty());
            if self.fulfillable(c) {
                self.lemma_rows_picks(c, 0);
                if self.fulfilled(c) {
                    self.lemma_skip(c);
                    lemma_total_nonneg(self.skip(c).live, self.cols + 1);
                    self.skip(c).lemma_trace_picks();
                }
                lemma_picks_add(head, self.rows_trace(c, 0));
                lemma_picks_add(head + self.rows_trace(c, 0), self.skip_trace(c));
                assert(picks(self.skip_trace(c)) == if self.fulfilled(c) {
                    self.skip(c).solutions()
                } else {
                    Seq::empty()
                });
                assert(picks(self.trace()) =~= self.solutions());
            }
        }
    }

    /// The solutions among the calls of the search with the rows of a
    /// column from row `k` on.
    pub proof fn lemma_rows_picks(self, c: int, k: int)
        ensures
            picks(self.rows_trace(c, k)) == self.rows_from(c, k),
        decreases self.measure(), 0int, self.live[c].len() - k,
    {
        if self.searching() && self.is_active(c) && 0 <= k < self.live[c].len() {
            self.lemma_rows_picks(c, k + 1);
            let t = self.trial(c, k);
            self.lemma_trial(c, k);
            lemma_total_nonneg(self.live, self.cols + 1);
            lemma_total_nonneg(t.live, self.cols + 1);
            if t.fulfillable(c) {
                t.lemma_trace_picks();
            }
            lemma_picks_add(self.row_trace(c, k), self.rows_trace(c, k + 1));
            assert(self.rows_trace(c, k) == self.row_trace(c, k) + self.rows_trace(c, k + 1));
            assert(self.rows_from(c, k) == self.row_at(c, k) + self.rows_from(c, k + 1));
            assert(picks(self.row_trace(c, k)) == self.row_at(c, k));
        } else {
            assert(picks(self.rows_trace(c, k)) =~= self.rows_from(c, k));
        }
    }

    /// The calls with which a search begins: of a solution, if the chosen
    /// rows are one, and of the step.
    pub open spec fn head(self) -> Seq<Call> {
        if self.active.len() == 0 {
            seq![Call::Solution(self.sol, false), Call::Iteration(false, false)]
        } else {
            seq![Call::Iteration(false, false)]
        }
    }

    /// The calls that follow the calls with which a search begins.
    pub open spec fn body(self) -> Seq<Call> {
        if self.active.len() > 0 && self.fulfillable(self.best_col()) {
            self.rows_trace(self.best_col(), 0) + self.skip_trace(self.best_col())
        } else {
            Seq::empty()
        }
    }

    /// The calls of a search are those with which it begins and those that
    /// follow.
    pub proof fn lemma_head(self)
        requires
            self.searching(),
        ensures
            self.trace() == self.head() + self.body(),
    {
        if self.active.len() > 0 {
            self.lemma_best_col();
        }
        assert(self.trace() =~= self.head() + self.body());
    }

    /// The calls of a search that is not stopped are solutions and steps
    /// that ask for no stop.
    pub proof fn lemma_trace_quiet(self)
        ensures
            forall|i: int| 0 <= i < self.trace().len() ==> plain(#[trigger] self.trace()[i]),
            !asked(self.trace()),
        decreases self.measure(), 1int, 0int,
    {
        if self.searching() && self.active.len() > 0 {
            let c = self.best_col();
            self.lemma_best_col();
            lemma_total_nonneg(self.live, self.cols + 1);
            if self.fulfillable(c) {
                self.lemma_rows_quiet(c, 0);
                if self.fulfilled(c) {
                    self.lemma_skip(c);
                    lemma_total_nonneg(self.skip(c).live, self.cols + 1);
                    self.skip(c).lemma_trace_quiet();
                }
                let rows = self.rows_trace(c, 0);
                let tail = self.skip_trace(c);
                assert forall|i: int| 0 <= i < self.trace().len() implies plain(#[trigger] self.trace()[i]) by {
                    if i >= 1 && i < 1 + rows.len() {
                        assert(self.trace()[i] == rows[i - 1]);
                    } else if i >= 1 + rows.len() {
                        assert(self.trace()[i] == tail[i - 1 - rows.len()]);
                    }
                }
            }
        }
    }

    /// The calls of the search with the rows of a column are solutions and
    /// steps that ask for no stop.
    pub proof fn lemma_rows_quiet(self, c: int, k: int)
        ensures
            forall|i: int| 0 <= i < self.rows_trace(c, k).len() ==> plain(#[trigger] self.rows_trace(c, k)[i]),
            !asked(self.rows_trace(c, k)),
        decreases self.measure(), 0int, self.live[c].len() - k,
    {
        if self.searching() && self.is_active(c) && 0 <= k < self.live[c].len() {
            self.lemma_rows_quiet(c, k + 1);
            let t = self.trial(c, k);
            self.lemma_trial(c, k);
            lemma_total_nonneg(self.live, self.cols + 1);
            lemma_total_nonneg(t.live, self.cols + 1);
            if t.fulfillable(c) {
                t.lemma_trace_quiet();
            }
            let one = self.row_trace(c, k);
            let rest = self.rows_trace(c, k + 1);
            assert(self.rows_trace(c, k) == one + rest);
            assert forall|i: int| 0 <= i < (one + rest).len() implies plain(#[trigger] (one + rest)[i]) by {
                if i < one.len() {
                    assert((one + rest)[i] == one[i]);
                } else {
                    assert((one + rest)[i] == rest[i - one.len()]);
                }
            }
        }
    }
}

} // verus!
