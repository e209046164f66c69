//! Why the search hands over no cover twice.

use vstd::prelude::*;
use crate::dlx::grid::Grid;
use crate::dlx::links::{lemma_total_nonneg, lemma_index_of, lemma_distinct};

verus! {

/// A list that holds `r` right behind the rows of `sol` holds `r` more
/// often than `sol` does.
pub proof fn lemma_count_more(s: Seq<usize>, sol: Seq<usize>, r: usize)
    requires
        sol.len() < s.len(),
        s.take(sol.len() as int) == sol,
        s[sol.len() as int] == r,
    ensures
        s.to_multiset().count(r) >= sol.to_multiset().count(r) + 1,
{
    broadcast use vstd::seq_lib::group_to_multiset_ensures;

    let tail = s.skip(sol.len() as int);
    assert(s =~= sol + tail);
    vstd::seq_lib::lemma_multiset_commutative(sol, tail);
    assert(tail[0] == r);
    assert(tail.contains(r));
}

/// A list that holds the rows of `sol` and behind them never `r` holds `r`
/// as often as `sol` does.
pub proof fn lemma_count_same(s: Seq<usize>, sol: Seq<usize>, r: usize)
    requires
        sol.len() <= s.len(),
        s.take(sol.len() as int) == sol,
        forall|p: int| sol.len() <= p < s.len() ==> #[trigger] s[p] != r,
    ensures
        s.to_multiset().count(r) == sol.to_multiset().count(r),
{
    broadcast use vstd::seq_lib::group_to_multiset_ensures;

    let tail = s.skip(sol.len() as int);
    assert(s =~= sol + tail);
    vstd::seq_lib::lemma_multiset_commutative(sol, tail);
    if tail.contains(r) {
        let i = choose|i: int| 0 <= i < tail.len() && tail[i] == r;
        assert(s[sol.len() + i] == r);
    }
}

impl Grid {
    /// No item of row number `r` is live in an active column: the search
    /// cannot choose the row.
    pub open spec fn dead(self, r: int) -> bool {
        forall|x: int| self.is_item(x) && #[trigger] self.row[x] == r ==> !(self.is_live(x) && self.is_active(self.col[x]))
    }

    /// The list holds the chosen rows first, and behind them never row
    /// number `r`.
    pub open spec fn shuns(self, s: Seq<usize>, r: int) -> bool {
        &&& self.sol.len() <= s.len()
        &&& s.take(self.sol.len() as int) == self.sol
        &&& forall|p: int| self.sol.len() <= p < s.len() ==> #[trigger] s[p] != r
    }

    /// The rows are laid out in every grid of a search as in the first.
    pub proof fn lemma_laid_out(self, other: Grid)
        requires
            self.laid_out(),
            other.rows == self.rows,
            other.starts == self.starts,
            other.row == self.row,
            other.lo == self.lo,
            other.cols == self.cols,
        ensures
            other.laid_out(),
    {
        assert forall|i: int| 0 <= i < other.rows.len() implies #[trigger] other.starts[i + 1] == other.starts[i]
            + other.rows[i].len() by {
            assert(self.starts[i + 1] == self.starts[i] + self.rows[i].len());
        }
        assert forall|j: int| other.is_item(j) implies #[trigger] other.lo[j] == other.starts[other.row[j] - 1] by {
            assert(self.lo[j] == self.starts[self.row[j] - 1]);
        }
    }

    /// Items with the same row number lie in one row.
    pub proof fn lemma_row_mates(self, a: int, b: int)
        requires
            self.wf(),
            self.laid_out(),
            self.is_item(a),
            self.is_item(b),
            self.row[a] == self.row[b],
        ensures
            self.in_row(a, b),
            a != b ==> self.col[a] != self.col[b],
    {
        assert(self.lo[a] == self.starts[self.row[a] - 1]);
        assert(self.lo[b] == self.starts[self.row[b] - 1]);
        self.lemma_same_row(a, b);
    }

    /// Below a chosen row nothing comes to life, and the rows of the
    /// chosen column down to that row cannot be chosen.
    pub proof fn lemma_trial_dead(self, c: int, k: int, r: int, k0: int)
        requires
            self.searching(),
            self.laid_out(),
            self.is_active(c),
            0 <= k < self.live[c].len(),
            self.dead(r) || (0 <= k0 <= k && r == self.row[self.live[c][k0]]),
        ensures
            self.trial(c, k).dead(r),
            self.trial(c, k).searching(),
            self.trial(c, k).laid_out(),
            self.trial(c, k).measure() < self.measure(),
            self.trial(c, k).sol == self.sol.push(self.row[self.live[c][k]] as usize),
            1 <= self.row[self.live[c][k]] <= usize::MAX,
            self.dead(r) ==> r != self.row[self.live[c][k]],
            0 <= k0 < k && r == self.row[self.live[c][k0]] ==> r != self.row[self.live[c][k]],
    {
        let rs = self.live[c];
        let n = if self.fills(c) {
            k
        } else {
            k + 1
        };
        self.lemma_unlink(c);
        self.lemma_stage(c, n);
        self.lemma_trial(c, k);
        assert(self.column_ok(c));
        assert(self.member_ok(c, k));
        lemma_index_of(rs, k);
        let g1 = self.bump(c);
        let base = self.stage(c, n);
        let ms = self.mates(rs[k]);
        assert(base.mates(rs[k]) == ms);
        base.lemma_select_nodes(ms);
        let picked = base.select_row(rs[k]);
        let t = self.trial(c, k);
        if self.fills(c) {
            g1.lemma_cover(c);
        } else {
            g1.lemma_tweak_rows(c, k + 1);
        }
        self.lemma_laid_out(t);
        if self.dead(r) {
            if r == self.row[rs[k]] {
                assert(self.is_live(rs[k]) && self.is_active(self.col[rs[k]]));
                assert(false);
            }
        } else if k0 < k {
            assert(self.member_ok(c, k0));
            lemma_distinct(rs, k0, k);
            if self.row[rs[k0]] == self.row[rs[k]] {
                self.lemma_row_mates(rs[k0], rs[k]);
            }
        }
        assert forall|x: int| t.is_item(x) && #[trigger] t.row[x] == r implies !(t.is_live(x) && t.is_active(
            t.col[x],
        )) by {
            assert(self.is_item(x));
            assert(self.item_ok(x));
            if t.is_live(x) && t.is_active(t.col[x]) {
                assert(picked.is_live(x));
                assert(picked.is_active(self.col[x]));
                assert(base.is_live(x));
                assert(base.is_active(self.col[x]));
                assert(g1.is_item(x));
                if self.dead(r) {
                    assert(self.row[x] == r);
                    assert(g1.is_live(x));
                    assert(self.is_live(x));
                    assert(self.is_active(self.col[x]));
                } else {
                    assert(self.member_ok(c, k0));
                    self.lemma_row_mates(rs[k0], x);
                    if self.fills(c) {
                        if x != rs[k0] {
                            assert(g1.in_row(rs[k0], x));
                            assert(g1.beside(rs, x));
                        }
                    } else {
                        assert(g1.in_row(rs[k0], x));
                        assert(g1.among(rs, k + 1, x));
                    }
                }
            }
        }
    }

    /// Where the search goes on without a row of the chosen column nothing
    /// comes to life, and no row of the column can be chosen.
    pub proof fn lemma_skip_dead(self, c: int, r: int, k0: int)
        requires
            self.searching(),
            self.laid_out(),
            self.is_active(c),
            self.fulfilled(c),
            self.dead(r) || (0 <= k0 < self.live[c].len() && r == self.row[self.live[c][k0]]),
        ensures
            self.skip(c).dead(r),
            self.skip(c).searching(),
            self.skip(c).laid_out(),
            self.skip(c).measure() < self.measure(),
            self.skip(c).sol == self.sol,
    {
        let rs = self.live[c];
        self.lemma_unlink(c);
        self.lemma_skip(c);
        assert(self.column_ok(c));
        let s = self.skip(c);
        if self.fills(c) {
            self.lemma_cover(c);
        } else {
            self.lemma_tweak_rows(c, rs.len() as int);
            assert(rs.take(rs.len() as int) =~= rs);
            self.tweak_rows(rs).lemma_unlink(c);
        }
        self.lemma_laid_out(s);
        assert forall|x: int| s.is_item(x) && #[trigger] s.row[x] == r implies !(s.is_live(x) && s.is_active(
            s.col[x],
        )) by {
            assert(self.is_item(x));
            assert(self.item_ok(x));
            if s.is_live(x) && s.is_active(s.col[x]) {
                if !self.fills(c) {
                    assert(s.live == self.tweak_rows(rs).live);
                    assert(self.tweak_rows(rs).is_live(x));
                }
                assert(self.is_live(x));
                assert(self.is_active(self.col[x]));
                if !self.dead(r) {
                    assert(self.member_ok(c, k0));
                    self.lemma_row_mates(rs[k0], x);
                    if self.fills(c) {
                        if x != rs[k0] {
                            assert(self.beside(rs, x));
                        }
                    } else {
                        assert(self.among(rs, rs.len() as int, x));
                    }
                }
            }
        }
    }

    /// The solutions of a search hold the chosen rows first, and behind
    /// them no row that cannot be chosen.
    pub proof fn lemma_shuns(self, r: int)
        requires
            self.searching(),
            self.laid_out(),
            self.dead(r),
        ensures
            forall|i: int| 0 <= i < self.solutions().len() ==> self.shuns(#[trigger] self.solutions()[i], r),
        decreases self.measure(), 1int, 0int,
    {
        if self.active.len() == 0 {
            assert(self.sol.take(self.sol.len() as int) =~= self.sol);
        } else {
            let c = self.best_col();
            self.lemma_best_col();
            lemma_total_nonneg(self.live, self.cols + 1);
            if self.fulfillable(c) {
                self.lemma_rows_shun(c, 0, r, -1);
                let rows = self.rows_from(c, 0);
                if self.fulfilled(c) {
                    self.lemma_skip_dead(c, r, -1);
                    let s = self.skip(c);
                    lemma_total_nonneg(s.live, s.cols + 1);
                    s.lemma_shuns(r);
                    let more = s.solutions();
                    assert(self.solutions() == rows + more);
                    assert forall|i: int| 0 <= i < self.solutions().len() implies self.shuns(
                        #[trigger] self.solutions()[i],
                        r,
                    ) by {
                        if i < rows.len() {
                            assert(self.solutions()[i] == rows[i]);
                        } else {
                            assert(self.solutions()[i] == more[i - rows.len()]);
                            assert(s.shuns(more[i - rows.len()], r));
                        }
                    }
                } else {
                    assert(self.solutions() =~= rows);
                }
            }
        }
    }

    /// The solutions with the rows of the chosen column from row `k` on
    /// hold the chosen rows first, and behind them neither a row that
    /// cannot be chosen nor an earlier row of the column.
    pub proof fn lemma_rows_shun(self, c: int, k: int, r: int, k0: int)
        requires
            self.searching(),
            self.laid_out(),
            self.is_active(c),
            0 <= k,
            self.dead(r) || (0 <= k0 < k && k0 < self.live[c].len() && r == self.row[self.live[c][k0]]),
        ensures
            forall|i: int| 0 <= i < self.rows_from(c, k).len() ==> self.shuns(#[trigger] self.rows_from(c, k)[i], r),
        decreases self.measure(), 0int, self.live[c].len() - k,
    {
        if k < self.live[c].len() {
            self.lemma_rows_shun(c, k + 1, r, k0);
            self.lemma_trial_dead(c, k, r, k0);
            let t = self.trial(c, k);
            let chosen = self.row[self.live[c][k]];
            lemma_total_nonneg(self.live, self.cols + 1);
            lemma_total_nonneg(t.live, t.cols + 1);
            let one = self.row_at(c, k);
            let rest = self.rows_from(c, k + 1);
            assert(self.rows_from(c, k) == one + rest);
            if t.fulfillable(c) {
                t.lemma_shuns(r);
            }
            assert forall|i: int| 0 <= i < self.rows_from(c, k).len() implies self.shuns(
                #[trigger] self.rows_from(c, k)[i],
                r,
            ) by {
                if i < one.len() {
                    let s = one[i];
                    assert(self.rows_from(c, k)[i] == s);
                    assert(one == t.solutions());
                    assert(t.shuns(t.solutions()[i], r));
                    assert(s.take(self.sol.len() as int) =~= s.take(t.sol.len() as int).take(self.sol.len() as int));
                    assert(t.sol.take(self.sol.len() as int) =~= self.sol);
                    assert forall|p: int| self.sol.len() <= p < s.len() implies #[trigger] s[p] != r by {
                        if p == self.sol.len() {
                            assert(s.take(t.sol.len() as int)[p] == t.sol[p]);
                        }
                    }
                } else {
                    assert(self.rows_from(c, k)[i] == rest[i - one.len()]);
                }
            }
        }
    }

    /// A solution with row `k` of the chosen column holds that row right
    /// behind the chosen rows.
    pub proof fn lemma_rows_kept(self, c: int, k: int, i: int)
        requires
            self.searching(),
            self.laid_out(),
            self.is_active(c),
            0 <= k < self.live[c].len(),
            0 <= i < self.row_at(c, k).len(),
        ensures
            self.sol.len() < self.row_at(c, k)[i].len(),
            self.row_at(c, k)[i].take(self.sol.len() as int) == self.sol,
            self.row_at(c, k)[i][self.sol.len() as int] == self.row[self.live[c][k]],
    {
        self.lemma_dead_zero();
        self.lemma_trial_dead(c, k, 0, -1);
        let t = self.trial(c, k);
        t.lemma_shuns(0);
        let s = self.row_at(c, k)[i];
        assert(self.row_at(c, k) == t.solutions());
        assert(t.shuns(t.solutions()[i], 0));
        assert(s.take(self.sol.len() as int) =~= s.take(t.sol.len() as int).take(self.sol.len() as int));
        assert(t.sol.take(self.sol.len() as int) =~= self.sol);
        assert(s.take(t.sol.len() as int)[self.sol.len() as int] == t.sol[self.sol.len() as int]);
    }

    /// The solutions with the rows of the chosen column from row `k` on
    /// hold, right behind the chosen rows, one of those rows.
    pub proof fn lemma_rows_first(self, c: int, k: int, i: int) -> (m: int)
        requires
            self.searching(),
            self.laid_out(),
            self.is_active(c),
            0 <= k,
            0 <= i < self.rows_from(c, k).len(),
        ensures
            k <= m < self.live[c].len(),
            self.sol.len() < self.rows_from(c, k)[i].len(),
            self.rows_from(c, k)[i].take(self.sol.len() as int) == self.sol,
            self.rows_from(c, k)[i][self.sol.len() as int] == self.row[self.live[c][m]],
            1 <= self.row[self.live[c][m]] <= usize::MAX,
        decreases self.measure(), 0int, self.live[c].len() - k,
    {
        let one = self.row_at(c, k);
        let rest = self.rows_from(c, k + 1);
        assert(self.rows_from(c, k) == one + rest);
        if i < one.len() {
            self.lemma_rows_kept(c, k, i);
            k
        } else {
            assert(self.rows_from(c, k)[i] == rest[i - one.len()]);
            self.lemma_rows_first(c, k + 1, i - one.len())
        }
    }

    /// No row number 0 stands in the grid.
    pub proof fn lemma_dead_zero(self)
        requires
            self.wf(),
        ensures
            self.dead(0),
    {
        assert forall|x: int| self.is_item(x) && #[trigger] self.row[x] == 0 implies !(self.is_live(x)
            && self.is_active(self.col[x])) by {
            assert(self.item_ok(x));
        }
    }

    /// No two solutions of a search hold the same rows.
    pub proof fn lemma_once(self)
        requires
            self.searching(),
            self.laid_out(),
        ensures
            forall|i: int, j: int|
                0 <= i < j < self.solutions().len() ==> (#[trigger] self.solutions()[i]).to_multiset() != (
                #[trigger] self.solutions()[j]).to_multiset(),
        decreases self.measure(), 1int, 0int,
    {
        if self.active.len() > 0 {
            let c = self.best_col();
            self.lemma_best_col();
            lemma_total_nonneg(self.live, self.cols + 1);
            if self.fulfillable(c) {
                self.lemma_rows_once(c, 0);
                let rows = self.rows_from(c, 0);
                if self.fulfilled(c) {
                    self.lemma_dead_zero();
                    self.lemma_skip_dead(c, 0, -1);
                    let s = self.skip(c);
                    lemma_total_nonneg(s.live, s.cols + 1);
                    s.lemma_once();
                    let more = s.solutions();
                    assert(self.solutions() == rows + more);
                    assert forall|i: int, j: int| 0 <= i < j < self.solutions().len() implies (
                    #[trigger] self.solutions()[i]).to_multiset() != (#[trigger] self.solutions()[j]).to_multiset() by {
                        if j < rows.len() {
                            assert(self.solutions()[i] == rows[i] && self.solutions()[j] == rows[j]);
                        } else if i >= rows.len() {
                            assert(self.solutions()[i] == more[i - rows.len()]);
                            assert(self.solutions()[j] == more[j - rows.len()]);
                        } else {
                            let a = rows[i];
                            let b = more[j - rows.len()];
                            assert(self.solutions()[i] == a && self.solutions()[j] == b);
                            let m = self.lemma_rows_first(c, 0, i);
                            let r = self.row[self.live[c][m]];
                            self.lemma_skip_dead(c, r, m);
                            s.lemma_shuns(r);
                            assert(s.shuns(more[j - rows.len()], r));
                            lemma_count_more(a, self.sol, r as usize);
                            lemma_count_same(b, self.sol, r as usize);
                        }
                    }
                } else {
                    assert(self.solutions() =~= rows);
                }
            }
        }
    }

    /// No two solutions with the rows of the chosen column from row `k` on
    /// hold the same rows.
    pub proof fn lemma_rows_once(self, c: int, k: int)
        requires
            self.searching(),
            self.laid_out(),
            self.is_active(c),
            0 <= k,
        ensures
            forall|i: int, j: int|
                0 <= i < j < self.rows_from(c, k).len() ==> (#[trigger] self.rows_from(c, k)[i]).to_multiset() != (
                #[trigger] self.rows_from(c, k)[j]).to_multiset(),
        decreases self.measure(), 0int, self.live[c].len() - k,
    {
        if k < self.live[c].len() {
            self.lemma_rows_once(c, k + 1);
            self.lemma_dead_zero();
            self.lemma_trial_dead(c, k, 0, -1);
            let t = self.trial(c, k);
            lemma_total_nonneg(self.live, self.cols + 1);
            lemma_total_nonneg(t.live, t.cols + 1);
            let one = self.row_at(c, k);
            let rest = self.rows_from(c, k + 1);
            let all = self.rows_from(c, k);
            assert(all == one + rest);
            if t.fulfillable(c) {
                t.lemma_once();
            }
            let r = self.row[self.live[c][k]];
            assert forall|i: int, j: int| 0 <= i < j < all.len() implies (#[trigger] all[i]).to_multiset() != (
            #[trigger] all[j]).to_multiset() by {
                if j < one.len() {
                    assert(one == t.solutions());
                    assert(all[i] == one[i] && all[j] == one[j]);
                } else if i >= one.len() {
                    assert(all[i] == rest[i - one.len()] && all[j] == rest[j - one.len()]);
                } else {
                    let a = one[i];
                    let b = rest[j - one.len()];
                    assert(all[i] == a && all[j] == b);
                    self.lemma_rows_kept(c, k, i);
                    self.lemma_rows_shun(c, k + 1, r, k);
                    assert(self.shuns(rest[j - one.len()], r));
                    lemma_count_more(a, self.sol, r as usize);
                    lemma_count_same(b, self.sol, r as usize);
                }
            }
        }
    }

    /// A search from a grid at rest hands over no cover twice: no two of
    /// its solutions hold the same rows, in whatever order.
    pub proof fn law_no_cover_twice(self)
        requires
            self.ready(),
        ensures
            forall|i: int, j: int|
                0 <= i < j < self.solutions().len() ==> (#[trigger] self.solutions()[i]).to_multiset() != (
                #[trigger] self.solutions()[j]).to_multiset(),
    {
        self.lemma_ready();
        self.lemma_once();
    }
}

} // verus!
