//! Why the search misses no solution.

use vstd::prelude::*;
use crate::dlx::grid::{Grid, tally, holds};
use crate::dlx::grid::distinct;
use crate::dlx::links::{lemma_total_nonneg, lemma_index_of_contained, lemma_remove_contains};
use crate::dlx::search::{lemma_tally_push, lemma_tally_bound};

verus! {

/// The rows of two lists count together what they count apart.
pub proof fn lemma_tally_add(rows: Seq<Seq<usize>>, a: Seq<usize>, b: Seq<usize>, c: int)
    ensures
        tally(rows, a + b, c) == tally(rows, a, c) + tally(rows, b, c),
    decreases b.len(),
{
    if b.len() == 0 {
        assert(a + b =~= a);
    } else {
        lemma_tally_add(rows, a, b.drop_last(), c);
        assert((a + b).drop_last() =~= a + b.drop_last());
        assert((a + b).last() == b.last());
    }
}

/// Where a column is counted, one of the rows holds it.
pub proof fn lemma_tally_find(rows: Seq<Seq<usize>>, b: Seq<usize>, c: int) -> (p: int)
    requires
        tally(rows, b, c) >= 1,
    ensures
        0 <= p < b.len(),
        holds(rows, b[p] as int, c),
    decreases b.len(),
{
    if holds(rows, b.last() as int, c) {
        b.len() - 1
    } else {
        let p = lemma_tally_find(rows, b.drop_last(), c);
        assert(b.drop_last()[p] == b[p]);
        p
    }
}

/// A row that holds a column counts for it.
pub proof fn lemma_tally_has(rows: Seq<Seq<usize>>, b: Seq<usize>, p: int, c: int)
    requires
        0 <= p < b.len(),
        holds(rows, b[p] as int, c),
    ensures
        tally(rows, b, c) >= 1,
    decreases b.len(),
{
    lemma_tally_bound(rows, b.drop_last(), c);
    if p < b.len() - 1 {
        assert(b.drop_last()[p] == b[p]);
        lemma_tally_has(rows, b.drop_last(), p, c);
    }
}

/// Without one of its rows a list counts what that row counted less.
pub proof fn lemma_tally_remove(rows: Seq<Seq<usize>>, b: Seq<usize>, p: int, c: int)
    requires
        0 <= p < b.len(),
    ensures
        tally(rows, b, c) == tally(rows, b.remove(p), c) + if holds(rows, b[p] as int, c) {
            1int
        } else {
            0int
        },
{
    let head = b.take(p);
    let tail = b.skip(p + 1);
    assert(b =~= head.push(b[p]) + tail);
    assert(b.remove(p) =~= head + tail);
    lemma_tally_add(rows, head.push(b[p]), tail, c);
    lemma_tally_add(rows, head, tail, c);
    lemma_tally_push(rows, head, b[p], c);
}

impl Grid {
    /// Every column is to be covered once.
    pub open spec fn exact(self) -> bool {
        forall|c: int| self.is_column(c) ==> #[trigger] self.min[c] == 1 && self.max[c] == 1
    }

    /// Every row holds a column.
    pub open spec fn no_empty_row(self) -> bool {
        forall|i: int| 0 <= i < self.rows.len() ==> (#[trigger] self.rows[i]).len() > 0
    }

    /// A column of an exact cover is to be covered once.
    pub proof fn lemma_exact_at(self, c: int)
        requires
            self.exact(),
            self.is_column(c),
        ensures
            self.min[c] == 1,
            self.max[c] == 1,
    {
        assert(self.min[c] == 1);
    }

    /// The node of the column at place `pos` of row number `r`.
    pub proof fn lemma_node_of_row(self, r: int, pos: int)
        requires
            self.wf(),
            self.laid_out(),
            1 <= r <= self.rows.len(),
            0 <= pos < self.rows[r - 1].len(),
        ensures
            ({
                let j = self.starts[r - 1] + pos;
                &&& self.is_item(j)
                &&& self.row[j] == r
                &&& self.col[j] == self.rows[r - 1][pos]
                &&& self.is_column(self.col[j])
                &&& self.lo[j] == self.starts[r - 1]
                &&& self.hi[j] == self.starts[r - 1] + self.rows[r - 1].len()
            }),
    {
        let j = self.starts[r - 1] + pos;
        self.lemma_starts(0, r - 1);
        self.lemma_starts(r, self.rows.len() as int);
        assert(self.starts[(r - 1) + 1] == self.starts[r - 1] + self.rows[r - 1].len());
        assert(self.is_item(j));
        assert(self.item_ok(j));
        let q = self.row[j];
        assert(self.lo[j] == self.starts[q - 1]);
        assert(self.starts[(q - 1) + 1] == self.starts[q - 1] + self.rows[q - 1].len());
        if q < r {
            self.lemma_starts(q, r - 1);
        }
        if q > r {
            self.lemma_starts(r, q - 1);
        }
    }

    /// The solutions that hold row `k` of a column are among the solutions
    /// that hold row `j` or a later one.
    pub proof fn lemma_rows_from_at(self, c: int, j: int, k: int, at: int) -> (i: int)
        requires
            self.searching(),
            self.is_active(c),
            0 <= j <= k < self.live[c].len(),
            0 <= at < self.row_at(c, k).len(),
        ensures
            0 <= i < self.rows_from(c, j).len(),
            self.rows_from(c, j)[i] == self.row_at(c, k)[at],
        decreases k - j,
    {
        let one = self.row_at(c, j);
        let rest = self.rows_from(c, j + 1);
        assert(self.rows_from(c, j) == one + rest);
        if j == k {
            at
        } else {
            let i = self.lemma_rows_from_at(c, j + 1, k, at);
            one.len() + i
        }
    }

}

/// Two rows that hold a column count twice for it.
pub proof fn lemma_tally_two(rows: Seq<Seq<usize>>, b: Seq<usize>, p: int, q: int, c: int)
    requires
        0 <= p < b.len(),
        0 <= q < b.len(),
        p != q,
        holds(rows, b[p] as int, c),
        holds(rows, b[q] as int, c),
    ensures
        tally(rows, b, c) >= 2,
{
    lemma_tally_remove(rows, b, p, c);
    let rest = b.remove(p);
    let at = if q < p {
        q
    } else {
        q - 1
    };
    assert(rest[at] == b[q]);
    lemma_tally_has(rows, rest, at, c);
}

impl Grid {
    /// The node at place `pos` of row number `r`.
    pub open spec fn node_at(self, r: int, pos: int) -> int {
        self.starts[r - 1] + pos
    }

    /// Row number `r` can be chosen: each of its items is live and stands
    /// in an active column.
    pub open spec fn can_choose(self, r: int) -> bool {
        forall|pos: int|
            0 <= pos < self.rows[r - 1].len() ==> self.is_live(#[trigger] self.node_at(r, pos)) && self.is_active(
                self.col[self.node_at(r, pos)],
            )
    }

    /// The rows of `ext` can be chosen, and none comes twice.
    pub open spec fn choosable(self, ext: Seq<usize>) -> bool {
        &&& forall|i: int, j: int| 0 <= i < j < ext.len() ==> #[trigger] ext[i] != #[trigger] ext[j]
        &&& forall|i: int| 0 <= i < ext.len() ==> 1 <= #[trigger] ext[i] <= self.rows.len() && self.can_choose(ext[i] as int)
    }

    /// The row of item `j` is one of `ext`.
    pub open spec fn picked(self, ext: Seq<usize>, j: int) -> bool {
        exists|p: int| 0 <= p < ext.len() && #[trigger] ext[p] == self.row[j]
    }

    /// A place of row number `r` that holds column `c`.
    pub open spec fn place_of(self, r: int, c: int) -> int {
        choose|pos: int| 0 <= pos < self.rows[r - 1].len() && #[trigger] self.rows[r - 1][pos] == c
    }

    /// The item of row number `r` in column `c`.
    pub open spec fn item_in(self, r: int, c: int) -> int {
        self.node_at(r, self.place_of(r, c))
    }

    /// What the item of a row in a column is.
    pub proof fn lemma_item_in(self, r: int, c: int)
        requires
            self.wf(),
            self.laid_out(),
            holds(self.rows, r, c),
        ensures
            self.is_item(self.item_in(r, c)),
            self.row[self.item_in(r, c)] == r,
            self.col[self.item_in(r, c)] == c,
            self.is_column(c),
            exists|pos: int| 0 <= pos < self.rows[r - 1].len() && self.item_in(r, c) == #[trigger] self.node_at(r, pos),
    {
        let pos = self.place_of(r, c);
        self.lemma_node_of_row(r, pos);
        assert(self.item_in(r, c) == self.node_at(r, pos));
    }

    /// An item of a row stands at a place of the row.
    pub proof fn lemma_place(self, j: int) -> (pos: int)
        requires
            self.wf(),
            self.laid_out(),
            self.is_item(j),
        ensures
            0 <= pos < self.rows[self.row[j] - 1].len(),
            j == self.node_at(self.row[j], pos),
            self.rows[self.row[j] - 1][pos] == self.col[j],
            holds(self.rows, self.row[j], self.col[j]),
            1 <= self.row[j] <= self.rows.len(),
    {
        assert(self.item_ok(j));
        assert(self.lo[j] == self.starts[self.row[j] - 1]);
        j - self.lo[j]
    }

    /// Rows that hold a column, none twice, are no more than a list that
    /// holds the item of each of them in the column.
    pub proof fn lemma_count(self, ext: Seq<usize>, c: int, list: Seq<int>)
        requires
            self.wf(),
            self.laid_out(),
            distinct(list),
            forall|i: int, j: int| 0 <= i < j < ext.len() ==> #[trigger] ext[i] != #[trigger] ext[j],
            forall|p: int|
                0 <= p < ext.len() && holds(self.rows, #[trigger] ext[p] as int, c) ==> list.contains(
                    self.item_in(ext[p] as int, c),
                ),
        ensures
            tally(self.rows, ext, c) <= list.len(),
        decreases ext.len(),
    {
        if ext.len() > 0 {
            let init = ext.drop_last();
            let r = ext.last() as int;
            assert(ext[ext.len() - 1] == ext.last());
            assert forall|i: int, j: int| 0 <= i < j < init.len() implies #[trigger] init[i] != #[trigger] init[j] by {
                assert(init[i] == ext[i]);
                assert(init[j] == ext[j]);
            }
            if holds(self.rows, r, c) {
                let j = self.item_in(r, c);
                self.lemma_item_in(r, c);
                lemma_index_of_contained(list, j);
                let q = list.index_of(j);
                let rest = list.remove(q);
                assert forall|p: int| 0 <= p < init.len() && holds(self.rows, #[trigger] init[p] as int, c) implies rest.contains(
                    self.item_in(init[p] as int, c),
                ) by {
                    assert(init[p] == ext[p]);
                    self.lemma_item_in(init[p] as int, c);
                    lemma_remove_contains(list, q, self.item_in(init[p] as int, c));
                }
                lemma_remove_contains(list, q, 0);
                self.lemma_count(init, c, rest);
            } else {
                assert forall|p: int| 0 <= p < init.len() && holds(self.rows, #[trigger] init[p] as int, c) implies list.contains(
                    self.item_in(init[p] as int, c),
                ) by {
                    assert(init[p] == ext[p]);
                }
                self.lemma_count(init, c, list);
            }
        }
    }

    /// Rows that can be chosen and hold a column are no more than the
    /// column has live items.
    pub proof fn lemma_count_live(self, ext: Seq<usize>, c: int)
        requires
            self.wf(),
            self.laid_out(),
            self.choosable(ext),
            self.is_column(c),
        ensures
            tally(self.rows, ext, c) <= self.size[c],
    {
        assert(self.column_ok(c));
        assert forall|p: int| 0 <= p < ext.len() && holds(self.rows, #[trigger] ext[p] as int, c) implies self.live[c].contains(
            self.item_in(ext[p] as int, c),
        ) by {
            let r = ext[p] as int;
            self.lemma_item_in(r, c);
            let pos = choose|pos: int|
                0 <= pos < self.rows[r - 1].len() && self.item_in(r, c) == #[trigger] self.node_at(r, pos);
            assert(self.can_choose(r));
            assert(self.is_live(self.node_at(r, pos)));
        }
        self.lemma_count(ext, c, self.live[c]);
    }

    /// The first of the first `n` rows of a column that is one of `ext`.
    pub proof fn lemma_first_picked(self, ext: Seq<usize>, c: int, n: int) -> (k: int)
        requires
            exists|k0: int| 0 <= k0 < n && self.picked(ext, #[trigger] self.live[c][k0]),
        ensures
            0 <= k < n,
            self.picked(ext, self.live[c][k]),
            forall|i: int| 0 <= i < k ==> !self.picked(ext, #[trigger] self.live[c][i]),
        decreases n,
    {
        if exists|k0: int| 0 <= k0 < n - 1 && self.picked(ext, #[trigger] self.live[c][k0]) {
            self.lemma_first_picked(ext, c, n - 1)
        } else {
            let k0 = choose|k0: int| 0 <= k0 < n && self.picked(ext, #[trigger] self.live[c][k0]);
            assert(k0 == n - 1);
            n - 1
        }
    }

    /// A grid with the same rows in the same places can choose the rows
    /// whose items are live in it and stand in active columns.
    pub proof fn lemma_choosable(self, other: Grid, ext: Seq<usize>)
        requires
            self.choosable(ext),
            other.rows == self.rows,
            other.starts == self.starts,
            other.col == self.col,
            forall|i: int, pos: int|
                0 <= i < ext.len() && 0 <= pos < self.rows[ext[i] - 1].len() ==> other.is_live(
                    #[trigger] self.node_at(ext[i] as int, pos),
                ) && other.is_active(self.col[self.node_at(ext[i] as int, pos)]),
        ensures
            other.choosable(ext),
    {
        assert forall|i: int| 0 <= i < ext.len() implies 1 <= #[trigger] ext[i] <= other.rows.len() && other.can_choose(
            ext[i] as int,
        ) by {
            assert forall|pos: int| 0 <= pos < other.rows[ext[i] - 1].len() implies other.is_live(
                #[trigger] other.node_at(ext[i] as int, pos),
            ) && other.is_active(other.col[other.node_at(ext[i] as int, pos)]) by {
                assert(other.node_at(ext[i] as int, pos) == self.node_at(ext[i] as int, pos));
            }
        }
    }

    /// What holds of the grid between two steps of a search among rows none
    /// of which is empty.
    pub open spec fn plain_search(self) -> bool {
        &&& self.searching()
        &&& self.laid_out()
        &&& self.no_empty_row()
    }

    /// A column that rows to be chosen can still bring within its range
    /// can come within its range.
    pub proof fn lemma_in_reach(self, ext: Seq<usize>, c: int)
        requires
            self.plain_search(),
            self.choosable(ext),
            self.is_cover(self.sol + ext),
            self.is_column(c),
        ensures
            self.fulfillable(c),
            self.weight[c] + tally(self.rows, ext, c) == tally(self.rows, self.sol + ext, c),
            self.min[c] <= self.weight[c] + tally(self.rows, ext, c) <= self.max[c],
            0 <= tally(self.rows, ext, c),
    {
        lemma_tally_add(self.rows, self.sol, ext, c);
        lemma_tally_bound(self.rows, ext, c);
        assert(self.weight[c] == tally(self.rows, self.sol, c));
        assert(self.min[c] <= tally(self.rows, self.sol + ext, c) <= self.max[c]);
        self.lemma_count_live(ext, c);
    }

    /// Where no row to be chosen holds the chosen column, the search goes
    /// on without a row of the column, and can choose those rows there.
    pub proof fn lemma_skip_choosable(self, ext: Seq<usize>, c: int)
        requires
            self.plain_search(),
            self.choosable(ext),
            self.is_cover(self.sol + ext),
            self.is_active(c),
            forall|p: int| 0 <= p < ext.len() ==> !holds(self.rows, #[trigger] ext[p] as int, c),
        ensures
            self.fulfilled(c),
            self.skip(c).plain_search(),
            self.skip(c).choosable(ext),
            self.skip(c).is_cover(self.skip(c).sol + ext),
            self.skip(c).measure() < self.measure(),
    {
        self.lemma_unlink(c);
        self.lemma_in_reach(ext, c);
        if tally(self.rows, ext, c) >= 1 {
            let p = lemma_tally_find(self.rows, ext, c);
        }
        self.lemma_skip(c);
        let s = self.skip(c);
        let rs = self.live[c];
        if self.fills(c) {
            self.lemma_cover(c);
        } else {
            self.lemma_tweak_rows(c, rs.len() as int);
            assert(rs.take(rs.len() as int) =~= rs);
            self.tweak_rows(rs).lemma_unlink(c);
        }
        assert forall|i: int, pos: int| 0 <= i < ext.len() && 0 <= pos < self.rows[ext[i] - 1].len() implies s.is_live(
            #[trigger] self.node_at(ext[i] as int, pos),
        ) && s.is_active(self.col[self.node_at(ext[i] as int, pos)]) by {
            let r = ext[i] as int;
            let x = self.node_at(r, pos);
            self.lemma_node_of_row(r, pos);
            assert(self.can_choose(r));
            assert(self.is_live(x) && self.is_active(self.col[x]));
            assert(holds(self.rows, r, self.col[x]));
            assert(self.misses(x, c)) by {
                assert forall|m: int| #[trigger] self.in_row(x, m) implies self.col[m] != c by {
                    assert(self.row_ok(x, m));
                    assert(self.item_ok(x));
                    let at = self.lemma_place(m);
                }
            }
            if !self.fills(c) {
                if self.among(rs, rs.len() as int, x) {
                    let q = choose|q: int| 0 <= q < rs.len() && #[trigger] self.in_row(rs[q], x);
                    assert(self.column_ok(c));
                    assert(self.member_ok(c, q));
                    assert(self.row_ok(rs[q], x));
                    assert(self.item_ok(rs[q]));
                    assert(self.in_row(x, rs[q]));
                }
                let mid = self.tweak_rows(rs);
                assert(mid.is_live(x));
                assert(s.live == mid.live);
                assert(s.is_live(x));
            } else {
                assert(self.cover(c).is_live(x));
            }
        }
        self.lemma_choosable(s, ext);
        assert(s.no_empty_row()) by {
            assert forall|i: int| 0 <= i < s.rows.len() implies (#[trigger] s.rows[i]).len() > 0 by {
                assert(self.rows[i].len() > 0);
            }
        }
        assert(s.laid_out()) by {
            assert forall|i: int| 0 <= i < s.rows.len() implies #[trigger] s.starts[i + 1] == s.starts[i]
                + s.rows[i].len() by {
                assert(self.starts[i + 1] == self.starts[i] + self.rows[i].len());
            }
            assert forall|j: int| s.is_item(j) implies #[trigger] s.lo[j] == s.starts[s.row[j] - 1] by {
                assert(self.lo[j] == self.starts[self.row[j] - 1]);
            }
        }
        s.lemma_same_covers(self, s.sol + ext);
    }

    /// Two rows to be chosen that hold a column leave room in the column
    /// for more than one row.
    pub proof fn lemma_room_for_two(self, ext: Seq<usize>, p: int, q: int, c: int)
        requires
            self.plain_search(),
            self.choosable(ext),
            self.is_cover(self.sol + ext),
            0 <= p < ext.len(),
            0 <= q < ext.len(),
            p != q,
            holds(self.rows, ext[p] as int, c),
            holds(self.rows, ext[q] as int, c),
        ensures
            self.weight[c] + 1 < self.max[c],
    {
        self.lemma_item_in(ext[p] as int, c);
        lemma_tally_two(self.rows, ext, p, q, c);
        self.lemma_in_reach(ext, c);
    }

    /// Where the search chooses the first row of the chosen column that is
    /// among the rows to be chosen, it can choose the others there.
    pub proof fn lemma_trial_choosable(self, ext: Seq<usize>, c: int, k: int, p: int)
        requires
            self.plain_search(),
            self.choosable(ext),
            self.is_cover(self.sol + ext),
            self.is_active(c),
            0 <= k < self.live[c].len(),
            0 <= p < ext.len(),
            ext[p] == self.row[self.live[c][k]],
            forall|i: int| 0 <= i < k ==> !self.picked(ext, #[trigger] self.live[c][i]),
        ensures
            self.trial(c, k).plain_search(),
            self.trial(c, k).choosable(ext.remove(p)),
            self.trial(c, k).is_cover(self.trial(c, k).sol + ext.remove(p)),
            self.trial(c, k).fulfillable(c),
            self.trial(c, k).measure() < self.measure(),
            (self.trial(c, k).sol + ext.remove(p)).to_multiset() == (self.sol + ext).to_multiset(),
    {
        broadcast use vstd::seq_lib::group_to_multiset_ensures;

        let rs = self.live[c];
        let r = rs[k];
        let chosen = ext[p];
        let rest = ext.remove(p);
        let n = if self.fills(c) {
            k
        } else {
            k + 1
        };
        self.lemma_unlink(c);
        self.lemma_stage(c, n);
        self.lemma_trial(c, k);
        assert(self.column_ok(c));
        assert(self.member_ok(c, k));
        self.lemma_mates(r);
        let at_r = self.lemma_place(r);
        let g1 = self.bump(c);
        let base = self.stage(c, n);
        let ms = self.mates(r);
        assert(base.mates(r) == ms);
        base.lemma_select_nodes(ms);
        let picked = base.select_row(r);
        let t = self.trial(c, k);
        if self.fills(c) {
            g1.lemma_cover(c);
        } else {
            g1.lemma_tweak_rows(c, k + 1);
        }
        assert forall|i: int, pos: int| 0 <= i < rest.len() && 0 <= pos < self.rows[rest[i] - 1].len() implies t.is_live(
            #[trigger] self.node_at(rest[i] as int, pos),
        ) && t.is_active(self.col[self.node_at(rest[i] as int, pos)]) by {
            let q = if i < p {
                i
            } else {
                i + 1
            };
            assert(rest[i] == ext[q]);
            let other = ext[q] as int;
            let x = self.node_at(other, pos);
            self.lemma_node_of_row(other, pos);
            assert(self.can_choose(other));
            assert(self.is_live(x) && self.is_active(self.col[x]));
            assert(self.item_ok(x));
            // no column is filled by both rows
            assert forall|m: int| #[trigger] self.in_row(x, m) && holds(self.rows, chosen as int, self.col[m]) implies self.weight[self.col[m]]
                + 1 < self.max[self.col[m]] by {
                assert(self.row_ok(x, m));
                let at = self.lemma_place(m);
                self.lemma_room_for_two(ext, p, q, self.col[m]);
            }
            assert(self.in_row(x, x));
            if self.fills(c) {
                assert(g1.misses(x, c)) by {
                    assert forall|m: int| #[trigger] g1.in_row(x, m) implies g1.col[m] != c by {
                        assert(self.in_row(x, m));
                    }
                }
                assert(g1.is_live(x));
                assert(g1.cover(c).is_live(x));
            } else {
                assert(g1.is_live(x));
                if g1.among(rs, k + 1, x) {
                    let j = choose|j: int| 0 <= j < k + 1 && #[trigger] g1.in_row(rs[j], x);
                    assert(self.member_ok(c, j));
                    assert(self.in_row(rs[j], x));
                    assert(self.row_ok(rs[j], x));
                    if j < k {
                        assert(ext[q] == self.row[rs[j]]);
                        assert(self.picked(ext, rs[j]));
                    }
                }
                assert(base.is_live(x));
            }
            assert(base.is_live(x));
            assert(base.is_active(self.col[x]));
            assert forall|m: int| #[trigger] base.in_row(x, m) && base.touches(ms, base.col[m]) implies self.weight[base.col[m]]
                + 1 < self.max[base.col[m]] && base.weight[base.col[m]] == self.weight[base.col[m]] by {
                let j = choose|j: int| 0 <= j < ms.len() && base.col[#[trigger] ms[j]] == base.col[m];
                assert(self.in_row(r, ms[j]));
                assert(self.row_ok(r, ms[j]));
                let at = self.lemma_place(ms[j]);
                assert(self.in_row(x, m));
            }
            assert(base.clear_of(x, ms)) by {
                assert forall|m: int| #[trigger] base.in_row(x, m) implies !(base.touches(ms, base.col[m])
                    && base.weight[base.col[m]] + 1 == base.max[base.col[m]]) by {}
            }
            assert(picked.is_live(x));
            assert(base.in_row(x, x));
            if !picked.is_active(self.col[x]) {
                assert(base.touches(ms, self.col[x]));
                assert(picked.weight[self.col[x]] == self.max[self.col[x]]);
                assert(picked.weight[self.col[x]] == base.weight[self.col[x]] + 1);
                assert(base.weight[base.col[x]] == self.weight[base.col[x]]);
                assert(false);
            }
            assert(t.active == picked.active);
            assert(t.live == picked.live);
        }
        assert(t.rows == self.rows && t.starts == self.starts && t.col == self.col);
        assert(self.choosable(rest)) by {
            assert forall|i: int, j: int| 0 <= i < j < rest.len() implies #[trigger] rest[i] != #[trigger] rest[j] by {
                let i2 = if i < p {
                    i
                } else {
                    i + 1
                };
                let j2 = if j < p {
                    j
                } else {
                    j + 1
                };
                assert(rest[i] == ext[i2] && rest[j] == ext[j2]);
            }
            assert forall|i: int| 0 <= i < rest.len() implies 1 <= #[trigger] rest[i] <= self.rows.len()
                && self.can_choose(rest[i] as int) by {
                let i2 = if i < p {
                    i
                } else {
                    i + 1
                };
                assert(rest[i] == ext[i2]);
            }
        }
        self.lemma_choosable(t, rest);
        assert(t.no_empty_row()) by {
            assert forall|i: int| 0 <= i < t.rows.len() implies (#[trigger] t.rows[i]).len() > 0 by {
                assert(self.rows[i].len() > 0);
            }
        }
        assert(t.laid_out()) by {
            assert forall|i: int| 0 <= i < t.rows.len() implies #[trigger] t.starts[i + 1] == t.starts[i]
                + t.rows[i].len() by {
                assert(self.starts[i + 1] == self.starts[i] + self.rows[i].len());
            }
            assert forall|j: int| t.is_item(j) implies #[trigger] t.lo[j] == t.starts[t.row[j] - 1] by {
                assert(self.lo[j] == self.starts[self.row[j] - 1]);
            }
        }
        assert(t.sol == self.sol.push(chosen));
        let all = self.sol + ext;
        assert(t.is_cover(t.sol + rest)) by {
            assert forall|i: int| 0 <= i < (t.sol + rest).len() implies 1 <= #[trigger] (t.sol + rest)[i]
                <= t.rows.len() by {
                if i < self.sol.len() {
                    assert(all[i] == self.sol[i]);
                } else if i > self.sol.len() {
                    let q = i - self.sol.len() - 1;
                    let q2 = if q < p {
                        q
                    } else {
                        q + 1
                    };
                    assert(rest[q] == ext[q2]);
                }
            }
            assert forall|c2: int| t.is_column(c2) implies t.min[c2] <= #[trigger] tally(t.rows, t.sol + rest, c2)
                <= t.max[c2] by {
                lemma_tally_add(self.rows, t.sol, rest, c2);
                lemma_tally_add(self.rows, self.sol, ext, c2);
                lemma_tally_push(self.rows, self.sol, chosen, c2);
                lemma_tally_remove(self.rows, ext, p, c2);
                assert(self.min[c2] <= tally(self.rows, all, c2) <= self.max[c2]);
            }
        }
        t.lemma_in_reach(rest, c);
        assert((t.sol + rest).to_multiset() =~= all.to_multiset()) by {
            vstd::seq_lib::lemma_multiset_commutative(t.sol, rest);
            vstd::seq_lib::lemma_multiset_commutative(self.sol, ext);
            assert(ext.remove(p).to_multiset() =~= ext.to_multiset().remove(ext[p]));
            assert(self.sol.push(ext[p]).to_multiset() =~= self.sol.to_multiset().insert(ext[p]));
            assert(ext.to_multiset().count(ext[p]) > 0);
        }
    }

    /// The search finds every cover that the chosen rows are part of: for
    /// rows `ext` that can be chosen and make the chosen rows a cover, one
    /// of the solutions holds the chosen rows and those rows.
    pub proof fn lemma_complete_ranges(self, ext: Seq<usize>) -> (i: int)
        requires
            self.plain_search(),
            self.choosable(ext),
            self.is_cover(self.sol + ext),
        ensures
            0 <= i < self.solutions().len(),
            self.solutions()[i].to_multiset() == (self.sol + ext).to_multiset(),
        decreases self.measure(),
    {
        if self.active.len() == 0 {
            if ext.len() > 0 {
                let r = ext[0] as int;
                assert(self.rows[r - 1].len() > 0);
                assert(self.can_choose(r));
                let x = self.node_at(r, 0);
                assert(self.is_active(self.col[x]));
                assert(false);
            }
            assert(self.sol + ext =~= self.sol);
            0
        } else {
            let c = self.best_col();
            let rs = self.live[c];
            self.lemma_best_col();
            self.lemma_in_reach(ext, c);
            lemma_total_nonneg(self.live, self.cols + 1);
            let rows = self.rows_from(c, 0);
            let more = if self.fulfilled(c) {
                self.skip(c).solutions()
            } else {
                Seq::empty()
            };
            assert(self.solutions() == rows + more);
            if exists|p: int| 0 <= p < ext.len() && holds(self.rows, #[trigger] ext[p] as int, c) {
                let p0 = choose|p: int| 0 <= p < ext.len() && holds(self.rows, #[trigger] ext[p] as int, c);
                let r0 = ext[p0] as int;
                self.lemma_item_in(r0, c);
                let j0 = self.item_in(r0, c);
                let pos = choose|pos: int| 0 <= pos < self.rows[r0 - 1].len() && j0 == #[trigger] self.node_at(r0, pos);
                assert(self.can_choose(r0));
                assert(self.is_live(self.node_at(r0, pos)));
                lemma_index_of_contained(rs, j0);
                let k0 = rs.index_of(j0);
                assert(self.picked(ext, rs[k0]));
                let k = self.lemma_first_picked(ext, c, rs.len() as int);
                let p = choose|p: int| 0 <= p < ext.len() && #[trigger] ext[p] == self.row[rs[k]];
                self.lemma_trial_choosable(ext, c, k, p);
                let t = self.trial(c, k);
                lemma_total_nonneg(t.live, t.cols + 1);
                let at = t.lemma_complete_ranges(ext.remove(p));
                assert(self.row_at(c, k) == t.solutions());
                let i = self.lemma_rows_from_at(c, 0, k, at);
                assert(self.solutions()[i] == rows[i]);
                assert(rows[i] == t.solutions()[at]);
                i
            } else {
                self.lemma_skip_choosable(ext, c);
                self.lemma_skip(c);
                let s = self.skip(c);
                lemma_total_nonneg(s.live, s.cols + 1);
                let at = s.lemma_complete_ranges(ext);
                assert(s.sol == self.sol);
                assert(self.solutions()[rows.len() + at] == more[at]);
                rows.len() + at
            }
        }
    }

    /// Completeness: a search for exact covers, from a grid at rest without
    /// empty rows, finds every exact cover. Whatever rows cover each column
    /// once, one of the solutions holds just those rows.
    pub proof fn law_complete(self, cover: Seq<usize>)
        requires
            self.ready(),
            self.exact(),
            self.no_empty_row(),
            self.is_cover(cover),
        ensures
            exists|i: int|
                0 <= i < self.solutions().len() && (#[trigger] self.solutions()[i]).to_multiset()
                    == cover.to_multiset(),
    {
        assert forall|i: int, j: int| 0 <= i < j < cover.len() implies #[trigger] cover[i] != #[trigger] cover[j] by {
            if cover[i] == cover[j] {
                let r = cover[i] as int;
                assert(self.rows[r - 1].len() > 0);
                self.lemma_node_of_row(r, 0);
                let c = self.rows[r - 1][0] as int;
                assert(holds(self.rows, r, c));
                lemma_tally_two(self.rows, cover, i, j, c);
                self.lemma_exact_at(c);
                assert(tally(self.rows, cover, c) <= self.max[c]);
            }
        }
        self.law_complete_ranges(cover);
    }

    /// Completeness for every range: a search from a grid at rest without
    /// empty rows finds every cover that holds no row twice. Whatever rows,
    /// each once, cover each column a number of times within its range,
    /// one of the solutions holds just those rows.
    pub proof fn law_complete_ranges(self, cover: Seq<usize>)
        requires
            self.ready(),
            self.no_empty_row(),
            self.is_cover(cover),
            forall|i: int, j: int| 0 <= i < j < cover.len() ==> #[trigger] cover[i] != #[trigger] cover[j],
        ensures
            exists|i: int|
                0 <= i < self.solutions().len() && (#[trigger] self.solutions()[i]).to_multiset()
                    == cover.to_multiset(),
    {
        self.lemma_ready();
        assert(self.choosable(cover)) by {
            assert forall|i: int| 0 <= i < cover.len() implies 1 <= #[trigger] cover[i] <= self.rows.len()
                && self.can_choose(cover[i] as int) by {
                let r = cover[i] as int;
                assert forall|pos: int| 0 <= pos < self.rows[r - 1].len() implies self.is_live(
                    #[trigger] self.node_at(r, pos),
                ) && self.is_active(self.col[self.node_at(r, pos)]) by {
                    self.lemma_node_of_row(r, pos);
                    let c = self.col[self.node_at(r, pos)];
                    assert(self.active[c - 1] == c);
                }
            }
        }
        assert(self.sol + cover =~= cover);
        let i = self.lemma_complete_ranges(cover);
        assert(self.solutions()[i].to_multiset() == cover.to_multiset());
    }
}

} // verus!
