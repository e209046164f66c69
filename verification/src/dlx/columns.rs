//! What covering and tweaking do to a well-formed grid.

use vstd::prelude::*;
use crate::dlx::grid::{Grid, ring, linked, distinct, succ, pred};
use crate::dlx::links::{
    lemma_distinct,
    lemma_index_of,
    lemma_index_of_contained,
    lemma_remove_contains,
    lemma_ring_at,
    lemma_ring_remove,
};

verus! {

impl Grid {
    /// Two items with the same first node lie in one row.
    pub proof fn lemma_same_row(self, a: int, b: int)
        requires
            self.wf(),
            self.is_item(a),
            self.is_item(b),
            self.lo[a] == self.lo[b],
        ensures
            self.in_row(a, b),
            self.in_row(b, a),
            self.hi[a] == self.hi[b],
            a != b ==> self.col[a] != self.col[b],
    {
        assert(self.item_ok(a));
        assert(self.item_ok(b));
        assert(self.in_row(a, self.lo[a]));
        assert(self.row_ok(a, self.lo[a]));
        assert(self.in_row(b, self.lo[b]));
        assert(self.row_ok(b, self.lo[b]));
        assert(self.in_row(a, b));
        assert(self.row_ok(a, b));
    }

    /// The live items of a column lie in rows of their own.
    pub proof fn lemma_live_apart(self, c: int)
        requires
            self.wf(),
            self.is_column(c),
        ensures
            self.apart(self.live[c]),
            forall|i: int| 0 <= i < self.live[c].len() ==> self.col[#[trigger] self.live[c][i]] == c,
    {
        let rs = self.live[c];
        assert(self.column_ok(c));
        assert forall|i: int| 0 <= i < rs.len() implies self.is_item(#[trigger] rs[i]) && self.col[rs[i]] == c by {
            assert(self.member_ok(c, i));
        }
        assert forall|i: int, j: int| 0 <= i < j < rs.len() implies self.lo[#[trigger] rs[i]] != self.lo[
            #[trigger] rs[j]
        ] by {
            lemma_distinct(rs, i, j);
            if self.lo[rs[i]] == self.lo[rs[j]] {
                self.lemma_same_row(rs[i], rs[j]);
            }
        }
    }

    /// What an active column knows of its place among the active columns.
    pub proof fn lemma_active_at(self, c: int)
        requires
            self.wf(),
            self.is_active(c),
        ensures
            self.is_column(c),
            0 <= self.left[c] <= self.cols,
            0 <= self.right[c] <= self.cols,
            self.left[c] != c,
            self.right[c] != c,
    {
        let list = self.active;
        let i = list.index_of(c);
        lemma_index_of_contained(list, c);
        assert(self.is_column(list[i]));
        lemma_ring_at(self.right, self.left, 0, list, i);
        if i > 0 {
            assert(self.is_column(list[i - 1]));
        }
        if i + 1 < list.len() {
            assert(self.is_column(list[i + 1]));
        }
    }

    /// Unlinking an active column keeps the grid well-formed and is undone
    /// by relinking it.
    pub proof fn lemma_unlink(self, c: int)
        requires
            self.wf(),
            self.is_active(c),
        ensures
            self.is_column(c),
            self.unlink(c).wf(),
            self.same_but_horizontal(self.unlink(c)),
            self.unlink(c).relink(c) == self,
            self.unlink(c).measure() == self.measure() - 1,
            self.unlink(c).active.len() == self.active.len() - 1,
            forall|c2: int| #[trigger] self.unlink(c).is_active(c2) <==> self.is_active(c2) && c2 != c,
            self.unlink(c).left[c] == self.left[c],
            self.unlink(c).right[c] == self.right[c],
    {
        let g = self.unlink(c);
        let list = self.active;
        let i = list.index_of(c);
        lemma_index_of_contained(list, c);
        assert(self.is_column(list[i]));
        assert(self.header_ok(0));
        assert forall|k: int| 0 <= k < list.len() implies 0 <= #[trigger] list[k] < self.right.len() by {
            assert(self.is_column(list[k]));
        }
        lemma_ring_at(self.right, self.left, 0, list, i);
        lemma_ring_remove(self.right, self.left, 0, list, i);
        lemma_remove_contains(list, i, 0);
        assert forall|k: int| 0 <= k < g.active.len() implies g.is_column(#[trigger] g.active[k]) by {
            let k2 = if k < i { k } else { k + 1 };
            assert(g.active[k] == list[k2]);
            assert(self.is_column(list[k2]));
        }
        assert forall|c2: int| 0 <= c2 <= g.cols implies #[trigger] g.header_ok(c2) by {
            assert(self.header_ok(c2));
        }
        assert forall|k: int| g.is_item(k) implies #[trigger] g.item_ok(k) by {
            assert(self.item_ok(k));
            assert(self.is_column(list[i]));
            if i > 0 {
                assert(self.is_column(list[i - 1]));
            }
            if i + 1 < list.len() {
                assert(self.is_column(list[i + 1]));
            }
        }
        assert forall|k: int, m: int| g.is_item(k) && #[trigger] g.in_row(k, m) implies g.row_ok(k, m) by {
            assert(self.in_row(k, m));
            assert(self.row_ok(k, m));
        }
        assert forall|c2: int| g.is_column(c2) implies #[trigger] g.column_ok(c2) by {
            assert(self.column_ok(c2));
            assert forall|k: int| 0 <= k < g.live[c2].len() implies #[trigger] g.member_ok(c2, k) by {
                assert(self.member_ok(c2, k));
            }
        }
        assert(g.wf());

        let l = self.left[c];
        let r = self.right[c];
        if i > 0 {
            assert(self.is_column(list[i - 1]));
            assert(linked(self.right, self.left, 0, list, i - 1));
        }
        if i + 1 < list.len() {
            assert(self.is_column(list[i + 1]));
            assert(linked(self.right, self.left, 0, list, i + 1));
        }
        assert(l != c && r != c);
        assert(g.left[c] == l);
        assert(g.right[c] == r);
        assert(self.right[l] == c);
        assert(self.left[r] == c);
        let back = g.relink(c);
        assert(back.right =~= self.right);
        assert(back.left =~= self.left);
        if l != 0 {
            assert(g.active[i - 1] == l);
            lemma_index_of(g.active, i - 1);
        }
        assert(list.remove(i).insert(i, c) =~= list);
        assert(back.active =~= self.active);

        assert forall|c2: int| #[trigger] g.is_active(c2) <==> self.is_active(c2) && c2 != c by {
            lemma_remove_contains(list, i, c2);
        }
    }

    /// Hiding rows that lie apart, each with live mates, keeps the grid
    /// well-formed, takes just the mates out of the live items, and is
    /// undone by unhiding the rows last to first.
    pub proof fn lemma_hide_rows(self, rs: Seq<int>)
        requires
            self.wf(),
            self.apart(rs),
            forall|i: int| 0 <= i < rs.len() ==> self.mates_live(#[trigger] rs[i]),
        ensures
            self.hide_rows(rs).wf(),
            self.same_but_vertical(self.hide_rows(rs)),
            self.hide_rows(rs).unhide_rows(rs) == self,
            self.hide_rows(rs).measure() <= self.measure(),
            forall|k: int|
                self.is_item(k) ==> (#[trigger] self.hide_rows(rs).is_live(k) <==> self.is_live(k) && !self.beside(
                    rs,
                    k,
                )),
            forall|k: int| self.is_item(k) && !self.is_live(k) ==> #[trigger] self.hide_rows(rs).still(self, k),
        decreases rs.len(),
    {
        if rs.len() > 0 {
            let init = rs.drop_last();
            let last = rs.last();
            assert(rs[rs.len() - 1] == last);
            assert forall|i: int| 0 <= i < init.len() implies self.is_item(#[trigger] init[i]) by {
                assert(init[i] == rs[i]);
            }
            assert forall|i: int, j: int| 0 <= i < j < init.len() implies self.lo[#[trigger] init[i]] != self.lo[
                #[trigger] init[j]
            ] by {
                assert(init[i] == rs[i]);
                assert(init[j] == rs[j]);
            }
            assert forall|i: int| 0 <= i < init.len() implies self.mates_live(#[trigger] init[i]) by {
                assert(init[i] == rs[i]);
            }
            self.lemma_hide_rows(init);
            let mid = self.hide_rows(init);
            assert(self.mates_live(last));
            assert(mid.mates_live(last)) by {
                assert forall|k: int| #[trigger] mid.in_row(last, k) && k != last implies mid.is_live(k) by {
                    assert(self.in_row(last, k));
                    assert(self.row_ok(last, k));
                    assert(self.item_ok(last));
                    assert(self.is_item(k));
                    assert(self.is_live(k));
                    if self.beside(init, k) {
                        let i = choose|i: int| 0 <= i < init.len() && #[trigger] self.in_row(init[i], k) && k
                            != init[i];
                        assert(init[i] == rs[i]);
                        assert(self.row_ok(rs[i], k));
                    }
                }
            }
            mid.lemma_hide_row(last);
            assert(mid.item_ok(last));
            let end = mid.hide_row(last);
            assert(end.unhide_rows(rs) == end.unhide_row(last).unhide_rows(init));
            assert forall|k: int| self.is_item(k) implies (#[trigger] end.is_live(k) <==> self.is_live(k)
                && !self.beside(rs, k)) by {
                assert(mid.is_item(k));
                assert(end.is_live(k) <==> mid.is_live(k) && !(mid.in_row(last, k) && k != last));
                assert(mid.is_live(k) <==> self.is_live(k) && !self.beside(init, k));
                if self.beside(init, k) {
                    let i = choose|i: int| 0 <= i < init.len() && #[trigger] self.in_row(init[i], k) && k
                        != init[i];
                    assert(init[i] == rs[i]);
                    assert(self.in_row(rs[i], k) && k != rs[i]);
                }
                if self.in_row(last, k) && k != last {
                    assert(self.in_row(rs[rs.len() - 1], k));
                }
                if self.beside(rs, k) {
                    let i = choose|i: int| 0 <= i < rs.len() && #[trigger] self.in_row(rs[i], k) && k != rs[i];
                    if i < init.len() {
                        assert(init[i] == rs[i]);
                        assert(self.in_row(init[i], k));
                    }
                }
            }
            assert forall|k: int| self.is_item(k) && !self.is_live(k) implies #[trigger] end.still(self, k) by {
                assert(mid.still(self, k));
                assert(mid.is_item(k));
                assert(mid.is_live(k) <==> self.is_live(k) && !self.beside(init, k));
                assert(end.still(mid, k));
            }
        }
    }

    /// Hiding rows that cross column `c` leaves that column alone.
    pub proof fn lemma_hide_rows_column(self, rs: Seq<int>, c: int)
        requires
            self.wf(),
            self.apart(rs),
            forall|i: int| 0 <= i < rs.len() ==> self.mates_live(#[trigger] rs[i]),
            forall|i: int| 0 <= i < rs.len() ==> self.col[#[trigger] rs[i]] == c,
        ensures
            self.hide_rows(rs).live[c] == self.live[c],
            self.hide_rows(rs).size[c] == self.size[c],
        decreases rs.len(),
    {
        if rs.len() > 0 {
            let init = rs.drop_last();
            let last = rs.last();
            assert(rs[rs.len() - 1] == last);
            assert forall|i: int| 0 <= i < init.len() implies self.is_item(#[trigger] init[i]) by {
                assert(init[i] == rs[i]);
            }
            assert forall|i: int, j: int| 0 <= i < j < init.len() implies self.lo[#[trigger] init[i]] != self.lo[
                #[trigger] init[j]
            ] by {
                assert(init[i] == rs[i]);
                assert(init[j] == rs[j]);
            }
            assert forall|i: int| 0 <= i < init.len() implies self.mates_live(#[trigger] init[i]) by {
                assert(init[i] == rs[i]);
            }
            assert forall|i: int| 0 <= i < init.len() implies self.col[#[trigger] init[i]] == c by {
                assert(init[i] == rs[i]);
            }
            self.lemma_hide_rows_column(init, c);
            self.lemma_hide_rows(init);
            let mid = self.hide_rows(init);
            assert(mid.mates_live(last)) by {
                assert forall|k: int| #[trigger] mid.in_row(last, k) && k != last implies mid.is_live(k) by {
                    assert(self.in_row(last, k));
                    assert(self.row_ok(last, k));
                    assert(self.item_ok(last));
                    assert(self.is_item(k));
                    assert(self.is_live(k));
                    if self.beside(init, k) {
                        let i = choose|i: int| 0 <= i < init.len() && #[trigger] self.in_row(init[i], k) && k
                            != init[i];
                        assert(init[i] == rs[i]);
                        assert(self.row_ok(rs[i], k));
                    }
                }
            }
            mid.lemma_hide_row(last);
        }
    }

    /// A live item in an active column of a coherent grid has live mates.
    pub proof fn lemma_intact(self, r: int)
        requires
            self.wf(),
            self.coherent(),
            self.is_item(r),
            self.is_live(r),
            self.is_active(self.col[r]),
        ensures
            self.intact(r),
            self.mates_live(r),
            forall|i: int| 0 <= i < self.mates(r).len() ==> self.is_active(self.col[#[trigger] self.mates(r)[i]]),
    {
        assert(self.intact(r));
        assert forall|k: int| #[trigger] self.in_row(r, k) && k != r implies self.is_live(k) by {}
        self.lemma_mates(r);
        assert forall|i: int| 0 <= i < self.mates(r).len() implies self.is_active(
            self.col[#[trigger] self.mates(r)[i]],
        ) by {
            assert(self.in_row(r, self.mates(r)[i]));
        }
    }

    /// Covering an active column of a coherent grid keeps the grid
    /// well-formed and coherent, and is undone by uncovering the column.
    pub proof fn lemma_cover(self, c: int)
        requires
            self.wf(),
            self.coherent(),
            self.is_active(c),
        ensures
            self.is_column(c),
            self.cover(c).wf(),
            self.cover(c).coherent(),
            self.cover(c).uncover(c) == self,
            self.same_frame(self.cover(c)),
            self.cover(c).weight == self.weight,
            self.cover(c).live[c] == self.live[c],
            self.cover(c).size[c] == self.size[c],
            self.cover(c).measure() < self.measure(),
            forall|c2: int| #[trigger] self.cover(c).is_active(c2) <==> self.is_active(c2) && c2 != c,
            forall|k: int| self.is_item(k) && #[trigger] self.cover(c).is_live(k) ==> self.is_live(k),
            forall|k: int|
                self.is_item(k) && self.is_live(k) && self.misses(k, c) ==> #[trigger] self.cover(c).is_live(k),
            forall|k: int| self.is_item(k) && self.beside(self.live[c], k) ==> !(#[trigger] self.cover(c).is_live(k)),
    {
        let rs = self.live[c];
        let g1 = self.unlink(c);
        let g2 = g1.hide_rows(rs);
        self.lemma_unlink(c);
        self.lemma_live_apart(c);
        assert(self.column_ok(c));
        assert forall|i: int| 0 <= i < rs.len() implies g1.mates_live(#[trigger] rs[i]) by {
            lemma_index_of(rs, i);
            self.lemma_intact(rs[i]);
            assert forall|k: int| #[trigger] g1.in_row(rs[i], k) && k != rs[i] implies g1.is_live(k) by {
                assert(self.in_row(rs[i], k));
            }
        }
        assert(g1.apart(rs));
        g1.lemma_hide_rows(rs);
        assert forall|i: int| 0 <= i < rs.len() implies g1.col[#[trigger] rs[i]] == c by {}
        g1.lemma_hide_rows_column(rs, c);
        assert(g2.live[c] == rs);
        assert(g2.uncover(c) == g2.unhide_rows(rs).relink(c));

        assert forall|c2: int| #[trigger] g2.is_active(c2) <==> self.is_active(c2) && c2 != c by {
            assert(g2.active == g1.active);
            assert(g1.is_active(c2) <==> self.is_active(c2) && c2 != c);
        }
        assert forall|j: int| g2.is_item(j) && #[trigger] g2.is_live(j) && g2.is_active(g2.col[j]) implies g2.intact(
            j,
        ) by {
            assert(g1.is_item(j));
            assert(g2.is_live(j) <==> g1.is_live(j) && !g1.beside(rs, j));
            assert(self.is_live(j));
            assert(g1.is_active(self.col[j]));
            assert(self.is_active(self.col[j]));
            assert(self.intact(j));
            assert forall|k: int| #[trigger] g2.in_row(j, k) implies g2.is_live(k) && g2.is_active(g2.col[k]) by {
                assert(self.in_row(j, k));
                assert(self.row_ok(j, k));
                assert(self.item_ok(j));
                assert(self.is_item(k));
                assert(self.is_live(k) && self.is_active(self.col[k]));
                if self.col[k] == c {
                    lemma_index_of_contained(rs, k);
                    let i = rs.index_of(k);
                    assert(self.in_row(rs[i], j));
                    assert(g1.in_row(rs[i], j));
                    assert(j != k);
                    assert(g1.beside(rs, j));
                }
                assert(g1.is_active(self.col[k]));
                assert(g2.is_live(k) <==> g1.is_live(k) && !g1.beside(rs, k));
                if g1.beside(rs, k) {
                    let i = choose|i: int| 0 <= i < rs.len() && #[trigger] g1.in_row(rs[i], k) && k != rs[i];
                    assert(self.in_row(rs[i], k));
                    assert(self.row_ok(rs[i], k));
                    assert(g1.in_row(rs[i], j));
                    assert(j != rs[i]);
                    assert(g1.beside(rs, j));
                }
            }
        }
        assert forall|k: int| self.is_item(k) && #[trigger] g2.is_live(k) implies self.is_live(k) by {
            assert(g1.is_item(k));
            assert(g2.is_live(k) <==> g1.is_live(k) && !g1.beside(rs, k));
        }
        assert forall|k: int| self.is_item(k) && self.beside(self.live[c], k) implies !(#[trigger] g2.is_live(k)) by {
            assert(g1.is_item(k));
            assert(g2.is_live(k) <==> g1.is_live(k) && !g1.beside(rs, k));
            let i = choose|i: int| 0 <= i < rs.len() && #[trigger] self.in_row(rs[i], k) && k != rs[i];
            assert(g1.in_row(rs[i], k));
        }
        assert forall|k: int| self.is_item(k) && self.is_live(k) && self.misses(k, c) implies #[trigger] g2.is_live(
            k,
        ) by {
            assert(g1.is_item(k));
            assert(g2.is_live(k) <==> g1.is_live(k) && !g1.beside(rs, k));
            if g1.beside(rs, k) {
                let i = choose|i: int| 0 <= i < rs.len() && #[trigger] g1.in_row(rs[i], k) && k != rs[i];
                assert(self.in_row(rs[i], k));
                assert(self.row_ok(rs[i], k));
                assert(self.item_ok(rs[i]));
                assert(self.in_row(k, rs[i]));
            }
        }
    }

    /// Tweaking a live item of an active column of a coherent grid keeps
    /// the grid well-formed and coherent, takes the whole row out of the
    /// live items, and is undone by untweaking.
    pub proof fn lemma_tweak(self, r: int)
        requires
            self.wf(),
            self.coherent(),
            self.is_item(r),
            self.is_live(r),
            self.is_active(self.col[r]),
        ensures
            self.tweak(r).wf(),
            self.tweak(r).coherent(),
            self.tweak(r).untweak(r) == self,
            self.same_but_vertical(self.tweak(r)),
            self.tweak(r).measure() < self.measure(),
            self.tweak(r).live[self.col[r]] == self.live[self.col[r]].remove(self.live[self.col[r]].index_of(r)),
            forall|k: int|
                self.is_item(k) ==> (#[trigger] self.tweak(r).is_live(k) <==> self.is_live(k) && !self.in_row(r, k)),
            forall|k: int|
                self.is_item(k) && (!self.is_live(k) || k == r) ==> #[trigger] self.tweak(r).still(self, k),
    {
        let c = self.col[r];
        self.lemma_intact(r);
        self.lemma_hide_row(r);
        let mid = self.hide_row(r);
        assert(self.item_ok(r));
        assert(mid.is_item(r));
        assert(mid.is_live(r) <==> self.is_live(r) && !(self.in_row(r, r) && r != r));
        mid.lemma_hide_node_wf(r);
        mid.lemma_hide_node_undo(r);
        mid.lemma_hide_node_live(r);
        let end = mid.hide_node(r);
        assert(end.untweak(r) == end.unhide_node(r).unhide_row(r));
        assert forall|k: int| self.is_item(k) implies (#[trigger] end.is_live(k) <==> self.is_live(k)
            && !self.in_row(r, k)) by {
            assert(mid.is_item(k));
            assert(end.is_live(k) <==> mid.is_live(k) && k != r);
            assert(mid.is_live(k) <==> self.is_live(k) && !(self.in_row(r, k) && k != r));
            assert(self.in_row(r, r));
        }
        assert forall|k: int| self.is_item(k) && (!self.is_live(k) || k == r) implies #[trigger] end.still(
            self,
            k,
        ) by {
            assert(mid.is_item(k));
            if k == r {
                self.lemma_live_at(r);
                mid.lemma_live_at(r);
                assert(mid.still(self, r));
            } else {
                assert(mid.still(self, k));
                assert(mid.is_live(k) <==> self.is_live(k) && !(self.in_row(r, k) && k != r));
            }
            assert(end.still(mid, k));
        }
        assert forall|j: int| end.is_item(j) && #[trigger] end.is_live(j) && end.is_active(end.col[j]) implies end.intact(
            j,
        ) by {
            assert(self.is_item(j));
            assert(end.is_live(j) <==> self.is_live(j) && !self.in_row(r, j));
            assert(self.intact(j));
            assert forall|k: int| #[trigger] end.in_row(j, k) implies end.is_live(k) && end.is_active(end.col[k]) by {
                assert(self.in_row(j, k));
                assert(self.row_ok(j, k));
                assert(self.item_ok(j));
                assert(self.is_item(k));
                assert(end.is_live(k) <==> self.is_live(k) && !self.in_row(r, k));
                if self.in_row(r, k) {
                    assert(self.row_ok(r, k));
                    assert(self.in_row(r, j));
                }
            }
        }
    }

    /// Tweaking the first `n` live items of an active column, top to
    /// bottom, keeps the grid well-formed and coherent, leaves the column
    /// the others, and is undone by untweaking them last to first.
    pub proof fn lemma_tweak_rows(self, c: int, n: int)
        requires
            self.wf(),
            self.coherent(),
            self.is_active(c),
            0 <= n <= self.live[c].len(),
        ensures
            ({
                let rs = self.live[c];
                let end = self.tweak_rows(rs.take(n));
                &&& end.wf()
                &&& end.coherent()
                &&& end.untweak_rows(rs.take(n)) == self
                &&& self.same_but_vertical(end)
                &&& end.measure() <= self.measure() - n
                &&& end.live[c] == rs.skip(n)
                &&& forall|i: int| 0 <= i < n ==> end.down[#[trigger] rs[i]] == succ(rs, c, i)
                &&& forall|x: int|
                    self.is_item(x) ==> (#[trigger] end.is_live(x) <==> self.is_live(x) && !self.among(rs, n, x))
            }),
        decreases n,
    {
        let rs = self.live[c];
        self.lemma_unlink(c);
        assert(self.column_ok(c));
        if n > 0 {
            self.lemma_tweak_rows(c, n - 1);
            let r = rs[n - 1];
            assert(rs.take(n).drop_last() == rs.take(n - 1));
            assert(rs.take(n).last() == r);
            let mid = self.tweak_rows(rs.take(n - 1));
            let end = mid.tweak(r);
            assert(end == self.tweak_rows(rs.take(n)));
            assert(mid.live[c] == rs.skip(n - 1));
            assert(mid.live[c][0] == r);
            assert(self.member_ok(c, n - 1));
            assert(mid.is_live(r));
            assert(mid.is_active(c));
            mid.lemma_tweak(r);
            assert(mid.column_ok(c));
            lemma_index_of(mid.live[c], 0);
            assert(rs.skip(n - 1).remove(0) =~= rs.skip(n));
            assert(end.untweak_rows(rs.take(n)) == end.untweak(r).untweak_rows(rs.take(n - 1)));
            mid.lemma_live_at(r);
            assert forall|x: int| self.is_item(x) implies (#[trigger] end.is_live(x) <==> self.is_live(x)
                && !self.among(rs, n, x)) by {
                assert(mid.is_item(x));
                assert(end.is_live(x) <==> mid.is_live(x) && !mid.in_row(r, x));
                assert(mid.is_live(x) <==> self.is_live(x) && !self.among(rs, n - 1, x));
                if self.among(rs, n - 1, x) {
                    let i = choose|i: int| 0 <= i < n - 1 && #[trigger] self.in_row(rs[i], x);
                    assert(self.in_row(rs[i], x));
                }
                if self.in_row(r, x) {
                    assert(self.in_row(rs[n - 1], x));
                }
                if self.among(rs, n, x) {
                    let i = choose|i: int| 0 <= i < n && #[trigger] self.in_row(rs[i], x);
                    if i < n - 1 {
                        assert(self.among(rs, n - 1, x));
                    }
                }
            }
            assert forall|i: int| 0 <= i < n implies end.down[#[trigger] rs[i]] == succ(rs, c, i) by {
                assert(self.member_ok(c, i));
                if i < n - 1 {
                    assert(mid.down[rs[i]] == succ(rs, c, i));
                    if mid.is_live(rs[i]) {
                        lemma_index_of_contained(mid.live[c], rs[i]);
                        let p = mid.live[c].index_of(rs[i]);
                        assert(rs[n - 1 + p] == rs[i]);
                        lemma_distinct(rs, n - 1 + p, i);
                    }
                    assert(end.still(mid, rs[i]));
                } else {
                    assert(end.still(mid, r));
                    assert(mid.down[r] == succ(mid.live[c], c, 0));
                    if n < rs.len() {
                        assert(mid.live[c][1] == rs[n]);
                    }
                }
            }
        } else {
            assert(rs.take(0) =~= Seq::<int>::empty());
            assert(rs.skip(0) =~= rs);
        }
    }

    /// The state of a cover after `n` of the rows are hidden.
    pub proof fn lemma_cover_take(self, c: int, n: int)
        requires
            self.wf(),
            self.coherent(),
            self.is_active(c),
            0 <= n <= self.live[c].len(),
        ensures
            ({
                let rs = self.live[c];
                let mid = self.unlink(c).hide_rows(rs.take(n));
                &&& self.is_column(c)
                &&& mid.wf()
                &&& self.unlink(c).same_but_vertical(mid)
                &&& mid.live[c] == rs
                &&& mid.up[c] == pred(rs, c, rs.len() as int)
                &&& mid.down[c] == succ(rs, c, -1)
                &&& forall|i: int|
                    0 <= i < rs.len() ==> {
                        &&& mid.is_item(#[trigger] rs[i])
                        &&& mid.up[rs[i]] == pred(rs, c, i)
                        &&& mid.down[rs[i]] == succ(rs, c, i)
                    }
                &&& n < rs.len() ==> mid.mates_live(rs[n]) && self.unlink(c).hide_rows(rs.take(n + 1))
                    == mid.hide_row(rs[n])
                &&& n == rs.len() ==> mid == self.cover(c)
            }),
    {
        let rs = self.live[c];
        let pre = rs.take(n);
        let g1 = self.unlink(c);
        self.lemma_unlink(c);
        self.lemma_live_apart(c);
        assert(self.column_ok(c));
        assert forall|i: int| 0 <= i < rs.len() implies g1.mates_live(#[trigger] rs[i]) by {
            lemma_index_of(rs, i);
            self.lemma_intact(rs[i]);
            assert forall|k: int| #[trigger] g1.in_row(rs[i], k) && k != rs[i] implies g1.is_live(k) by {
                assert(self.in_row(rs[i], k));
            }
        }
        assert(g1.apart(pre)) by {
            assert forall|i: int| 0 <= i < pre.len() implies g1.is_item(#[trigger] pre[i]) by {
                assert(pre[i] == rs[i]);
            }
            assert forall|i: int, j: int| 0 <= i < j < pre.len() implies g1.lo[#[trigger] pre[i]] != g1.lo[
                #[trigger] pre[j]
            ] by {
                assert(pre[i] == rs[i]);
                assert(pre[j] == rs[j]);
            }
        }
        assert forall|i: int| 0 <= i < pre.len() implies g1.mates_live(#[trigger] pre[i]) by {
            assert(pre[i] == rs[i]);
        }
        assert forall|i: int| 0 <= i < pre.len() implies g1.col[#[trigger] pre[i]] == c by {
            assert(pre[i] == rs[i]);
        }
        g1.lemma_hide_rows(pre);
        g1.lemma_hide_rows_column(pre, c);
        let mid = g1.hide_rows(pre);
        assert(mid.column_ok(c));
        assert forall|i: int| 0 <= i < rs.len() implies {
            &&& mid.is_item(#[trigger] rs[i])
            &&& mid.up[rs[i]] == pred(rs, c, i)
            &&& mid.down[rs[i]] == succ(rs, c, i)
        } by {
            assert(mid.member_ok(c, i));
            assert(linked(mid.down, mid.up, c, rs, i));
        }
        if n < rs.len() {
            assert(rs.take(n + 1).drop_last() == pre);
            assert(rs.take(n + 1).last() == rs[n]);
            assert forall|k: int| #[trigger] mid.in_row(rs[n], k) && k != rs[n] implies mid.is_live(k) by {
                assert(g1.in_row(rs[n], k));
                assert(g1.row_ok(rs[n], k));
                assert(g1.item_ok(rs[n]));
                assert(g1.is_item(k));
                assert(g1.is_live(k));
                assert(mid.is_live(k) <==> g1.is_live(k) && !g1.beside(pre, k));
                if g1.beside(pre, k) {
                    let i = choose|i: int| 0 <= i < pre.len() && #[trigger] g1.in_row(pre[i], k) && k != pre[i];
                    assert(pre[i] == rs[i]);
                    assert(g1.row_ok(rs[i], k));
                }
            }
        } else {
            assert(pre =~= rs);
        }
    }

    /// The state of a tweaked column after `n` of its rows are tweaked.
    pub proof fn lemma_tweak_take(self, c: int, n: int)
        requires
            self.wf(),
            self.coherent(),
            self.is_active(c),
            0 <= n <= self.live[c].len(),
        ensures
            ({
                let rs = self.live[c];
                let mid = self.tweak_rows(rs.take(n));
                &&& self.is_column(c)
                &&& mid.wf()
                &&& mid.coherent()
                &&& self.same_but_vertical(mid)
                &&& mid.measure() <= self.measure() - n
                &&& mid.live[c] == rs.skip(n)
                &&& mid.down[c] == succ(rs, c, n - 1)
                &&& forall|i: int| 0 <= i < rs.len() ==> mid.is_item(#[trigger] rs[i]) && mid.col[rs[i]] == c
                &&& forall|i: int| 0 <= i < n ==> mid.down[#[trigger] rs[i]] == succ(rs, c, i)
                &&& n < rs.len() ==> mid.is_live(rs[n]) && self.tweak_rows(rs.take(n + 1)) == mid.tweak(rs[n])
                    && mid.down[rs[n]] == succ(rs, c, n)
            }),
    {
        let rs = self.live[c];
        self.lemma_tweak_rows(c, n);
        self.lemma_unlink(c);
        let mid = self.tweak_rows(rs.take(n));
        assert(mid.column_ok(c));
        assert(self.column_ok(c));
        assert forall|i: int| 0 <= i < rs.len() implies mid.is_item(#[trigger] rs[i]) && mid.col[rs[i]] == c by {
            assert(self.member_ok(c, i));
        }
        if n < rs.len() {
            assert(rs.take(n + 1).drop_last() == rs.take(n));
            assert(rs.take(n + 1).last() == rs[n]);
            assert(mid.live[c][0] == rs[n]);
            assert(linked(mid.down, mid.up, c, mid.live[c], 0));
            if n + 1 < rs.len() {
                assert(mid.live[c][1] == rs[n + 1]);
            }
        }
    }
}

} // verus!
