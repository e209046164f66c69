//! What selecting does to a well-formed grid, and why hiding is blind to the
//! weights.

use vstd::prelude::*;
use crate::dlx::grid::{Grid, holds};

verus! {

impl Grid {
    /// Counting one more for a column changes that weight alone.
    pub proof fn lemma_bump(self, c: int)
        requires
            self.wf(),
            0 <= c <= self.cols,
            self.weight[c] < usize::MAX,
        ensures
            self.bump(c).wf(),
            self.bump(c).unbump(c) == self,
            self.bump(c) == self.with_weight(self.weight.update(c, self.weight[c] + 1)),
            self.coherent() ==> self.bump(c).coherent(),
            self.bump(c).measure() == self.measure(),
    {
        let g = self.bump(c);
        assert forall|c2: int| 0 <= c2 <= g.cols implies #[trigger] g.header_ok(c2) by {
            assert(self.header_ok(c2));
        }
        assert forall|k: int| g.is_item(k) implies #[trigger] g.item_ok(k) by {
            assert(self.item_ok(k));
        }
        assert forall|k: int, m: int| g.is_item(k) && #[trigger] g.in_row(k, m) implies g.row_ok(k, m) by {
            assert(self.in_row(k, m));
            assert(self.row_ok(k, m));
        }
        assert forall|c2: int| g.is_column(c2) implies #[trigger] g.column_ok(c2) by {
            assert(self.column_ok(c2));
            assert forall|k: int| 0 <= k < g.live[c2].len() implies #[trigger] g.member_ok(c2, k) by {
                assert(self.member_ok(c2, k));
            }
        }
        assert(g.unbump(c).weight =~= self.weight);
        if self.coherent() {
            assert forall|j: int| g.is_item(j) && #[trigger] g.is_live(j) && g.is_active(g.col[j]) implies g.intact(
                j,
            ) by {
                assert(self.is_live(j));
                assert(self.intact(j));
                assert forall|k: int| #[trigger] g.in_row(j, k) implies g.is_live(k) && g.is_active(g.col[k]) by {
                    assert(self.in_row(j, k));
                }
            }
        }
    }

    /// Hiding items does not look at the weights.
    pub proof fn lemma_blind_hide_nodes(self, js: Seq<int>, weight: Seq<int>)
        ensures
            self.with_weight(weight).hide_nodes(js) == self.hide_nodes(js).with_weight(weight),
        decreases js.len(),
    {
        if js.len() > 0 {
            self.lemma_blind_hide_nodes(js.drop_last(), weight);
        }
    }

    /// Hiding rows does not look at the weights.
    pub proof fn lemma_blind_hide_rows(self, rs: Seq<int>, weight: Seq<int>)
        ensures
            self.with_weight(weight).hide_rows(rs) == self.hide_rows(rs).with_weight(weight),
        decreases rs.len(),
    {
        if rs.len() > 0 {
            let init = rs.drop_last();
            self.lemma_blind_hide_rows(init, weight);
            let mid = self.hide_rows(init);
            mid.lemma_blind_hide_nodes(mid.mates(rs.last()), weight);
            assert(mid.with_weight(weight).mates(rs.last()) == mid.mates(rs.last()));
        }
    }

    /// Covering does not look at the weights.
    pub proof fn lemma_blind_cover(self, c: int, weight: Seq<int>)
        ensures
            self.with_weight(weight).cover(c) == self.cover(c).with_weight(weight),
    {
        self.unlink(c).lemma_blind_hide_rows(self.live[c], weight);
        assert(self.with_weight(weight).unlink(c) == self.unlink(c).with_weight(weight));
    }

    /// Tweaking does not look at the weights.
    pub proof fn lemma_blind_tweak_rows(self, rs: Seq<int>, weight: Seq<int>)
        ensures
            self.with_weight(weight).tweak_rows(rs) == self.tweak_rows(rs).with_weight(weight),
        decreases rs.len(),
    {
        if rs.len() > 0 {
            let init = rs.drop_last();
            self.lemma_blind_tweak_rows(init, weight);
            let mid = self.tweak_rows(init);
            mid.lemma_blind_hide_nodes(mid.mates(rs.last()), weight);
            assert(mid.with_weight(weight).mates(rs.last()) == mid.mates(rs.last()));
        }
    }

    /// Selecting an item of an active column of a coherent grid keeps the
    /// grid well-formed and coherent, counts one more for that column, and
    /// is undone by unselecting the item.
    pub proof fn lemma_select_node(self, j: int)
        requires
            self.wf(),
            self.coherent(),
            self.is_item(j),
            self.is_active(self.col[j]),
            self.weight[self.col[j]] < usize::MAX,
        ensures
            self.select_node(j).wf(),
            self.select_node(j).coherent(),
            self.select_node(j).unselect_node(j) == self,
            self.same_frame(self.select_node(j)),
            self.select_node(j).weight == self.weight.update(self.col[j], self.weight[self.col[j]] + 1),
            self.select_node(j).measure() <= self.measure(),
            forall|c2: int|
                #[trigger] self.select_node(j).is_active(c2) <==> self.is_active(c2) && !(c2 == self.col[j]
                    && self.weight[c2] + 1 == self.max[c2]),
    {
        let c = self.col[j];
        assert(self.item_ok(j));
        self.lemma_bump(c);
        let g1 = self.bump(c);
        if g1.full(c) {
            g1.lemma_cover(c);
            let g2 = g1.cover(c);
            assert(g2.full(c));
            assert(g2.unselect_node(j) == g2.uncover(c).unbump(c));
        } else {
            assert(g1.unselect_node(j) == g1.unbump(c));
        }
    }

    /// Selecting items of active columns, one for each column, keeps the
    /// grid well-formed and coherent, counts one more for each of those
    /// columns, and is undone by unselecting the items last to first.
    pub proof fn lemma_select_nodes(self, js: Seq<int>)
        requires
            self.wf(),
            self.coherent(),
            self.selectable(js),
        ensures
            self.select_nodes(js).wf(),
            self.select_nodes(js).coherent(),
            self.select_nodes(js).unselect_nodes(js) == self,
            self.same_frame(self.select_nodes(js)),
            self.select_nodes(js).measure() <= self.measure(),
            forall|c: int|
                0 <= c <= self.cols ==> #[trigger] self.select_nodes(js).weight[c] == self.weight[c] + if self.touches(
                    js,
                    c,
                ) {
                    1int
                } else {
                    0int
                },
            forall|c: int| #[trigger] self.select_nodes(js).is_active(c) ==> self.is_active(c),
            forall|c: int|
                self.is_active(c) && !(#[trigger] self.select_nodes(js).is_active(c)) ==> self.touches(js, c)
                    && self.select_nodes(js).weight[c] == self.max[c],
            forall|c: int|
                self.touches(js, c) && self.weight[c] + 1 == self.max[c] ==> !(#[trigger] self.select_nodes(
                    js,
                ).is_active(c)),
            forall|k: int|
                self.is_item(k) && self.is_live(k) && self.clear_of(k, js) ==> #[trigger] self.select_nodes(
                    js,
                ).is_live(k),
            forall|k: int| self.is_item(k) && #[trigger] self.select_nodes(js).is_live(k) ==> self.is_live(k),
        decreases js.len(),
    {
        if js.len() > 0 {
            let init = js.drop_last();
            let last = js.last();
            assert(js[js.len() - 1] == last);
            assert(self.selectable(init)) by {
                assert forall|i: int| 0 <= i < init.len() implies {
                    &&& self.is_item(#[trigger] init[i])
                    &&& self.is_active(self.col[init[i]])
                    &&& self.weight[self.col[init[i]]] < usize::MAX
                } by {
                    assert(init[i] == js[i]);
                }
                assert forall|i: int, j: int| 0 <= i < j < init.len() implies self.col[#[trigger] init[i]]
                    != self.col[#[trigger] init[j]] by {
                    assert(init[i] == js[i]);
                    assert(init[j] == js[j]);
                }
            }
            self.lemma_select_nodes(init);
            let mid = self.select_nodes(init);
            let c = self.col[last];
            assert(self.item_ok(last));
            assert(!self.touches(init, c)) by {
                if self.touches(init, c) {
                    let i = choose|i: int| 0 <= i < init.len() && self.col[#[trigger] init[i]] == c;
                    assert(init[i] == js[i]);
                }
            }
            assert(mid.weight[c] == self.weight[c]);
            assert(mid.is_active(c));
            mid.lemma_select_node(last);
            let end = mid.select_node(last);
            assert(end.unselect_nodes(js) == end.unselect_node(last).unselect_nodes(init));
            assert forall|c2: int| 0 <= c2 <= self.cols implies #[trigger] end.weight[c2] == self.weight[c2]
                + if self.touches(js, c2) {
                1int
            } else {
                0int
            } by {
                assert(mid.weight[c2] == self.weight[c2] + if self.touches(init, c2) {
                    1int
                } else {
                    0int
                });
                if self.touches(init, c2) {
                    let i = choose|i: int| 0 <= i < init.len() && self.col[#[trigger] init[i]] == c2;
                    assert(init[i] == js[i]);
                }
                if self.touches(js, c2) && c2 != c {
                    let i = choose|i: int| 0 <= i < js.len() && self.col[#[trigger] js[i]] == c2;
                    assert(init[i] == js[i]);
                }
            }
            assert forall|c2: int| self.touches(js, c2) && self.weight[c2] + 1 == self.max[c2] implies !(
            #[trigger] end.is_active(c2)) by {
                if c2 == c {
                } else {
                    let i = choose|i: int| 0 <= i < js.len() && self.col[#[trigger] js[i]] == c2;
                    assert(init[i] == js[i]);
                    assert(self.touches(init, c2));
                    assert(!mid.is_active(c2));
                }
            }
            assert forall|k: int| self.is_item(k) && #[trigger] end.is_live(k) implies self.is_live(k) by {
                let g1 = mid.bump(c);
                mid.lemma_bump(c);
                if g1.full(c) {
                    g1.lemma_cover(c);
                    assert(g1.is_item(k));
                    assert(g1.is_live(k));
                }
                assert(mid.is_live(k));
            }
            assert forall|k: int| self.is_item(k) && self.is_live(k) && self.clear_of(k, js) implies #[trigger] end.is_live(
                k,
            ) by {
                assert(self.clear_of(k, init)) by {
                    assert forall|m: int| #[trigger] self.in_row(k, m) implies !(self.touches(init, self.col[m])
                        && self.weight[self.col[m]] + 1 == self.max[self.col[m]]) by {
                        if self.touches(init, self.col[m]) {
                            let i = choose|i: int| 0 <= i < init.len() && self.col[#[trigger] init[i]] == self.col[m];
                            assert(init[i] == js[i]);
                            assert(self.touches(js, self.col[m]));
                        }
                    }
                }
                assert(mid.is_live(k));
                let g1 = mid.bump(c);
                mid.lemma_bump(c);
                if g1.full(c) {
                    g1.lemma_cover(c);
                    assert(g1.is_live(k));
                    assert(g1.misses(k, c)) by {
                        assert forall|m: int| #[trigger] g1.in_row(k, m) implies g1.col[m] != c by {
                            assert(self.in_row(k, m));
                            if self.col[m] == c {
                                assert(self.col[js[js.len() - 1]] == c);
                                assert(self.touches(js, c));
                            }
                        }
                    }
                    assert(g1.cover(c).is_live(k));
                }
            }
            assert forall|c2: int| self.is_active(c2) && !(#[trigger] end.is_active(c2)) implies self.touches(js, c2)
                && end.weight[c2] == self.max[c2] by {
                if mid.is_active(c2) {
                    assert(c2 == c);
                } else {
                    assert(self.touches(init, c2));
                    let i = choose|i: int| 0 <= i < init.len() && self.col[#[trigger] init[i]] == c2;
                    assert(init[i] == js[i]);
                    assert(c2 != c);
                }
            }
        }
    }

    /// A row number holds a column just when an item of the row stands in
    /// it.
    pub proof fn lemma_row_holds(self, r: int, c: int)
        requires
            self.wf(),
            self.is_item(r),
        ensures
            holds(self.rows, self.row[r], c) <==> (c == self.col[r] || self.touches(self.mates(r), c)),
    {
        let ms = self.mates(r);
        let row = self.rows[self.row[r] - 1];
        self.lemma_mates(r);
        assert(self.item_ok(r));
        if holds(self.rows, self.row[r], c) {
            let k = choose|k: int| 0 <= k < row.len() && #[trigger] row[k] == c;
            let m = self.lo[r] + k;
            assert(self.in_row(r, m));
            assert(self.row_ok(r, m));
            assert(self.item_ok(m));
            if m != r {
                assert(ms.contains(m));
                let i = choose|i: int| 0 <= i < ms.len() && ms[i] == m;
                assert(self.col[ms[i]] == c);
            }
        }
        if c == self.col[r] {
            assert(row[r - self.lo[r]] == c);
        }
        if self.touches(ms, c) {
            let i = choose|i: int| 0 <= i < ms.len() && self.col[#[trigger] ms[i]] == c;
            let m = ms[i];
            assert(self.in_row(r, m));
            assert(self.row_ok(r, m));
            assert(self.item_ok(m));
            assert(row[m - self.lo[r]] == c);
        }
    }

    /// The state of selecting a list of items after `n` of them.
    pub proof fn lemma_select_nodes_take(self, js: Seq<int>, n: int)
        requires
            self.wf(),
            self.coherent(),
            self.selectable(js),
            0 <= n <= js.len(),
        ensures
            ({
                let mid = self.select_nodes(js.take(n));
                &&& self.selectable(js.take(n))
                &&& mid.wf()
                &&& mid.coherent()
                &&& self.same_frame(mid)
                &&& n < js.len() ==> {
                    &&& mid.is_item(js[n])
                    &&& mid.is_active(mid.col[js[n]])
                    &&& mid.weight[mid.col[js[n]]] < usize::MAX
                    &&& self.select_nodes(js.take(n + 1)) == mid.select_node(js[n])
                }
                &&& n == js.len() ==> js.take(n) == js
            }),
    {
        let pre = js.take(n);
        assert(self.selectable(pre)) by {
            assert forall|i: int| 0 <= i < pre.len() implies {
                &&& self.is_item(#[trigger] pre[i])
                &&& self.is_active(self.col[pre[i]])
                &&& self.weight[self.col[pre[i]]] < usize::MAX
            } by {
                assert(pre[i] == js[i]);
            }
            assert forall|i: int, j: int| 0 <= i < j < pre.len() implies self.col[#[trigger] pre[i]] != self.col[
                #[trigger] pre[j]
            ] by {
                assert(pre[i] == js[i]);
                assert(pre[j] == js[j]);
            }
        }
        self.lemma_select_nodes(pre);
        let mid = self.select_nodes(pre);
        if n < js.len() {
            assert(js.take(n + 1).drop_last() == pre);
            assert(js.take(n + 1).last() == js[n]);
            let c = self.col[js[n]];
            assert(self.item_ok(js[n]));
            if self.touches(pre, c) {
                let i = choose|i: int| 0 <= i < pre.len() && self.col[#[trigger] pre[i]] == c;
                assert(pre[i] == js[i]);
            }
        } else {
            assert(pre =~= js);
        }
    }
}

} // verus!
