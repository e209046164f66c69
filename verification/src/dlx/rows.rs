//! What hiding and unhiding do to a well-formed grid, a row or several rows at
//! a time.

use vstd::prelude::*;
use crate::dlx::grid::{Grid, distinct};
use crate::dlx::links::{lemma_distinct};

verus! {

/// A list without its last element holds the same values but that one.
pub proof fn lemma_drop_last_contains(list: Seq<int>, x: int)
    requires
        list.len() > 0,
    ensures
        list.contains(x) <==> list.drop_last().contains(x) || x == list.last(),
{
    let init = list.drop_last();
    if list.contains(x) {
        let i = choose|i: int| 0 <= i < list.len() && list[i] == x;
        if i < list.len() - 1 {
            assert(init[i] == x);
        }
    }
    if init.contains(x) {
        let i = choose|i: int| 0 <= i < init.len() && init[i] == x;
        assert(list[i] == x);
    }
    if x == list.last() {
        assert(list[list.len() - 1] == x);
    }
}

/// A list without repeats, without its last element, has no repeats and
/// lacks that element.
pub proof fn lemma_drop_last_distinct(list: Seq<int>)
    requires
        distinct(list),
        list.len() > 0,
    ensures
        distinct(list.drop_last()),
        !list.drop_last().contains(list.last()),
{
    reveal(distinct);
    let init = list.drop_last();
    if init.contains(list.last()) {
        let i = choose|i: int| 0 <= i < init.len() && init[i] == list.last();
        assert(list[i] == list[list.len() - 1]);
    }
}

impl Grid {
    /// Hiding live items, none twice, keeps the grid well-formed, takes just
    /// those items out of the live ones, and is undone by unhiding them last
    /// to first.
    pub proof fn lemma_hide_nodes(self, js: Seq<int>)
        requires
            self.wf(),
            self.hideable(js),
        ensures
            self.hide_nodes(js).wf(),
            self.same_but_vertical(self.hide_nodes(js)),
            self.hide_nodes(js).unhide_nodes(js) == self,
            self.hide_nodes(js).measure() == self.measure() - js.len(),
            forall|k: int|
                self.is_item(k) ==> (#[trigger] self.hide_nodes(js).is_live(k) <==> self.is_live(k)
                    && !js.contains(k)),
            forall|k: int| self.is_item(k) && !self.is_live(k) ==> #[trigger] self.hide_nodes(js).still(self, k),
        decreases js.len(),
    {
        if js.len() > 0 {
            let init = js.drop_last();
            let last = js.last();
            lemma_drop_last_distinct(js);
            assert forall|i: int| 0 <= i < init.len() implies self.is_item(#[trigger] init[i]) && self.is_live(
                init[i],
            ) by {
                assert(init[i] == js[i]);
            }
            self.lemma_hide_nodes(init);
            let mid = self.hide_nodes(init);
            let end = mid.hide_node(last);
            assert(js[js.len() - 1] == last);
            assert(self.is_item(last) && self.is_live(last));
            assert(mid.is_live(last));
            mid.lemma_hide_node_wf(last);
            mid.lemma_hide_node_undo(last);
            mid.lemma_hide_node_live(last);
            assert(end.unhide_nodes(js) == end.unhide_node(last).unhide_nodes(init));
            assert forall|k: int| self.is_item(k) implies (#[trigger] end.is_live(k) <==> self.is_live(k)
                && !js.contains(k)) by {
                lemma_drop_last_contains(js, k);
                assert(mid.is_item(k));
                assert(end.is_live(k) <==> mid.is_live(k) && k != last);
                assert(mid.is_live(k) <==> self.is_live(k) && !init.contains(k));
            }
            assert forall|k: int| self.is_item(k) && !self.is_live(k) implies #[trigger] end.still(self, k) by {
                assert(mid.still(self, k));
                assert(mid.is_item(k));
                assert(mid.is_live(k) <==> self.is_live(k) && !init.contains(k));
                assert(end.still(mid, k));
            }
        }
    }

    /// Hiding items leaves alone the columns that hold none of them.
    pub proof fn lemma_hide_nodes_column(self, js: Seq<int>, c: int)
        requires
            self.wf(),
            self.hideable(js),
            forall|i: int| 0 <= i < js.len() ==> self.col[#[trigger] js[i]] != c,
            0 <= c <= self.cols,
        ensures
            self.hide_nodes(js).live[c] == self.live[c],
            self.hide_nodes(js).size[c] == self.size[c],
        decreases js.len(),
    {
        if js.len() > 0 {
            let init = js.drop_last();
            let last = js.last();
            lemma_drop_last_distinct(js);
            assert forall|i: int| 0 <= i < init.len() implies self.is_item(#[trigger] init[i]) && self.is_live(
                init[i],
            ) by {
                assert(init[i] == js[i]);
            }
            assert forall|i: int| 0 <= i < init.len() implies self.col[#[trigger] init[i]] != c by {
                assert(init[i] == js[i]);
            }
            self.lemma_hide_nodes_column(init, c);
            self.lemma_hide_nodes(init);
            assert(js[js.len() - 1] == last);
            assert(self.item_ok(last));
        }
    }

    /// The mates of an item are the other items of its row, each once.
    pub proof fn lemma_mates(self, r: int)
        requires
            self.wf(),
            self.is_item(r),
        ensures
            distinct(self.mates(r)),
            self.mates(r).len() == self.hi[r] - self.lo[r] - 1,
            forall|i: int|
                0 <= i < self.mates(r).len() ==> {
                    let m = #[trigger] self.mates(r)[i];
                    &&& self.is_item(m)
                    &&& self.in_row(r, m)
                    &&& m != r
                    &&& self.col[m] != self.col[r]
                    &&& self.lo[m] == self.lo[r]
                    &&& self.hi[m] == self.hi[r]
                },
            forall|k: int| self.in_row(r, k) && k != r ==> #[trigger] self.mates(r).contains(k),
    {
        let ms = self.mates(r);
        assert(self.item_ok(r));
        assert forall|i: int| 0 <= i < ms.len() implies {
            let m = #[trigger] ms[i];
            &&& self.is_item(m)
            &&& self.in_row(r, m)
            &&& m != r
            &&& self.col[m] != self.col[r]
            &&& self.lo[m] == self.lo[r]
            &&& self.hi[m] == self.hi[r]
        } by {
            let m = ms[i];
            assert(self.in_row(r, m));
            assert(self.row_ok(r, m));
        }
        assert(distinct(ms)) by {
            reveal(distinct);
        }
        assert forall|k: int| self.in_row(r, k) && k != r implies #[trigger] ms.contains(k) by {
            let i = if k > r { k - r - 1 } else { k - r - 1 + (self.hi[r] - self.lo[r]) };
            assert(ms[i] == k);
        }
    }

    /// The mates of an item whose row-mates are live can be hidden.
    pub proof fn lemma_mates_hideable(self, r: int)
        requires
            self.wf(),
            self.is_item(r),
            self.mates_live(r),
        ensures
            self.hideable(self.mates(r)),
            forall|i: int| 0 <= i < self.mates(r).len() ==> self.col[#[trigger] self.mates(r)[i]] != self.col[r],
    {
        self.lemma_mates(r);
        let ms = self.mates(r);
        assert forall|i: int| 0 <= i < ms.len() implies self.is_item(#[trigger] ms[i]) && self.is_live(ms[i]) by {
            let m = ms[i];
            assert(self.in_row(r, m) && m != r);
        }
    }

    /// Hiding a row whose other items are live keeps the grid well-formed,
    /// takes just those items out of the live ones, and is undone by
    /// unhiding the row.
    pub proof fn lemma_hide_row(self, r: int)
        requires
            self.wf(),
            self.is_item(r),
            self.mates_live(r),
        ensures
            self.hide_row(r).wf(),
            self.same_but_vertical(self.hide_row(r)),
            self.hide_row(r).unhide_row(r) == self,
            self.hide_row(r).measure() == self.measure() - (self.hi[r] - self.lo[r] - 1),
            self.hide_row(r).live[self.col[r]] == self.live[self.col[r]],
            self.hide_row(r).size[self.col[r]] == self.size[self.col[r]],
            forall|k: int|
                self.is_item(k) ==> (#[trigger] self.hide_row(r).is_live(k) <==> self.is_live(k) && !(self.in_row(
                    r,
                    k,
                ) && k != r)),
            forall|k: int| self.is_item(k) && !self.is_live(k) ==> #[trigger] self.hide_row(r).still(self, k),
    {
        self.lemma_mates(r);
        self.lemma_mates_hideable(r);
        let ms = self.mates(r);
        self.lemma_hide_nodes(ms);
        assert(self.item_ok(r));
        self.lemma_hide_nodes_column(ms, self.col[r]);
        let g = self.hide_row(r);
        assert(g.mates(r) == ms);
        assert forall|k: int| self.is_item(k) implies (#[trigger] g.is_live(k) <==> self.is_live(k) && !(
        self.in_row(r, k) && k != r)) by {
            if ms.contains(k) {
                let i = choose|i: int| 0 <= i < ms.len() && ms[i] == k;
                assert(self.in_row(r, ms[i]));
            }
            if self.in_row(r, k) && k != r {
                assert(ms.contains(k));
            }
        }
    }

    /// A prefix of a list of items that can be hidden can be hidden, and
    /// leaves the next item live.
    pub proof fn lemma_hide_nodes_take(self, js: Seq<int>, n: int)
        requires
            self.wf(),
            self.hideable(js),
            0 <= n <= js.len(),
        ensures
            self.hideable(js.take(n)),
            self.hide_nodes(js.take(n)).wf(),
            self.same_but_vertical(self.hide_nodes(js.take(n))),
            n < js.len() ==> self.hide_nodes(js.take(n)).is_live(js[n]) && self.hide_nodes(js.take(n + 1))
                == self.hide_nodes(js.take(n)).hide_node(js[n]),
            n == js.len() ==> js.take(n) == js,
    {
        let pre = js.take(n);
        assert(distinct(pre)) by {
            reveal(distinct);
        }
        assert forall|i: int| 0 <= i < pre.len() implies self.is_item(#[trigger] pre[i]) && self.is_live(pre[i]) by {
            assert(pre[i] == js[i]);
        }
        self.lemma_hide_nodes(pre);
        if n < js.len() {
            assert(js.take(n + 1).drop_last() == pre);
            assert(js.take(n + 1).last() == js[n]);
            assert(self.is_item(js[n]) && self.is_live(js[n]));
            if pre.contains(js[n]) {
                let i = choose|i: int| 0 <= i < pre.len() && pre[i] == js[n];
                lemma_distinct(js, i, n);
            }
        } else {
            assert(js.take(n) =~= js);
        }
    }
}

} // verus!
