//! What hiding and unhiding do to a well-formed grid, one item at a time.

use vstd::prelude::*;
use crate::dlx::grid::{Grid, ring, linked, distinct, succ, pred, total};

verus! {

/// In a list without repeats, an element is found where it stands.
pub proof fn lemma_index_of(list: Seq<int>, i: int)
    requires
        distinct(list),
        0 <= i < list.len(),
    ensures
        list.index_of(list[i]) == i,
        list.contains(list[i]),
{
    reveal(distinct);
    let k = list.index_of(list[i]);
    assert(0 <= k < list.len() && list[k] == list[i]);
}

/// Where a contained element stands.
pub proof fn lemma_index_of_contained(list: Seq<int>, x: int)
    requires
        list.contains(x),
    ensures
        0 <= list.index_of(x) < list.len(),
        list[list.index_of(x)] == x,
{
}

/// Two places of a list without repeats hold different values.
pub proof fn lemma_distinct(list: Seq<int>, a: int, b: int)
    requires
        distinct(list),
        0 <= a < list.len(),
        0 <= b < list.len(),
        a != b,
    ensures
        list[a] != list[b],
{
    reveal(distinct);
}

/// Removing an element of a list without repeats removes just that value.
pub proof fn lemma_remove_contains(list: Seq<int>, i: int, x: int)
    requires
        distinct(list),
        0 <= i < list.len(),
    ensures
        distinct(list.remove(i)),
        list.remove(i).len() == list.len() - 1,
        list.remove(i).contains(x) <==> list.contains(x) && x != list[i],
{
    reveal(distinct);
    let r = list.remove(i);
    assert forall|a: int, b: int| 0 <= a < r.len() && 0 <= b < r.len() && a != b implies r[a] != r[b] by {
        let a2 = if a < i { a } else { a + 1 };
        let b2 = if b < i { b } else { b + 1 };
        assert(r[a] == list[a2]);
        assert(r[b] == list[b2]);
    }
    if r.contains(x) {
        let a = choose|a: int| 0 <= a < r.len() && r[a] == x;
        let a2 = if a < i { a } else { a + 1 };
        assert(r[a] == list[a2]);
    }
    if list.contains(x) && x != list[i] {
        let a = choose|a: int| 0 <= a < list.len() && list[a] == x;
        let a2 = if a < i { a } else { a - 1 };
        assert(r[a2] == x);
    }
}

/// The total length changes by what the one list changes.
pub proof fn lemma_total_update(lists: Seq<Seq<int>>, n: int, c: int, list: Seq<int>)
    requires
        0 <= n <= lists.len(),
        0 <= c < lists.len(),
    ensures
        total(lists.update(c, list), n) == total(lists, n) + if c < n {
            list.len() - lists[c].len()
        } else {
            0
        },
    decreases n,
{
    if n > 0 {
        lemma_total_update(lists, n - 1, c, list);
    }
}

/// Lists have no negative length together.
pub proof fn lemma_total_nonneg(lists: Seq<Seq<int>>, n: int)
    ensures
        total(lists, n) >= 0,
    decreases n,
{
    if n > 0 {
        lemma_total_nonneg(lists, n - 1);
    }
}

/// A cycle stays a cycle when nothing that it reads has changed.
pub proof fn lemma_ring_frame(
    next: Seq<int>,
    prev: Seq<int>,
    next2: Seq<int>,
    prev2: Seq<int>,
    head: int,
    list: Seq<int>,
)
    requires
        ring(next, prev, head, list),
        next2[head] == next[head],
        prev2[head] == prev[head],
        forall|i: int|
            0 <= i < list.len() ==> next2[#[trigger] list[i]] == next[list[i]] && prev2[list[i]] == prev[list[i]],
    ensures
        ring(next2, prev2, head, list),
{
    assert forall|i: int| 0 <= i < list.len() implies #[trigger] linked(next2, prev2, head, list, i) by {
        assert(linked(next, prev, head, list, i));
        assert(next2[list[i]] == next[list[i]]);
    }
}

/// The neighbours of the element at `i` of a cycle.
pub proof fn lemma_ring_at(next: Seq<int>, prev: Seq<int>, head: int, list: Seq<int>, i: int)
    requires
        ring(next, prev, head, list),
        0 <= i < list.len(),
    ensures
        list[i] != head,
        prev[list[i]] == pred(list, head, i),
        next[list[i]] == succ(list, head, i),
        prev[list[i]] != list[i],
        next[list[i]] != list[i],
        prev[list[i]] == head <==> i == 0,
        next[list[i]] == head <==> i == list.len() - 1,
{
    assert(linked(next, prev, head, list, i));
    if i > 0 {
        lemma_distinct(list, i, i - 1);
        assert(linked(next, prev, head, list, i - 1));
    }
    if i + 1 < list.len() {
        lemma_distinct(list, i, i + 1);
        assert(linked(next, prev, head, list, i + 1));
    }
}

/// Unlinking the element at `i` leaves the cycle of the others.
pub proof fn lemma_ring_remove(next: Seq<int>, prev: Seq<int>, head: int, list: Seq<int>, i: int)
    requires
        ring(next, prev, head, list),
        0 <= i < list.len(),
        next.len() == prev.len(),
        0 <= head < next.len(),
        forall|k: int| 0 <= k < list.len() ==> 0 <= #[trigger] list[k] < next.len(),
    ensures
        ring(
            next.update(prev[list[i]], next[list[i]]),
            prev.update(next[list[i]], prev[list[i]]),
            head,
            list.remove(i),
        ),
{
    let j = list[i];
    let u = prev[j];
    let d = next[j];
    let next2 = next.update(u, d);
    let prev2 = prev.update(d, u);
    let rest = list.remove(i);
    lemma_remove_contains(list, i, 0);
    lemma_ring_at(next, prev, head, list, i);
    assert forall|k: int| 0 <= k < rest.len() implies #[trigger] linked(next2, prev2, head, rest, k) by {
        let k2 = if k < i { k } else { k + 1 };
        assert(rest[k] == list[k2]);
        lemma_ring_at(next, prev, head, list, k2);
        lemma_distinct(list, k2, i);
        if k + 1 < rest.len() {
            let at_next = if k + 1 < i { k + 1 } else { k + 2 };
            assert(rest[k + 1] == list[at_next]);
        }
        if k > 0 {
            let at_prev = if k - 1 < i { k - 1 } else { k };
            assert(rest[k - 1] == list[at_prev]);
        }
        if i > 0 && k2 != i - 1 {
            lemma_distinct(list, k2, i - 1);
        }
        if i + 1 < list.len() && k2 != i + 1 {
            lemma_distinct(list, k2, i + 1);
        }
    }
    if rest.len() > 0 {
        assert(rest[0] == list[if i == 0 { 1int } else { 0int }]);
        assert(rest.last() == list[if i == list.len() - 1 { list.len() - 2 } else { list.len() - 1 }]);
    }
}

impl Grid {
    /// What a live item knows of its place in its column.
    pub proof fn lemma_live_at(self, j: int)
        requires
            self.wf(),
            self.is_item(j),
            self.is_live(j),
        ensures
            ({
                let c = self.col[j];
                let list = self.live[c];
                let i = list.index_of(j);
                &&& self.is_column(c)
                &&& 0 <= i < list.len()
                &&& list[i] == j
                &&& self.up[j] == pred(list, c, i)
                &&& self.down[j] == succ(list, c, i)
                &&& self.up[j] != j
                &&& self.down[j] != j
                &&& 0 <= self.up[j] < self.nodes()
                &&& 0 <= self.down[j] < self.nodes()
                &&& self.col[self.up[j]] == c
                &&& self.col[self.down[j]] == c
                &&& (self.up[j] == c <==> i == 0)
                &&& self.size[c] == list.len()
            }),
    {
        let c = self.col[j];
        let list = self.live[c];
        let i = list.index_of(j);
        lemma_index_of_contained(list, j);
        assert(self.item_ok(j));
        assert(self.column_ok(c));
        assert(self.header_ok(c));
        lemma_ring_at(self.down, self.up, c, list, i);
        if i > 0 {
            assert(self.member_ok(c, i - 1));
        }
        if i + 1 < list.len() {
            assert(self.member_ok(c, i + 1));
        }
    }

    /// Hiding a live item leaves every column a cycle.
    pub proof fn lemma_hide_node_column(self, j: int, c2: int)
        requires
            self.wf(),
            self.is_item(j),
            self.is_live(j),
            self.is_column(c2),
        ensures
            self.hide_node(j).column_ok(c2),
    {
        let g = self.hide_node(j);
        let c = self.col[j];
        let list = self.live[c];
        let i = list.index_of(j);
        self.lemma_live_at(j);
        assert(self.column_ok(c2));
        assert(self.header_ok(c2));
        if c2 == c {
            assert forall|k: int| 0 <= k < list.len() implies 0 <= #[trigger] list[k] < self.down.len() by {
                assert(self.member_ok(c, k));
            }
            lemma_ring_remove(self.down, self.up, c, list, i);
            lemma_remove_contains(list, i, 0);
            assert(g.live[c] == list.remove(i));
            assert forall|k: int| 0 <= k < g.live[c].len() implies #[trigger] g.member_ok(c, k) by {
                let k2 = if k < i { k } else { k + 1 };
                assert(g.live[c][k] == list[k2]);
                assert(self.member_ok(c, k2));
            }
        } else {
            assert(g.live[c2] == self.live[c2]);
            assert forall|k: int| 0 <= k < self.live[c2].len() implies g.down[#[trigger] self.live[c2][k]]
                == self.down[self.live[c2][k]] && g.up[self.live[c2][k]] == self.up[self.live[c2][k]] by {
                assert(self.member_ok(c2, k));
            }
            lemma_ring_frame(self.down, self.up, g.down, g.up, c2, self.live[c2]);
            assert forall|k: int| 0 <= k < g.live[c2].len() implies #[trigger] g.member_ok(c2, k) by {
                assert(self.member_ok(c2, k));
            }
        }
    }

    /// Hiding a live item keeps the grid well-formed.
    pub proof fn lemma_hide_node_wf(self, j: int)
        requires
            self.wf(),
            self.is_item(j),
            self.is_live(j),
        ensures
            self.hide_node(j).wf(),
    {
        let g = self.hide_node(j);
        self.lemma_live_at(j);
        assert forall|c2: int| g.is_column(c2) implies #[trigger] g.column_ok(c2) by {
            self.lemma_hide_node_column(j, c2);
        }
        assert forall|c2: int| 0 <= c2 <= g.cols implies #[trigger] g.header_ok(c2) by {
            assert(self.header_ok(c2));
        }
        assert forall|k: int| g.is_item(k) implies #[trigger] g.item_ok(k) by {
            assert(self.item_ok(k));
        }
        assert forall|k: int, m: int| g.is_item(k) && #[trigger] g.in_row(k, m) implies g.row_ok(k, m) by {
            assert(self.in_row(k, m));
            assert(self.row_ok(k, m));
        }
    }

    /// Unhiding an item that was just hidden gives the grid back.
    pub proof fn lemma_hide_node_undo(self, j: int)
        requires
            self.wf(),
            self.is_item(j),
            self.is_live(j),
        ensures
            self.hide_node(j).unhide_node(j) == self,
    {
        let g = self.hide_node(j);
        let c = self.col[j];
        let list = self.live[c];
        let i = list.index_of(j);
        let u = self.up[j];
        let d = self.down[j];
        self.lemma_live_at(j);
        assert(self.column_ok(c));
        let back = g.unhide_node(j);
        assert(g.up[j] == u);
        assert(g.down[j] == d);
        assert(linked(self.down, self.up, c, list, i));
        if i > 0 {
            assert(linked(self.down, self.up, c, list, i - 1));
        }
        if i + 1 < list.len() {
            assert(linked(self.down, self.up, c, list, i + 1));
        }
        assert(self.down[u] == j);
        assert(self.up[d] == j);
        assert(back.down =~= self.down);
        assert(back.up =~= self.up);
        assert(back.size =~= self.size);
        lemma_remove_contains(list, i, 0);
        if u != c {
            assert(g.live[c][i - 1] == u);
            lemma_index_of(g.live[c], i - 1);
        }
        assert(list.remove(i).insert(i, j) =~= list);
        assert(back.live =~= self.live);
    }

    /// Hiding a live item takes just that item out of the live ones.
    pub proof fn lemma_hide_node_live(self, j: int)
        requires
            self.wf(),
            self.is_item(j),
            self.is_live(j),
        ensures
            self.hide_node(j).measure() == self.measure() - 1,
            forall|k: int|
                self.is_item(k) ==> (#[trigger] self.hide_node(j).is_live(k) <==> self.is_live(k) && k != j),
            forall|k: int|
                self.is_item(k) && (!self.is_live(k) || k == j) ==> self.hide_node(j).still(self, k),
    {
        let g = self.hide_node(j);
        let c = self.col[j];
        let list = self.live[c];
        let i = list.index_of(j);
        self.lemma_live_at(j);
        assert(self.column_ok(c));
        lemma_total_update(self.live, self.cols + 1, c, list.remove(i));
        lemma_remove_contains(list, i, 0);
        assert forall|k: int| self.is_item(k) implies (#[trigger] g.is_live(k) <==> self.is_live(k) && k != j) by {
            assert(self.item_ok(k));
            if self.col[k] == c {
                lemma_remove_contains(list, i, k);
            } else {
                assert(g.live[self.col[k]] == self.live[self.col[k]]);
            }
        }
        assert forall|k: int| self.is_item(k) && (!self.is_live(k) || k == j) implies g.still(self, k) by {
            let u = self.up[j];
            let d = self.down[j];
            if i > 0 {
                lemma_index_of(list, i - 1);
                assert(self.member_ok(c, i - 1));
            }
            if i + 1 < list.len() {
                lemma_index_of(list, i + 1);
                assert(self.member_ok(c, i + 1));
            }
            assert(self.header_ok(c));
        }
    }
}

} // verus!
