//! How a matrix is built: the grid without rows, and what adding an item to
//! its last row does.

use vstd::prelude::*;
use crate::dlx::grid::{Grid, ring, linked, distinct, total, succ, pred};
use crate::dlx::links::{lemma_total_update, lemma_total_nonneg, lemma_ring_frame};

verus! {

/// No list is longer than all of them together.
pub proof fn lemma_total_part(lists: Seq<Seq<int>>, n: int, c: int)
    requires
        0 <= c < n <= lists.len(),
    ensures
        lists[c].len() <= total(lists, n),
    decreases n,
{
    lemma_total_nonneg(lists, n - 1);
    if c < n - 1 {
        lemma_total_part(lists, n - 1, c);
    }
}

/// Empty lists have no length together.
pub proof fn lemma_total_empty(lists: Seq<Seq<int>>, n: int)
    requires
        0 <= n <= lists.len(),
        forall|c: int| 0 <= c < n ==> (#[trigger] lists[c]).len() == 0,
    ensures
        total(lists, n) == 0,
    decreases n,
{
    if n > 0 {
        lemma_total_empty(lists, n - 1);
    }
}

impl Grid {
    /// The grid of `cols` columns and no row, each column to be covered
    /// once.
    pub open spec fn blank(cols: int) -> Grid {
        Grid {
            cols,
            row_count: 0,
            rows: Seq::empty(),
            row: Seq::new((cols + 1) as nat, |i: int| 0int),
            col: Seq::new((cols + 1) as nat, |i: int| i),
            lo: Seq::new((cols + 1) as nat, |i: int| 0int),
            hi: Seq::new((cols + 1) as nat, |i: int| 0int),
            starts: seq![cols + 1],
            min: Seq::new(
                (cols + 1) as nat,
                |i: int|
                    if i == 0 {
                        0int
                    } else {
                        1int
                    },
            ),
            max: Seq::new(
                (cols + 1) as nat,
                |i: int|
                    if i == 0 {
                        0int
                    } else {
                        1int
                    },
            ),
            left: Seq::new(
                (cols + 1) as nat,
                |i: int|
                    if i == 0 {
                        cols
                    } else {
                        i - 1
                    },
            ),
            right: Seq::new(
                (cols + 1) as nat,
                |i: int|
                    if i == cols {
                        0
                    } else {
                        i + 1
                    },
            ),
            up: Seq::new((cols + 1) as nat, |i: int| i),
            down: Seq::new((cols + 1) as nat, |i: int| i),
            size: Seq::new((cols + 1) as nat, |i: int| 0int),
            weight: Seq::new((cols + 1) as nat, |i: int| 0int),
            sol: Seq::empty(),
            active: Seq::new(cols as nat, |i: int| i + 1),
            live: Seq::new((cols + 1) as nat, |i: int| Seq::<int>::empty()),
        }
    }

    /// The grid with one more row, which holds nothing yet.
    pub open spec fn open_row(self) -> Grid {
        Grid {
            row_count: self.row_count + 1,
            rows: self.rows.push(Seq::empty()),
            starts: self.starts.push(self.nodes()),
            ..self
        }
    }

    /// The grid with one more item, in column `c`, at the end of the last
    /// row and at the bottom of the column.
    pub open spec fn with_item(self, c: int) -> Grid {
        let n = self.nodes();
        let last = self.rows.len() - 1;
        let first = self.starts[last];
        let top = self.up[c];
        Grid {
            rows: self.rows.update(last, self.rows[last].push(c as usize)),
            row: self.row.push(last + 1),
            col: self.col.push(c),
            lo: self.lo.push(first),
            hi: Seq::new(
                (n + 1) as nat,
                |j: int|
                    if first <= j {
                        n + 1
                    } else {
                        self.hi[j]
                    },
            ),
            starts: self.starts.update(last + 1, n + 1),
            left: self.left.push(
                if first < n {
                    n - 1
                } else {
                    n
                },
            ).update(first, n),
            right: if first < n {
                self.right.push(first).update(n - 1, n)
            } else {
                self.right.push(first)
            },
            up: self.up.push(top).update(c, n),
            down: self.down.push(c).update(top, n),
            size: self.size.update(c, self.size[c] + 1),
            live: self.live.update(c, self.live[c].push(n)),
            ..self
        }
    }

    /// The grid with the items of `cs` added to the last row, first to
    /// last.
    pub open spec fn with_items(self, cs: Seq<usize>) -> Grid
        decreases cs.len(),
    {
        if cs.len() == 0 {
            self
        } else {
            self.with_items(cs.drop_last()).with_item(cs.last() as int)
        }
    }

    /// The grid with one more row, which holds the columns of `cs`.
    pub open spec fn with_row(self, cs: Seq<usize>) -> Grid {
        self.open_row().with_items(cs)
    }

    /// A row can take the columns of `cs`: each is a column, and none comes
    /// twice.
    pub open spec fn takes(self, cs: Seq<usize>) -> bool {
        &&& forall|i: int| 0 <= i < cs.len() ==> self.is_column(#[trigger] cs[i] as int)
        &&& forall|i: int, j: int| 0 <= i < j < cs.len() ==> #[trigger] cs[i] != #[trigger] cs[j]
    }

    /// The grid without rows is at rest.
    pub proof fn lemma_blank(cols: int)
        requires
            0 <= cols < usize::MAX,
        ensures
            Grid::blank(cols).ready(),
    {
        let g = Grid::blank(cols);
        assert(distinct(g.active)) by {
            reveal(distinct);
        }
        assert forall|i: int| 0 <= i < g.active.len() implies #[trigger] linked(g.right, g.left, 0, g.active, i) by {}
        assert(ring(g.right, g.left, 0, g.active));
        assert forall|c: int| g.is_column(c) implies #[trigger] g.column_ok(c) by {
            assert(distinct(g.live[c])) by {
                reveal(distinct);
            }
        }
        assert forall|c: int| 0 <= c <= g.cols implies #[trigger] g.header_ok(c) by {}
        lemma_total_empty(g.live, cols + 1);
        assert forall|c: int| g.is_column(c) implies #[trigger] g.sorted(c) by {}
        assert(g.wf());
    }

    /// An empty row changes nothing but the list of rows.
    pub proof fn lemma_open_row(self)
        requires
            self.ready(),
            self.row_count < usize::MAX,
        ensures
            self.open_row().ready(),
            self.open_row().rows.len() > 0,
            self.open_row().rows.last().len() == 0,
    {
        let g = self.open_row();
        assert forall|c2: int| 0 <= c2 <= g.cols implies #[trigger] g.header_ok(c2) by {
            assert(self.header_ok(c2));
        }
        assert forall|k: int| g.is_item(k) implies #[trigger] g.item_ok(k) by {
            assert(self.item_ok(k));
        }
        assert forall|k: int, m: int| g.is_item(k) && #[trigger] g.in_row(k, m) implies g.row_ok(k, m) by {
            assert(self.in_row(k, m));
            assert(self.row_ok(k, m));
        }
        assert forall|c2: int| g.is_column(c2) implies #[trigger] g.column_ok(c2) by {
            assert(self.column_ok(c2));
            assert forall|k: int| 0 <= k < g.live[c2].len() implies #[trigger] g.member_ok(c2, k) by {
                assert(self.member_ok(c2, k));
            }
        }
        assert(g.wf());
        assert forall|i: int| 0 <= i < g.rows.len() implies #[trigger] g.starts[i + 1] == g.starts[i]
            + g.rows[i].len() by {
            if i < self.rows.len() {
                assert(self.starts[i + 1] == self.starts[i] + self.rows[i].len());
            }
        }
        assert forall|j: int| g.is_item(j) implies #[trigger] g.lo[j] == g.starts[g.row[j] - 1] by {
            assert(self.item_ok(j));
            assert(self.lo[j] == self.starts[self.row[j] - 1]);
        }
        assert forall|c: int| g.is_column(c) implies #[trigger] g.min[c] <= g.max[c] by {
            assert(self.min[c] <= self.max[c]);
        }
        assert forall|j: int| g.is_item(j) implies #[trigger] g.is_live(j) by {
            assert(self.is_live(j));
        }
        assert forall|c: int| g.is_column(c) implies #[trigger] g.sorted(c) by {
            assert(self.sorted(c));
        }
    }

    /// Later rows start at later nodes.
    pub proof fn lemma_starts(self, a: int, b: int)
        requires
            self.laid_out(),
            0 <= a <= b <= self.rows.len(),
        ensures
            self.starts[a] <= self.starts[b],
        decreases b - a,
    {
        if a < b {
            self.lemma_starts(a, b - 1);
            assert(self.starts[(b - 1) + 1] == self.starts[b - 1] + self.rows[b - 1].len());
        }
    }

    /// The nodes behind the start of the last row are the items of that
    /// row.
    pub proof fn lemma_last_row(self, j: int)
        requires
            self.wf(),
            self.laid_out(),
            self.rows.len() > 0,
            self.is_item(j),
        ensures
            self.starts[self.rows.len() - 1] <= j <==> self.row[j] == self.rows.len(),
            self.row[j] == self.rows.len() ==> self.lo[j] == self.starts[self.rows.len() - 1] && self.hi[j]
                == self.nodes(),
            self.row[j] != self.rows.len() ==> self.hi[j] <= self.starts[self.rows.len() - 1],
            self.starts[self.rows.len() - 1] + self.rows.last().len() == self.nodes(),
            self.cols < self.starts[self.rows.len() - 1],
    {
        let last = self.rows.len() - 1;
        assert(self.item_ok(j));
        assert(self.lo[j] == self.starts[self.row[j] - 1]);
        assert(self.starts[last + 1] == self.starts[last] + self.rows[last].len());
        assert(self.starts[(self.row[j] - 1) + 1] == self.starts[self.row[j] - 1] + self.rows[self.row[j] - 1].len());
        if self.row[j] - 1 < last {
            self.lemma_starts(self.row[j], last);
        }
        self.lemma_starts(0, last);
    }

    /// What is known of a grid at rest whose last row can take one more
    /// item in column `c`.
    pub open spec fn extensible(self, c: int) -> bool {
        &&& self.ready()
        &&& self.rows.len() > 0
        &&& self.is_column(c)
        &&& forall|k: int| 0 <= k < self.rows.last().len() ==> #[trigger] self.rows.last()[k] != c
        &&& self.nodes() < usize::MAX
    }

    /// One more item leaves the rows cycles of consecutive nodes.
    pub proof fn lemma_with_item_rows(self, c: int)
        requires
            self.extensible(c),
        ensures
            self.with_item(c).sized(),
            self.with_item(c).laid_out(),
            forall|c2: int| 0 <= c2 <= self.cols ==> #[trigger] self.with_item(c).header_ok(c2),
            forall|j: int| self.with_item(c).is_item(j) ==> #[trigger] self.with_item(c).item_ok(j),
            forall|j: int, k: int|
                self.with_item(c).is_item(j) && #[trigger] self.with_item(c).in_row(j, k) ==> self.with_item(
                    c,
                ).row_ok(j, k),
    {
        let g = self.with_item(c);
        let n = self.nodes();
        let last = self.rows.len() - 1;
        let first = self.starts[last];
        assert(self.starts[last + 1] == self.starts[last] + self.rows[last].len());
        self.lemma_starts(0, last);
        assert(self.column_ok(c));
        assert(self.header_ok(c));
        lemma_total_part(self.live, self.cols + 1, c);
        if self.live[c].len() > 0 {
            assert(self.member_ok(c, self.live[c].len() - 1));
        }
        assert(0 <= self.up[c] < n);
        assert forall|c2: int| 0 <= c2 <= self.cols implies #[trigger] g.header_ok(c2) by {
            assert(self.header_ok(c2));
        }
        assert forall|j: int| g.is_item(j) implies #[trigger] g.item_ok(j) by {
            if j < n {
                self.lemma_last_row(j);
                assert(self.item_ok(j));
            }
        }
        assert forall|j: int, k: int| g.is_item(j) && #[trigger] g.in_row(j, k) implies g.row_ok(j, k) by {
            if j < n {
                self.lemma_last_row(j);
                assert(self.item_ok(j));
            }
            if j < first {
                assert(self.in_row(j, k));
                assert(self.row_ok(j, k));
            } else {
                if k < n {
                    self.lemma_last_row(k);
                    assert(self.item_ok(k));
                }
                if j < n && k < n {
                    assert(self.in_row(j, k));
                    assert(self.row_ok(j, k));
                } else if j < n {
                    assert(self.rows.last()[j - first] != c);
                } else if k < n {
                    assert(self.rows.last()[k - first] != c);
                }
            }
        }
        assert forall|i: int| 0 <= i < g.rows.len() implies #[trigger] g.starts[i + 1] == g.starts[i]
            + g.rows[i].len() by {
            assert(self.starts[i + 1] == self.starts[i] + self.rows[i].len());
        }
        assert forall|j: int| g.is_item(j) implies #[trigger] g.lo[j] == g.starts[g.row[j] - 1] by {
            if j < n {
                assert(self.item_ok(j));
                assert(self.lo[j] == self.starts[self.row[j] - 1]);
            }
        }
    }

    /// One more item leaves every column a cycle.
    pub proof fn lemma_with_item_column(self, c: int, c2: int)
        requires
            self.extensible(c),
            self.is_column(c2),
        ensures
            self.with_item(c).column_ok(c2),
            self.with_item(c).sorted(c2),
    {
        let g = self.with_item(c);
        let n = self.nodes();
        let list = self.live[c];
        let top = self.up[c];
        assert(self.column_ok(c));
        assert(self.column_ok(c2));
        assert(self.header_ok(c));
        assert(self.header_ok(c2));
        assert(self.sorted(c2));
        if list.len() > 0 {
            assert(self.member_ok(c, list.len() - 1));
        }
        assert(self.col[top] == c);
        assert(0 <= top < n);
        if c2 == c {
            let more = list.push(n);
            assert(g.live[c] == more);
            assert(distinct(more)) by {
                reveal(distinct);
                assert forall|i: int, j: int| 0 <= i < more.len() && 0 <= j < more.len() && i != j implies more[i]
                    != more[j] by {
                    if i < list.len() {
                        assert(self.member_ok(c, i));
                    }
                    if j < list.len() {
                        assert(self.member_ok(c, j));
                    }
                }
            }
            assert forall|i: int| 0 <= i < more.len() implies #[trigger] linked(g.down, g.up, c, more, i) by {
                if i < list.len() {
                    assert(linked(self.down, self.up, c, list, i));
                    assert(self.member_ok(c, i));
                    assert(more[i] == list[i]);
                    if i + 1 < list.len() {
                        assert(more[i + 1] == list[i + 1]);
                        crate::dlx::links::lemma_distinct(list, i, list.len() - 1);
                    }
                    if i > 0 {
                        assert(more[i - 1] == list[i - 1]);
                    }
                }
            }
            assert forall|i: int| 0 <= i < more.len() implies #[trigger] g.member_ok(c, i) by {
                if i < list.len() {
                    assert(self.member_ok(c, i));
                }
            }
            assert forall|i: int, j: int| 0 <= i < j < more.len() implies #[trigger] more[i] < #[trigger] more[j] by {
                assert(self.member_ok(c, i));
                if j < list.len() {
                    assert(list[i] < list[j]);
                }
            }
        } else {
            assert(g.live[c2] == self.live[c2]);
            assert forall|k: int| 0 <= k < self.live[c2].len() implies g.down[#[trigger] self.live[c2][k]]
                == self.down[self.live[c2][k]] && g.up[self.live[c2][k]] == self.up[self.live[c2][k]] by {
                assert(self.member_ok(c2, k));
            }
            lemma_ring_frame(self.down, self.up, g.down, g.up, c2, self.live[c2]);
            assert forall|k: int| 0 <= k < g.live[c2].len() implies #[trigger] g.member_ok(c2, k) by {
                assert(self.member_ok(c2, k));
            }
        }
    }

    /// One more item in the last row leaves the grid at rest.
    pub proof fn lemma_with_item(self, c: int)
        requires
            self.extensible(c),
        ensures
            self.with_item(c).ready(),
            self.with_item(c).nodes() == self.nodes() + 1,
            self.with_item(c).rows == self.rows.update(self.rows.len() - 1, self.rows.last().push(c as usize)),
            self.with_item(c).cols == self.cols,
            self.with_item(c).row_count == self.row_count,
            self.with_item(c).min == self.min,
            self.with_item(c).max == self.max,
    {
        let g = self.with_item(c);
        let n = self.nodes();
        let last = self.rows.len() - 1;
        let first = self.starts[last];
        self.lemma_with_item_rows(c);
        self.lemma_starts(0, last);
        assert(self.starts[last + 1] == self.starts[last] + self.rows[last].len());
        assert forall|c2: int| g.is_column(c2) implies #[trigger] g.column_ok(c2) by {
            self.lemma_with_item_column(c, c2);
        }
        assert forall|c2: int| g.is_column(c2) implies #[trigger] g.sorted(c2) by {
            self.lemma_with_item_column(c, c2);
        }
        assert(ring(g.right, g.left, 0, g.active)) by {
            assert forall|i: int| 0 <= i < g.active.len() implies g.right[#[trigger] g.active[i]]
                == self.right[g.active[i]] && g.left[g.active[i]] == self.left[g.active[i]] by {}
            lemma_ring_frame(self.right, self.left, g.right, g.left, 0, self.active);
        }
        assert(g.wf());
        assert forall|c2: int| g.is_column(c2) implies #[trigger] g.min[c2] <= g.max[c2] by {
            assert(self.min[c2] <= self.max[c2]);
        }
        assert forall|j: int| g.is_item(j) implies #[trigger] g.is_live(j) by {
            if j < n {
                assert(self.is_live(j));
                assert(self.item_ok(j));
                if self.col[j] == c {
                    let i = choose|i: int| 0 <= i < self.live[c].len() && self.live[c][i] == j;
                    assert(g.live[c][i] == j);
                }
            } else {
                assert(g.live[c][self.live[c].len() as int] == n);
            }
        }
        lemma_total_update(self.live, self.cols + 1, c, self.live[c].push(n));
    }

    /// The grid with the rows of `rs` added, first to last.
    pub open spec fn with_rows(self, rs: Seq<Seq<usize>>) -> Grid
        decreases rs.len(),
    {
        if rs.len() == 0 {
            self
        } else {
            self.with_rows(rs.drop_last()).with_row(rs.last())
        }
    }

    /// The state of a row that is being added, after `n` of its items.
    pub proof fn lemma_with_items_take(self, cs: Seq<usize>, n: int)
        requires
            self.ready(),
            self.rows.len() > 0,
            self.rows.last().len() == 0,
            self.takes(cs),
            self.nodes() + cs.len() <= usize::MAX,
            0 <= n <= cs.len(),
        ensures
            ({
                let mid = self.with_items(cs.take(n));
                &&& mid.ready()
                &&& mid.nodes() == self.nodes() + n
                &&& mid.rows == self.rows.update(self.rows.len() - 1, cs.take(n))
                &&& mid.cols == self.cols
                &&& mid.row_count == self.row_count
                &&& mid.min == self.min
                &&& mid.max == self.max
                &&& n < cs.len() ==> mid.extensible(cs[n] as int) && self.with_items(cs.take(n + 1)) == mid.with_item(
                    cs[n] as int,
                )
                &&& n == cs.len() ==> cs.take(n) == cs
            }),
        decreases n,
    {
        let last = self.rows.len() - 1;
        if n > 0 {
            self.lemma_with_items_take(cs, n - 1);
            let pre = self.with_items(cs.take(n - 1));
            assert(cs.take(n).drop_last() == cs.take(n - 1));
            assert(cs.take(n).last() == cs[n - 1]);
            pre.lemma_with_item(cs[n - 1] as int);
            assert(pre.rows.last().push(cs[n - 1]) =~= cs.take(n));
            assert(self.rows.update(last, cs.take(n - 1)).update(last, cs.take(n)) =~= self.rows.update(
                last,
                cs.take(n),
            ));
        } else {
            assert(cs.take(0) =~= Seq::<usize>::empty());
            assert(self.rows[last] =~= cs.take(0));
            assert(self.rows.update(last, cs.take(0)) =~= self.rows);
        }
        let mid = self.with_items(cs.take(n));
        if n < cs.len() {
            assert(cs.take(n + 1).drop_last() == cs.take(n));
            assert(cs.take(n + 1).last() == cs[n]);
            assert forall|k: int| 0 <= k < mid.rows.last().len() implies #[trigger] mid.rows.last()[k] != cs[n] as int by {
                assert(mid.rows.last()[k] == cs[k]);
            }
        } else {
            assert(cs.take(n) =~= cs);
        }
    }

    /// Adding a row to a grid at rest leaves it at rest, with that row
    /// behind the others.
    pub proof fn lemma_with_row(self, cs: Seq<usize>)
        requires
            self.ready(),
            self.takes(cs),
            self.row_count < usize::MAX,
            self.nodes() + cs.len() <= usize::MAX,
        ensures
            self.with_row(cs).ready(),
            self.with_row(cs).rows == self.rows.push(cs),
            self.with_row(cs).nodes() == self.nodes() + cs.len(),
            self.with_row(cs).cols == self.cols,
            self.with_row(cs).row_count == self.row_count + 1,
            self.with_row(cs).min == self.min,
            self.with_row(cs).max == self.max,
    {
        self.lemma_open_row();
        let g = self.open_row();
        g.lemma_with_items_take(cs, cs.len() as int);
        assert(g.rows.update(g.rows.len() - 1, cs) =~= self.rows.push(cs));
    }

    /// Another range for a column leaves a grid at rest at rest.
    pub proof fn lemma_set_range(self, c: int, min: int, max: int)
        requires
            self.ready(),
            self.is_column(c),
            0 <= min <= max <= usize::MAX,
        ensures
            (Grid { min: self.min.update(c, min), max: self.max.update(c, max), ..self }).ready(),
    {
        let g = Grid { min: self.min.update(c, min), max: self.max.update(c, max), ..self };
        assert forall|c2: int| 0 <= c2 <= g.cols implies #[trigger] g.header_ok(c2) by {
            assert(self.header_ok(c2));
        }
        assert forall|k: int| g.is_item(k) implies #[trigger] g.item_ok(k) by {
            assert(self.item_ok(k));
        }
        assert forall|k: int, m: int| g.is_item(k) && #[trigger] g.in_row(k, m) implies g.row_ok(k, m) by {
            assert(self.in_row(k, m));
            assert(self.row_ok(k, m));
        }
        assert forall|c2: int| g.is_column(c2) implies #[trigger] g.column_ok(c2) by {
            assert(self.column_ok(c2));
            assert forall|k: int| 0 <= k < g.live[c2].len() implies #[trigger] g.member_ok(c2, k) by {
                assert(self.member_ok(c2, k));
            }
        }
        assert forall|j: int| g.is_item(j) implies #[trigger] g.lo[j] == g.starts[g.row[j] - 1] by {
            assert(self.lo[j] == self.starts[self.row[j] - 1]);
        }
        assert forall|i: int| 0 <= i < g.rows.len() implies #[trigger] g.starts[i + 1] == g.starts[i]
            + g.rows[i].len() by {
            assert(self.starts[i + 1] == self.starts[i] + self.rows[i].len());
        }
        assert forall|c2: int| g.is_column(c2) implies #[trigger] g.min[c2] <= g.max[c2] by {
            assert(self.min[c2] <= self.max[c2]);
        }
        assert forall|j: int| g.is_item(j) implies #[trigger] g.is_live(j) by {
            assert(self.is_live(j));
        }
        assert forall|c2: int| g.is_column(c2) implies #[trigger] g.sorted(c2) by {
            assert(self.sorted(c2));
        }
    }
}

} // verus!
