//! The mathematical model of the matrix: every link of every node, the
//! bookkeeping of each column, and the lists that the links thread.

use vstd::prelude::*;

verus! {

/// `list[i + 1]`, or `head` after the last element.
pub open spec fn succ(list: Seq<int>, head: int, i: int) -> int {
    if 0 <= i + 1 < list.len() {
        list[i + 1]
    } else {
        head
    }
}

/// `list[i - 1]`, or `head` before the first element.
pub open spec fn pred(list: Seq<int>, head: int, i: int) -> int {
    if 0 < i <= list.len() {
        list[i - 1]
    } else {
        head
    }
}

/// The list holds no value twice.
#[verifier::opaque]
pub open spec fn distinct(list: Seq<int>) -> bool {
    list.no_duplicates()
}

/// The element at `i` is linked to its neighbours in the list.
pub open spec fn linked(next: Seq<int>, prev: Seq<int>, head: int, list: Seq<int>, i: int) -> bool {
    &&& list[i] != head
    &&& next[list[i]] == succ(list, head, i)
    &&& prev[list[i]] == pred(list, head, i)
}

/// `next` and `prev` thread `head` and the elements of `list`, in order, into
/// one cycle.
pub open spec fn ring(next: Seq<int>, prev: Seq<int>, head: int, list: Seq<int>) -> bool {
    &&& distinct(list)
    &&& next[head] == succ(list, head, -1)
    &&& prev[head] == pred(list, head, list.len() as int)
    &&& forall|i: int| 0 <= i < list.len() ==> #[trigger] linked(next, prev, head, list, i)
}

/// Where the least of the first `n` elements stands, the first time.
pub open spec fn first_least(s: Seq<int>, n: int) -> int
    decreases n,
{
    if n <= 1 {
        0
    } else {
        let p = first_least(s, n - 1);
        if s[n - 1] < s[p] {
            n - 1
        } else {
            p
        }
    }
}

/// Sum of the lengths of the first `n` lists.
pub open spec fn total(lists: Seq<Seq<int>>, n: int) -> int
    decreases n,
{
    if n <= 0 {
        0
    } else {
        total(lists, n - 1) + lists[n - 1].len()
    }
}

/// How many of the rows chosen in `sol` hold column `c`. Rows are numbered
/// from 1.
pub open spec fn tally(rows: Seq<Seq<usize>>, sol: Seq<usize>, c: int) -> int
    decreases sol.len(),
{
    if sol.len() == 0 {
        0
    } else {
        tally(rows, sol.drop_last(), c) + if holds(rows, sol.last() as int, c) {
            1int
        } else {
            0int
        }
    }
}

/// Row number `r` holds column `c`.
pub open spec fn holds(rows: Seq<Seq<usize>>, r: int, c: int) -> bool {
    1 <= r <= rows.len() && exists|k: int| 0 <= k < rows[r - 1].len() && #[trigger] rows[r - 1][k] == c
}

/// The state of a matrix.
///
/// Node 0 is the root, nodes `1..=cols` are the column headers, the others
/// are the items of the rows, row after row. `active` lists the columns that
/// the root's horizontal cycle holds, and `live[c]` the items that the
/// vertical cycle of column `c` holds, top to bottom.
#[verifier::ext_equal]
pub struct Grid {
    /// Number of columns.
    pub cols: int,
    /// Number of rows.
    pub row_count: int,
    /// The rows as they were added: the column numbers of each.
    pub rows: Seq<Seq<usize>>,
    /// Row number of each node, 0 for a header.
    pub row: Seq<int>,
    /// Column of each node.
    pub col: Seq<int>,
    /// First node of the row of each item.
    pub lo: Seq<int>,
    /// One past the last node of the row of each item.
    pub hi: Seq<int>,
    /// First node of each row, and at the end the number of nodes.
    pub starts: Seq<int>,
    /// Least multiplicity of each column.
    pub min: Seq<int>,
    /// Greatest multiplicity of each column.
    pub max: Seq<int>,
    pub left: Seq<int>,
    pub right: Seq<int>,
    pub up: Seq<int>,
    pub down: Seq<int>,
    /// Number of live items of each column.
    pub size: Seq<int>,
    /// Number of chosen rows that hold each column.
    pub weight: Seq<int>,
    /// Numbers of the rows chosen so far.
    pub sol: Seq<usize>,
    pub active: Seq<int>,
    pub live: Seq<Seq<int>>,
}

impl Grid {
    /// Number of nodes: the root, the headers and the items.
    pub open spec fn nodes(self) -> int {
        self.row.len() as int
    }

    /// `c` is the header of a column.
    pub open spec fn is_column(self, c: int) -> bool {
        1 <= c <= self.cols
    }

    /// `j` is an item of a row.
    pub open spec fn is_item(self, j: int) -> bool {
        self.cols < j < self.nodes()
    }

    /// Node `k` lies in the row of item `j`.
    pub open spec fn in_row(self, j: int, k: int) -> bool {
        self.lo[j] <= k < self.hi[j]
    }

    /// Item `j` is linked into the vertical cycle of its column.
    pub open spec fn is_live(self, j: int) -> bool {
        self.live[self.col[j]].contains(j)
    }

    /// Column `c` is linked into the root's horizontal cycle.
    pub open spec fn is_active(self, c: int) -> bool {
        self.active.contains(c)
    }

    /// Every list has a place for each node or for each column.
    pub open spec fn sized(self) -> bool {
        &&& 0 <= self.cols < self.nodes() <= usize::MAX
        &&& self.col.len() == self.nodes()
        &&& self.lo.len() == self.nodes()
        &&& self.hi.len() == self.nodes()
        &&& self.left.len() == self.nodes()
        &&& self.right.len() == self.nodes()
        &&& self.up.len() == self.nodes()
        &&& self.down.len() == self.nodes()
        &&& self.min.len() == self.cols + 1
        &&& self.max.len() == self.cols + 1
        &&& self.size.len() == self.cols + 1
        &&& self.weight.len() == self.cols + 1
        &&& self.live.len() == self.cols + 1
        &&& self.rows.len() == self.row_count
        &&& self.row_count <= usize::MAX
    }

    /// Header `c` stands in no row and in its own column, and its
    /// bookkeeping fits the machine.
    pub open spec fn header_ok(self, c: int) -> bool {
        &&& self.row[c] == 0
        &&& self.col[c] == c
        &&& 0 <= self.min[c] <= usize::MAX
        &&& 0 <= self.max[c] <= usize::MAX
        &&& 0 <= self.weight[c] <= usize::MAX
        &&& 0 <= self.size[c] <= usize::MAX
    }

    /// Item `j` stands in a column and in a row, whose nodes are consecutive
    /// and linked into a cycle, left to right.
    pub open spec fn item_ok(self, j: int) -> bool {
        &&& 1 <= self.col[j] <= self.cols
        &&& 1 <= self.row[j] <= self.rows.len()
        &&& self.cols < self.lo[j] <= j < self.hi[j] <= self.nodes()
        &&& self.rows[self.row[j] - 1].len() == self.hi[j] - self.lo[j]
        &&& self.rows[self.row[j] - 1][j - self.lo[j]] == self.col[j]
        &&& self.right[j] == if j + 1 < self.hi[j] {
            j + 1
        } else {
            self.lo[j]
        }
        &&& self.left[j] == if j > self.lo[j] {
            j - 1
        } else {
            self.hi[j] - 1
        }
    }

    /// What item `j` knows of a node `k` of its row.
    pub open spec fn row_ok(self, j: int, k: int) -> bool {
        &&& self.lo[k] == self.lo[j]
        &&& self.hi[k] == self.hi[j]
        &&& self.row[k] == self.row[j]
        &&& k != j ==> self.col[k] != self.col[j]
    }

    /// The element at `i` of the live list of column `c` is an item of that
    /// column.
    pub open spec fn member_ok(self, c: int, i: int) -> bool {
        &&& self.is_item(self.live[c][i])
        &&& self.col[self.live[c][i]] == c
    }

    /// The vertical cycle of column `c` is its header and its live items,
    /// as many as its size says.
    pub open spec fn column_ok(self, c: int) -> bool {
        &&& ring(self.down, self.up, c, self.live[c])
        &&& self.size[c] == self.live[c].len()
        &&& forall|i: int| 0 <= i < self.live[c].len() ==> #[trigger] self.member_ok(c, i)
    }

    /// The links are sound: rows are cycles of consecutive nodes, each
    /// column's vertical cycle is its header and its live items, and the
    /// root's horizontal cycle is the root and the active columns.
    pub open spec fn wf(self) -> bool {
        &&& self.sized()
        &&& forall|c: int| 0 <= c <= self.cols ==> #[trigger] self.header_ok(c)
        &&& forall|j: int| self.is_item(j) ==> #[trigger] self.item_ok(j)
        &&& forall|j: int, k: int| self.is_item(j) && #[trigger] self.in_row(j, k) ==> self.row_ok(j, k)
        &&& forall|c: int| self.is_column(c) ==> #[trigger] self.column_ok(c)
        &&& ring(self.right, self.left, 0, self.active)
        &&& forall|i: int| 0 <= i < self.active.len() ==> self.is_column(#[trigger] self.active[i])
    }

    /// Every node of the row of `j` is live and stands in an active column.
    pub open spec fn intact(self, j: int) -> bool {
        forall|k: int| #[trigger] self.in_row(j, k) ==> self.is_live(k) && self.is_active(self.col[k])
    }

    /// An item that is live in an active column belongs to an intact row.
    pub open spec fn coherent(self) -> bool {
        forall|j: int|
            self.is_item(j) && #[trigger] self.is_live(j) && self.is_active(self.col[j]) ==> self.intact(j)
    }

    /// Node `k` has in `self` the vertical links that it has in `other`.
    pub open spec fn still(self, other: Grid, k: int) -> bool {
        self.up[k] == other.up[k] && self.down[k] == other.down[k]
    }

    /// `other` differs from `self` at most in the horizontal links and the
    /// list of active columns.
    pub open spec fn same_but_horizontal(self, other: Grid) -> bool {
        other == (Grid { left: other.left, right: other.right, active: other.active, ..self })
    }

    /// `other` differs from `self` at most in the links, the sizes, the
    /// weights and the lists.
    pub open spec fn same_frame(self, other: Grid) -> bool {
        other == (Grid {
            left: other.left,
            right: other.right,
            up: other.up,
            down: other.down,
            size: other.size,
            weight: other.weight,
            active: other.active,
            live: other.live,
            ..self
        })
    }

    /// `other` differs from `self` at most in the vertical links, the sizes
    /// and the live lists.
    pub open spec fn same_but_vertical(self, other: Grid) -> bool {
        other == (Grid { up: other.up, down: other.down, size: other.size, live: other.live, ..self })
    }

    /// The items of `js` are live, and none comes twice.
    pub open spec fn hideable(self, js: Seq<int>) -> bool {
        &&& distinct(js)
        &&& forall|i: int| 0 <= i < js.len() ==> self.is_item(#[trigger] js[i]) && self.is_live(js[i])
    }

    /// Every other item of the row of `r` is live.
    pub open spec fn mates_live(self, r: int) -> bool {
        forall|k: int| #[trigger] self.in_row(r, k) && k != r ==> self.is_live(k)
    }

    /// Node `k` lies in the row of one of `rs`, and is not that one.
    pub open spec fn beside(self, rs: Seq<int>, k: int) -> bool {
        exists|i: int| 0 <= i < rs.len() && #[trigger] self.in_row(rs[i], k) && k != rs[i]
    }

    /// The items of `rs` lie in rows of their own, one each.
    pub open spec fn apart(self, rs: Seq<int>) -> bool {
        &&& forall|i: int| 0 <= i < rs.len() ==> self.is_item(#[trigger] rs[i])
        &&& forall|i: int, j: int| 0 <= i < j < rs.len() ==> self.lo[#[trigger] rs[i]] != self.lo[#[trigger] rs[j]]
    }

    /// The items of `js` stand in active columns, no two in one column, and
    /// each column has room for one more.
    pub open spec fn selectable(self, js: Seq<int>) -> bool {
        &&& forall|i: int|
            0 <= i < js.len() ==> {
                &&& self.is_item(#[trigger] js[i])
                &&& self.is_active(self.col[js[i]])
                &&& self.weight[self.col[js[i]]] < usize::MAX
            }
        &&& forall|i: int, j: int| 0 <= i < j < js.len() ==> self.col[#[trigger] js[i]] != self.col[#[trigger] js[j]]
    }

    /// One of `js` stands in column `c`.
    pub open spec fn touches(self, js: Seq<int>, c: int) -> bool {
        exists|i: int| 0 <= i < js.len() && self.col[#[trigger] js[i]] == c
    }

    /// The row of item `j` has no item in column `c`.
    pub open spec fn misses(self, j: int, c: int) -> bool {
        forall|k: int| #[trigger] self.in_row(j, k) ==> self.col[k] != c
    }

    /// The row of item `j` has no item in a column that one of `js` stands
    /// in and fills.
    pub open spec fn clear_of(self, j: int, js: Seq<int>) -> bool {
        forall|k: int|
            #[trigger] self.in_row(j, k) ==> !(self.touches(js, self.col[k]) && self.weight[self.col[k]] + 1
                == self.max[self.col[k]])
    }

    /// Node `x` lies in the row of one of the first `n` of `rs`.
    pub open spec fn among(self, rs: Seq<int>, n: int, x: int) -> bool {
        exists|i: int| 0 <= i < n && #[trigger] self.in_row(rs[i], x)
    }

    /// The same grid with other weights.
    pub open spec fn with_weight(self, weight: Seq<int>) -> Grid {
        Grid { weight, ..self }
    }

    /// The other items of the row of `j`, rightwards from `j`.
    pub open spec fn mates(self, j: int) -> Seq<int> {
        Seq::new(
            (self.hi[j] - self.lo[j] - 1) as nat,
            |k: int|
                if j + 1 + k < self.hi[j] {
                    j + 1 + k
                } else {
                    j + 1 + k - (self.hi[j] - self.lo[j])
                },
        )
    }

    /// The sizes of the active columns, in their order.
    pub open spec fn active_sizes(self) -> Seq<int> {
        Seq::new(self.active.len(), |i: int| self.size[self.active[i]])
    }

    /// The active column with the fewest live items, the first of them.
    pub open spec fn best_col(self) -> int {
        self.active[first_least(self.active_sizes(), self.active.len() as int)]
    }

    /// Number of active columns plus number of live items.
    pub open spec fn measure(self) -> int {
        self.active.len() + total(self.live, self.cols + 1)
    }

    // ---- a single item ----

    /// Unlinks item `j` from the vertical cycle of its column.
    pub open spec fn hide_node(self, j: int) -> Grid {
        let c = self.col[j];
        Grid {
            down: self.down.update(self.up[j], self.down[j]),
            up: self.up.update(self.down[j], self.up[j]),
            size: self.size.update(c, self.size[c] - 1),
            live: self.live.update(c, self.live[c].remove(self.live[c].index_of(j))),
            ..self
        }
    }

    /// Links item `j` back between the neighbours it remembers.
    pub open spec fn unhide_node(self, j: int) -> Grid {
        let c = self.col[j];
        let at = if self.up[j] == c {
            0
        } else {
            self.live[c].index_of(self.up[j]) + 1
        };
        Grid {
            down: self.down.update(self.up[j], j),
            up: self.up.update(self.down[j], j),
            size: self.size.update(c, self.size[c] + 1),
            live: self.live.update(c, self.live[c].insert(at, j)),
            ..self
        }
    }

    /// Hides the items of `js`, first to last.
    pub open spec fn hide_nodes(self, js: Seq<int>) -> Grid
        decreases js.len(),
    {
        if js.len() == 0 {
            self
        } else {
            self.hide_nodes(js.drop_last()).hide_node(js.last())
        }
    }

    /// Unhides the items of `js`, last to first.
    pub open spec fn unhide_nodes(self, js: Seq<int>) -> Grid
        decreases js.len(),
    {
        if js.len() == 0 {
            self
        } else {
            self.unhide_node(js.last()).unhide_nodes(js.drop_last())
        }
    }

    // ---- a row ----

    /// Hides the row of `r` from every column but that of `r`.
    pub open spec fn hide_row(self, r: int) -> Grid {
        self.hide_nodes(self.mates(r))
    }

    /// Unhides the row of `r` in every column but that of `r`.
    pub open spec fn unhide_row(self, r: int) -> Grid {
        self.unhide_nodes(self.mates(r))
    }

    /// Hides the rows of `rs`, first to last.
    pub open spec fn hide_rows(self, rs: Seq<int>) -> Grid
        decreases rs.len(),
    {
        if rs.len() == 0 {
            self
        } else {
            self.hide_rows(rs.drop_last()).hide_row(rs.last())
        }
    }

    /// Unhides the rows of `rs`, last to first.
    pub open spec fn unhide_rows(self, rs: Seq<int>) -> Grid
        decreases rs.len(),
    {
        if rs.len() == 0 {
            self
        } else {
            self.unhide_row(rs.last()).unhide_rows(rs.drop_last())
        }
    }

    /// Hides the row of `r` from every column, its own too.
    pub open spec fn tweak(self, r: int) -> Grid {
        self.hide_row(r).hide_node(r)
    }

    /// Unhides the row of `r` in every column, its own too.
    pub open spec fn untweak(self, r: int) -> Grid {
        self.unhide_node(r).unhide_row(r)
    }

    /// Tweaks the rows of `rs`, first to last.
    pub open spec fn tweak_rows(self, rs: Seq<int>) -> Grid
        decreases rs.len(),
    {
        if rs.len() == 0 {
            self
        } else {
            self.tweak_rows(rs.drop_last()).tweak(rs.last())
        }
    }

    /// Untweaks the rows of `rs`, last to first.
    pub open spec fn untweak_rows(self, rs: Seq<int>) -> Grid
        decreases rs.len(),
    {
        if rs.len() == 0 {
            self
        } else {
            self.untweak(rs.last()).untweak_rows(rs.drop_last())
        }
    }

    // ---- a column ----

    /// Takes column `c` out of the root's horizontal cycle.
    pub open spec fn unlink(self, c: int) -> Grid {
        Grid {
            right: self.right.update(self.left[c], self.right[c]),
            left: self.left.update(self.right[c], self.left[c]),
            active: self.active.remove(self.active.index_of(c)),
            ..self
        }
    }

    /// Puts column `c` back between the neighbours it remembers.
    pub open spec fn relink(self, c: int) -> Grid {
        let at = if self.left[c] == 0 {
            0
        } else {
            self.active.index_of(self.left[c]) + 1
        };
        Grid {
            right: self.right.update(self.left[c], c),
            left: self.left.update(self.right[c], c),
            active: self.active.insert(at, c),
            ..self
        }
    }

    /// Takes column `c` out of play: unlinks it, then hides every row that
    /// crosses it.
    pub open spec fn cover(self, c: int) -> Grid {
        self.unlink(c).hide_rows(self.live[c])
    }

    /// Brings column `c` back into play: unhides the rows that cross it,
    /// bottom to top, then relinks it.
    pub open spec fn uncover(self, c: int) -> Grid {
        self.unhide_rows(self.live[c]).relink(c)
    }

    // ---- choosing ----

    /// Counts one more row for column `c`.
    pub open spec fn bump(self, c: int) -> Grid {
        Grid { weight: self.weight.update(c, self.weight[c] + 1), ..self }
    }

    /// Counts one row less for column `c`.
    pub open spec fn unbump(self, c: int) -> Grid {
        Grid { weight: self.weight.update(c, self.weight[c] - 1), ..self }
    }

    /// Column `c` is covered as often as it may be.
    pub open spec fn full(self, c: int) -> bool {
        self.weight[c] == self.max[c]
    }

    /// Column `c` is covered a number of times within its range.
    pub open spec fn fulfilled(self, c: int) -> bool {
        self.min[c] <= self.weight[c] <= self.max[c]
    }

    /// Column `c` is not covered too often, and its live rows are enough to
    /// cover it often enough.
    pub open spec fn fulfillable(self, c: int) -> bool {
        self.weight[c] <= self.max[c] && self.weight[c] + self.size[c] >= self.min[c]
    }

    /// Counts item `j` for its column, and covers the column if that fills
    /// it.
    pub open spec fn select_node(self, j: int) -> Grid {
        let c = self.col[j];
        if self.bump(c).full(c) {
            self.bump(c).cover(c)
        } else {
            self.bump(c)
        }
    }

    /// Takes back the count of item `j` for its column, after uncovering the
    /// column if the count had filled it.
    pub open spec fn unselect_node(self, j: int) -> Grid {
        let c = self.col[j];
        if self.full(c) {
            self.uncover(c).unbump(c)
        } else {
            self.unbump(c)
        }
    }

    /// Selects the items of `js`, first to last.
    pub open spec fn select_nodes(self, js: Seq<int>) -> Grid
        decreases js.len(),
    {
        if js.len() == 0 {
            self
        } else {
            self.select_nodes(js.drop_last()).select_node(js.last())
        }
    }

    /// Unselects the items of `js`, last to first.
    pub open spec fn unselect_nodes(self, js: Seq<int>) -> Grid
        decreases js.len(),
    {
        if js.len() == 0 {
            self
        } else {
            self.unselect_node(js.last()).unselect_nodes(js.drop_last())
        }
    }

    /// Selects every item of the row of `r` but `r` itself.
    pub open spec fn select_row(self, r: int) -> Grid {
        self.select_nodes(self.mates(r))
    }

    /// Unselects every item of the row of `r` but `r` itself.
    pub open spec fn unselect_row(self, r: int) -> Grid {
        self.unselect_nodes(self.mates(r))
    }

    /// Adds row number `r` to the chosen rows.
    pub open spec fn push_sol(self, r: usize) -> Grid {
        Grid { sol: self.sol.push(r), ..self }
    }

    // ---- the search ----

    /// No column asks for more than it allows.
    pub open spec fn ranged(self) -> bool {
        forall|c: int| self.is_column(c) ==> #[trigger] self.min[c] <= self.max[c]
    }

    /// Each weight counts the chosen rows that hold the column.
    pub open spec fn tallied(self) -> bool {
        forall|c: int| self.is_column(c) ==> #[trigger] self.weight[c] == tally(self.rows, self.sol, c)
    }

    /// Every column that is out of play has a weight within its range.
    pub open spec fn settled(self) -> bool {
        forall|c: int| self.is_column(c) && !(#[trigger] self.is_active(c)) ==> self.fulfilled(c)
    }

    /// The numbers in `sol` are numbers of rows.
    pub open spec fn row_numbers(self, sol: Seq<usize>) -> bool {
        forall|i: int| 0 <= i < sol.len() ==> 1 <= #[trigger] sol[i] <= self.rows.len()
    }

    /// The rows of `sol` cover every column a number of times within its
    /// range.
    pub open spec fn is_cover(self, sol: Seq<usize>) -> bool {
        &&& self.row_numbers(sol)
        &&& forall|c: int|
            self.is_column(c) ==> self.min[c] <= #[trigger] tally(self.rows, sol, c) <= self.max[c]
    }

    /// What holds of the grid between two steps of the search.
    pub open spec fn searching(self) -> bool {
        &&& self.wf()
        &&& self.coherent()
        &&& self.ranged()
        &&& self.tallied()
        &&& self.settled()
        &&& self.row_numbers(self.sol)
        &&& self.sol.len() + self.measure() <= self.nodes()
    }

    /// The rows stand one after the other behind the headers, each with a
    /// node for each of its columns.
    pub open spec fn laid_out(self) -> bool {
        &&& self.starts.len() == self.rows.len() + 1
        &&& self.starts[0] == self.cols + 1
        &&& self.starts[self.rows.len() as int] == self.nodes()
        &&& forall|i: int|
            0 <= i < self.rows.len() ==> #[trigger] self.starts[i + 1] == self.starts[i] + self.rows[i].len()
        &&& forall|j: int| self.is_item(j) ==> #[trigger] self.lo[j] == self.starts[self.row[j] - 1]
    }

    /// The live items of column `c` stand in the order of their rows.
    pub open spec fn sorted(self, c: int) -> bool {
        forall|i: int, j: int|
            0 <= i < j < self.live[c].len() ==> #[trigger] self.live[c][i] < #[trigger] self.live[c][j]
    }

    /// At rest: no row is chosen, every column is active and every item
    /// live, each in the order in which it was added.
    pub open spec fn ready(self) -> bool {
        &&& self.wf()
        &&& self.laid_out()
        &&& self.ranged()
        &&& self.sol.len() == 0
        &&& forall|c: int| 0 <= c <= self.cols ==> #[trigger] self.weight[c] == 0
        &&& self.active == Seq::new(self.cols as nat, |i: int| i + 1)
        &&& forall|j: int| self.is_item(j) ==> #[trigger] self.is_live(j)
        &&& forall|c: int| self.is_column(c) ==> #[trigger] self.sorted(c)
        &&& self.live[0].len() == 0
        &&& self.measure() == self.nodes() - 1
    }

    /// One more row holding column `c` would fill the column.
    pub open spec fn fills(self, c: int) -> bool {
        self.weight[c] + 1 == self.max[c]
    }

    /// The grid after the search has committed to column `c` and is done
    /// with the first `k` of its rows: the column counts one more, and is
    /// covered if that fills it; if not, those `k` rows are tweaked.
    pub open spec fn stage(self, c: int, k: int) -> Grid {
        if self.fills(c) {
            self.bump(c).cover(c)
        } else {
            self.bump(c).tweak_rows(self.live[c].take(k))
        }
    }

    /// The grid in which the search goes on after it has chosen row `k` of
    /// column `c`.
    pub open spec fn trial(self, c: int, k: int) -> Grid {
        let r = self.live[c][k];
        let base = if self.fills(c) {
            self.stage(c, k)
        } else {
            self.stage(c, k + 1)
        };
        base.select_row(r).push_sol(self.row[r] as usize)
    }

    /// The grid in which the search goes on after it has chosen to take no
    /// row of column `c`.
    pub open spec fn skip(self, c: int) -> Grid {
        if self.fills(c) {
            self.cover(c)
        } else {
            self.tweak_rows(self.live[c]).unlink(c)
        }
    }
}

} // verus!
