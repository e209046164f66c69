//! The matrix of Algorithm M: dancing links with a multiplicity range for
//! each column.

use vstd::prelude::*;
use crate::dlx::grid::{Grid, succ, pred, linked, first_least};
use crate::dlx::links::{lemma_distinct, lemma_total_nonneg};
use crate::dlx::search::{Call, sent, asked, stopped_at, lemma_sent_within, lemma_sent_asked, lemma_finish_quiet};
use crate::dlx::callback::Callback;
use crate::dlx::stack::{
    Frame, Level, Task, steady, poised, stacked, bound, linked_up, entry, rest, fuel, advanced, resumed, lemma_rest_push,
    lemma_rest_ticks, lemma_fuel, lemma_advance, lemma_resume, lemma_undo,
};

verus! {

/// A node of the matrix: a header or an item of a row.
#[derive(Clone, Copy)]
pub struct Node {
    row: usize,
    col: usize,
    left: usize,
    right: usize,
    up: usize,
    down: usize,
}

/// What the links are meant to thread, kept for the proofs.
pub struct Shape {
    pub rows: Seq<Seq<usize>>,
    pub lo: Seq<int>,
    pub hi: Seq<int>,
    pub starts: Seq<int>,
    pub active: Seq<int>,
    pub live: Seq<Seq<int>>,
}

/// A sparse matrix for exact cover with multiplicities.
///
/// Node 0 is the root, nodes `1..=col_cnt` are the column headers, and each
/// row adds one node for each of its columns.
pub struct Matrix {
    row_cnt: usize,
    col_cnt: usize,
    pool: Vec<Node>,
    col_size: Vec<usize>,
    min: Vec<usize>,
    max: Vec<usize>,
    weight: Vec<usize>,
    partial_sol: Vec<usize>,
    abort_requested: bool,
    shape: Ghost<Shape>,
}

/// The numbers of a list as integers.
pub open spec fn ints(s: Seq<usize>) -> Seq<int> {
    Seq::new(s.len(), |i: int| s[i] as int)
}

impl View for Matrix {
    type V = Grid;

    closed spec fn view(&self) -> Grid {
        Grid {
            cols: self.col_cnt as int,
            row_count: self.row_cnt as int,
            rows: self.shape@.rows,
            row: Seq::new(self.pool@.len(), |i: int| self.pool@[i].row as int),
            col: Seq::new(self.pool@.len(), |i: int| self.pool@[i].col as int),
            lo: self.shape@.lo,
            hi: self.shape@.hi,
            starts: self.shape@.starts,
            min: ints(self.min@),
            max: ints(self.max@),
            left: Seq::new(self.pool@.len(), |i: int| self.pool@[i].left as int),
            right: Seq::new(self.pool@.len(), |i: int| self.pool@[i].right as int),
            up: Seq::new(self.pool@.len(), |i: int| self.pool@[i].up as int),
            down: Seq::new(self.pool@.len(), |i: int| self.pool@[i].down as int),
            size: ints(self.col_size@),
            weight: ints(self.weight@),
            sol: self.partial_sol@,
            active: self.shape@.active,
            live: self.shape@.live,
        }
    }
}

impl Default for Matrix {
    /// The matrix without columns and rows.
    fn default() -> (mat: Matrix)
        ensures
            mat.ready(),
            mat@ == Grid::blank(0),
            !mat.aborted(),
    {
        Matrix::new(0)
    }
}

/// Sum of the lengths of the first `n` rows.
pub open spec fn span(rows: Seq<Seq<usize>>, n: int) -> int
    decreases n,
{
    if n <= 0 {
        0
    } else {
        span(rows, n - 1) + rows[n - 1].len()
    }
}

/// The rows of a slice of slices.
pub open spec fn rows_of(rows: Seq<&[usize]>) -> Seq<Seq<usize>> {
    Seq::new(rows.len(), |i: int| rows[i]@)
}

// Methods for initializing Matrix
impl Matrix {
    /// The matrix of `col_cnt` columns and no row, each column to be
    /// covered once.
    pub fn new(col_cnt: usize) -> (mat: Matrix)
        requires
            col_cnt < usize::MAX,
        ensures
            mat.ready(),
            mat@ == Grid::blank(col_cnt as int),
            !mat.aborted(),
    {
        // Set multiplicity to [1, 1] by default
        let mut col_mul_default: Vec<usize> = Vec::new();
        let mut zeros: Vec<usize> = Vec::new();
        col_mul_default.push(0);
        zeros.push(0);
        let mut i: usize = 0;
        while i < col_cnt
            invariant
                i <= col_cnt < usize::MAX,
                col_mul_default@.len() == i + 1,
                zeros@.len() == i + 1,
                col_mul_default@[0] == 0,
                forall|k: int| 1 <= k <= i ==> col_mul_default@[k] == 1,
                forall|k: int| 0 <= k <= i ==> zeros@[k] == 0,
            decreases col_cnt - i,
        {
            col_mul_default.push(1);
            zeros.push(0);
            i += 1;
        }
        let mut pool: Vec<Node> = Vec::new();
        pool.push(Node { row: 0, col: 0, left: 0, right: 0, up: 0, down: 0 });
        let mut mat = Matrix {
            row_cnt: 0,
            col_cnt,
            pool,
            col_size: zeros.clone(),
            min: col_mul_default.clone(),
            max: col_mul_default,
            weight: zeros,
            partial_sol: Vec::new(),
            abort_requested: false,
            shape: Ghost(
                Shape {
                    rows: Seq::empty(),
                    lo: Seq::new((col_cnt + 1) as nat, |i: int| 0int),
                    hi: Seq::new((col_cnt + 1) as nat, |i: int| 0int),
                    starts: seq![col_cnt + 1],
                    active: Seq::new(col_cnt as nat, |i: int| i + 1),
                    live: Seq::new((col_cnt + 1) as nat, |i: int| Seq::<int>::empty()),
                },
            ),
        };
        let mut col_num: usize = 1;
        while col_num <= col_cnt
            invariant
                1 <= col_num <= col_cnt + 1,
                col_cnt < usize::MAX,
                mat@.nodes() == col_num,
                mat@.col.len() == col_num,
                mat@.left.len() == col_num,
                mat@.right.len() == col_num,
                mat@.up.len() == col_num,
                mat@.down.len() == col_num,
                forall|k: int|
                    0 <= k < col_num ==> {
                        &&& (#[trigger] mat@.row[k]) == 0
                        &&& mat@.col[k] == k
                        &&& mat@.up[k] == k
                        &&& mat@.down[k] == k
                        &&& mat@.left[k] == if k == 0 {
                            col_num - 1
                        } else {
                            k - 1
                        }
                        &&& mat@.right[k] == if k == col_num - 1 {
                            0
                        } else {
                            k + 1
                        }
                    },
                mat@ == (Grid {
                    row: mat@.row,
                    col: mat@.col,
                    left: mat@.left,
                    right: mat@.right,
                    up: mat@.up,
                    down: mat@.down,
                    ..Grid::blank(col_cnt as int)
                }),
                !mat.aborted(),
            decreases col_cnt + 1 - col_num,
        {
            let ghost g0 = mat@;
            assert(g0.row[col_num - 1] == 0);
            assert(g0.right[col_num - 1] == 0);
            assert(g0.row[0] == 0);
            assert(g0.left[0] == col_num - 1);
            let col = mat.create_node(0, col_num);
            mat.insert_right(col - 1, col);
            assert forall|k: int| 0 <= k < col_num + 1 implies {
                &&& (#[trigger] mat@.row[k]) == 0
                &&& mat@.col[k] == k
                &&& mat@.up[k] == k
                &&& mat@.down[k] == k
                &&& mat@.left[k] == if k == 0 {
                    col_num as int
                } else {
                    k - 1
                }
                &&& mat@.right[k] == if k == col_num {
                    0
                } else {
                    k + 1
                }
            } by {
                if k < col_num {
                    assert(g0.row[k] == 0);
                }
            }
            col_num += 1;
        }
        proof {
            Grid::lemma_blank(col_cnt as int);
            let b = Grid::blank(col_cnt as int);
            assert forall|k: int| 0 <= k <= col_cnt implies mat@.row[k] == b.row[k] && mat@.col[k] == b.col[k]
                && mat@.up[k] == b.up[k] && mat@.down[k] == b.down[k] && mat@.left[k] == b.left[k] && mat@.right[k]
                == b.right[k] by {
                assert(mat@.row[k] == 0);
            }
            assert(mat@.row =~= b.row);
            assert(mat@.col =~= b.col);
            assert(mat@.up =~= b.up);
            assert(mat@.down =~= b.down);
            assert(mat@.left =~= b.left);
            assert(mat@.right =~= b.right);
            assert(mat@ =~= Grid::blank(col_cnt as int));
        }
        mat
    }

    /// The matrix of `col_cnt` columns with the rows of `rows`.
    pub fn with_rows(col_cnt: usize, rows: &[&[usize]]) -> (mat: Matrix)
        requires
            col_cnt < usize::MAX,
            forall|i: int| 0 <= i < rows@.len() ==> Grid::blank(col_cnt as int).takes(#[trigger] rows@[i]@),
            col_cnt + 1 + span(rows_of(rows@), rows@.len() as int) <= usize::MAX,
        ensures
            mat.ready(),
            mat@ == Grid::blank(col_cnt as int).with_rows(rows_of(rows@)),
            mat@.cols == col_cnt,
            mat@.rows == rows_of(rows@),
            !mat.aborted(),
    {
        let mut mat = Matrix::new(col_cnt);
        let ghost all = rows_of(rows@);
        proof {
            assert(all.take(0) =~= Seq::<Seq<usize>>::empty());
        }
        let mut i: usize = 0;
        while i < rows.len()
            invariant
                0 <= i <= rows@.len(),
                all == rows_of(rows@),
                col_cnt < usize::MAX,
                forall|i: int| 0 <= i < rows@.len() ==> Grid::blank(col_cnt as int).takes(#[trigger] rows@[i]@),
                col_cnt + 1 + span(all, rows@.len() as int) <= usize::MAX,
                mat.ready(),
                mat@ == Grid::blank(col_cnt as int).with_rows(all.take(i as int)),
                mat@.cols == col_cnt,
                mat@.rows == all.take(i as int),
                mat@.nodes() == col_cnt + 1 + span(all, i as int),
                !mat.aborted(),
            decreases rows@.len() - i,
        {
            proof {
                lemma_span_grows(all, i as int + 1, rows@.len() as int);
                assert(Grid::blank(col_cnt as int).takes(rows@[i as int]@));
                assert(all.take(i as int + 1).drop_last() =~= all.take(i as int));
                assert(all.take(i as int + 1).last() == rows@[i as int]@);
                assert(all.take(i as int).push(all[i as int]) =~= all.take(i as int + 1));
            }
            mat.add_row(rows[i]);
            i += 1;
        }
        proof {
            assert(all.take(rows@.len() as int) =~= all);
        }
        mat
    }

    /// Adds a row that holds the columns of `row`, behind the rows added
    /// before.
    pub fn add_row(&mut self, row: &[usize])
        requires
            old(self).ready(),
            old(self)@.takes(row@),
            old(self)@.row_count < usize::MAX,
            old(self)@.nodes() + row@.len() <= usize::MAX,
        ensures
            final(self).ready(),
            final(self)@ == old(self)@.with_row(row@),
            final(self)@.rows == old(self)@.rows.push(row@),
            final(self)@.nodes() == old(self)@.nodes() + row@.len(),
            final(self)@.cols == old(self)@.cols,
            final(self)@.min == old(self)@.min,
            final(self)@.max == old(self)@.max,
            final(self).aborted() == old(self).aborted(),
    {
        let ghost before = self@;
        let ghost opened = before.open_row();
        proof {
            before.lemma_open_row();
            before.lemma_with_row(row@);
            opened.lemma_with_items_take(row@, 0);
            assert(row@.take(0) =~= Seq::<usize>::empty());
        }
        self.row_cnt += 1;
        proof {
            self.shape@.rows = opened.rows;
            self.shape@.starts = opened.starts;
        }
        assert(self@ =~= opened);
        let row_num = self.row_cnt;
        let mut left_node: usize = 0;
        let mut i: usize = 0;
        while i < row.len()
            invariant
                0 <= i <= row@.len(),
                opened.ready(),
                opened.rows.len() > 0,
                opened.rows.last().len() == 0,
                opened.takes(row@),
                opened.nodes() + row@.len() <= usize::MAX,
                opened.row_count == row_num,
                self@ == opened.with_items(row@.take(i as int)),
                left_node == if i == 0 {
                    0
                } else {
                    self@.nodes() - 1
                },
                self.aborted() == old(self).aborted(),
            decreases row@.len() - i,
        {
            proof {
                opened.lemma_with_items_take(row@, i as int);
            }
            let col_num = row[i];
            left_node = self.append_item(row_num, col_num, left_node);
            i += 1;
        }
        proof {
            opened.lemma_with_items_take(row@, i as int);
        }
    }

    /// Adds an item of column `col_num` to the last row, behind
    /// `left_node`, the last item of that row so far, or 0 for none.
    fn append_item(&mut self, row_num: usize, col_num: usize, left_node: usize) -> (node: usize)
        requires
            old(self)@.extensible(col_num as int),
            row_num == old(self)@.rows.len(),
            left_node == if old(self)@.rows.last().len() == 0 {
                0
            } else {
                old(self)@.nodes() - 1
            },
        ensures
            final(self)@ == old(self)@.with_item(col_num as int),
            node == old(self)@.nodes(),
            final(self).aborted() == old(self).aborted(),
    {
        let ghost before = self@;
        proof {
            let c = col_num as int;
            assert(before.column_ok(c));
            assert(before.header_ok(c));
            if before.live[c].len() > 0 {
                assert(before.member_ok(c, before.live[c].len() - 1));
                assert(linked(before.down, before.up, c, before.live[c], before.live[c].len() - 1));
            }
            let last = before.rows.len() - 1;
            assert(before.starts[last + 1] == before.starts[last] + before.rows[last].len());
            before.lemma_starts(0, last);
            if before.rows.last().len() > 0 {
                before.lemma_last_row(before.nodes() - 1);
                assert(before.item_ok(before.nodes() - 1));
            }
            crate::dlx::layout::lemma_total_part(before.live, before.cols + 1, c);
        }
        let node = self.create_node(row_num, col_num);
        let top = self.node(col_num).up;
        self.insert_down(top, node);
        if left_node != 0 {
            self.insert_right(left_node, node);
        }
        let size = self.col_size[col_num];
        self.set_size(col_num, size + 1);
        proof {
            let after = before.with_item(col_num as int);
            self.shape@.rows = after.rows;
            self.shape@.lo = after.lo;
            self.shape@.hi = after.hi;
            self.shape@.starts = after.starts;
            self.shape@.live = after.live;
        }
        assert(self@ =~= before.with_item(col_num as int));
        node
    }

    /// Sets the range of column `col`: the rows chosen must hold it at
    /// least `min` times and at most `max` times.
    pub fn set_multiplicity(&mut self, col: usize, min: usize, max: usize)
        requires
            old(self).ready(),
            1 <= col <= old(self)@.cols,
            min <= max,
        ensures
            final(self).ready(),
            final(self)@ == (Grid {
                min: old(self)@.min.update(col as int, min as int),
                max: old(self)@.max.update(col as int, max as int),
                ..old(self)@
            }),
            final(self).aborted() == old(self).aborted(),
    {
        let ghost before = self@;
        self.min[col] = min;
        self.max[col] = max;
        assert(self@ =~= (Grid {
            min: before.min.update(col as int, min as int),
            max: before.max.update(col as int, max as int),
            ..before
        }));
        proof {
            before.lemma_set_range(col as int, min as int, max as int);
        }
    }

    /// Adds a node that is linked to itself in every direction.
    fn create_node(&mut self, row: usize, col: usize) -> (idx: usize)
        requires
            old(self)@.nodes() < usize::MAX,
        ensures
            idx == old(self)@.nodes(),
            final(self)@ == (Grid {
                row: old(self)@.row.push(row as int),
                col: old(self)@.col.push(col as int),
                left: old(self)@.left.push(idx as int),
                right: old(self)@.right.push(idx as int),
                up: old(self)@.up.push(idx as int),
                down: old(self)@.down.push(idx as int),
                ..old(self)@
            }),
            final(self).aborted() == old(self).aborted(),
    {
        let idx = self.pool.len();
        self.pool.push(Node { row, col, left: idx, right: idx, up: idx, down: idx });
        assert(self@ =~= (Grid {
            row: old(self)@.row.push(row as int),
            col: old(self)@.col.push(col as int),
            left: old(self)@.left.push(idx as int),
            right: old(self)@.right.push(idx as int),
            up: old(self)@.up.push(idx as int),
            down: old(self)@.down.push(idx as int),
            ..old(self)@
        }));
        idx
    }

    /// Links `node` into a horizontal cycle, to the right of `at`.
    fn insert_right(&mut self, at: usize, node: usize)
        requires
            at < old(self)@.nodes(),
            node < old(self)@.nodes(),
            0 <= old(self)@.right[at as int] < old(self)@.nodes(),
        ensures
            final(self)@ == (Grid {
                right: old(self)@.right.update(node as int, old(self)@.right[at as int]).update(
                    at as int,
                    node as int,
                ),
                left: old(self)@.left.update(old(self)@.right[at as int], node as int).update(
                    node as int,
                    at as int,
                ),
                ..old(self)@
            }),
            final(self).aborted() == old(self).aborted(),
    {
        let right = self.node(at).right;
        self.set_right(node, right);
        self.set_left(right, node);
        self.set_left(node, at);
        self.set_right(at, node);
    }

    /// Links `node` into a vertical cycle, below `at`.
    fn insert_down(&mut self, at: usize, node: usize)
        requires
            at < old(self)@.nodes(),
            node < old(self)@.nodes(),
            0 <= old(self)@.down[at as int] < old(self)@.nodes(),
        ensures
            final(self)@ == (Grid {
                down: old(self)@.down.update(node as int, old(self)@.down[at as int]).update(
                    at as int,
                    node as int,
                ),
                up: old(self)@.up.update(old(self)@.down[at as int], node as int).update(node as int, at as int),
                ..old(self)@
            }),
            final(self).aborted() == old(self).aborted(),
    {
        let down = self.node(at).down;
        self.set_down(node, down);
        self.set_up(down, node);
        self.set_up(node, at);
        self.set_down(at, node);
    }
}

/// The lengths of more rows sum to more.
pub proof fn lemma_span_grows(rows: Seq<Seq<usize>>, a: int, b: int)
    requires
        0 <= a <= b,
    ensures
        span(rows, a) <= span(rows, b),
        a > 0 ==> span(rows, a) == span(rows, a - 1) + rows[a - 1].len(),
    decreases b - a,
{
    if a < b {
        lemma_span_grows(rows, a, b - 1);
    }
}

// The links, one at a time
impl Matrix {
    /// Whether a stop of the search has been asked for.
    pub closed spec fn aborted(&self) -> bool {
        self.abort_requested
    }

    /// Sets the link of node `i` upwards.
    fn set_up(&mut self, i: usize, v: usize)
        requires
            i < old(self)@.nodes(),
        ensures
            final(self)@ == (Grid { up: old(self)@.up.update(i as int, v as int), ..old(self)@ }),
            final(self).aborted() == old(self).aborted(),
    {
        self.pool[i].up = v;
        assert(self@ =~= (Grid { up: old(self)@.up.update(i as int, v as int), ..old(self)@ }));
    }

    /// Sets the link of node `i` downwards.
    fn set_down(&mut self, i: usize, v: usize)
        requires
            i < old(self)@.nodes(),
        ensures
            final(self)@ == (Grid { down: old(self)@.down.update(i as int, v as int), ..old(self)@ }),
            final(self).aborted() == old(self).aborted(),
    {
        self.pool[i].down = v;
        assert(self@ =~= (Grid { down: old(self)@.down.update(i as int, v as int), ..old(self)@ }));
    }

    /// Sets the link of node `i` to the left.
    fn set_left(&mut self, i: usize, v: usize)
        requires
            i < old(self)@.nodes(),
        ensures
            final(self)@ == (Grid { left: old(self)@.left.update(i as int, v as int), ..old(self)@ }),
            final(self).aborted() == old(self).aborted(),
    {
        self.pool[i].left = v;
        assert(self@ =~= (Grid { left: old(self)@.left.update(i as int, v as int), ..old(self)@ }));
    }

    /// Sets the link of node `i` to the right.
    fn set_right(&mut self, i: usize, v: usize)
        requires
            i < old(self)@.nodes(),
        ensures
            final(self)@ == (Grid { right: old(self)@.right.update(i as int, v as int), ..old(self)@ }),
            final(self).aborted() == old(self).aborted(),
    {
        self.pool[i].right = v;
        assert(self@ =~= (Grid { right: old(self)@.right.update(i as int, v as int), ..old(self)@ }));
    }

    /// Sets the size of column `c`.
    fn set_size(&mut self, c: usize, v: usize)
        requires
            c < old(self)@.size.len(),
        ensures
            final(self)@ == (Grid { size: old(self)@.size.update(c as int, v as int), ..old(self)@ }),
            final(self).aborted() == old(self).aborted(),
    {
        self.col_size[c] = v;
        assert(self@ =~= (Grid { size: old(self)@.size.update(c as int, v as int), ..old(self)@ }));
    }

    /// Sets the weight of column `c`.
    fn set_weight(&mut self, c: usize, v: usize)
        requires
            c < old(self)@.weight.len(),
        ensures
            final(self)@ == (Grid { weight: old(self)@.weight.update(c as int, v as int), ..old(self)@ }),
            final(self).aborted() == old(self).aborted(),
    {
        self.weight[c] = v;
        assert(self@ =~= (Grid { weight: old(self)@.weight.update(c as int, v as int), ..old(self)@ }));
    }

    /// Node `i`.
    fn node(&self, i: usize) -> (n: Node)
        requires
            i < self@.nodes(),
        ensures
            n.row == self@.row[i as int],
            n.col == self@.col[i as int],
            n.left == self@.left[i as int],
            n.right == self@.right[i as int],
            n.up == self@.up[i as int],
            n.down == self@.down[i as int],
    {
        self.pool[i]
    }

    /// Hides node j by connecting its up/down nodes.
    fn hide_node(&mut self, j: usize)
        requires
            old(self)@.wf(),
            old(self)@.is_item(j as int),
            old(self)@.is_live(j as int),
        ensures
            final(self)@ == old(self)@.hide_node(j as int),
            final(self).aborted() == old(self).aborted(),
    {
        proof {
            self@.lemma_live_at(j as int);
        }
        let ghost before = self@;
        let Node { col, up, down, .. } = self.node(j);
        self.set_down(up, down);
        self.set_up(down, up);
        let size = self.col_size[col];
        self.set_size(col, size - 1);
        proof {
            self.shape@.live = before.hide_node(j as int).live;
        }
        assert(self@ =~= before.hide_node(j as int));
    }

    /// Unhides node j.
    fn unhide_node(&mut self, j: usize, Ghost(before): Ghost<Grid>)
        requires
            before.wf(),
            before.is_item(j as int),
            before.is_live(j as int),
            old(self)@ == before.hide_node(j as int),
        ensures
            final(self)@ == before,
            final(self).aborted() == old(self).aborted(),
    {
        proof {
            before.lemma_live_at(j as int);
            before.lemma_hide_node_undo(j as int);
            assert(before.header_ok(before.col[j as int]));
        }
        let ghost start = self@;
        let Node { col, up, down, .. } = self.node(j);
        self.set_down(up, j);
        self.set_up(down, j);
        let size = self.col_size[col];
        self.set_size(col, size + 1);
        proof {
            self.shape@.live = before.live;
        }
        assert(self@ =~= start.unhide_node(j as int));
    }

    /// Hides row r from other columns by hiding each node j in the row.
    /// It doesn't hide node r from its column.
    fn hide_row(&mut self, r: usize)
        requires
            old(self)@.wf(),
            old(self)@.is_item(r as int),
            old(self)@.mates_live(r as int),
        ensures
            final(self)@ == old(self)@.hide_row(r as int),
            final(self).aborted() == old(self).aborted(),
    {
        let ghost before = self@;
        let ghost ms = before.mates(r as int);
        proof {
            before.lemma_mates(r as int);
            before.lemma_mates_hideable(r as int);
            assert(before.item_ok(r as int));
            before.lemma_hide_nodes_take(ms, 0);
        }
        let mut j = self.node(r).right;
        let ghost mut k: int = 0;
        while j != r
            invariant
                before.wf(),
                before.is_item(r as int),
                before.hideable(ms),
                ms == before.mates(r as int),
                0 <= k <= ms.len(),
                self@ == before.hide_nodes(ms.take(k)),
                j == (if k < ms.len() {
                    ms[k]
                } else {
                    r as int
                }),
                self.aborted() == old(self).aborted(),
            decreases ms.len() - k,
        {
            proof {
                before.lemma_mates(r as int);
                before.lemma_hide_nodes_take(ms, k);
                assert(before.item_ok(r as int));
                assert(before.item_ok(ms[k]));
            }
            self.hide_node(j);
            j = self.node(j).right;
            proof {
                k = k + 1;
                before.lemma_hide_nodes_take(ms, k);
            }
        }
        proof {
            before.lemma_mates(r as int);
            before.lemma_hide_nodes_take(ms, k);
        }
    }

    /// Unhides row r.
    fn unhide_row(&mut self, r: usize, Ghost(before): Ghost<Grid>)
        requires
            before.wf(),
            before.is_item(r as int),
            before.mates_live(r as int),
            old(self)@ == before.hide_row(r as int),
        ensures
            final(self)@ == before,
            final(self).aborted() == old(self).aborted(),
    {
        let ghost ms = before.mates(r as int);
        proof {
            before.lemma_mates(r as int);
            before.lemma_mates_hideable(r as int);
            assert(before.item_ok(r as int));
            before.lemma_hide_nodes_take(ms, ms.len() as int);
        }
        let mut j = self.node(r).left;
        let ghost mut k: int = ms.len() as int;
        while j != r
            invariant
                before.wf(),
                before.is_item(r as int),
                before.hideable(ms),
                ms == before.mates(r as int),
                0 <= k <= ms.len(),
                self@ == before.hide_nodes(ms.take(k)),
                j == (if k > 0 {
                    ms[k - 1]
                } else {
                    r as int
                }),
                self.aborted() == old(self).aborted(),
            decreases k,
        {
            proof {
                before.lemma_mates(r as int);
                before.lemma_hide_nodes_take(ms, k - 1);
                assert(before.item_ok(r as int));
                assert(before.item_ok(ms[k - 1]));
            }
            self.unhide_node(j, Ghost(before.hide_nodes(ms.take(k - 1))));
            j = self.node(j).left;
            proof {
                k = k - 1;
            }
        }
        proof {
            before.lemma_mates(r as int);
            assert(ms.take(0) =~= Seq::<int>::empty());
        }
    }

    /// Takes column c out of the header list.
    fn unlink_col(&mut self, c: usize)
        requires
            old(self)@.wf(),
            old(self)@.is_active(c as int),
        ensures
            final(self)@ == old(self)@.unlink(c as int),
            final(self).aborted() == old(self).aborted(),
    {
        let ghost before = self@;
        proof {
            before.lemma_unlink(c as int);
            before.lemma_active_at(c as int);
        }
        let Node { left, right, .. } = self.node(c);
        self.set_right(left, right);
        self.set_left(right, left);
        proof {
            self.shape@.active = before.unlink(c as int).active;
        }
        assert(self@ =~= before.unlink(c as int));
    }

    /// Puts column c back into the header list.
    fn relink_col(&mut self, c: usize, Ghost(before): Ghost<Grid>)
        requires
            before.wf(),
            before.is_active(c as int),
            old(self)@ == before.unlink(c as int),
        ensures
            final(self)@ == before,
            final(self).aborted() == old(self).aborted(),
    {
        let ghost start = self@;
        proof {
            before.lemma_unlink(c as int);
            before.lemma_active_at(c as int);
        }
        let Node { left, right, .. } = self.node(c);
        self.set_right(left, c);
        self.set_left(right, c);
        proof {
            self.shape@.active = before.active;
        }
        assert(self@ =~= start.relink(c as int));
    }

    /// Covers column c by hiding all its rows.
    /// It effectively disables the use of column c at all.
    pub fn cover_col(&mut self, c: usize)
        requires
            old(self)@.wf(),
            old(self)@.coherent(),
            old(self)@.is_active(c as int),
        ensures
            final(self)@ == old(self)@.cover(c as int),
            final(self).aborted() == old(self).aborted(),
    {
        let ghost before = self@;
        let ghost rs = before.live[c as int];
        self.unlink_col(c);
        proof {
            before.lemma_cover_take(c as int, 0);
            assert(rs.take(0) =~= Seq::<int>::empty());
        }
        let mut r = self.node(c).down;
        let ghost mut k: int = 0;
        while r != c
            invariant
                before.wf(),
                before.coherent(),
                before.is_active(c as int),
                rs == before.live[c as int],
                0 <= k <= rs.len(),
                self@ == before.unlink(c as int).hide_rows(rs.take(k)),
                r == succ(rs, c as int, k - 1),
                self.aborted() == old(self).aborted(),
            decreases rs.len() - k,
        {
            proof {
                before.lemma_cover_take(c as int, k);
                if k >= rs.len() {
                    assert(false);
                }
            }
            self.hide_row(r);
            proof {
                before.lemma_cover_take(c as int, k + 1);
            }
            r = self.node(r).down;
            proof {
                k = k + 1;
            }
        }
        proof {
            before.lemma_cover_take(c as int, k);
            if k < rs.len() {
                assert(before.unlink(c as int).hide_rows(rs.take(k)).is_item(rs[k]));
            }
        }
    }

    /// Uncovers column c, which was covered last: the matrix is again what
    /// it was before that cover.
    pub fn uncover_col(&mut self, c: usize)
        requires
            exists|b: Grid| b.wf() && b.coherent() && b.is_active(c as int) && old(self)@ == #[trigger] b.cover(c as int),
        ensures
            final(self)@ == old(self)@.uncover(c as int),
            forall|b: Grid|
                b.wf() && b.coherent() && b.is_active(c as int) && old(self)@ == #[trigger] b.cover(c as int)
                    ==> final(self)@ == b,
            final(self).aborted() == old(self).aborted(),
    {
        let ghost b = choose|b: Grid|
            b.wf() && b.coherent() && b.is_active(c as int) && old(self)@ == #[trigger] b.cover(c as int);
        proof {
            b.lemma_cover(c as int);
        }
        self.uncover_from(c, Ghost(b));
        proof {
            assert forall|b2: Grid|
                b2.wf() && b2.coherent() && b2.is_active(c as int) && old(self)@ == #[trigger] b2.cover(
                    c as int,
                ) implies self@ == b2 by {
                b2.lemma_cover(c as int);
            }
        }
    }

    /// Uncovers column c, which was covered last, in the grid `before`.
    fn uncover_from(&mut self, c: usize, Ghost(before): Ghost<Grid>)
        requires
            before.wf(),
            before.coherent(),
            before.is_active(c as int),
            old(self)@ == before.cover(c as int),
        ensures
            final(self)@ == before,
            final(self).aborted() == old(self).aborted(),
    {
        let ghost rs = before.live[c as int];
        proof {
            before.lemma_cover_take(c as int, rs.len() as int);
        }
        let mut r = self.node(c).up;
        let ghost mut k: int = rs.len() as int;
        while r != c
            invariant
                before.wf(),
                before.coherent(),
                before.is_active(c as int),
                rs == before.live[c as int],
                0 <= k <= rs.len(),
                self@ == before.unlink(c as int).hide_rows(rs.take(k)),
                r == pred(rs, c as int, k),
                self.aborted() == old(self).aborted(),
            decreases k,
        {
            proof {
                before.lemma_cover_take(c as int, k);
                if k <= 0 {
                    assert(false);
                }
                before.lemma_cover_take(c as int, k - 1);
            }
            self.unhide_row(r, Ghost(before.unlink(c as int).hide_rows(rs.take(k - 1))));
            r = self.node(r).up;
            proof {
                k = k - 1;
            }
        }
        proof {
            before.lemma_cover_take(c as int, k);
            if k > 0 {
                assert(before.unlink(c as int).hide_rows(rs.take(k)).is_item(rs[k - 1]));
            }
            assert(rs.take(0) =~= Seq::<int>::empty());
        }
        self.relink_col(c, Ghost(before));
    }

    /// Hides row r completely (i.e. from the current column as well).
    /// The name "tweak" is from Knuth's TAOCP fascicle 5.
    fn tweak_row(&mut self, r: usize)
        requires
            old(self)@.wf(),
            old(self)@.coherent(),
            old(self)@.is_item(r as int),
            old(self)@.is_live(r as int),
            old(self)@.is_active(old(self)@.col[r as int]),
        ensures
            final(self)@ == old(self)@.tweak(r as int),
            final(self).aborted() == old(self).aborted(),
    {
        proof {
            self@.lemma_intact(r as int);
            self@.lemma_hide_row(r as int);
            assert(self@.in_row(r as int, r as int)) by {
                assert(self@.item_ok(r as int));
            }
        }
        self.hide_row(r);
        self.hide_node(r);
    }

    /// Untweaks the rows that were tweaked, starting from r, the first of
    /// them, last to first.
    fn untweak_rows(&mut self, r: usize, Ghost(before): Ghost<Grid>, Ghost(n): Ghost<int>)
        requires
            before.wf(),
            before.coherent(),
            0 <= r < before.nodes(),
            before.is_active(before.col[r as int]),
            0 <= n <= before.live[before.col[r as int]].len(),
            r == succ(before.live[before.col[r as int]], before.col[r as int], -1),
            old(self)@ == before.tweak_rows(before.live[before.col[r as int]].take(n)),
        ensures
            final(self)@ == before,
            final(self).aborted() == old(self).aborted(),
    {
        let ghost c0 = before.col[r as int];
        let ghost rs = before.live[c0];
        proof {
            before.lemma_tweak_take(c0, n);
        }
        let c = self.node(r).col;
        let stop = self.node(c).down;
        let mut stack: Vec<usize> = Vec::new();
        let mut x = r;
        let ghost mut i: int = 0;
        while x != stop
            invariant
                before.wf(),
                before.coherent(),
                before.is_active(c0),
                c == c0,
                rs == before.live[c0],
                0 <= n <= rs.len(),
                0 <= i <= n,
                self@ == before.tweak_rows(rs.take(n)),
                x == succ(rs, c0, i - 1),
                stop == succ(rs, c0, n - 1),
                stack@.len() == i,
                forall|m: int| 0 <= m < i ==> stack@[m] == rs[m],
                self.aborted() == old(self).aborted(),
            decreases n - i,
        {
            proof {
                before.lemma_tweak_take(c0, n);
                assert(before.column_ok(c0));
                if i >= n {
                    assert(false);
                }
            }
            stack.push(x);
            x = self.node(x).down;
            proof {
                i = i + 1;
            }
        }
        proof {
            before.lemma_tweak_take(c0, n);
            assert(before.column_ok(c0));
            if i < n {
                assert(before.is_item(rs[i]));
                if n < rs.len() {
                    lemma_distinct(rs, i, n);
                }
                assert(false);
            }
        }
        while stack.len() > 0
            invariant
                before.wf(),
                before.coherent(),
                before.is_active(c0),
                rs == before.live[c0],
                0 <= i <= n <= rs.len(),
                self@ == before.tweak_rows(rs.take(i)),
                stack@.len() == i,
                forall|m: int| 0 <= m < i ==> stack@[m] == rs[m],
                self.aborted() == old(self).aborted(),
            decreases i,
        {
            let row = stack.pop().unwrap();
            proof {
                before.lemma_tweak_take(c0, i - 1);
                let mid = before.tweak_rows(rs.take(i - 1));
                mid.lemma_intact(row as int);
                mid.lemma_hide_row(row as int);
                assert(mid.item_ok(row as int));
                assert(mid.in_row(row as int, row as int));
            }
            self.unhide_node(row, Ghost(before.tweak_rows(rs.take(i - 1)).hide_row(row as int)));
            self.unhide_row(row, Ghost(before.tweak_rows(rs.take(i - 1))));
            proof {
                i = i - 1;
            }
        }
        proof {
            assert(rs.take(0) =~= Seq::<int>::empty());
        }
    }

    /// Selects (already hidden) node j.
    fn select_node(&mut self, j: usize)
        requires
            old(self)@.wf(),
            old(self)@.coherent(),
            old(self)@.is_item(j as int),
            old(self)@.is_active(old(self)@.col[j as int]),
            old(self)@.weight[old(self)@.col[j as int]] < usize::MAX,
        ensures
            final(self)@ == old(self)@.select_node(j as int),
            final(self).aborted() == old(self).aborted(),
    {
        proof {
            assert(self@.item_ok(j as int));
            self@.lemma_bump(self@.col[j as int]);
        }
        let c = self.node(j).col;
        let w = self.weight[c];
        self.set_weight(c, w + 1);
        // If column c is full after selecting node j, cover the column
        if self.col_full(c) {
            self.cover_col(c);
        }
    }

    /// Unselects node j.
    fn unselect_node(&mut self, j: usize, Ghost(before): Ghost<Grid>)
        requires
            before.wf(),
            before.coherent(),
            before.is_item(j as int),
            before.is_active(before.col[j as int]),
            before.weight[before.col[j as int]] < usize::MAX,
            old(self)@ == before.select_node(j as int),
        ensures
            final(self)@ == before,
            final(self).aborted() == old(self).aborted(),
    {
        proof {
            assert(before.item_ok(j as int));
            before.lemma_bump(before.col[j as int]);
            before.lemma_select_node(j as int);
            if before.bump(before.col[j as int]).full(before.col[j as int]) {
                before.bump(before.col[j as int]).lemma_cover(before.col[j as int]);
            }
        }
        let c = self.node(j).col;
        if self.col_full(c) {
            self.uncover_from(c, Ghost(before.bump(c as int)));
        }
        assert(self@ == before.bump(c as int));
        assert(before.header_ok(c as int));
        let w = self.weight[c];
        self.set_weight(c, w - 1);
        assert(self@ =~= before.bump(c as int).unbump(c as int));
    }

    /// Selects (already hidden) row r by selecting each node j in the row.
    ///
    /// It doesn't add the weight to the current column, because the current
    /// column's weight is handled in the main algorithm.
    fn select_row(&mut self, r: usize)
        requires
            old(self)@.wf(),
            old(self)@.coherent(),
            old(self)@.is_item(r as int),
            old(self)@.selectable(old(self)@.mates(r as int)),
        ensures
            final(self)@ == old(self)@.select_row(r as int),
            final(self).aborted() == old(self).aborted(),
    {
        let ghost before = self@;
        let ghost ms = before.mates(r as int);
        proof {
            before.lemma_mates(r as int);
            assert(before.item_ok(r as int));
            before.lemma_select_nodes_take(ms, 0);
            assert(ms.take(0) =~= Seq::<int>::empty());
        }
        let mut j = self.node(r).right;
        let ghost mut k: int = 0;
        while j != r
            invariant
                before.wf(),
                before.coherent(),
                before.is_item(r as int),
                before.selectable(ms),
                ms == before.mates(r as int),
                0 <= k <= ms.len(),
                self@ == before.select_nodes(ms.take(k)),
                j == (if k < ms.len() {
                    ms[k]
                } else {
                    r as int
                }),
                self.aborted() == old(self).aborted(),
            decreases ms.len() - k,
        {
            proof {
                before.lemma_mates(r as int);
                before.lemma_select_nodes_take(ms, k);
                assert(before.item_ok(r as int));
                assert(before.item_ok(ms[k]));
            }
            self.select_node(j);
            proof {
                before.lemma_select_nodes_take(ms, k + 1);
                assert(self@.item_ok(ms[k]));
            }
            j = self.node(j).right;
            proof {
                k = k + 1;
            }
        }
        proof {
            before.lemma_mates(r as int);
            before.lemma_select_nodes_take(ms, k);
        }
    }

    /// Unselects row r.
    fn unselect_row(&mut self, r: usize, Ghost(before): Ghost<Grid>)
        requires
            before.wf(),
            before.coherent(),
            before.is_item(r as int),
            before.selectable(before.mates(r as int)),
            old(self)@ == before.select_row(r as int),
        ensures
            final(self)@ == before,
            final(self).aborted() == old(self).aborted(),
    {
        let ghost ms = before.mates(r as int);
        proof {
            before.lemma_mates(r as int);
            assert(before.item_ok(r as int));
            before.lemma_select_nodes_take(ms, ms.len() as int);
            assert(self@.item_ok(r as int));
        }
        let mut j = self.node(r).left;
        let ghost mut k: int = ms.len() as int;
        while j != r
            invariant
                before.wf(),
                before.coherent(),
                before.is_item(r as int),
                before.selectable(ms),
                ms == before.mates(r as int),
                0 <= k <= ms.len(),
                self@ == before.select_nodes(ms.take(k)),
                j == (if k > 0 {
                    ms[k - 1]
                } else {
                    r as int
                }),
                self.aborted() == old(self).aborted(),
            decreases k,
        {
            proof {
                before.lemma_mates(r as int);
                before.lemma_select_nodes_take(ms, k - 1);
                assert(before.item_ok(r as int));
            }
            self.unselect_node(j, Ghost(before.select_nodes(ms.take(k - 1))));
            proof {
                assert(self@.item_ok(ms[k - 1]));
            }
            j = self.node(j).left;
            proof {
                k = k - 1;
            }
        }
        proof {
            before.lemma_mates(r as int);
            assert(ms.take(0) =~= Seq::<int>::empty());
        }
    }

    /// Chooses the column with the lowest `col_size`. (MRV Heuristic).
    fn choose_best_col(&self) -> (best: usize)
        requires
            self@.wf(),
            self@.active.len() > 0,
        ensures
            best == self@.best_col(),
            self@.is_active(best as int),
    {
        let ghost list = self@.active;
        let ghost sizes = self@.active_sizes();
        proof {
            assert(self@.header_ok(0));
            assert(linked(self@.right, self@.left, 0, list, 0));
            assert(self@.is_column(list[0]));
        }
        let mut best_col = self.node(0).right;
        let mut best_size = self.col_size[best_col];
        let mut c = best_col;
        let ghost mut k: int = 0;
        while c != 0
            invariant
                self@.wf(),
                list == self@.active,
                sizes == self@.active_sizes(),
                list.len() > 0,
                0 <= k <= list.len(),
                c == succ(list, 0, k - 1),
                0 <= first_least(sizes, k) < list.len(),
                k > 0 ==> first_least(sizes, k) < k,
                best_col == list[first_least(sizes, k)],
                best_size == self@.size[best_col as int],
            decreases list.len() - k,
        {
            proof {
                if k >= list.len() {
                    assert(false);
                }
                assert(linked(self@.right, self@.left, 0, list, k));
                assert(self@.is_column(list[k]));
                if k + 1 < list.len() {
                    assert(self@.is_column(list[k + 1]));
                }
                assert(self@.is_column(list[first_least(sizes, k)]));
            }
            if self.col_size[c] < best_size {
                best_col = c;
                best_size = self.col_size[c];
            }
            c = self.node(c).right;
            proof {
                k = k + 1;
            }
        }
        proof {
            if k < list.len() {
                assert(linked(self@.right, self@.left, 0, list, k));
                assert(false);
            }
        }
        best_col
    }

    /// Returns whether column c is selected within the multiplicity range.
    fn col_fulfilled(&self, c: usize) -> (b: bool)
        requires
            self@.sized(),
            c <= self@.cols,
        ensures
            b == self@.fulfilled(c as int),
    {
        self.min[c] <= self.weight[c] && self.weight[c] <= self.max[c]
    }

    /// Returns whether column c is fully selected.
    fn col_full(&self, c: usize) -> (b: bool)
        requires
            self@.sized(),
            c <= self@.cols,
        ensures
            b == self@.full(c as int),
    {
        self.weight[c] == self.max[c]
    }

    /// Returns whether it is possible to select column c within the
    /// multiplicity range.
    fn col_fulfillable(&self, c: usize) -> (b: bool)
        requires
            self@.sized(),
            c <= self@.cols,
        ensures
            b == self@.fulfillable(c as int),
    {
        if self.weight[c] > self.max[c] {
            return false;
        }
        if self.min[c] > self.weight[c] && self.min[c] - self.weight[c] > self.col_size[c] {
            return false;
        }
        true
    }

}

// Main algorithm (dancing links)
impl Matrix {
    /// Tells the callback of a solution, if the chosen rows are one, and of
    /// the step; and of the stop, if one is asked for by then. Returns
    /// whether the chosen rows are a solution.
    fn notify<C: Callback>(&mut self, callback: &mut C) -> (found: bool)
        requires
            old(self)@.searching(),
            !old(self).aborted(),
        ensures
            final(self)@ == old(self)@,
            found == (old(self)@.active.len() == 0),
            sent(old(callback).calls(), final(callback).calls(), final(self).aborted(), old(self)@.head()),
            old(callback).quiet() ==> final(callback).quiet() && !final(self).aborted(),
    {
        let ghost g = self@;
        let ghost log = callback.calls();
        proof {
            assert(g.header_ok(0));
            if g.active.len() > 0 {
                assert(linked(g.right, g.left, 0, g.active, 0));
            }
        }
        let found = self.node(0).right == 0;
        if found {
            let sol = self.partial_sol.clone();
            proof {
                g.lemma_found();
                assert(sol@ =~= g.sol);
            }
            callback.on_solution(sol, self);
        }
        let ghost early = self.aborted();
        callback.on_iteration(self);
        if self.abort_requested {
            callback.on_abort(self);
            proof {
                let head = g.head();
                let n = head.len() as int;
                if found && early {
                    assert(head.take(n - 2) =~= Seq::<Call>::empty());
                    assert(callback.calls() =~= log + stopped_at(head, n, true));
                } else {
                    if found {
                        assert(head.take(n - 1) =~= seq![Call::Solution(g.sol, false)]);
                    } else {
                        assert(head.take(n - 1) =~= Seq::<Call>::empty());
                    }
                    assert(callback.calls() =~= log + stopped_at(head, n, false));
                }
            }
        } else {
            proof {
                assert(callback.calls() =~= log + g.head());
            }
        }
        found
    }

    /// Tries row r of the chosen column c: chooses it, searches on, and
    /// takes the choice back. Unless c is covered, the row is tweaked
    /// first, and stays so.
    fn try_row<C: Callback>(
        &mut self,
        callback: &mut C,
        c: usize,
        r: usize,
        covered: bool,
        Ghost(g): Ghost<Grid>,
        Ghost(k): Ghost<int>,
    )
        requires
            g.searching(),
            g.is_active(c as int),
            0 <= k < g.live[c as int].len(),
            r == g.live[c as int][k],
            covered == g.fills(c as int),
            old(self)@ == g.stage(c as int, k),
            !old(self).aborted(),
        ensures
            final(self)@ == g.stage(
                c as int,
                if covered {
                    k
                } else {
                    k + 1
                },
            ),
            sent(old(callback).calls(), final(callback).calls(), final(self).aborted(), g.row_trace(c as int, k)),
            old(callback).quiet() ==> final(callback).quiet() && !final(self).aborted(),
        decreases g.measure(), 0int,
    {
        proof {
            g.lemma_stage(c as int, k);
            g.lemma_stage(c as int, k + 1);
            g.lemma_trial(c as int, k);
        }
        if !covered {
            // If covered, rows are already hidden.
            self.tweak_row(r);
        }
        let ghost base = self@;
        self.select_row(r);
        let row = self.node(r).row;
        self.partial_sol.push(row);
        assert(self@ =~= g.trial(c as int, k));
        if self.col_fulfillable(c) {
            proof {
                lemma_total_nonneg(g.live, g.cols + 1);
                lemma_total_nonneg(self@.live, g.cols + 1);
            }
            self.recursive_solve(callback);
        } else {
            proof {
                assert(old(callback).calls() + Seq::<Call>::empty() =~= old(callback).calls());
            }
        }
        self.partial_sol.pop();
        assert(self@ =~= base.select_row(r as int));
        self.unselect_row(r, Ghost(base));
    }

    /// A recursive DLX algorithm: the search from the present state of the
    /// matrix.
    fn recursive_solve<C: Callback>(&mut self, callback: &mut C)
        requires
            old(self)@.searching(),
            !old(self).aborted(),
        ensures
            final(self)@ == old(self)@,
            sent(old(callback).calls(), final(callback).calls(), final(self).aborted(), old(self)@.trace()),
            old(callback).quiet() ==> final(callback).quiet() && !final(self).aborted(),
        decreases old(self)@.measure(), 1int,
    {
        let ghost g = self@;
        let ghost log = callback.calls();
        let ghost head = g.head();
        let found = self.notify(callback);
        proof {
            g.lemma_head();
            assert(log + Seq::<Call>::empty() =~= log);
            lemma_sent_within(log, Seq::<Call>::empty(), head, g.body(), callback.calls(), self.aborted());
            assert(Seq::<Call>::empty() + head + g.body() =~= g.trace());
            assert(Seq::<Call>::empty() + head =~= head);
        }
        if self.abort_requested {
            return ;
        }
        if found {
            proof {
                assert(g.trace() =~= head);
            }
            return ;
        }
        let c = self.choose_best_col();
        if !self.col_fulfillable(c) {
            proof {
                assert(g.trace() =~= head);
            }
            return ;
        }
        proof {
            g.lemma_stage(c as int, 0);
            assert(g.live[c as int].take(0) =~= Seq::<int>::empty());
        }
        let w = self.weight[c];
        self.set_weight(c, w + 1);
        let covered = self.col_full(c);
        if covered {
            self.cover_col(c);
        }
        let ghost rs = g.live[c as int];
        let ghost tail = g.skip_trace(c as int);
        let ghost done = head;
        let first = self.node(c).down;
        let mut r = first;
        let ghost mut k: int = 0;
        proof {
            assert(g.trace() == head + g.rows_trace(c as int, 0) + tail);
        }
        while r != c && !self.abort_requested
            invariant
                g == old(self)@,
                g.searching(),
                g.is_active(c as int),
                g.active.len() > 0,
                c == g.best_col(),
                g.fulfillable(c as int),
                covered == g.fills(c as int),
                rs == g.live[c as int],
                tail == g.skip_trace(c as int),
                0 <= k <= rs.len(),
                self@ == g.stage(c as int, k),
                r == succ(rs, c as int, k - 1),
                !self.aborted() ==> callback.calls() == log + done && done + g.rows_trace(c as int, k) + tail
                    == g.trace(),
                self.aborted() ==> sent(log, callback.calls(), true, g.trace()),
                old(callback).quiet() ==> callback.quiet() && !self.aborted(),
            decreases rs.len() - k,
        {
            proof {
                g.lemma_stage(c as int, k);
                if k >= rs.len() {
                    assert(false);
                }
                g.lemma_stage(c as int, k + 1);
                lemma_total_nonneg(g.live, g.cols + 1);
            }
            self.try_row(callback, c, r, covered, Ghost(g), Ghost(k));
            proof {
                let part = g.row_trace(c as int, k);
                let rest = g.rows_trace(c as int, k + 1) + tail;
                assert(g.rows_trace(c as int, k) == part + g.rows_trace(c as int, k + 1));
                assert(done + part + rest =~= done + g.rows_trace(c as int, k) + tail);
                lemma_sent_within(log, done, part, rest, callback.calls(), self.aborted());
                done = done + part;
                assert(done + g.rows_trace(c as int, k + 1) + tail =~= g.trace());
            }
            r = self.node(r).down;
            proof {
                k = k + 1;
            }
        }
        proof {
            g.lemma_stage(c as int, k);
            assert(g.header_ok(c as int));
            if !self.aborted() {
                if k < rs.len() {
                    assert(false);
                }
                assert(g.rows_trace(c as int, k) =~= Seq::<Call>::empty());
                assert(done + g.rows_trace(c as int, k) =~= done);
            }
        }
        let w = self.weight[c];
        self.set_weight(c, w - 1);
        assert(self@ =~= g.stage(c as int, k).unbump(c as int));
        if !self.abort_requested && self.col_fulfilled(c) {
            // Not selecting any row is also an option.
            proof {
                g.lemma_skip(c as int);
                lemma_total_nonneg(g.live, g.cols + 1);
                lemma_total_nonneg(g.skip(c as int).live, g.cols + 1);
            }
            let ghost parked = self@;
            if !covered {
                self.unlink_col(c);
            }
            assert(self@ == g.skip(c as int));
            self.recursive_solve(callback);
            proof {
                assert(tail == g.skip(c as int).trace());
                lemma_sent_within(log, done, tail, Seq::<Call>::empty(), callback.calls(), self.aborted());
                assert(done + tail + Seq::<Call>::empty() =~= g.trace());
                assert(done + tail =~= g.trace());
            }
            if !covered {
                self.relink_col(c, Ghost(parked));
            }
        } else {
            proof {
                if !self.aborted() {
                    assert(tail =~= Seq::<Call>::empty());
                    assert(done + tail =~= done);
                }
            }
        }
        // Undo all modifications
        if covered {
            self.uncover_from(c, Ghost(g));
        } else {
            self.untweak_rows(first, Ghost(g), Ghost(k));
        }
    }

    /// Finds every way to choose rows so that each column is covered a
    /// number of times within its range, and hands each to `callback`.
    ///
    /// The matrix is left as it was. The calls of the hooks are those of
    /// the search and then, unless the search was stopped, the call that
    /// tells of its end.
    pub fn solve<C: Callback>(&mut self, callback: &mut C)
        requires
            old(self).ready(),
        ensures
            final(self).ready(),
            final(self)@ == old(self)@,
            forall|c: int| 0 <= c <= final(self)@.cols ==> final(self)@.weight[c] == 0,
            final(self).aborted() ==> sent(old(callback).calls(), final(callback).calls(), true, old(self)@.trace()),
            !final(self).aborted() ==> final(callback).calls() == old(callback).calls() + old(self)@.trace().push(
                Call::Finish,
            ),
            final(self).aborted() == asked(final(callback).calls().skip(old(callback).calls().len() as int)),
            old(callback).quiet() ==> final(callback).quiet() && !final(self).aborted(),
    {
        self.abort_requested = false;
        assert(self@ =~= old(self)@);
        proof {
            self@.lemma_ready();
        }
        self.recursive_solve(callback);
        proof {
            old(self)@.lemma_trace_quiet();
        }
        if !self.abort_requested {
            callback.on_finish();
            proof {
                assert(callback.calls() =~= old(callback).calls() + old(self)@.trace().push(Call::Finish));
                lemma_finish_quiet(old(callback).calls(), callback.calls(), old(self)@.trace());
            }
        } else {
            proof {
                lemma_sent_asked(old(callback).calls(), callback.calls(), true, old(self)@.trace());
            }
        }
    }

    /// An iterative DLX algorithm: the same search, and the same calls of
    /// the hooks, with the levels of the search on a stack of its own.
    pub fn iterative_solve<C: Callback>(&mut self, callback: &mut C)
        requires
            old(self).ready(),
        ensures
            final(self).ready(),
            final(self)@ == old(self)@,
            forall|c: int| 0 <= c <= final(self)@.cols ==> final(self)@.weight[c] == 0,
            final(self).aborted() ==> sent(old(callback).calls(), final(callback).calls(), true, old(self)@.trace()),
            !final(self).aborted() ==> final(callback).calls() == old(callback).calls() + old(self)@.trace().push(
                Call::Finish,
            ),
            final(self).aborted() == asked(final(callback).calls().skip(old(callback).calls().len() as int)),
            old(callback).quiet() ==> final(callback).quiet() && !final(self).aborted(),
    {
        self.abort_requested = false;
        assert(self@ =~= old(self)@);
        let ghost g0 = self@;
        let ghost log = callback.calls();
        let mut stack: Vec<Frame> = Vec::new();
        let mut task = Task::Enter;
        let ghost mut levels = Seq::<Level>::empty();
        let ghost mut done = Seq::<Call>::empty();
        proof {
            g0.lemma_ready();
            assert(log + done =~= log);
            assert(done + (g0.trace() + rest(levels)) =~= g0.trace());
        }
        while task != Task::Done
            invariant
                steady(task, self@, self.aborted(), callback.calls(), stack@, levels, done, g0, log),
                old(callback).quiet() ==> callback.quiet() && !self.aborted(),
            decreases fuel(task, levels, g0),
        {
            proof {
                if levels.len() > 0 {
                    assert(bound(stack@[levels.len() - 1], levels[levels.len() - 1]));
                }
            }
            match task {
                Task::Enter => {
                    let next = self.step_enter(callback, &mut stack, Ghost(levels), Ghost(done), Ghost(g0), Ghost(log));
                    task = next.0;
                    proof {
                        levels = next.1@;
                        done = next.2@;
                    }
                },
                Task::Advance => {
                    let next = self.step_advance(&mut stack, Ghost(levels), Ghost(g0));
                    proof {
                        lemma_advance(task, next.0, levels, next.1@, g0, self.aborted(), callback.calls(), done, log);
                        levels = next.1@;
                    }
                    task = next.0;
                },
                Task::Resume => {
                    let next = self.step_resume(&mut stack, Ghost(levels), Ghost(g0));
                    proof {
                        lemma_resume(task, next.0, levels, next.1@, g0, self.aborted(), callback.calls(), done, log);
                        levels = next.1@;
                    }
                    task = next.0;
                },
                Task::Undo => {
                    let next = self.step_undo(&mut stack, Ghost(levels), Ghost(g0));
                    proof {
                        lemma_undo(task, next.0, levels, next.1@, g0, self.aborted(), callback.calls(), done, log);
                        levels = next.1@;
                    }
                    task = next.0;
                },
                Task::Done => {},
            }
            proof {
                lemma_fuel(task, levels, g0);
            }
        }
        proof {
            g0.lemma_trace_quiet();
        }
        if !self.abort_requested {
            callback.on_finish();
            proof {
                assert(done + Seq::<Call>::empty() =~= done);
                assert(callback.calls() =~= old(callback).calls() + old(self)@.trace().push(Call::Finish));
                lemma_finish_quiet(old(callback).calls(), callback.calls(), g0.trace());
            }
        } else {
            proof {
                lemma_sent_asked(old(callback).calls(), callback.calls(), true, g0.trace());
            }
        }
    }

    /// Begins a level in the present grid: tells of a solution and of the
    /// step, and chooses a column unless the search is stopped or the
    /// level is at its end.
    fn step_enter<C: Callback>(
        &mut self,
        callback: &mut C,
        stack: &mut Vec<Frame>,
        Ghost(levels): Ghost<Seq<Level>>,
        Ghost(done): Ghost<Seq<Call>>,
        Ghost(g0): Ghost<Grid>,
        Ghost(log): Ghost<Seq<Call>>,
    ) -> (next: (Task, Ghost<Seq<Level>>, Ghost<Seq<Call>>))
        requires
            steady(
                Task::Enter,
                old(self)@,
                old(self).aborted(),
                old(callback).calls(),
                old(stack)@,
                levels,
                done,
                g0,
                log,
            ),
        ensures
            steady(
                next.0,
                final(self)@,
                final(self).aborted(),
                final(callback).calls(),
                final(stack)@,
                next.1@,
                next.2@,
                g0,
                log,
            ),
            fuel(next.0, next.1@, g0) < fuel(Task::Enter, levels, g0),
            old(callback).quiet() ==> final(callback).quiet() && !final(self).aborted(),
    {
        let ghost g = self@;
        let ghost head = g.head();
        proof {
            lemma_rest_ticks(levels);
            g.lemma_ticks();
            g.lemma_head();
            assert(callback.calls() == log + done);
        }
        let found = self.notify(callback);
        proof {
            let whole = g0.trace();
            let rest_of = g.body() + rest(levels);
            assert(whole == done + (g.trace() + rest(levels)));
            assert(done + head + rest_of =~= whole);
            lemma_sent_within(log, done, head, rest_of, callback.calls(), self.aborted());
        }
        let back = if stack.len() == 0 {
            Task::Done
        } else {
            Task::Resume
        };
        if self.abort_requested {
            return (back, Ghost(levels), Ghost(done));
        }
        if found {
            proof {
                assert(g.trace() =~= head);
                assert((done + head) + rest(levels) =~= done + (g.trace() + rest(levels)));
            }
            return (back, Ghost(levels), Ghost(done + head));
        }
        let c = self.choose_best_col();
        if !self.col_fulfillable(c) {
            proof {
                assert(g.trace() =~= head);
                assert((done + head) + rest(levels) =~= done + (g.trace() + rest(levels)));
            }
            return (back, Ghost(levels), Ghost(done + head));
        }
        proof {
            g.lemma_stage(c as int, 0);
            assert(g.live[c as int].take(0) =~= Seq::<int>::empty());
        }
        let w = self.weight[c];
        self.set_weight(c, w + 1);
        let covered = self.col_full(c);
        if covered {
            self.cover_col(c);
        }
        let first = self.node(c).down;
        stack.push(Frame { col: c, first, row: first, covered, skipping: false });
        let ghost level = Level { g, k: 0, skipping: false };
        let ghost above = levels.push(level);
        proof {
            lemma_rest_push(levels, level);
            assert(above.drop_last() =~= levels);
            assert(g.trace() == head + g.rows_trace(c as int, 0) + g.skip_trace(c as int));
            assert((done + head) + (g.rows_trace(c as int, 0) + g.skip_trace(c as int) + rest(levels)) =~= done + (
            g.trace() + rest(levels)));
            assert(stacked(stack@, above, g0)) by {
                assert forall|i: int| 0 <= i < above.len() implies #[trigger] bound(stack@[i], above[i]) by {
                    if i < levels.len() {
                        assert(bound(old(stack)@[i], levels[i]));
                    }
                }
                assert forall|i: int| 0 <= i < above.len() - 1 implies #[trigger] linked_up(stack@, above, i) by {
                    if i < levels.len() - 1 {
                        assert(linked_up(old(stack)@, levels, i));
                    }
                }
            }
        }
        (Task::Advance, Ghost(above), Ghost(done + head))
    }

    /// Goes on to the next row of the top level: chooses it and goes down,
    /// or, beyond the rows or when the search is stopped, goes on without
    /// a row where that is a choice.
    fn step_advance(&mut self, stack: &mut Vec<Frame>, Ghost(levels): Ghost<Seq<Level>>, Ghost(g0): Ghost<Grid>) -> (next:
        (Task, Ghost<Seq<Level>>))
        requires
            poised(Task::Advance, old(self)@, old(stack)@, levels, g0),
        ensures
            final(self).aborted() == old(self).aborted(),
            poised(next.0, final(self)@, final(stack)@, next.1@, g0),
            next.0 == Task::Enter ==> !final(self).aborted(),
            advanced(next.0, levels, next.1@, final(self).aborted()),
    {
        let n = stack.len();
        let f = stack[n - 1];
        let c = f.col;
        let ghost l = levels.last();
        let ghost g = l.g;
        let ghost k = l.k;
        let ghost rs = l.rows();
        proof {
            assert(bound(stack@[n - 1], levels[n - 1]));
            g.lemma_best_col();
            g.lemma_stage(c as int, k);
            assert(g.header_ok(c as int));
        }
        if f.row != c && !self.abort_requested {
            proof {
                if k >= rs.len() {
                    assert(false);
                }
                g.lemma_stage(c as int, k + 1);
                g.lemma_trial(c as int, k);
            }
            if !f.covered {
                // If covered, rows are already hidden.
                self.tweak_row(f.row);
            }
            self.select_row(f.row);
            let row = self.node(f.row).row;
            self.partial_sol.push(row);
            assert(self@ =~= g.trial(c as int, k));
            if self.col_fulfillable(c) {
                (Task::Enter, Ghost(levels))
            } else {
                (Task::Resume, Ghost(levels))
            }
        } else {
            let w = self.weight[c];
            self.set_weight(c, w - 1);
            assert(self@ =~= g.stage(c as int, k).unbump(c as int));
            if !self.abort_requested && self.col_fulfilled(c) {
                // Not selecting any row is also an option.
                proof {
                    if k < rs.len() {
                        assert(g.stage(c as int, k).is_item(rs[k]));
                        assert(false);
                    }
                    g.lemma_skip(c as int);
                }
                if !f.covered {
                    self.unlink_col(c);
                }
                stack.set(n - 1, Frame { col: f.col, first: f.first, row: f.row, covered: f.covered, skipping: true });
                let ghost level = Level { g, k, skipping: true };
                let ghost above = levels.update(n - 1, level);
                proof {
                    assert(stacked(stack@, above, g0)) by {
                        assert forall|i: int| 0 <= i < above.len() implies #[trigger] bound(stack@[i], above[i]) by {
                            if i < n - 1 {
                                assert(bound(old(stack)@[i], levels[i]));
                            }
                        }
                        assert forall|i: int| 0 <= i < above.len() - 1 implies #[trigger] linked_up(
                            stack@,
                            above,
                            i,
                        ) by {
                            assert(linked_up(old(stack)@, levels, i));
                        }
                    }
                }
                (Task::Enter, Ghost(above))
            } else {
                (Task::Undo, Ghost(levels))
            }
        }
    }

    /// Takes back what led below the top level: the choice of a row, after
    /// which the level comes to the next row, or the choice of no row.
    fn step_resume(&mut self, stack: &mut Vec<Frame>, Ghost(levels): Ghost<Seq<Level>>, Ghost(g0): Ghost<Grid>) -> (next:
        (Task, Ghost<Seq<Level>>))
        requires
            poised(Task::Resume, old(self)@, old(stack)@, levels, g0),
        ensures
            final(self).aborted() == old(self).aborted(),
            poised(next.0, final(self)@, final(stack)@, next.1@, g0),
            next.0 != Task::Enter,
            resumed(next.0, levels, next.1@),
    {
        let n = stack.len();
        let f = stack[n - 1];
        let c = f.col;
        let ghost l = levels.last();
        let ghost g = l.g;
        let ghost k = l.k;
        let ghost rs = l.rows();
        proof {
            assert(bound(stack@[n - 1], levels[n - 1]));
            g.lemma_best_col();
            g.lemma_stage(c as int, k);
        }
        if f.skipping {
            proof {
                g.lemma_skip(c as int);
            }
            if !f.covered {
                self.relink_col(c, Ghost(g.stage(c as int, k).unbump(c as int)));
            }
            (Task::Undo, Ghost(levels))
        } else {
            proof {
                g.lemma_stage(c as int, k + 1);
                g.lemma_trial(c as int, k);
            }
            let ghost base = g.stage(
                c as int,
                if f.covered {
                    k
                } else {
                    k + 1
                },
            );
            self.partial_sol.pop();
            assert(self@ =~= base.select_row(f.row as int));
            self.unselect_row(f.row, Ghost(base));
            let below = self.node(f.row).down;
            stack.set(n - 1, Frame { col: f.col, first: f.first, row: below, covered: f.covered, skipping: false });
            let ghost level = Level { g, k: k + 1, skipping: false };
            let ghost above = levels.update(n - 1, level);
            proof {
                assert(stacked(stack@, above, g0)) by {
                    assert forall|i: int| 0 <= i < above.len() implies #[trigger] bound(stack@[i], above[i]) by {
                        if i < n - 1 {
                            assert(bound(old(stack)@[i], levels[i]));
                        }
                    }
                    assert forall|i: int| 0 <= i < above.len() - 1 implies #[trigger] linked_up(stack@, above, i) by {
                        assert(linked_up(old(stack)@, levels, i));
                    }
                }
            }
            (Task::Advance, Ghost(above))
        }
    }

    /// Takes back what the top level did to the grid, and leaves the
    /// level.
    fn step_undo(&mut self, stack: &mut Vec<Frame>, Ghost(levels): Ghost<Seq<Level>>, Ghost(g0): Ghost<Grid>) -> (next: (
        Task,
        Ghost<Seq<Level>>,
    ))
        requires
            poised(Task::Undo, old(self)@, old(stack)@, levels, g0),
        ensures
            final(self).aborted() == old(self).aborted(),
            poised(next.0, final(self)@, final(stack)@, next.1@, g0),
            next.0 != Task::Enter,
            next.1@ == levels.drop_last(),
            next.0 == Task::Resume || next.0 == Task::Done,
    {
        let n = stack.len();
        let f = stack[n - 1];
        let c = f.col;
        let ghost l = levels.last();
        let ghost g = l.g;
        let ghost k = l.k;
        let ghost rs = l.rows();
        proof {
            assert(bound(stack@[n - 1], levels[n - 1]));
            g.lemma_best_col();
            g.lemma_stage(c as int, k);
            g.lemma_stage(c as int, 0);
            assert(g.header_ok(c as int));
            assert(g.column_ok(c as int));
            if rs.len() > 0 {
                assert(g.member_ok(c as int, 0));
            }
        }
        // Undo all modifications
        if f.covered {
            self.uncover_from(c, Ghost(g));
        } else {
            self.untweak_rows(f.first, Ghost(g), Ghost(k));
        }
        stack.pop();
        let ghost below = levels.drop_last();
        proof {
            assert(stacked(stack@, below, g0)) by {
                assert forall|i: int| 0 <= i < below.len() implies #[trigger] bound(stack@[i], below[i]) by {
                    assert(bound(old(stack)@[i], levels[i]));
                }
                assert forall|i: int| 0 <= i < below.len() - 1 implies #[trigger] linked_up(stack@, below, i) by {
                    assert(linked_up(old(stack)@, levels, i));
                }
            }
            if n > 1 {
                assert(linked_up(old(stack)@, levels, n - 2));
            }
        }
        if stack.len() == 0 {
            (Task::Done, Ghost(below))
        } else {
            (Task::Resume, Ghost(below))
        }
    }

    /// Whether a stop of the search has been asked for.
    pub fn is_aborted(&self) -> (b: bool)
        ensures
            b == self.aborted(),
    {
        self.abort_requested
    }

    /// Number of columns.
    pub fn col_count(&self) -> (n: usize)
        ensures
            n == self@.cols,
    {
        self.col_cnt
    }

    /// Number of rows.
    pub fn row_count(&self) -> (n: usize)
        ensures
            n == self@.row_count,
    {
        self.row_cnt
    }

    /// Number of nodes: the root, the headers and the items.
    pub fn node_count(&self) -> (n: usize)
        ensures
            n == self@.nodes(),
    {
        self.pool.len()
    }

    /// The links of node `i`: left, right, up and down.
    pub fn links(&self, i: usize) -> (l: (usize, usize, usize, usize))
        requires
            i < self@.nodes(),
        ensures
            l.0 == self@.left[i as int],
            l.1 == self@.right[i as int],
            l.2 == self@.up[i as int],
            l.3 == self@.down[i as int],
    {
        let n = self.node(i);
        (n.left, n.right, n.up, n.down)
    }

    /// Number of live items of column `c`.
    pub fn size_of(&self, c: usize) -> (n: usize)
        requires
            self@.sized(),
            c <= self@.cols,
        ensures
            n == self@.size[c as int],
    {
        self.col_size[c]
    }

    /// Number of chosen rows that hold column `c`.
    pub fn weight_of(&self, c: usize) -> (n: usize)
        requires
            self@.sized(),
            c <= self@.cols,
        ensures
            n == self@.weight[c as int],
    {
        self.weight[c]
    }

    /// Asks the search to stop at its next step.
    pub fn abort(&mut self)
        ensures
            final(self)@ == old(self)@,
            final(self).aborted(),
    {
        self.abort_requested = true;
        assert(self@ =~= old(self)@);
    }

    /// The matrix is well-formed and at rest: no row is chosen, every
    /// column is active and every item live.
    pub open spec fn ready(&self) -> bool {
        self@.ready()
    }
}

} // verus!
