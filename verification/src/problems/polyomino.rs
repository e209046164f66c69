//! A polyomino packing problem.

use vstd::prelude::*;
use vstd::relations::{sorted_by, total_ordering};
use indexmap::IndexMap;
use crate::vector::Vector2D;
use crate::problem::{Problem, put, key_index, unique_keys, lemma_key_index};

verus! {

// Orientation
// ===========
/// An orientation of a piece.
///
/// Reflection is applied first, then rotation.
#[derive(PartialEq, Eq, Structural, Clone, Copy, Hash, Debug, Default)]
pub struct Orientation {
    pub reflection: bool,
    pub rotation: i32,  // 0..4
}

// Cells
// =====
/// A cell stands before another, or is the same: further left, or in the
/// same x and not further up.
pub open spec fn lex_le(a: Vector2D, b: Vector2D) -> bool {
    a.x < b.x || (a.x == b.x && a.y <= b.y)
}

/// The order in which a piece keeps its cells.
pub open spec fn cell_order() -> spec_fn(Vector2D, Vector2D) -> bool {
    |a: Vector2D, b: Vector2D| lex_le(a, b)
}

/// The least x among the first `n` cells.
pub open spec fn least_x(cells: Seq<Vector2D>, n: int) -> int
    decreases n,
{
    if n <= 1 {
        cells[0].x as int
    } else if cells[n - 1].x < least_x(cells, n - 1) {
        cells[n - 1].x as int
    } else {
        least_x(cells, n - 1)
    }
}

/// The greatest x among the first `n` cells.
pub open spec fn greatest_x(cells: Seq<Vector2D>, n: int) -> int
    decreases n,
{
    if n <= 1 {
        cells[0].x as int
    } else if cells[n - 1].x > greatest_x(cells, n - 1) {
        cells[n - 1].x as int
    } else {
        greatest_x(cells, n - 1)
    }
}

/// The least y among the first `n` cells.
pub open spec fn least_y(cells: Seq<Vector2D>, n: int) -> int
    decreases n,
{
    if n <= 1 {
        cells[0].y as int
    } else if cells[n - 1].y < least_y(cells, n - 1) {
        cells[n - 1].y as int
    } else {
        least_y(cells, n - 1)
    }
}

/// The greatest y among the first `n` cells.
pub open spec fn greatest_y(cells: Seq<Vector2D>, n: int) -> int
    decreases n,
{
    if n <= 1 {
        cells[0].y as int
    } else if cells[n - 1].y > greatest_y(cells, n - 1) {
        cells[n - 1].y as int
    } else {
        greatest_y(cells, n - 1)
    }
}

/// The width and the height of the box around the cells.
pub open spec fn extent(cells: Seq<Vector2D>) -> (int, int) {
    let n = cells.len() as int;
    (greatest_x(cells, n) - least_x(cells, n) + 1, greatest_y(cells, n) - least_y(cells, n) + 1)
}

/// The box around the cells has a width and a height that are coordinates.
pub open spec fn boxed(cells: Seq<Vector2D>) -> bool {
    extent(cells).0 <= i32::MAX && extent(cells).1 <= i32::MAX
}

/// The cells moved so that the least x and the least y are 0.
pub open spec fn normal(cells: Seq<Vector2D>) -> Seq<Vector2D> {
    let n = cells.len() as int;
    Seq::new(
        cells.len(),
        |i: int| Vector2D { x: (cells[i].x - least_x(cells, n)) as i32, y: (cells[i].y - least_y(cells, n)) as i32 },
    )
}

/// The cells mirrored in the y axis.
pub open spec fn mirrored(cells: Seq<Vector2D>) -> Seq<Vector2D> {
    Seq::new(cells.len(), |i: int| Vector2D { x: (-cells[i].x) as i32, y: cells[i].y })
}

/// The cells turned by `turns` quarter turns.
pub open spec fn turned(cells: Seq<Vector2D>, turns: int) -> Seq<Vector2D> {
    Seq::new(
        cells.len(),
        |i: int|
            Vector2D {
                x: Vector2D::turned(cells[i].point(), turns).0 as i32,
                y: Vector2D::turned(cells[i].point(), turns).1 as i32,
            },
    )
}

/// The cells moved by `trans`.
pub open spec fn moved(cells: Seq<Vector2D>, trans: Vector2D) -> Seq<Vector2D> {
    Seq::new(cells.len(), |i: int| Vector2D { x: (cells[i].x + trans.x) as i32, y: (cells[i].y + trans.y) as i32 })
}

/// The least and the greatest coordinates bound every cell, and are
/// coordinates of cells.
pub proof fn lemma_bounds(cells: Seq<Vector2D>, n: int)
    requires
        0 < n <= cells.len(),
    ensures
        forall|i: int|
            0 <= i < n ==> least_x(cells, n) <= (#[trigger] cells[i]).x <= greatest_x(cells, n) && least_y(cells, n)
                <= cells[i].y <= greatest_y(cells, n),
        exists|i: int| 0 <= i < n && (#[trigger] cells[i]).x == least_x(cells, n),
        exists|i: int| 0 <= i < n && (#[trigger] cells[i]).x == greatest_x(cells, n),
        exists|i: int| 0 <= i < n && (#[trigger] cells[i]).y == least_y(cells, n),
        exists|i: int| 0 <= i < n && (#[trigger] cells[i]).y == greatest_y(cells, n),
    decreases n,
{
    if n > 1 {
        lemma_bounds(cells, n - 1);
        let a = choose|i: int| 0 <= i < n - 1 && (#[trigger] cells[i]).x == least_x(cells, n - 1);
        let b = choose|i: int| 0 <= i < n - 1 && (#[trigger] cells[i]).x == greatest_x(cells, n - 1);
        let c = choose|i: int| 0 <= i < n - 1 && (#[trigger] cells[i]).y == least_y(cells, n - 1);
        let d = choose|i: int| 0 <= i < n - 1 && (#[trigger] cells[i]).y == greatest_y(cells, n - 1);
        let a2 = if cells[n - 1].x < least_x(cells, n - 1) { n - 1 } else { a };
        let b2 = if cells[n - 1].x > greatest_x(cells, n - 1) { n - 1 } else { b };
        let c2 = if cells[n - 1].y < least_y(cells, n - 1) { n - 1 } else { c };
        let d2 = if cells[n - 1].y > greatest_y(cells, n - 1) { n - 1 } else { d };
        assert(cells[a2].x == least_x(cells, n));
        assert(cells[b2].x == greatest_x(cells, n));
        assert(cells[c2].y == least_y(cells, n));
        assert(cells[d2].y == greatest_y(cells, n));
    } else {
        assert(cells[0].x == least_x(cells, n));
    }
}

/// The order of the cells is a total order.
pub proof fn lemma_cell_order()
    ensures
        total_ordering(cell_order()),
{
    let r = cell_order();
    assert forall|a: Vector2D, b: Vector2D| #[trigger] r(a, b) && #[trigger] r(b, a) implies a == b by {}
    assert forall|a: Vector2D, b: Vector2D, c: Vector2D| #[trigger] r(a, b) && #[trigger] r(b, c) implies r(a, c) by {}
    assert forall|a: Vector2D, b: Vector2D| #[trigger] r(a, b) || #[trigger] r(b, a) by {}
    assert forall|a: Vector2D| #[trigger] r(a, a) by {}
}

/// `slice::sort_by_key` with the pair of the coordinates as the key: the
/// same cells, in ascending order of the key, pairs being ordered by the
/// first part and then by the second.
#[verifier::external_body]
fn sort_cells(cells: &mut Vec<Vector2D>)
    ensures
        sorted_by(final(cells)@, cell_order()),
        final(cells)@.to_multiset() == old(cells)@.to_multiset(),
{
    cells.sort_by_key(|c| (c.x, c.y));
}

// Polyomino
// =========
/// The content of a piece.
pub struct PolyominoView {
    /// The cells, in their order.
    pub cells: Seq<Vector2D>,
    /// The width and the height of the box around the cells.
    pub size: Vector2D,
}

impl PolyominoView {
    /// The piece has cells, in their order, within its box, which begins
    /// at 0.
    pub open spec fn wf(self) -> bool {
        &&& self.cells.len() > 0
        &&& sorted_by(self.cells, cell_order())
        &&& forall|i: int|
            0 <= i < self.cells.len() ==> 0 <= (#[trigger] self.cells[i]).x < self.size.x && 0 <= self.cells[i].y
                < self.size.y
    }

    /// The piece is made of `cells`: it has them, moved so that the least
    /// coordinates are 0, in their order.
    pub open spec fn made_of(self, cells: Seq<Vector2D>) -> bool {
        &&& sorted_by(self.cells, cell_order())
        &&& self.cells.to_multiset() == normal(cells).to_multiset()
        &&& self.size.point() == extent(cells)
    }

    /// The piece that is made of `cells`.
    pub open spec fn shaped(cells: Seq<Vector2D>) -> PolyominoView {
        choose|p: PolyominoView| p.made_of(cells)
    }

    /// The piece reflected in the y axis.
    pub open spec fn reflected(self) -> PolyominoView {
        PolyominoView::shaped(mirrored(self.cells))
    }

    /// The piece turned by `turns` quarter turns.
    pub open spec fn rotated(self, turns: int) -> PolyominoView {
        PolyominoView::shaped(turned(self.cells, turns))
    }

    /// The piece in an orientation.
    pub open spec fn oriented(self, o: Orientation) -> PolyominoView {
        if o.reflection {
            self.reflected().rotated(o.rotation as int)
        } else {
            self.rotated(o.rotation as int)
        }
    }

    /// Only one piece is made of given cells.
    pub proof fn lemma_shaped(self, cells: Seq<Vector2D>)
        requires
            self.made_of(cells),
        ensures
            self == PolyominoView::shaped(cells),
    {
        let other = PolyominoView::shaped(cells);
        assert(other.made_of(cells));
        lemma_cell_order();
        vstd::seq_lib::lemma_sorted_unique(self.cells, other.cells, cell_order());
    }

    /// A piece made of cells whose box has coordinates for its size is
    /// well-formed.
    pub proof fn lemma_made_wf(self, cells: Seq<Vector2D>)
        requires
            self.made_of(cells),
            cells.len() > 0,
            boxed(cells),
        ensures
            self.wf(),
            self.cells.len() == cells.len(),
    {
        broadcast use vstd::seq_lib::group_to_multiset_ensures;

        let n = cells.len() as int;
        let flat = normal(cells);
        lemma_bounds(cells, n);
        assert(self.cells.to_multiset().len() == flat.to_multiset().len());
        assert forall|i: int| 0 <= i < self.cells.len() implies 0 <= (#[trigger] self.cells[i]).x < self.size.x && 0
            <= self.cells[i].y < self.size.y by {
            let c = self.cells[i];
            assert(self.cells.contains(c));
            assert(self.cells.to_multiset().count(c) > 0);
            assert(flat.contains(c));
            let k = choose|k: int| 0 <= k < flat.len() && flat[k] == c;
            assert(least_x(cells, n) <= cells[k].x <= greatest_x(cells, n));
        }
    }
}

/// A polyomino piece, possibly with disconnected cells.
///
/// The coordinates are normalized upon creation, so it does not contain
/// translation information.
#[derive(PartialEq, Eq, Hash, Debug, Default, Clone)]
pub struct Polyomino {
    cells: Vec<Vector2D>,
    size: Vector2D,
}

impl View for Polyomino {
    type V = PolyominoView;

    closed spec fn view(&self) -> PolyominoView {
        PolyominoView { cells: self.cells@, size: self.size }
    }
}

/// An error returned when an invalid piece is given.
///
/// Currently, it only occurs when the given piece is blank.
#[derive(Debug)]
pub struct InvalidPieceError;

impl InvalidPieceError {
    /// What the error says.
    pub fn message(&self) -> (text: &'static str)
        ensures
            text@ == "Invalid (blank) piece."@,
    {
        "Invalid (blank) piece."
    }
}

impl Polyomino {
    /// Creates a new `Polyomino` from a list of cell positions.
    ///
    /// The coordinates are normalized upon creation, i.e., the minimums of
    /// x/y coordinates are set to 0. It returns an error if the given list
    /// is empty.
    pub fn new(cells: &[Vector2D]) -> (res: Result<Polyomino, InvalidPieceError>)
        requires
            cells@.len() > 0 ==> boxed(cells@),
        ensures
            cells@.len() == 0 <==> res is Err,
            res matches Ok(p) ==> p@ == PolyominoView::shaped(cells@) && p@.made_of(cells@) && p@.wf() && p@.cells.len()
                == cells@.len(),
    {
        if cells.len() == 0 {
            return Err(InvalidPieceError);
        }
        let mut min_x = cells[0].x;
        let mut max_x = cells[0].x;
        let mut min_y = cells[0].y;
        let mut max_y = cells[0].y;
        let mut i: usize = 1;
        while i < cells.len()
            invariant
                1 <= i <= cells@.len(),
                min_x == least_x(cells@, i as int),
                max_x == greatest_x(cells@, i as int),
                min_y == least_y(cells@, i as int),
                max_y == greatest_y(cells@, i as int),
            decreases cells@.len() - i,
        {
            let c = cells[i];
            if c.x < min_x {
                min_x = c.x;
            }
            if c.x > max_x {
                max_x = c.x;
            }
            if c.y < min_y {
                min_y = c.y;
            }
            if c.y > max_y {
                max_y = c.y;
            }
            i += 1;
        }
        proof {
            lemma_bounds(cells@, cells@.len() as int);
        }
        let mut normalized_cells: Vec<Vector2D> = Vec::new();
        let mut i: usize = 0;
        while i < cells.len()
            invariant
                0 <= i <= cells@.len(),
                min_x == least_x(cells@, cells@.len() as int),
                max_x == greatest_x(cells@, cells@.len() as int),
                min_y == least_y(cells@, cells@.len() as int),
                max_y == greatest_y(cells@, cells@.len() as int),
                boxed(cells@),
                forall|k: int|
                    0 <= k < cells@.len() ==> min_x <= (#[trigger] cells@[k]).x <= max_x && min_y <= cells@[k].y
                        <= max_y,
                normalized_cells@ == normal(cells@).take(i as int),
            decreases cells@.len() - i,
        {
            let c = cells[i];
            assert(min_x <= cells@[i as int].x <= max_x);
            normalized_cells.push(Vector2D { x: c.x - min_x, y: c.y - min_y });
            proof {
                assert(normalized_cells@ =~= normal(cells@).take(i as int + 1));
            }
            i += 1;
        }
        proof {
            assert(normal(cells@).take(i as int) =~= normal(cells@));
        }
        sort_cells(&mut normalized_cells);
        let piece = Polyomino {
            cells: normalized_cells,
            size: Vector2D { x: max_x - min_x + 1, y: max_y - min_y + 1 },
        };
        proof {
            piece@.lemma_shaped(cells@);
            piece@.lemma_made_wf(cells@);
        }
        Ok(piece)
    }

    /// Returns the list of cells in the piece.
    pub fn cells(&self) -> (cells: &Vec<Vector2D>)
        ensures
            cells@ == self@.cells,
    {
        &self.cells
    }

    /// Returns the size of the bounding box.
    pub fn size(&self) -> (size: Vector2D)
        ensures
            size == self@.size,
    {
        self.size
    }
}

/// The cells of a picture that hold `#`, among the first `n` bytes of row
/// `y`, left to right.
pub open spec fn row_marks(row: Seq<u8>, y: int, n: int) -> Seq<Vector2D>
    decreases n,
{
    if n <= 0 {
        Seq::empty()
    } else if row[n - 1] == 35 {
        row_marks(row, y, n - 1).push(Vector2D { x: (n - 1) as i32, y: y as i32 })
    } else {
        row_marks(row, y, n - 1)
    }
}

/// The cells of a picture that hold `#`, in the first `n` rows, row after
/// row.
pub open spec fn marks(rows: Seq<&[u8]>, n: int) -> Seq<Vector2D>
    decreases n,
{
    if n <= 0 {
        Seq::empty()
    } else {
        marks(rows, n - 1) + row_marks(rows[n - 1]@, n - 1, rows[n - 1]@.len() as int)
    }
}

/// The rows of a picture are no more, and no longer, than a coordinate
/// can count.
pub open spec fn drawable(rows: Seq<&[u8]>) -> bool {
    &&& rows.len() <= i32::MAX
    &&& forall|y: int| 0 <= y < rows.len() ==> (#[trigger] rows[y])@.len() <= i32::MAX
}

/// Cells with coordinates from 0 on lie in a box whose size is a
/// coordinate.
pub proof fn lemma_boxed(cells: Seq<Vector2D>, w: int, h: int)
    requires
        cells.len() > 0,
        0 <= w <= i32::MAX,
        0 <= h <= i32::MAX,
        forall|i: int| 0 <= i < cells.len() ==> -w < (#[trigger] cells[i]).x < w && -h < cells[i].y < h,
        (forall|i: int| 0 <= i < cells.len() ==> 0 <= (#[trigger] cells[i]).x && 0 <= cells[i].y) || (forall|i: int|
            0 <= i < cells.len() ==> (#[trigger] cells[i]).x <= 0 && 0 <= cells[i].y) || (forall|i: int|
            0 <= i < cells.len() ==> (#[trigger] cells[i]).x <= 0 && cells[i].y <= 0) || (forall|i: int|
            0 <= i < cells.len() ==> 0 <= (#[trigger] cells[i]).x && cells[i].y <= 0),
    ensures
        boxed(cells),
        extent(cells).0 <= w,
        extent(cells).1 <= h,
{
    let n = cells.len() as int;
    lemma_bounds(cells, n);
    let a = choose|i: int| 0 <= i < n && (#[trigger] cells[i]).x == least_x(cells, n);
    let b = choose|i: int| 0 <= i < n && (#[trigger] cells[i]).x == greatest_x(cells, n);
    let c = choose|i: int| 0 <= i < n && (#[trigger] cells[i]).y == least_y(cells, n);
    let d = choose|i: int| 0 <= i < n && (#[trigger] cells[i]).y == greatest_y(cells, n);
    assert(-w < cells[a].x && cells[b].x < w);
    assert(-h < cells[c].y && cells[d].y < h);
}

/// The order in which the orientations are tried: first the four
/// rotations, then the four rotations of the reflection.
pub open spec fn nth_orientation(k: int) -> Orientation {
    Orientation { reflection: k >= 4, rotation: (k % 4) as i32 }
}

/// The cells as pairs of coordinates.
pub open spec fn pairs(cells: Seq<Vector2D>) -> Seq<(i32, i32)> {
    Seq::new(cells.len(), |i: int| (cells[i].x, cells[i].y))
}

/// Different lists of cells are different lists of pairs.
pub proof fn lemma_pairs(a: Seq<Vector2D>, b: Seq<Vector2D>)
    ensures
        pairs(a) == pairs(b) <==> a == b,
{
    if pairs(a) == pairs(b) {
        assert(a.len() == pairs(a).len());
        assert(b.len() == pairs(b).len());
        assert forall|i: int| 0 <= i < a.len() implies a[i] == b[i] by {
            assert(pairs(a)[i] == pairs(b)[i]);
        }
        assert(a =~= b);
    }
}

impl PolyominoView {
    /// Orientation number `k` gives cells that no earlier orientation
    /// gives.
    pub open spec fn is_new(self, k: int) -> bool {
        forall|j: int|
            0 <= j < k ==> (#[trigger] self.oriented(nth_orientation(j))).cells != self.oriented(
                nth_orientation(k),
            ).cells
    }

    /// Among the first `n` orientations, those that give cells that no
    /// earlier orientation gives.
    pub open spec fn unique_upto(self, n: int) -> Seq<Orientation>
        decreases n,
    {
        if n <= 0 {
            Seq::empty()
        } else if self.is_new(n - 1) {
            self.unique_upto(n - 1).push(nth_orientation(n - 1))
        } else {
            self.unique_upto(n - 1)
        }
    }
}

/// `indexmap::IndexSet`: a hash set that keeps its values in the order of
/// insertion. Nothing is known of a set but what the functions below say.
#[verifier::external_type_specification]
#[verifier::external_body]
#[verifier::reject_recursive_types(T)]
#[verifier::reject_recursive_types(S)]
pub struct ExIndexSet<T, S>(indexmap::IndexSet<T, S>);

/// The lists of cells that a set holds.
pub uninterp spec fn seen_shapes(set: indexmap::IndexSet<Vec<(i32, i32)>>) -> Set<Seq<(i32, i32)>>;

/// `IndexSet::new`: a set that holds nothing.
#[verifier::external_body]
fn shapes_new() -> (set: indexmap::IndexSet<Vec<(i32, i32)>>)
    ensures
        seen_shapes(set) == Set::<Seq<(i32, i32)>>::empty(),
{
    indexmap::IndexSet::new()
}

/// `IndexSet::contains`: whether the set holds the value.
#[verifier::external_body]
fn shapes_contains(set: &indexmap::IndexSet<Vec<(i32, i32)>>, shape: &Vec<(i32, i32)>) -> (b: bool)
    ensures
        b == seen_shapes(*set).contains(shape@),
{
    set.contains(shape)
}

/// `IndexSet::insert`: the set holds the value from now on; the result
/// says whether it did not before.
#[verifier::external_body]
fn shapes_insert(set: &mut indexmap::IndexSet<Vec<(i32, i32)>>, shape: Vec<(i32, i32)>) -> (b: bool)
    ensures
        seen_shapes(*final(set)) == seen_shapes(*old(set)).insert(shape@),
        b == !seen_shapes(*old(set)).contains(shape@),
{
    set.insert(shape)
}

impl Polyomino {
    /// Convenience function to create a new `Polyomino` from a bytes array.
    ///
    /// It uses the inverted y-axis coordinate system. `#` represents a cell
    /// in the piece. If `array[y][x]` is `#`, then the cell `(x, y)` is a
    /// corresponding cell in the piece. Any other byte represents an empty
    /// cell. (usually `.`)
    pub fn from_bytes_array(array: &[&[u8]]) -> (res: Result<Polyomino, InvalidPieceError>)
        requires
            drawable(array@),
        ensures
            marks(array@, array@.len() as int).len() == 0 <==> res is Err,
            res matches Ok(p) ==> p@ == PolyominoView::shaped(marks(array@, array@.len() as int)) && p@.wf(),
    {
        let mut cells: Vec<Vector2D> = Vec::new();
        let mut y: usize = 0;
        while y < array.len()
            invariant
                0 <= y <= array@.len(),
                drawable(array@),
                cells@ == marks(array@, y as int),
                forall|i: int| 0 <= i < cells@.len() ==> 0 <= (#[trigger] cells@[i]).x < i32::MAX && 0 <= cells@[i].y
                    < i32::MAX,
            decreases array@.len() - y,
        {
            let row = array[y];
            let ghost before = cells@;
            let mut x: usize = 0;
            while x < row.len()
                invariant
                    0 <= y < array@.len() <= i32::MAX,
                    row@ == array@[y as int]@,
                    row@.len() <= i32::MAX,
                    0 <= x <= row@.len(),
                    cells@ == before + row_marks(row@, y as int, x as int),
                    forall|i: int|
                        0 <= i < cells@.len() ==> 0 <= (#[trigger] cells@[i]).x < i32::MAX && 0 <= cells@[i].y
                            < i32::MAX,
                decreases row@.len() - x,
            {
                if row[x] == 35 {
                    cells.push(Vector2D { x: x as i32, y: y as i32 });
                }
                proof {
                    assert(cells@ =~= before + row_marks(row@, y as int, x as int + 1));
                }
                x += 1;
            }
            y += 1;
        }
        proof {
            if cells@.len() > 0 {
                lemma_boxed(cells@, i32::MAX as int, i32::MAX as int);
            }
        }
        Polyomino::new(cells.as_slice())
    }

    /// Orients the piece according to the given orientation.
    /// Reflection is applied first, then rotation.
    pub fn orient(&self, orientation: Orientation) -> (res: Polyomino)
        requires
            self@.wf(),
        ensures
            res@ == self@.oriented(orientation),
            res@.wf(),
            res@.cells.len() == self@.cells.len(),
            res@.size.x <= self@.size.x || res@.size.x <= self@.size.y,
            res@.size.y <= self@.size.x || res@.size.y <= self@.size.y,
    {
        if orientation.reflection {
            self.reflect().rotate(orientation.rotation)
        } else {
            self.rotate(orientation.rotation)
        }
    }

    /// Reflects the piece in the y axis.
    pub fn reflect(&self) -> (res: Polyomino)
        requires
            self@.wf(),
        ensures
            res@ == self@.reflected(),
            res@.wf(),
            res@.cells.len() == self@.cells.len(),
            res@.size.x <= self@.size.x,
            res@.size.y <= self@.size.y,
    {
        let mut reflected: Vec<Vector2D> = Vec::new();
        let mut i: usize = 0;
        while i < self.cells.len()
            invariant
                0 <= i <= self.cells@.len(),
                self@.wf(),
                reflected@ == mirrored(self@.cells).take(i as int),
            decreases self.cells@.len() - i,
        {
            let c = self.cells[i];
            reflected.push(Vector2D { x: -c.x, y: c.y });
            proof {
                assert(reflected@ =~= mirrored(self@.cells).take(i as int + 1));
            }
            i += 1;
        }
        proof {
            assert(mirrored(self@.cells).take(i as int) =~= mirrored(self@.cells));
            assert(0 <= self@.cells[0].x < self@.size.x && 0 <= self@.cells[0].y < self@.size.y);
            lemma_boxed(reflected@, self@.size.x as int, self@.size.y as int);
        }
        Polyomino::new(reflected.as_slice()).unwrap()
    }

    /// Rotates the piece as specified amount.
    pub fn rotate(&self, rotation: i32) -> (res: Polyomino)
        requires
            self@.wf(),
        ensures
            res@ == self@.rotated(rotation as int),
            res@.wf(),
            res@.cells.len() == self@.cells.len(),
            res@.size.x <= self@.size.x || res@.size.x <= self@.size.y,
            res@.size.y <= self@.size.x || res@.size.y <= self@.size.y,
    {
        let mut rotated: Vec<Vector2D> = Vec::new();
        let mut i: usize = 0;
        while i < self.cells.len()
            invariant
                0 <= i <= self.cells@.len(),
                self@.wf(),
                rotated@ == turned(self@.cells, rotation as int).take(i as int),
            decreases self.cells@.len() - i,
        {
            let c = self.cells[i];
            rotated.push(c.rotate(rotation));
            proof {
                assert(rotated@ =~= turned(self@.cells, rotation as int).take(i as int + 1));
            }
            i += 1;
        }
        proof {
            assert(turned(self@.cells, rotation as int).take(i as int) =~= turned(self@.cells, rotation as int));
            assert(0 <= self@.cells[0].x < self@.size.x && 0 <= self@.cells[0].y < self@.size.y);
            if (rotation as int) % 2 == 0 {
                lemma_boxed(rotated@, self@.size.x as int, self@.size.y as int);
            } else {
                lemma_boxed(rotated@, self@.size.y as int, self@.size.x as int);
            }
        }
        Polyomino::new(rotated.as_slice()).unwrap()
    }

    /// The cells as pairs of coordinates.
    fn shape(&self) -> (shape: Vec<(i32, i32)>)
        ensures
            shape@ == pairs(self@.cells),
    {
        let mut shape: Vec<(i32, i32)> = Vec::new();
        let mut i: usize = 0;
        while i < self.cells.len()
            invariant
                0 <= i <= self.cells@.len(),
                shape@ == pairs(self@.cells).take(i as int),
            decreases self.cells@.len() - i,
        {
            shape.push((self.cells[i].x, self.cells[i].y));
            proof {
                assert(shape@ =~= pairs(self@.cells).take(i as int + 1));
            }
            i += 1;
        }
        proof {
            assert(pairs(self@.cells).take(i as int) =~= pairs(self@.cells));
        }
        shape
    }

    /// Returns possible orientations of the piece without duplication.
    pub fn unique_orientations(&self) -> (res: Vec<Orientation>)
        requires
            self@.wf(),
        ensures
            res@ == self@.unique_upto(8),
    {
        let mut pieces = shapes_new();
        let mut res: Vec<Orientation> = Vec::new();
        let mut k: i32 = 0;
        while k < 8
            invariant
                0 <= k <= 8,
                self@.wf(),
                res@ == self@.unique_upto(k as int),
                forall|shape: Seq<(i32, i32)>|
                    seen_shapes(pieces).contains(shape) <==> exists|j: int|
                        0 <= j < k && pairs((#[trigger] self@.oriented(nth_orientation(j))).cells) == shape,
            decreases 8 - k,
        {
            let o = Orientation { reflection: k >= 4, rotation: k % 4 };
            assert(o == nth_orientation(k as int));
            let piece = self.orient(o);
            let shape = piece.shape();
            let ghost seen = seen_shapes(pieces);
            proof {
                if seen.contains(shape@) {
                    let j = choose|j: int|
                        0 <= j < k && pairs((#[trigger] self@.oriented(nth_orientation(j))).cells) == shape@;
                    lemma_pairs(self@.oriented(nth_orientation(j)).cells, piece@.cells);
                    assert(!self@.is_new(k as int));
                } else {
                    assert forall|j: int| 0 <= j < k implies (#[trigger] self@.oriented(nth_orientation(j))).cells
                        != self@.oriented(nth_orientation(k as int)).cells by {
                        lemma_pairs(self@.oriented(nth_orientation(j)).cells, piece@.cells);
                    }
                }
            }
            if !shapes_contains(&pieces, &shape) {
                shapes_insert(&mut pieces, shape);
                res.push(o);
            }
            proof {
                assert forall|any: Seq<(i32, i32)>| seen_shapes(pieces).contains(any) <==> exists|j: int|
                    0 <= j < k + 1 && pairs((#[trigger] self@.oriented(nth_orientation(j))).cells) == any by {
                    if seen_shapes(pieces).contains(any) {
                        if seen.contains(any) {
                            let j = choose|j: int|
                                0 <= j < k && pairs((#[trigger] self@.oriented(nth_orientation(j))).cells) == any;
                            assert(0 <= j < k + 1);
                        } else {
                            assert(pairs(self@.oriented(nth_orientation(k as int)).cells) == any);
                        }
                    }
                    if exists|j: int|
                        0 <= j < k + 1 && pairs((#[trigger] self@.oriented(nth_orientation(j))).cells) == any {
                        let j = choose|j: int|
                            0 <= j < k + 1 && pairs((#[trigger] self@.oriented(nth_orientation(j))).cells) == any;
                        if j < k {
                            assert(seen.contains(any));
                        }
                    }
                }
            }
            k += 1;
        }
        res
    }

    /// Returns the list of cells after translation.
    pub fn translated_cells(&self, trans: Vector2D) -> (res: Vec<Vector2D>)
        requires
            forall|i: int| 0 <= i < self@.cells.len() ==> Vector2D::is_point((#[trigger] self@.cells[i]).plus(trans)),
        ensures
            res@ == moved(self@.cells, trans),
    {
        let mut res: Vec<Vector2D> = Vec::new();
        let mut i: usize = 0;
        while i < self.cells.len()
            invariant
                0 <= i <= self.cells@.len(),
                forall|i: int|
                    0 <= i < self@.cells.len() ==> Vector2D::is_point((#[trigger] self@.cells[i]).plus(trans)),
                res@ == moved(self@.cells, trans).take(i as int),
            decreases self.cells@.len() - i,
        {
            let c = self.cells[i];
            assert(Vector2D::is_point(self@.cells[i as int].plus(trans)));
            res.push(c + trans);
            proof {
                assert(res@ =~= moved(self@.cells, trans).take(i as int + 1));
            }
            i += 1;
        }
        proof {
            assert(moved(self@.cells, trans).take(i as int) =~= moved(self@.cells, trans));
        }
        res
    }
}

// Board
// ========
/// The content of a board.
pub struct BoardView {
    /// The rows of the board; `cells[y][x]` says whether the cell `(x, y)`
    /// is empty.
    pub cells: Seq<Seq<bool>>,
    /// The width and the height.
    pub size: Vector2D,
}

/// The rows of a list of lists.
pub open spec fn rows_of(cells: Seq<Vec<bool>>) -> Seq<Seq<bool>> {
    Seq::new(cells.len(), |y: int| cells[y]@)
}

/// The rows of a picture of a board: a cell is empty where the picture
/// holds `.`.
pub open spec fn empty_cells(rows: Seq<&[u8]>) -> Seq<Seq<bool>> {
    Seq::new(rows.len(), |y: int| Seq::new(rows[y]@.len(), |x: int| rows[y]@[x] == 46))
}

impl BoardView {
    /// The board has as many rows as it is high, each as long as it is
    /// wide.
    pub open spec fn wf(self) -> bool {
        &&& self.cells.len() == self.size.y
        &&& forall|y: int| 0 <= y < self.cells.len() ==> (#[trigger] self.cells[y]).len() == self.size.x
    }

    /// The point lies on the board.
    pub open spec fn within(self, p: (int, int)) -> bool {
        0 <= p.0 < self.size.x && 0 <= p.1 < self.size.y
    }

    /// The point is an empty cell of the board.
    pub open spec fn free(self, p: (int, int)) -> bool {
        self.within(p) && self.cells[p.1][p.0]
    }

    /// The cells, moved by `trans`, are empty cells of the board.
    pub open spec fn takes(self, cells: Seq<Vector2D>, trans: Vector2D) -> bool {
        forall|i: int| 0 <= i < cells.len() ==> self.free((#[trigger] cells[i]).plus(trans))
    }
}

/// A board to fit the pieces in.
#[derive(Default, Debug, Clone)]
pub struct Board {
    cells: Vec<Vec<bool>>,
    size: Vector2D,
}

impl View for Board {
    type V = BoardView;

    closed spec fn view(&self) -> BoardView {
        BoardView { cells: rows_of(self.cells@), size: self.size }
    }
}

impl Board {
    /// Creates a new board from a 2D boolean list.
    ///
    /// It uses the inverted y-axis coordinate system. `true` corresponds to
    /// an empty cell where pieces can fit in. If `cells[y][x]` is true,
    /// then the cell `(x, y)` is a corresponding empty cell in the board.
    pub fn new(cells: Vec<Vec<bool>>) -> (board: Board)
        requires
            0 < cells@.len() <= i32::MAX,
            cells@[0]@.len() <= i32::MAX,
        ensures
            board@.cells == rows_of(cells@),
            board@.size.x == cells@[0]@.len(),
            board@.size.y == cells@.len(),
    {
        let size = Vector2D { y: cells.len() as i32, x: cells[0].len() as i32 };
        Board { size, cells }
    }

    /// Convenience function to create a new `Board` from a bytes array.
    ///
    /// It uses the inverted y-axis coordinate system. `.` represents an
    /// empty cell to fit pieces in. Any other byte represents an unused
    /// cell. (usually `#`)
    pub fn from_bytes_array(array: &[&[u8]]) -> (board: Board)
        requires
            array@.len() > 0,
            drawable(array@),
        ensures
            board@.cells == empty_cells(array@),
            board@.size.x == array@[0]@.len(),
            board@.size.y == array@.len(),
    {
        let mut cells: Vec<Vec<bool>> = Vec::new();
        let mut y: usize = 0;
        while y < array.len()
            invariant
                0 <= y <= array@.len(),
                cells@.len() == y,
                rows_of(cells@) == empty_cells(array@).take(y as int),
            decreases array@.len() - y,
        {
            let bytes = array[y];
            let mut row: Vec<bool> = Vec::new();
            let mut x: usize = 0;
            while x < bytes.len()
                invariant
                    0 <= y < array@.len(),
                    bytes@ == array@[y as int]@,
                    0 <= x <= bytes@.len(),
                    row@ == empty_cells(array@)[y as int].take(x as int),
                decreases bytes@.len() - x,
            {
                row.push(bytes[x] == 46);
                proof {
                    assert(row@ =~= empty_cells(array@)[y as int].take(x as int + 1));
                }
                x += 1;
            }
            proof {
                assert(empty_cells(array@)[y as int].take(x as int) =~= empty_cells(array@)[y as int]);
            }
            let ghost before = rows_of(cells@);
            cells.push(row);
            proof {
                assert forall|t: int| 0 <= t < y + 1 implies rows_of(cells@)[t] == empty_cells(array@)[t] by {
                    if t < y {
                        assert(before[t] == empty_cells(array@).take(y as int)[t]);
                        assert(rows_of(cells@)[t] == cells@[t]@);
                    } else {
                        assert(rows_of(cells@)[t] == cells@[t]@);
                    }
                }
                assert(rows_of(cells@) =~= empty_cells(array@).take(y as int + 1));
            }
            y += 1;
        }
        proof {
            assert(empty_cells(array@).take(y as int) =~= empty_cells(array@));
            assert(rows_of(cells@)[0] == empty_cells(array@)[0]);
        }
        Board::new(cells)
    }

    /// Returns a 2D boolean list representing this board.
    ///
    /// It uses the inverted y-axis coordinate system. `true` corresponds to
    /// an empty cell where pieces can fit in. If `cells[y][x]` is true,
    /// then the cell `(x, y)` is a corresponding empty cell in the board.
    pub fn cells(&self) -> (cells: &Vec<Vec<bool>>)
        ensures
            rows_of(cells@) == self@.cells,
    {
        &self.cells
    }

    /// Returns the size of the board.
    pub fn size(&self) -> (size: Vector2D)
        ensures
            size == self@.size,
    {
        self.size
    }

    /// Returns whether the given piece can fit in the board with specified
    /// orientation and translation.
    pub fn piece_fits(&self, piece: &Polyomino, orien: Orientation, trans: Vector2D) -> (b: bool)
        requires
            self@.wf(),
            piece@.wf(),
            forall|i: int|
                0 <= i < piece@.oriented(orien).cells.len() ==> Vector2D::is_point(
                    (#[trigger] piece@.oriented(orien).cells[i]).plus(trans),
                ),
        ensures
            b == self@.takes(piece@.oriented(orien).cells, trans),
    {
        let oriented = piece.orient(orien);
        let cells = oriented.translated_cells(trans);
        let ghost shape = piece@.oriented(orien).cells;
        let mut i: usize = 0;
        while i < cells.len()
            invariant
                0 <= i <= cells@.len(),
                self@.wf(),
                shape == piece@.oriented(orien).cells,
                cells@ == moved(shape, trans),
                forall|k: int| 0 <= k < shape.len() ==> Vector2D::is_point((#[trigger] shape[k]).plus(trans)),
                forall|k: int| 0 <= k < i ==> self@.free((#[trigger] shape[k]).plus(trans)),
            decreases cells@.len() - i,
        {
            let c = cells[i];
            proof {
                assert(Vector2D::is_point(shape[i as int].plus(trans)));
                assert(c == moved(shape, trans)[i as int]);
            }
            if self.out_of_bounds(c) {
                assert(!self@.free(shape[i as int].plus(trans)));
                return false;
            }
            assert(self@.cells[c.y as int].len() == self@.size.x);
            if !self.cells[c.y as usize][c.x as usize] {
                assert(!self@.free(shape[i as int].plus(trans)));
                return false;
            }
            i += 1;
        }
        true
    }

    /// Whether the point lies off the board.
    fn out_of_bounds(&self, v: Vector2D) -> (b: bool)
        ensures
            b == !self@.within(v.point()),
    {
        v.x < 0 || v.x >= self.size.x || v.y < 0 || v.y >= self.size.y
    }
}

// Problem
// =========
/// An identifier of a piece placed in a specified orientation and
/// translation.
pub type CompoundName = (u64, Orientation, Vector2D);

/// An exact cover constraint for polyomino packing problem.
#[derive(PartialEq, Eq, Structural, Clone, Copy, Hash, Debug)]
pub enum CompoundConstraint {
    Piece(u64),
    Cell(Vector2D),
}

impl CompoundConstraint {
    /// The numbers that a constraint is told apart by: its kind, then the
    /// name of the piece or the cell.
    pub open spec fn key(self) -> (u8, u64, i32, i32) {
        match self {
            CompoundConstraint::Piece(name) => (0u8, name, 0i32, 0i32),
            CompoundConstraint::Cell(v) => (1u8, 0u64, v.x, v.y),
        }
    }

    /// The numbers that the constraint is told apart by.
    fn to_key(&self) -> (key: (u8, u64, i32, i32))
        ensures
            key == self.key(),
    {
        match self {
            CompoundConstraint::Piece(name) => (0u8, *name, 0i32, 0i32),
            CompoundConstraint::Cell(v) => (1u8, 0u64, v.x, v.y),
        }
    }
}

/// The keys of a list of constraints.
pub open spec fn keys_of(list: Seq<CompoundConstraint>) -> Seq<(u8, u64, i32, i32)> {
    Seq::new(list.len(), |i: int| list[i].key())
}

/// The constraints of a list in the order in which each comes first.
pub open spec fn once_each(list: Seq<CompoundConstraint>) -> Seq<CompoundConstraint>
    decreases list.len(),
{
    if list.len() == 0 {
        Seq::empty()
    } else if once_each(list.drop_last()).contains(list.last()) {
        once_each(list.drop_last())
    } else {
        once_each(list.drop_last()).push(list.last())
    }
}

/// Two constraints with the same key are the same.
pub proof fn lemma_same_key(a: CompoundConstraint, b: CompoundConstraint)
    requires
        a.key() == b.key(),
    ensures
        a == b,
{
}

/// A list holds a constraint where its keys hold the constraint's key.
pub proof fn lemma_keys_of(list: Seq<CompoundConstraint>, c: CompoundConstraint)
    ensures
        keys_of(list).contains(c.key()) <==> list.contains(c),
{
    let keys = keys_of(list);
    if keys.contains(c.key()) {
        let i = choose|i: int| 0 <= i < keys.len() && keys[i] == c.key();
        lemma_same_key(list[i], c);
    }
    if list.contains(c) {
        let i = choose|i: int| 0 <= i < list.len() && list[i] == c;
        assert(keys[i] == c.key());
    }
}

/// What a list holds stands among its constraints taken once each.
pub proof fn lemma_once_each(list: Seq<CompoundConstraint>, c: CompoundConstraint)
    requires
        list.contains(c),
    ensures
        once_each(list).contains(c),
    decreases list.len(),
{
    let shorter = once_each(list.drop_last());
    let i = choose|i: int| 0 <= i < list.len() && list[i] == c;
    if i == list.len() - 1 {
        if !shorter.contains(c) {
            assert(shorter.push(c)[shorter.len() as int] == c);
        }
    } else {
        assert(list.drop_last()[i] == c);
        lemma_once_each(list.drop_last(), c);
        let at = choose|at: int| 0 <= at < shorter.len() && shorter[at] == c;
        assert(once_each(list)[at] == c);
    }
}

/// The keys that a set holds, in the order of insertion.
pub uninterp spec fn constraint_keys(set: indexmap::IndexSet<(u8, u64, i32, i32)>) -> Seq<(u8, u64, i32, i32)>;

/// `IndexSet::new`: a set that holds nothing.
#[verifier::external_body]
fn keys_new() -> (set: indexmap::IndexSet<(u8, u64, i32, i32)>)
    ensures
        constraint_keys(set) == Seq::<(u8, u64, i32, i32)>::empty(),
{
    indexmap::IndexSet::new()
}

/// `IndexSet::insert`: where the set holds the key it stays as it is;
/// where it does not, the key becomes its last. The result says whether
/// the key is new.
#[verifier::external_body]
fn keys_insert(set: &mut indexmap::IndexSet<(u8, u64, i32, i32)>, key: (u8, u64, i32, i32)) -> (fresh: bool)
    ensures
        fresh == !constraint_keys(*old(set)).contains(key),
        constraint_keys(*final(set)) == if fresh {
            constraint_keys(*old(set)).push(key)
        } else {
            constraint_keys(*old(set))
        },
{
    set.insert(key)
}

/// `IndexSet::get_index_of`: a place at which the key stands, if the set
/// holds it.
#[verifier::external_body]
fn keys_get_index_of(set: &indexmap::IndexSet<(u8, u64, i32, i32)>, key: (u8, u64, i32, i32)) -> (at: Option<usize>)
    ensures
        match at {
            Some(i) => i < constraint_keys(*set).len() && constraint_keys(*set)[i as int] == key,
            None => !constraint_keys(*set).contains(key),
        },
{
    set.get_index_of(&key)
}

impl BoardView {
    /// The empty cells among the first `n` cells of row `y`, left to
    /// right.
    pub open spec fn free_in_row(self, y: int, n: int) -> Seq<Vector2D>
        decreases n,
    {
        if n <= 0 {
            Seq::empty()
        } else if self.cells[y][n - 1] {
            self.free_in_row(y, n - 1).push(Vector2D { x: (n - 1) as i32, y: y as i32 })
        } else {
            self.free_in_row(y, n - 1)
        }
    }

    /// The empty cells in the first `n` rows, row after row.
    pub open spec fn free_cells(self, n: int) -> Seq<Vector2D>
        decreases n,
    {
        if n <= 0 {
            Seq::empty()
        } else {
            self.free_cells(n - 1) + self.free_in_row(n - 1, self.size.x as int)
        }
    }

    /// The translations to the first `n` cells of row `y` by which
    /// `cells` come to lie on empty cells, left to right.
    pub open spec fn spots_in_row(self, cells: Seq<Vector2D>, y: int, n: int) -> Seq<Vector2D>
        decreases n,
    {
        if n <= 0 {
            Seq::empty()
        } else if self.takes(cells, Vector2D { x: (n - 1) as i32, y: y as i32 }) {
            self.spots_in_row(cells, y, n - 1).push(Vector2D { x: (n - 1) as i32, y: y as i32 })
        } else {
            self.spots_in_row(cells, y, n - 1)
        }
    }

    /// The translations to the first `w` cells of the first `n` rows by
    /// which `cells` come to lie on empty cells, row after row.
    pub open spec fn spots(self, cells: Seq<Vector2D>, w: int, n: int) -> Seq<Vector2D>
        decreases n,
    {
        if n <= 0 {
            Seq::empty()
        } else {
            self.spots(cells, w, n - 1) + self.spots_in_row(cells, n - 1, w)
        }
    }

    /// The places of a piece in one orientation: the translations that
    /// keep its box on the board and bring its cells to lie on empty
    /// cells.
    pub open spec fn places(self, piece: PolyominoView, o: Orientation) -> Seq<(Orientation, Vector2D)> {
        let q = piece.oriented(o);
        self.spots(q.cells, self.size.x - q.size.x + 1, self.size.y - q.size.y + 1).map(
            |i: int, t: Vector2D| (o, t),
        )
    }

    /// The places of a piece in the first `n` of the orientations `os`.
    pub open spec fn placements_upto(self, piece: PolyominoView, os: Seq<Orientation>, n: int) -> Seq<
        (Orientation, Vector2D),
    >
        decreases n,
    {
        if n <= 0 {
            Seq::empty()
        } else {
            self.placements_upto(piece, os, n - 1) + self.places(piece, os[n - 1])
        }
    }

    /// The places of a piece on the board: for each of its orientations
    /// that differ, in their order, the translations row after row.
    pub open spec fn placements(self, piece: PolyominoView) -> Seq<(Orientation, Vector2D)> {
        self.placements_upto(piece, piece.unique_upto(8), piece.unique_upto(8).len() as int)
    }
}

/// The constraints that a piece covers when it is placed: that the piece
/// is used, and the cells on which it comes to lie.
pub open spec fn subset_of(name: u64, cells: Seq<Vector2D>) -> Seq<CompoundConstraint> {
    Seq::new(
        cells.len() + 1,
        |i: int|
            if i == 0 {
                CompoundConstraint::Piece(name)
            } else {
                CompoundConstraint::Cell(cells[i - 1])
            },
    )
}

/// The constraints that a piece covers when it is placed by `trans` in
/// the orientation in which `oriented_piece` is given.
pub fn generate_subset(name: u64, oriented_piece: &Polyomino, trans: Vector2D) -> (subset: Vec<CompoundConstraint>)
    requires
        forall|i: int|
            0 <= i < oriented_piece@.cells.len() ==> Vector2D::is_point(
                (#[trigger] oriented_piece@.cells[i]).plus(trans),
            ),
    ensures
        subset@ == subset_of(name, moved(oriented_piece@.cells, trans)),
{
    let cells = oriented_piece.translated_cells(trans);
    let mut subset: Vec<CompoundConstraint> = Vec::new();
    subset.push(CompoundConstraint::Piece(name));
    let mut i: usize = 0;
    while i < cells.len()
        invariant
            0 <= i <= cells@.len(),
            subset@ == subset_of(name, cells@).take(i as int + 1),
        decreases cells@.len() - i,
    {
        subset.push(CompoundConstraint::Cell(cells[i]));
        proof {
            assert(subset@ =~= subset_of(name, cells@).take(i as int + 2));
        }
        i += 1;
    }
    proof {
        assert(subset_of(name, cells@).take(i as int + 1) =~= subset_of(name, cells@));
    }
    subset
}

impl Board {
    /// The empty cells of the board, row after row.
    pub fn free_cells(&self) -> (cells: Vec<Vector2D>)
        requires
            self@.wf(),
        ensures
            cells@ == self@.free_cells(self@.size.y as int),
    {
        let mut cells: Vec<Vector2D> = Vec::new();
        let mut y: i32 = 0;
        while y < self.size.y
            invariant
                self@.wf(),
                0 <= y <= self@.size.y,
                cells@ == self@.free_cells(y as int),
            decreases self@.size.y - y,
        {
            let ghost before = cells@;
            assert(self@.cells[y as int].len() == self@.size.x);
            let mut x: i32 = 0;
            while x < self.size.x
                invariant
                    self@.wf(),
                    0 <= y < self@.size.y,
                    0 <= x <= self@.size.x,
                    cells@ == before + self@.free_in_row(y as int, x as int),
                decreases self@.size.x - x,
            {
                assert(self@.cells[y as int].len() == self@.size.x);
                if self.cells[y as usize][x as usize] {
                    cells.push(Vector2D { x, y });
                }
                proof {
                    assert(cells@ =~= before + self@.free_in_row(y as int, x as int + 1));
                }
                x += 1;
            }
            y += 1;
        }
        cells
    }

    /// The places of a piece on the board: for each of its orientations
    /// that differ, in their order, the translations, row after row, that
    /// keep its box on the board and bring its cells to lie on empty
    /// cells.
    pub fn placements(&self, piece: &Polyomino) -> (res: Vec<(Orientation, Vector2D)>)
        requires
            self@.wf(),
            piece@.wf(),
        ensures
            res@ == self@.placements(piece@),
    {
        let os = piece.unique_orientations();
        let mut res: Vec<(Orientation, Vector2D)> = Vec::new();
        let mut k: usize = 0;
        while k < os.len()
            invariant
                self@.wf(),
                piece@.wf(),
                os@ == piece@.unique_upto(8),
                0 <= k <= os@.len(),
                res@ == self@.placements_upto(piece@, os@, k as int),
            decreases os@.len() - k,
        {
            let o = os[k];
            let p = piece.orient(o);
            let ghost q = piece@.oriented(o);
            let ghost done = res@;
            proof {
                assert(0 <= q.cells[0].x < q.size.x && 0 <= q.cells[0].y < q.size.y);
                assert(self@.size.y == self@.cells.len());
                if self@.cells.len() > 0 {
                    assert(self@.cells[0].len() == self@.size.x);
                }
            }
            if self.size.x >= p.size.x && self.size.y >= p.size.y {
                let nx = self.size.x - p.size.x;
                let ny = self.size.y - p.size.y;
                let mut y: i32 = 0;
                while y <= ny
                    invariant
                        self@.wf(),
                        piece@.wf(),
                        q == piece@.oriented(o),
                        q.wf(),
                        p@ == q,
                        nx == self@.size.x - q.size.x,
                        ny == self@.size.y - q.size.y,
                        0 <= nx,
                        0 <= y <= ny + 1,
                        ny < i32::MAX,
                        nx < i32::MAX,
                        res@ == done + self@.spots(q.cells, nx + 1, y as int).map(
                            |i: int, t: Vector2D| (o, t),
                        ),
                    decreases ny + 1 - y,
                {
                    let ghost row_done = res@;
                    let mut x: i32 = 0;
                    while x <= nx
                        invariant
                            self@.wf(),
                            piece@.wf(),
                            q == piece@.oriented(o),
                            q.wf(),
                            nx == self@.size.x - q.size.x,
                            ny == self@.size.y - q.size.y,
                            0 <= y <= ny,
                            0 <= x <= nx + 1,
                            nx < i32::MAX,
                            res@ == row_done + self@.spots_in_row(q.cells, y as int, x as int).map(
                                |i: int, t: Vector2D| (o, t),
                            ),
                        decreases nx + 1 - x,
                    {
                        let t = Vector2D { x, y };
                        proof {
                            assert forall|i: int| 0 <= i < q.cells.len() implies Vector2D::is_point(
                                (#[trigger] q.cells[i]).plus(t),
                            ) by {}
                        }
                        if self.piece_fits(piece, o, t) {
                            res.push((o, t));
                        }
                        proof {
                            assert(res@ =~= row_done + self@.spots_in_row(q.cells, y as int, x as int + 1).map(
                                |i: int, t: Vector2D| (o, t),
                            ));
                        }
                        x += 1;
                    }
                    proof {
                        assert(res@ =~= done + self@.spots(q.cells, nx + 1, y as int + 1).map(
                            |i: int, t: Vector2D| (o, t),
                        ));
                    }
                    y += 1;
                }
            } else {
                proof {
                    self@.lemma_no_spots(q.cells, self@.size.x - q.size.x + 1, self@.size.y - q.size.y + 1);
                    assert(res@ =~= done + self@.places(piece@, o));
                }
            }
            proof {
                assert(res@ == done + self@.places(piece@, o));
            }
            k += 1;
        }
        res
    }
}

impl BoardView {
    /// A piece that is wider or higher than the board has no place on it.
    pub proof fn lemma_no_spots(self, cells: Seq<Vector2D>, w: int, n: int)
        requires
            w <= 0 || n <= 0,
        ensures
            self.spots(cells, w, n).len() == 0,
        decreases n,
    {
        if n > 0 {
            self.lemma_no_spots(cells, w, n - 1);
        }
    }
}

/// The entries of a map of pieces, in the order of insertion: the name and
/// the piece.
pub uninterp spec fn piece_entries(map: IndexMap<u64, Polyomino>) -> Seq<(u64, PolyominoView)>;

/// `IndexMap::new`: a map without entries.
#[verifier::external_body]
fn pieces_new() -> (map: IndexMap<u64, Polyomino>)
    ensures
        piece_entries(map) == Seq::<(u64, PolyominoView)>::empty(),
{
    IndexMap::new()
}

/// `IndexMap::insert`: where the key is in the map, the key keeps its place
/// and gets the value; where it is not, the pair becomes the last entry.
#[verifier::external_body]
fn pieces_insert(map: &mut IndexMap<u64, Polyomino>, key: u64, value: Polyomino)
    ensures
        piece_entries(*final(map)) == put(piece_entries(*old(map)), key, value@),
{
    map.insert(key, value);
}

/// `IndexMap::len`: the number of entries.
#[verifier::external_body]
fn pieces_len(map: &IndexMap<u64, Polyomino>) -> (n: usize)
    ensures
        n == piece_entries(*map).len(),
{
    map.len()
}

/// `IndexMap::get_index`: the entry at a place, if the place is within the
/// map.
#[verifier::external_body]
fn pieces_get_index(map: &IndexMap<u64, Polyomino>, index: usize) -> (entry: Option<(u64, &Polyomino)>)
    ensures
        match entry {
            Some(e) => index < piece_entries(*map).len() && e.0 == piece_entries(*map)[index as int].0 && e.1@
                == piece_entries(*map)[index as int].1,
            None => index >= piece_entries(*map).len(),
        },
{
    map.get_index(index).map(|(k, v)| (*k, v))
}

/// The content of a packing problem.
pub struct PackingView {
    pub board: BoardView,
    /// The pieces in the order of insertion, each with its name.
    pub pieces: Seq<(u64, PolyominoView)>,
}

impl PackingView {
    /// The board and the pieces are well-formed.
    pub open spec fn wf(self) -> bool {
        &&& self.board.wf()
        &&& forall|p: int| 0 <= p < self.pieces.len() ==> (#[trigger] self.pieces[p]).1.wf()
    }

    /// The constraints of the first `n` pieces: that each is used.
    pub open spec fn piece_constraints(self, n: int) -> Seq<CompoundConstraint> {
        Seq::new(n as nat, |p: int| CompoundConstraint::Piece(self.pieces[p].0))
    }

    /// The constraints of the cells: that each empty cell is covered.
    pub open spec fn cell_constraints(self, cells: Seq<Vector2D>) -> Seq<CompoundConstraint> {
        Seq::new(cells.len(), |i: int| CompoundConstraint::Cell(cells[i]))
    }

    /// What is asked for: first the constraints of the pieces, then those
    /// of the empty cells of the board, row after row.
    pub open spec fn listed(self) -> Seq<CompoundConstraint> {
        self.piece_constraints(self.pieces.len() as int) + self.cell_constraints(
            self.board.free_cells(self.board.size.y as int),
        )
    }

    /// The constraints: what is asked for, each once, in the order in
    /// which each comes first.
    pub open spec fn constraints(self) -> Seq<CompoundConstraint> {
        once_each(self.listed())
    }

    /// The places of piece number `p`, each with the name of the piece.
    pub open spec fn names_of(self, p: int) -> Seq<CompoundName> {
        Seq::new(
            self.board.placements(self.pieces[p].1).len(),
            |i: int|
                (
                    self.pieces[p].0,
                    self.board.placements(self.pieces[p].1)[i].0,
                    self.board.placements(self.pieces[p].1)[i].1,
                ),
        )
    }

    /// The places of the first `n` pieces, piece after piece.
    pub open spec fn names(self, n: int) -> Seq<CompoundName>
        decreases n,
    {
        if n <= 0 {
            Seq::empty()
        } else {
            self.names(n - 1) + self.names_of(n - 1)
        }
    }

    /// The piece of each place among the places of the first `n` pieces.
    pub open spec fn owners(self, n: int) -> Seq<int>
        decreases n,
    {
        if n <= 0 {
            Seq::empty()
        } else {
            self.owners(n - 1) + Seq::new(self.names_of(n - 1).len(), |i: int| n - 1)
        }
    }

    /// The constraints that piece number `p` covers at the place `name`.
    pub open spec fn covered(self, p: int, name: CompoundName) -> Seq<CompoundConstraint> {
        subset_of(name.0, moved(self.pieces[p].1.oriented(name.1).cells, name.2))
    }
}

/// A packing problem as an exact cover problem in numbers.
pub struct Packing {
    /// What each item of the problem stands for: item `i` stands for
    /// `constraints[i]`.
    pub constraints: Vec<CompoundConstraint>,
    /// What each subset of the problem stands for: subset `s` stands for
    /// the place `names[s]`.
    pub names: Vec<CompoundName>,
    /// The problem.
    pub problem: Problem,
}

/// The items `0..n`, each to be covered once.
pub open spec fn exact_items(n: int) -> Seq<(u64, (usize, usize))> {
    Seq::new(n as nat, |i: int| (i as u64, (1usize, 1usize)))
}

impl BoardView {
    /// An empty cell of a row is among the empty cells of the row.
    pub proof fn lemma_free_in_row(self, y: int, n: int, x: int)
        requires
            0 <= x < n <= i32::MAX,
            0 <= y <= i32::MAX,
            self.cells[y][x],
        ensures
            self.free_in_row(y, n).contains(Vector2D { x: x as i32, y: y as i32 }),
        decreases n,
    {
        let cell = Vector2D { x: x as i32, y: y as i32 };
        if x == n - 1 {
            let row = self.free_in_row(y, n);
            assert(row[row.len() - 1] == cell);
        } else {
            self.lemma_free_in_row(y, n - 1, x);
            let shorter = self.free_in_row(y, n - 1);
            let i = choose|i: int| 0 <= i < shorter.len() && shorter[i] == cell;
            assert(self.free_in_row(y, n)[i] == cell);
        }
    }

    /// An empty cell of the board is among the empty cells of the board.
    pub proof fn lemma_free_cells(self, n: int, p: (int, int))
        requires
            self.wf(),
            self.free(p),
            p.1 < n <= self.size.y,
        ensures
            self.free_cells(n).contains(Vector2D { x: p.0 as i32, y: p.1 as i32 }),
        decreases n,
    {
        let cell = Vector2D { x: p.0 as i32, y: p.1 as i32 };
        let before = self.free_cells(n - 1);
        let row = self.free_in_row(n - 1, self.size.x as int);
        if p.1 == n - 1 {
            self.lemma_free_in_row(p.1, self.size.x as int, p.0);
            let i = choose|i: int| 0 <= i < row.len() && row[i] == cell;
            assert((before + row)[before.len() + i] == cell);
        } else {
            self.lemma_free_cells(n - 1, p);
            let i = choose|i: int| 0 <= i < before.len() && before[i] == cell;
            assert((before + row)[i] == cell);
        }
    }

    /// The places of a piece bring its cells to lie on empty cells.
    pub proof fn lemma_spots_in_row(self, cells: Seq<Vector2D>, y: int, n: int, i: int)
        requires
            0 <= i < self.spots_in_row(cells, y, n).len(),
        ensures
            self.takes(cells, self.spots_in_row(cells, y, n)[i]),
            0 <= self.spots_in_row(cells, y, n)[i].x < n || n > i32::MAX,
        decreases n,
    {
        if n > 0 {
            if i < self.spots_in_row(cells, y, n - 1).len() {
                self.lemma_spots_in_row(cells, y, n - 1, i);
            }
        }
    }

    /// The places of a piece bring its cells to lie on empty cells.
    pub proof fn lemma_spots(self, cells: Seq<Vector2D>, w: int, n: int, i: int)
        requires
            0 <= i < self.spots(cells, w, n).len(),
        ensures
            self.takes(cells, self.spots(cells, w, n)[i]),
        decreases n,
    {
        if n > 0 {
            let before = self.spots(cells, w, n - 1);
            if i < before.len() {
                self.lemma_spots(cells, w, n - 1, i);
            } else {
                self.lemma_spots_in_row(cells, n - 1, w, i - before.len());
            }
        }
    }

    /// The places of a piece bring its cells, in the orientation of the
    /// place, to lie on empty cells.
    pub proof fn lemma_placements(self, piece: PolyominoView, os: Seq<Orientation>, n: int, i: int)
        requires
            0 <= n <= os.len(),
            0 <= i < self.placements_upto(piece, os, n).len(),
        ensures
            self.takes(
                piece.oriented(self.placements_upto(piece, os, n)[i].0).cells,
                self.placements_upto(piece, os, n)[i].1,
            ),
        decreases n,
    {
        if n > 0 {
            let before = self.placements_upto(piece, os, n - 1);
            if i < before.len() {
                self.lemma_placements(piece, os, n - 1, i);
            } else {
                let q = piece.oriented(os[n - 1]);
                self.lemma_spots(q.cells, self.size.x - q.size.x + 1, self.size.y - q.size.y + 1, i - before.len());
            }
        }
    }
}

/// A polyomino packing problem.
pub struct PolyominoPacking {
    board: Board,
    pieces: IndexMap<u64, Polyomino>,
}

impl View for PolyominoPacking {
    type V = PackingView;

    closed spec fn view(&self) -> PackingView {
        PackingView { board: self.board@, pieces: piece_entries(self.pieces) }
    }
}

impl Default for PolyominoPacking {
    /// The problem of a board without cells and no piece.
    fn default() -> (packing: PolyominoPacking)
        ensures
            packing@.pieces.len() == 0,
            packing@.board.cells.len() == 0,
            packing@.board.size == (Vector2D { x: 0, y: 0 }),
    {
        PolyominoPacking {
            board: Board { cells: Vec::new(), size: Vector2D { x: 0, y: 0 } },
            pieces: pieces_new(),
        }
    }
}

impl PolyominoPacking {
    /// Returns a reference to the board.
    pub fn board(&self) -> (board: &Board)
        ensures
            board@ == self@.board,
    {
        &self.board
    }

    /// Returns a mutable reference to the board.
    pub fn board_mut(&mut self) -> (board: &mut Board)
        ensures
            board@ == old(self)@.board,
            final(self)@ == (PackingView { board: final(board)@, ..old(self)@ }),
    {
        &mut self.board
    }

    /// Returns a reference to the pieces.
    pub fn pieces(&self) -> (pieces: &IndexMap<u64, Polyomino>)
        ensures
            piece_entries(*pieces) == self@.pieces,
    {
        &self.pieces
    }

    /// Returns a mutable reference to the pieces.
    pub fn pieces_mut(&mut self) -> (pieces: &mut IndexMap<u64, Polyomino>)
        ensures
            piece_entries(*pieces) == old(self)@.pieces,
            final(self)@ == (PackingView { pieces: piece_entries(*final(pieces)), ..old(self)@ }),
    {
        &mut self.pieces
    }

    /// Adds a piece to the problem.
    ///
    /// If the piece name already exists, it updates the piece of that name
    /// with the given new piece.
    pub fn add_piece(&mut self, name: u64, piece: Polyomino)
        ensures
            final(self)@ == (PackingView { pieces: put(old(self)@.pieces, name, piece@), ..old(self)@ }),
    {
        pieces_insert(&mut self.pieces, name, piece);
    }

    /// Generates an exact cover problem instance ([`Problem`]): an item
    /// for each piece and for each empty cell of the board, each to be
    /// covered once, and a subset for each place of each piece.
    pub fn generate_problem(&self) -> (res: Packing)
        requires
            self@.wf(),
        ensures
            res.constraints@ == self@.constraints(),
            res.names@ == self@.names(self@.pieces.len() as int),
            res.problem@.wf(),
            res.problem@.items == exact_items(res.constraints@.len() as int),
            res.problem@.subsets.len() == res.names@.len(),
            forall|s: int|
                0 <= s < res.names@.len() ==> {
                    let subset = #[trigger] res.problem@.subsets[s];
                    let owner = self@.owners(self@.pieces.len() as int)[s];
                    let covered = self@.covered(owner, res.names@[s]);
                    &&& subset.0 == s
                    &&& subset.1.len() == covered.len()
                    &&& forall|k: int|
                        0 <= k < covered.len() ==> subset.1[k] < res.constraints@.len() && res.constraints@[(
                        #[trigger] subset.1[k]) as int] == covered[k]
                },
    {
        let ghost pv = self@;
        let mut prob = Problem::default();
        let mut constraints: Vec<CompoundConstraint> = Vec::new();
        let mut keys = keys_new();
        let mut names: Vec<CompoundName> = Vec::new();
        let count = pieces_len(&self.pieces);
        assert(keys_of(constraints@) =~= constraint_keys(keys));

        // Piece constraints
        let mut p: usize = 0;
        while p < count
            invariant
                pv == self@,
                count == pv.pieces.len(),
                0 <= p <= count,
                constraints@ == once_each(pv.piece_constraints(p as int)),
                constraint_keys(keys) == keys_of(constraints@),
                prob@.wf(),
                prob@.items == exact_items(constraints@.len() as int),
                prob@.subsets.len() == 0,
            decreases count - p,
        {
            let name = pieces_get_index(&self.pieces, p).unwrap().0;
            let asked = CompoundConstraint::Piece(name);
            proof {
                assert(pv.piece_constraints(p as int + 1).drop_last() =~= pv.piece_constraints(p as int));
                lemma_keys_of(constraints@, asked);
            }
            if keys_insert(&mut keys, asked.to_key()) {
                constraints.push(asked);
                let id = constraints.len() - 1;
                proof {
                    assert(keys_of(constraints@) =~= constraint_keys(keys));
                    lemma_exact_items(id as int);
                }
                prob.add_exact_constraint(id as u64);
            }
            p += 1;
        }

        // Cell contraints
        let cells = self.board.free_cells();
        let ghost first = pv.piece_constraints(count as int);
        let mut i: usize = 0;
        assert(first + pv.cell_constraints(cells@).take(0) =~= first);
        while i < cells.len()
            invariant
                pv == self@,
                count == pv.pieces.len(),
                first == pv.piece_constraints(count as int),
                cells@ == pv.board.free_cells(pv.board.size.y as int),
                0 <= i <= cells@.len(),
                constraints@ == once_each(first + pv.cell_constraints(cells@).take(i as int)),
                constraint_keys(keys) == keys_of(constraints@),
                prob@.wf(),
                prob@.items == exact_items(constraints@.len() as int),
                prob@.subsets.len() == 0,
            decreases cells@.len() - i,
        {
            let asked = CompoundConstraint::Cell(cells[i]);
            proof {
                let longer = first + pv.cell_constraints(cells@).take(i as int + 1);
                assert(longer.drop_last() =~= first + pv.cell_constraints(cells@).take(i as int));
                assert(longer.last() == asked);
                lemma_keys_of(constraints@, asked);
            }
            if keys_insert(&mut keys, asked.to_key()) {
                constraints.push(asked);
                let id = constraints.len() - 1;
                proof {
                    assert(keys_of(constraints@) =~= constraint_keys(keys));
                    lemma_exact_items(id as int);
                }
                prob.add_exact_constraint(id as u64);
            }
            i += 1;
        }
        proof {
            assert(pv.cell_constraints(cells@).take(i as int) =~= pv.cell_constraints(cells@));
        }

        // Subsets
        let mut p: usize = 0;
        while p < count
            invariant
                pv == self@,
                pv.wf(),
                count == pv.pieces.len(),
                cells@ == pv.board.free_cells(pv.board.size.y as int),
                constraints@ == pv.constraints(),
                constraint_keys(keys) == keys_of(constraints@),
                0 <= p <= count,
                names@ == pv.names(p as int),
                pv.owners(p as int).len() == names@.len(),
                prob@.wf(),
                prob@.items == exact_items(constraints@.len() as int),
                prob@.subsets.len() == names@.len(),
                forall|s: int|
                    0 <= s < names@.len() ==> {
                        let subset = #[trigger] prob@.subsets[s];
                        let owner = pv.owners(p as int)[s];
                        let covered = pv.covered(owner, names@[s]);
                        &&& subset.0 == s
                        &&& subset.1.len() == covered.len()
                        &&& forall|k: int|
                            0 <= k < covered.len() ==> subset.1[k] < constraints@.len() && constraints@[(
                            #[trigger] subset.1[k]) as int] == covered[k]
                    },
            decreases count - p,
        {
            let entry = pieces_get_index(&self.pieces, p).unwrap();
            let name = entry.0;
            let piece = entry.1;
            assert(pv.pieces[p as int].1.wf());
            let places = self.board.placements(piece);
            let ghost done = names@;
            let ghost owned = pv.owners(p as int);
            let mut j: usize = 0;
            while j < places.len()
                invariant
                    pv == self@,
                    pv.wf(),
                    count == pv.pieces.len(),
                    cells@ == pv.board.free_cells(pv.board.size.y as int),
                    constraints@ == pv.constraints(),
                    constraint_keys(keys) == keys_of(constraints@),
                    0 <= p < count,
                    name == pv.pieces[p as int].0,
                    piece@ == pv.pieces[p as int].1,
                    piece@.wf(),
                    places@ == pv.board.placements(piece@),
                    0 <= j <= places@.len(),
                    done == pv.names(p as int),
                    owned == pv.owners(p as int),
                    owned.len() == done.len(),
                    names@ == done + pv.names_of(p as int).take(j as int),
                    prob@.wf(),
                    prob@.items == exact_items(constraints@.len() as int),
                    prob@.subsets.len() == names@.len(),
                    forall|s: int|
                        0 <= s < names@.len() ==> {
                            let subset = #[trigger] prob@.subsets[s];
                            let owner = if s < done.len() {
                                owned[s]
                            } else {
                                p as int
                            };
                            let covered = pv.covered(owner, names@[s]);
                            &&& subset.0 == s
                            &&& subset.1.len() == covered.len()
                            &&& forall|k: int|
                                0 <= k < covered.len() ==> subset.1[k] < constraints@.len() && constraints@[(
                                #[trigger] subset.1[k]) as int] == covered[k]
                        },
                decreases places@.len() - j,
            {
                let (o, t) = places[j];
                let oriented = piece.orient(o);
                proof {
                    pv.board.lemma_placements(
                        piece@,
                        piece@.unique_upto(8),
                        piece@.unique_upto(8).len() as int,
                        j as int,
                    );
                    assert(pv.board.takes(oriented@.cells, t));
                    assert forall|i: int| 0 <= i < oriented@.cells.len() implies Vector2D::is_point(
                        (#[trigger] oriented@.cells[i]).plus(t),
                    ) by {
                        assert(pv.board.free(oriented@.cells[i].plus(t)));
                    }
                }
                let subset = generate_subset(name, &oriented, t);
                let ghost covered = pv.covered(p as int, (name, o, t));
                assert(subset@ == covered);
                let mut ids: Vec<u64> = Vec::new();
                let mut k: usize = 0;
                while k < subset.len()
                    invariant
                        pv == self@,
                        pv.wf(),
                        constraints@ == pv.constraints(),
                        constraint_keys(keys) == keys_of(constraints@),
                        0 <= p < pv.pieces.len(),
                        name == pv.pieces[p as int].0,
                        subset@ == covered,
                        covered == subset_of(name, moved(oriented@.cells, t)),
                        pv.board.takes(oriented@.cells, t),
                        0 <= k <= subset@.len(),
                        ids@.len() == k,
                        forall|m: int|
                            0 <= m < k ==> ids@[m] < constraints@.len() && constraints@[(#[trigger] ids@[m]) as int]
                                == covered[m],
                    decreases subset@.len() - k,
                {
                    let found = keys_get_index_of(&keys, subset[k].to_key());
                    proof {
                        if k == 0 {
                            assert(pv.listed()[p as int] == covered[0]);
                        } else {
                            let cell = oriented@.cells[k - 1];
                            assert(pv.board.free(cell.plus(t)));
                            pv.board.lemma_free_cells(pv.board.size.y as int, cell.plus(t));
                            let free = pv.board.free_cells(pv.board.size.y as int);
                            let at = choose|at: int| 0 <= at < free.len() && free[at] == moved(oriented@.cells, t)[k - 1];
                            assert(pv.listed()[pv.pieces.len() + at] == covered[k as int]);
                        }
                        lemma_once_each(pv.listed(), covered[k as int]);
                        lemma_keys_of(constraints@, covered[k as int]);
                        if let Some(i) = found {
                            lemma_same_key(constraints@[i as int], covered[k as int]);
                        }
                    }
                    let id = found.unwrap();
                    ids.push(id as u64);
                    k += 1;
                }
                let ghost before = prob@.subsets;
                names.push((name, o, t));
                let s = names.len() - 1;
                proof {
                    lemma_fresh_key(before, s as int);
                    assert(names@ =~= done + pv.names_of(p as int).take(j as int + 1));
                }
                prob.add_subset(s as u64, ids);
                proof {
                    assert forall|s2: int| 0 <= s2 < names@.len() implies {
                        let subset = #[trigger] prob@.subsets[s2];
                        let owner = if s2 < done.len() {
                            owned[s2]
                        } else {
                            p as int
                        };
                        let covered = pv.covered(owner, names@[s2]);
                        &&& subset.0 == s2
                        &&& subset.1.len() == covered.len()
                        &&& forall|k: int|
                            0 <= k < covered.len() ==> subset.1[k] < constraints@.len() && constraints@[(
                            #[trigger] subset.1[k]) as int] == covered[k]
                    } by {
                        if s2 < s {
                            assert(prob@.subsets[s2] == before[s2]);
                        }
                    }
                }
                j += 1;
            }
            proof {
                assert(pv.names_of(p as int).take(j as int) =~= pv.names_of(p as int));
                let more = Seq::new(pv.names_of(p as int).len(), |i: int| p as int);
                assert(pv.owners(p as int + 1) == owned + more);
                assert forall|s: int| 0 <= s < names@.len() implies pv.owners(p as int + 1)[s] == if s < done.len() {
                    owned[s]
                } else {
                    p as int
                } by {}
            }
            p += 1;
        }
        Packing { constraints, names, problem: prob }
    }
}

/// A list that holds nothing twice is the list of its constraints taken
/// once each.
pub proof fn lemma_once_each_same(list: Seq<CompoundConstraint>)
    requires
        forall|i: int, j: int| 0 <= i < j < list.len() ==> #[trigger] list[i] != #[trigger] list[j],
    ensures
        once_each(list) == list,
    decreases list.len(),
{
    if list.len() > 0 {
        let shorter = list.drop_last();
        assert forall|i: int, j: int| 0 <= i < j < shorter.len() implies #[trigger] shorter[i] != #[trigger] shorter[j] by {
            assert(shorter[i] == list[i] && shorter[j] == list[j]);
        }
        lemma_once_each_same(shorter);
        if shorter.contains(list.last()) {
            let i = choose|i: int| 0 <= i < shorter.len() && shorter[i] == list.last();
            assert(list[i] != list[list.len() - 1]);
        }
        assert(shorter.push(list.last()) =~= list);
    } else {
        assert(once_each(list) =~= list);
    }
}

impl BoardView {
    /// The empty cells among the first `n` cells of a row lie in the row,
    /// each further right than the one before.
    pub proof fn lemma_free_in_row_order(self, y: int, n: int)
        requires
            0 <= n <= i32::MAX,
            0 <= y <= i32::MAX,
        ensures
            forall|i: int|
                0 <= i < self.free_in_row(y, n).len() ==> (#[trigger] self.free_in_row(y, n)[i]).y == y && 0
                    <= self.free_in_row(y, n)[i].x < n,
            forall|i: int, j: int|
                0 <= i < j < self.free_in_row(y, n).len() ==> (#[trigger] self.free_in_row(y, n)[i]).x < (
                #[trigger] self.free_in_row(y, n)[j]).x,
        decreases n,
    {
        if n > 0 {
            self.lemma_free_in_row_order(y, n - 1);
            let shorter = self.free_in_row(y, n - 1);
            let row = self.free_in_row(y, n);
            assert forall|i: int| 0 <= i < row.len() implies (#[trigger] row[i]).y == y && 0 <= row[i].x < n by {
                if i < shorter.len() {
                    assert(row[i] == shorter[i]);
                }
            }
            assert forall|i: int, j: int| 0 <= i < j < row.len() implies (#[trigger] row[i]).x < (#[trigger] row[j]).x by {
                assert(row[i] == shorter[i]);
                if j < shorter.len() {
                    assert(row[j] == shorter[j]);
                }
            }
        }
    }

    /// The empty cells in the first `n` rows lie in those rows, each
    /// further down than the one before, or in its row and further right.
    pub proof fn lemma_free_cells_order(self, n: int)
        requires
            0 <= n <= i32::MAX,
            0 <= self.size.x,
        ensures
            forall|i: int| 0 <= i < self.free_cells(n).len() ==> 0 <= (#[trigger] self.free_cells(n)[i]).y < n,
            forall|i: int, j: int|
                0 <= i < j < self.free_cells(n).len() ==> {
                    let a = #[trigger] self.free_cells(n)[i];
                    let b = #[trigger] self.free_cells(n)[j];
                    a.y < b.y || (a.y == b.y && a.x < b.x)
                },
        decreases n,
    {
        if n > 0 {
            self.lemma_free_cells_order(n - 1);
            self.lemma_free_in_row_order(n - 1, self.size.x as int);
            let before = self.free_cells(n - 1);
            let row = self.free_in_row(n - 1, self.size.x as int);
            let all = self.free_cells(n);
            assert(all == before + row);
            assert forall|i: int| 0 <= i < all.len() implies 0 <= (#[trigger] all[i]).y < n by {
                if i >= before.len() {
                    assert(all[i] == row[i - before.len()]);
                }
            }
            assert forall|i: int, j: int| 0 <= i < j < all.len() implies {
                let a = #[trigger] all[i];
                let b = #[trigger] all[j];
                a.y < b.y || (a.y == b.y && a.x < b.x)
            } by {
                if j < before.len() {
                    assert(all[i] == before[i] && all[j] == before[j]);
                } else if i >= before.len() {
                    assert(all[i] == row[i - before.len()] && all[j] == row[j - before.len()]);
                } else {
                    assert(all[i] == before[i] && all[j] == row[j - before.len()]);
                }
            }
        }
    }
}

impl PackingView {
    /// Where no two pieces have the same name, nothing is asked for twice:
    /// the constraints are those of the pieces and then those of the empty
    /// cells of the board, row after row.
    pub proof fn law_constraints_listed(self)
        requires
            self.wf(),
            unique_keys(self.pieces),
        ensures
            self.constraints() == self.listed(),
    {
        let list = self.listed();
        let first = self.piece_constraints(self.pieces.len() as int);
        let free = self.board.free_cells(self.board.size.y as int);
        if self.board.size.y >= 0 && self.board.size.x >= 0 {
            self.board.lemma_free_cells_order(self.board.size.y as int);
        } else if self.board.size.y >= 0 {
            assert(self.board.cells.len() == 0 || self.board.cells[0].len() == self.board.size.x);
        }
        assert forall|i: int, j: int| 0 <= i < j < list.len() implies #[trigger] list[i] != #[trigger] list[j] by {
            if j < first.len() {
                assert(self.pieces[i].0 != self.pieces[j].0);
            } else if i >= first.len() {
                let a = free[i - first.len()];
                let b = free[j - first.len()];
                assert(list[i] == CompoundConstraint::Cell(a));
                assert(list[j] == CompoundConstraint::Cell(b));
            } else {
                assert(list[i] is Piece);
                assert(list[j] is Cell);
            }
        }
        lemma_once_each_same(list);
    }
}

/// One more item behind the items `0..n`.
pub proof fn lemma_exact_items(n: int)
    requires
        0 <= n < u64::MAX,
    ensures
        put(exact_items(n), n as u64, (1usize, 1usize)) == exact_items(n + 1),
{
    let items = exact_items(n);
    lemma_key_index(items, n as u64);
    if key_index(items, n as u64) >= 0 {
        assert(items[key_index(items, n as u64)].0 == n as u64);
    }
    assert(items.push((n as u64, (1usize, 1usize))) =~= exact_items(n + 1));
}

/// Among subsets numbered by their places, the next number is new.
pub proof fn lemma_fresh_key(subsets: Seq<(u64, Seq<u64>)>, n: int)
    requires
        n == subsets.len(),
        n < u64::MAX,
        forall|s: int| 0 <= s < subsets.len() ==> (#[trigger] subsets[s]).0 == s,
    ensures
        forall|value: Seq<u64>| #[trigger] put(subsets, n as u64, value) == subsets.push((n as u64, value)),
{
    lemma_key_index(subsets, n as u64);
    if key_index(subsets, n as u64) >= 0 {
        assert(subsets[key_index(subsets, n as u64)].0 == n as u64);
    }
}

} // verus!
