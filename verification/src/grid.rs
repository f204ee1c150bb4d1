use vstd::prelude::*;

verus! {

/// A simple rectangular grid of cells, stored row by row in one flat
/// vector. A cell is addressed either by `(row, column)` or by `(x, y)`,
/// where `x` selects the column and `y` the row: both resolve to the flat
/// index `y * width + x`.
pub struct Grid<CellType> {
    width: usize,
    height: usize,
    cells: Vec<CellType>,
}

/// A row/column pair for indexing into the grid.
/// Distinct from an x/y pair.
#[derive(Clone, Copy, Debug, PartialEq, Eq, Structural)]
pub struct RC(pub usize, pub usize);

/// An x/y pair for indexing into the grid.
/// Distinct from a row/column pair.
#[derive(Clone, Copy, Debug, PartialEq, Eq, Structural)]
pub struct XY(pub usize, pub usize);

impl<CellType> View for Grid<CellType> {
    type V = Seq<CellType>;

    closed spec fn view(&self) -> Seq<CellType> {
        self.cells@
    }
}

/// For `x` and `y` inside a `w`-by-`h` rectangle, the flat index
/// `y * w + x` lies below `w * h`.
pub proof fn lemma_flat_index_in_range(w: int, h: int, x: int, y: int)
    by (nonlinear_arith)
    requires
        0 <= x < w,
        0 <= y < h,
    ensures
        0 <= y * w + x < w * h,
{
}

/// Two distinct in-bounds addresses never share a flat index.
pub proof fn lemma_flat_index_injective(w: int, x1: int, y1: int, x2: int, y2: int)
    by (nonlinear_arith)
    requires
        0 <= x1 < w,
        0 <= x2 < w,
        0 <= y1,
        0 <= y2,
        y1 * w + x1 == y2 * w + x2,
    ensures
        x1 == x2 && y1 == y2,
{
}

impl<CellType> Grid<CellType> {
    /// The grid's cell vector has exactly `width * height` entries, and
    /// that product fits the machine's index type.
    pub open spec fn wf(&self) -> bool {
        self@.len() == self.spec_width() * self.spec_height()
        && self.spec_width() * self.spec_height() <= usize::MAX
    }

    pub closed spec fn spec_width(&self) -> int {
        self.width as int
    }

    pub closed spec fn spec_height(&self) -> int {
        self.height as int
    }

    /// The cell at column `x`, row `y`.
    pub open spec fn at(&self, x: int, y: int) -> CellType {
        self@[y * self.spec_width() + x]
    }

    /// Whether `(x, y)` addresses a cell of the grid.
    pub open spec fn in_bounds(&self, x: int, y: int) -> bool {
        0 <= x < self.spec_width() && 0 <= y < self.spec_height()
    }

    /// The width of the grid in cells.
    pub fn width(&self) -> (r: usize)
        ensures
            r == self.spec_width(),
    {
        self.width
    }

    /// The height of the grid in cells.
    pub fn height(&self) -> (r: usize)
        ensures
            r == self.spec_height(),
    {
        self.height
    }

    /// The number of cells in the grid.
    pub fn len(&self) -> (r: usize)
        ensures
            r == self@.len(),
    {
        self.cells.len()
    }

    /// The `(x, y)` address of the cell at a flat index, the exact inverse
    /// of the `y * width + x` mapping.
    pub fn index_to_xy(&self, index: usize) -> (r: XY)
        requires
            self.wf(),
            index < self@.len(),
        ensures
            r.0 < self.spec_width(),
            r.1 < self.spec_height(),
            r.1 * self.spec_width() + r.0 == index,
            r.0 == (index as int) % self.spec_width(),
            r.1 == (index as int) / self.spec_width(),
    {
        proof {
            let w = self.spec_width();
            let h = self.spec_height();
            assert(w > 0 && h > 0) by (nonlinear_arith)
                requires
                    0 <= w,
                    0 <= h,
                    0 <= index < w * h,
            ;
            vstd::arithmetic::div_mod::lemma_fundamental_div_mod(index as int, w);
            vstd::arithmetic::div_mod::lemma_mod_bound(index as int, w);
            let q = (index as int) / w;
            let r = (index as int) % w;
            assert(0 <= q < h) by (nonlinear_arith)
                requires
                    index as int == w * q + r,
                    0 <= r < w,
                    index < w * h,
                    w > 0,
            ;
            assert(q * w + r == index) by (nonlinear_arith)
                requires
                    index as int == w * q + r,
            ;
        }
        XY(index % self.width, index / self.width)
    }

    /// A reference to the cell at `(x, y)`.
    pub fn xy(&self, x: usize, y: usize) -> (r: &CellType)
        requires
            self.wf(),
            self.in_bounds(x as int, y as int),
        ensures
            *r == self.at(x as int, y as int),
    {
        proof {
            lemma_flat_index_in_range(
                self.spec_width(),
                self.spec_height(),
                x as int,
                y as int,
            );
        }
        &self.cells[y * self.width + x]
    }

    /// A reference to the cell at `(row, col)`.
    pub fn rc(&self, row: usize, col: usize) -> (r: &CellType)
        requires
            self.wf(),
            self.in_bounds(col as int, row as int),
        ensures
            *r == self.at(col as int, row as int),
    {
        proof {
            lemma_flat_index_in_range(
                self.spec_width(),
                self.spec_height(),
                col as int,
                row as int,
            );
        }
        &self.cells[row * self.width + col]
    }

    /// Replace the cell at `(x, y)`.
    pub fn set_xy(&mut self, x: usize, y: usize, value: CellType)
        requires
            old(self).wf(),
            old(self).in_bounds(x as int, y as int),
        ensures
            final(self).wf(),
            final(self).spec_width() == old(self).spec_width(),
            final(self).spec_height() == old(self).spec_height(),
            final(self)@.len() == old(self)@.len(),
            final(self)@ == old(self)@.update(
                y * old(self).spec_width() + x,
                value,
            ),
            final(self).at(x as int, y as int) == value,
            forall|xx: int, yy: int|
                old(self).in_bounds(xx, yy) && !(xx == x && yy == y)
                    ==> final(self).at(xx, yy) == old(self).at(xx, yy),
    {
        proof {
            lemma_flat_index_in_range(
                self.spec_width(),
                self.spec_height(),
                x as int,
                y as int,
            );
        }
        let index: usize = y * self.width + x;
        self.cells[index] = value;
        proof {
            let w = self.spec_width();
            assert forall|xx: int, yy: int|
                old(self).in_bounds(xx, yy) && !(xx == x && yy == y)
                    implies self.at(xx, yy) == old(self).at(xx, yy) by {
                lemma_flat_index_in_range(w, self.spec_height(), xx, yy);
                if yy * w + xx == y * w + x {
                    lemma_flat_index_injective(w, xx, yy, x as int, y as int);
                }
            }
        }
    }
}

impl<CellType: Copy> Grid<CellType> {
    /// Create a grid of the given dimensions with every cell a copy of
    /// `template`.
    pub fn new(width: usize, height: usize, template: &CellType) -> (r: Grid<CellType>)
        requires
            width * height <= usize::MAX,
        ensures
            r.wf(),
            r.spec_width() == width,
            r.spec_height() == height,
            r@.len() == width * height,
            forall|i: int| 0 <= i < r@.len() ==> r@[i] == *template,
    {
        let count: usize = width * height;
        let mut cells: Vec<CellType> = Vec::new();
        let mut i: usize = 0;
        while i < count
            invariant
                i <= count,
                cells@.len() == i,
                forall|j: int| 0 <= j < i ==> cells@[j] == *template,
            decreases count - i,
        {
            cells.push(*template);
            i = i + 1;
        }
        Grid { width, height, cells }
    }
}

} // verus!
