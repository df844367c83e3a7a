//! Dense two-dimensional storage addressed row-major or column-major.
use vstd::prelude::*;

verus! {

/// Which axis is contiguous in the flat backing store.
#[derive(Debug, Clone, Copy, PartialEq, Eq, Structural)]
pub enum Orientation {
    RowMajor,
    ColMajor,
}

/// Offset of cell `(r, c)` in the flat store of a `rows x cols` grid.
pub open spec fn flat_index(rows: int, cols: int, o: Orientation, r: int, c: int) -> int {
    match o {
        Orientation::RowMajor => r * cols + c,
        Orientation::ColMajor => c * rows + r,
    }
}

/// Length of one contiguous slice (a row when row-major, a column otherwise).
pub open spec fn minor_len(rows: int, cols: int, o: Orientation) -> int {
    match o {
        Orientation::RowMajor => cols,
        Orientation::ColMajor => rows,
    }
}

/// Number of contiguous slices.
pub open spec fn major_len(rows: int, cols: int, o: Orientation) -> int {
    match o {
        Orientation::RowMajor => rows,
        Orientation::ColMajor => cols,
    }
}

/// The flat offset of an in-bounds cell is in bounds, and distinct cells have distinct offsets.
pub proof fn lemma_flat_index(rows: int, cols: int, o: Orientation, r1: int, c1: int, r2: int, c2: int)
    requires
        0 <= r1 < rows,
        0 <= c1 < cols,
        0 <= r2 < rows,
        0 <= c2 < cols,
    ensures
        0 <= flat_index(rows, cols, o, r1, c1) < rows * cols,
        (r1 != r2 || c1 != c2) ==> flat_index(rows, cols, o, r1, c1) != flat_index(
            rows,
            cols,
            o,
            r2,
            c2,
        ),
{
    match o {
        Orientation::RowMajor => {
            assert(0 <= r1 * cols + c1 < rows * cols) by (nonlinear_arith)
                requires
                    0 <= r1 < rows,
                    0 <= c1 < cols,
            ;
            assert((r1 != r2 || c1 != c2) ==> r1 * cols + c1 != r2 * cols + c2) by (nonlinear_arith)
                requires
                    0 <= r1 < rows,
                    0 <= c1 < cols,
                    0 <= r2 < rows,
                    0 <= c2 < cols,
            ;
        },
        Orientation::ColMajor => {
            assert(0 <= c1 * rows + r1 < rows * cols) by (nonlinear_arith)
                requires
                    0 <= r1 < rows,
                    0 <= c1 < cols,
            ;
            assert((r1 != r2 || c1 != c2) ==> c1 * rows + r1 != c2 * rows + r2) by (nonlinear_arith)
                requires
                    0 <= r1 < rows,
                    0 <= c1 < cols,
                    0 <= r2 < rows,
                    0 <= c2 < cols,
            ;
        },
    }
}

/// The `i`-th contiguous slice lies inside the store and has the minor length.
pub proof fn lemma_rank_bounds(rows: int, cols: int, o: Orientation, i: int)
    requires
        0 <= rows,
        0 <= cols,
        0 <= i < major_len(rows, cols, o),
    ensures
        0 <= i * minor_len(rows, cols, o),
        (i + 1) * minor_len(rows, cols, o) <= rows * cols,
        (i + 1) * minor_len(rows, cols, o) == i * minor_len(rows, cols, o) + minor_len(rows, cols, o),
{
    let m = minor_len(rows, cols, o);
    let n = major_len(rows, cols, o);
    assert(n * m == rows * cols) by (nonlinear_arith)
        requires
            (n == rows && m == cols) || (n == cols && m == rows),
    ;
    assert(0 <= i * m && (i + 1) * m <= n * m && (i + 1) * m == i * m + m) by (nonlinear_arith)
        requires
            0 <= i < n,
            0 <= m,
    ;
}

/// A `rows x cols` grid of values stored in one flat vector.
#[derive(Debug, Clone)]
pub struct Grid<T> {
    rows: usize,
    cols: usize,
    orientation: Orientation,
    data: Vec<T>,
}

impl<T: Copy> Grid<T> {
    pub closed spec fn nrows(&self) -> int {
        self.rows as int
    }

    pub closed spec fn ncols(&self) -> int {
        self.cols as int
    }

    pub closed spec fn orient(&self) -> Orientation {
        self.orientation
    }

    /// The flat store, in storage order.
    pub closed spec fn values(&self) -> Seq<T> {
        self.data@
    }

    /// The backing store holds exactly one value per cell.
    pub open spec fn wf(&self) -> bool {
        self.values().len() == self.nrows() * self.ncols()
    }

    pub open spec fn in_bounds(&self, r: int, c: int) -> bool {
        0 <= r < self.nrows() && 0 <= c < self.ncols()
    }

    pub open spec fn cell(&self, r: int, c: int) -> T {
        self.values()[flat_index(self.nrows(), self.ncols(), self.orient(), r, c)]
    }

    /// The `i`-th contiguous slice of the store.
    pub open spec fn rank(&self, i: int) -> Seq<T> {
        let m = minor_len(self.nrows(), self.ncols(), self.orient());
        self.values().subrange(i * m, (i + 1) * m)
    }

    pub fn new(rows: usize, cols: usize, orientation: Orientation, default: T) -> (g: Self)
        requires
            rows * cols <= usize::MAX,
        ensures
            g.wf(),
            g.nrows() == rows,
            g.ncols() == cols,
            g.orient() == orientation,
            g.values() == Seq::new((rows * cols) as nat, |i: int| default),
    {
        let n: usize = rows * cols;
        let mut data: Vec<T> = Vec::new();
        let mut i: usize = 0;
        while i < n
            invariant
                i <= n,
                data@ == Seq::new(i as nat, |k: int| default),
            decreases n - i,
        {
            data.push(default);
            i = i + 1;
            assert(data@ =~= Seq::new(i as nat, |k: int| default));
        }
        Grid { rows, cols, orientation, data }
    }

    pub fn rows(&self) -> (r: usize)
        ensures
            r == self.nrows(),
    {
        self.rows
    }

    pub fn cols(&self) -> (r: usize)
        ensures
            r == self.ncols(),
    {
        self.cols
    }

    pub fn orientation(&self) -> (r: Orientation)
        ensures
            r == self.orient(),
    {
        self.orientation
    }

    /// Number of cells.
    pub fn len(&self) -> (r: usize)
        ensures
            r == self.values().len(),
    {
        self.data.len()
    }

    fn get_index(&self, row: usize, col: usize) -> (r: usize)
        requires
            self.wf(),
            self.in_bounds(row as int, col as int),
        ensures
            r == flat_index(self.nrows(), self.ncols(), self.orient(), row as int, col as int),
            r < self.values().len(),
    {
        let _n = self.data.len();
        proof {
            lemma_flat_index(
                self.rows as int,
                self.cols as int,
                self.orientation,
                row as int,
                col as int,
                row as int,
                col as int,
            );
        }
        match self.orientation {
            Orientation::RowMajor => row * self.cols + col,
            Orientation::ColMajor => col * self.rows + row,
        }
    }

    pub fn get(&self, row: usize, col: usize) -> (v: T)
        requires
            self.wf(),
            self.in_bounds(row as int, col as int),
        ensures
            v == self.cell(row as int, col as int),
    {
        let idx = self.get_index(row, col);
        self.data[idx]
    }

    pub fn set(&mut self, row: usize, col: usize, val: T)
        requires
            old(self).wf(),
            old(self).in_bounds(row as int, col as int),
        ensures
            final(self).wf(),
            final(self).nrows() == old(self).nrows(),
            final(self).ncols() == old(self).ncols(),
            final(self).orient() == old(self).orient(),
            final(self).cell(row as int, col as int) == val,
            forall|r: int, c: int|
                old(self).in_bounds(r, c) && (r != row || c != col) ==> #[trigger] final(self).cell(r, c)
                    == old(self).cell(r, c),
    {
        let idx = self.get_index(row, col);
        self.data.set(idx, val);
        proof {
            assert forall|r: int, c: int|
                old(self).in_bounds(r, c) && (r != row || c != col) implies #[trigger] self.cell(r, c)
                    == old(self).cell(r, c) by {
                lemma_flat_index(
                    self.rows as int,
                    self.cols as int,
                    self.orientation,
                    r,
                    c,
                    row as int,
                    col as int,
                );
            }
        }
    }

    /// Value at a flat offset.
    pub fn get_flat(&self, i: usize) -> (v: T)
        requires
            i < self.values().len(),
        ensures
            v == self.values()[i as int],
    {
        self.data[i]
    }

    /// Overwrite the value at a flat offset.
    pub fn set_flat(&mut self, i: usize, v: T)
        requires
            i < old(self).values().len(),
        ensures
            final(self).values() == old(self).values().update(i as int, v),
            final(self).nrows() == old(self).nrows(),
            final(self).ncols() == old(self).ncols(),
            final(self).orient() == old(self).orient(),
    {
        self.data.set(i, v);
    }

    /// A copy of the `index`-th contiguous slice: a row when row-major, a column otherwise.
    pub fn get_rank(&self, index: usize) -> (r: Vec<T>)
        requires
            self.wf(),
            index < major_len(self.nrows(), self.ncols(), self.orient()),
        ensures
            r@ == self.rank(index as int),
    {
        let m: usize = match self.orientation {
            Orientation::RowMajor => self.cols,
            Orientation::ColMajor => self.rows,
        };
        let _n = self.data.len();
        proof {
            lemma_rank_bounds(self.rows as int, self.cols as int, self.orientation, index as int);
        }
        self.slice_copy(index * m, index * m + m)
    }

    /// A copy of positions `start..end` of the `index`-th contiguous slice.
    pub fn get_range(&self, index: usize, start: usize, end: usize) -> (r: Vec<T>)
        requires
            self.wf(),
            index < major_len(self.nrows(), self.ncols(), self.orient()),
            start <= end <= minor_len(self.nrows(), self.ncols(), self.orient()),
        ensures
            r@ == self.rank(index as int).subrange(start as int, end as int),
    {
        let rank = self.get_rank(index);
        proof {
            lemma_rank_bounds(self.nrows(), self.ncols(), self.orient(), index as int);
        }
        let mut out: Vec<T> = Vec::new();
        let mut i: usize = start;
        while i < end
            invariant
                start <= i <= end,
                end <= rank@.len(),
                out@ == rank@.subrange(start as int, i as int),
            decreases end - i,
        {
            out.push(rank[i]);
            i = i + 1;
            assert(out@ =~= rank@.subrange(start as int, i as int));
        }
        out
    }

    /// Copies of every contiguous slice, in order.
    pub fn get_slices(&self) -> (r: Vec<Vec<T>>)
        requires
            self.wf(),
        ensures
            r@.len() == major_len(self.nrows(), self.ncols(), self.orient()),
            forall|i: int| 0 <= i < r@.len() ==> (#[trigger] r@[i])@ == self.rank(i),
    {
        let major: usize = match self.orientation {
            Orientation::RowMajor => self.rows,
            Orientation::ColMajor => self.cols,
        };
        let mut out: Vec<Vec<T>> = Vec::new();
        let mut i: usize = 0;
        while i < major
            invariant
                self.wf(),
                i <= major,
                major == major_len(self.nrows(), self.ncols(), self.orient()),
                out@.len() == i,
                forall|k: int| 0 <= k < i ==> (#[trigger] out@[k])@ == self.rank(k),
            decreases major - i,
        {
            let s = self.get_rank(i);
            out.push(s);
            i = i + 1;
        }
        out
    }

    fn slice_copy(&self, start: usize, end: usize) -> (r: Vec<T>)
        requires
            start <= end <= self.values().len(),
        ensures
            r@ == self.values().subrange(start as int, end as int),
    {
        let mut out: Vec<T> = Vec::new();
        let mut i: usize = start;
        while i < end
            invariant
                start <= i <= end,
                end <= self.values().len(),
                out@ == self.values().subrange(start as int, i as int),
            decreases end - i,
        {
            out.push(self.data[i]);
            i = i + 1;
            assert(out@ =~= self.values().subrange(start as int, i as int));
        }
        out
    }
}

} // verus!
