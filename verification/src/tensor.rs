//! A dense two-dimensional numeric buffer ("tensor") with shape-checked
//! construction, layout normalization, reshape and elementwise operations.
//!
//! A tensor owns a flat buffer of elements together with a two-entry shape
//! `[rows, cols]`. A layout tag records whether the buffer is stored
//! row-major (consecutive elements of a row are adjacent) or column-major
//! (consecutive elements of a column are adjacent); the tag changes only how
//! the buffer must be traversed, never the logical matrix it denotes.

use vstd::prelude::*;

verus! {

/// Largest dimension a tensor may have. The cap keeps every index
/// computation (`row * stride + col`, buffer lengths up to
/// `DIM_BOUND * DIM_BOUND`) inside `usize` on every target.
pub const DIM_BOUND: usize = 32768;

/// Largest element magnitude the multiply kernel accepts. Together with
/// `DIM_BOUND` it keeps every multiply-accumulate chain inside `i64`:
/// a full reduction has magnitude at most `DIM_BOUND * ELEM_BOUND * ELEM_BOUND`.
pub const ELEM_BOUND: i64 = 1000000;

/// Largest magnitude an accumulator cell may already hold before one more
/// full reduction is added into it without risking `i64` overflow.
pub const ACC_BOUND: i64 = 8000000000000000000;

/// Largest element magnitude the elementwise sum accepts; two such values
/// always fit in `i64` when added.
pub const ADD_BOUND: i64 = 4000000000000000000;

/// The elements of a buffer, as mathematical integers.
pub open spec fn int_seq(s: Seq<i64>) -> Seq<int> {
    s.map_values(|x: i64| x as int)
}

/// Every element of a raw buffer has magnitude at most `b`.
pub open spec fn elems_bounded(s: Seq<i64>, b: int) -> bool {
    forall|t: int| 0 <= t < s.len() ==> -b <= #[trigger] s[t] <= b
}

/// The elementwise sum of two equally long flat sequences.
pub open spec fn add_vals(x: Seq<int>, y: Seq<int>) -> Seq<int> {
    Seq::new(x.len(), |t: int| x[t] + y[t])
}

/// The rectified value: negative inputs clamp to zero.
pub open spec fn relu_val(x: int) -> int {
    if x < 0 {
        0
    } else {
        x
    }
}

/// The rectifier applied to every element of a flat sequence.
pub open spec fn relu_vals(v: Seq<int>) -> Seq<int> {
    Seq::new(v.len(), |t: int| relu_val(v[t]))
}

/// Error value describing a pair of shapes that cannot be multiplied.
/// It is plain data: constructing it has no effect beyond capturing the
/// two offending shapes for diagnostics.
#[derive(Clone, Debug)]
pub struct ShapeError {
    pub left: Vec<usize>,
    pub right: Vec<usize>,
}

/// A two-dimensional tensor: a flat element buffer, its shape, and the tag
/// naming the buffer's physical order.
#[derive(Clone, Debug)]
pub struct Tensor {
    pub data: Vec<i64>,
    pub rows: usize,
    pub cols: usize,
    pub column_major: bool,
}

impl Tensor {
    /// The logical element at row `i`, column `j`, read through the layout
    /// tag: row-major buffers store it at `i * cols + j`, column-major
    /// buffers at `j * rows + i`.
    pub open spec fn cell(self, i: int, j: int) -> int {
        if self.column_major {
            self.data@[j * self.rows + i] as int
        } else {
            self.data@[i * self.cols + j] as int
        }
    }

    /// The logical matrix flattened in row-major order, independent of the
    /// physical layout of the buffer.
    pub open spec fn vals(self) -> Seq<int> {
        Seq::new(
            (self.rows * self.cols) as nat,
            |t: int| self.cell(t / (self.cols as int), t % (self.cols as int)),
        )
    }

    /// Well-formedness: the buffer length equals the product of the two
    /// dimensions, and each dimension respects the capacity cap.
    pub open spec fn wf(self) -> bool {
        &&& self.data@.len() == self.rows * self.cols
        &&& self.rows <= DIM_BOUND
        &&& self.cols <= DIM_BOUND
    }

    /// Every logical element has magnitude at most `b`.
    pub open spec fn bounded(self, b: int) -> bool {
        forall|t: int| 0 <= t < self.vals().len() ==> -b <= #[trigger] self.vals()[t] <= b
    }

    /// Relates the flat row-major view to the per-cell view: entry
    /// `i * cols + j` of `vals()` is the logical cell `(i, j)`.
    pub proof fn lemma_vals_cell(self)
        requires
            self.wf(),
        ensures
            self.vals().len() == self.rows * self.cols,
            forall|i: int, j: int|
                0 <= i < self.rows && 0 <= j < self.cols ==> self.vals()[i * self.cols + j]
                    == #[trigger] self.cell(i, j),
    {
        assert forall|i: int, j: int|
            0 <= i < self.rows && 0 <= j < self.cols implies self.vals()[i * self.cols + j]
            == #[trigger] self.cell(i, j) by {
            lemma_row_major_index(i, j, self.rows as int, self.cols as int);
        }
    }

    /// Builds a tensor from a two-entry shape and a flat buffer given in
    /// row-major order. When `col_major` is set the buffer is normalized to
    /// column-major physical order; the logical values are unchanged either
    /// way. A buffer whose length does not match the shape is a caller
    /// error and is excluded up front.
    pub fn from(shape: &[usize], data: Vec<i64>, col_major: bool) -> (t: Tensor)
        requires
            shape@.len() == 2,
            shape@[0] <= DIM_BOUND,
            shape@[1] <= DIM_BOUND,
            data@.len() == shape@[0] * shape@[1],
        ensures
            t.wf(),
            t.rows == shape@[0],
            t.cols == shape@[1],
            t.column_major == col_major,
            t.vals() == int_seq(data@),
    {
        let rows = shape[0];
        let cols = shape[1];
        let t = if col_major {
            let phys = Tensor::to_column_major(&data, rows, cols);
            Tensor { data: phys, rows, cols, column_major: true }
        } else {
            Tensor { data, rows, cols, column_major: false }
        };
        proof {
            assert forall|p: int| 0 <= p < t.vals().len() implies t.vals()[p] == int_seq(data@)[p] by {
                lemma_flat_decomp(p, rows as int, cols as int);
                let i = p / (cols as int);
                let j = p % (cols as int);
                if t.column_major {
                    lemma_index_in_bounds(j, i, cols as int, rows as int);
                }
            }
            assert(t.vals() =~= int_seq(data@));
        }
        t
    }

    /// The shape as an ordered dimension sequence `[rows, cols]`.
    pub fn shape(&self) -> (s: Vec<usize>)
        ensures
            s@.len() == 2,
            s@[0] == self.rows,
            s@[1] == self.cols,
    {
        let mut s: Vec<usize> = Vec::new();
        s.push(self.rows);
        s.push(self.cols);
        s
    }

    /// A zero-filled tensor of the given two-entry shape.
    pub fn zeros(shape: &[usize]) -> (t: Tensor)
        requires
            shape@.len() == 2,
            shape@[0] <= DIM_BOUND,
            shape@[1] <= DIM_BOUND,
        ensures
            t.wf(),
            t.rows == shape@[0],
            t.cols == shape@[1],
            t.column_major,
            forall|p: int| 0 <= p < t.vals().len() ==> t.vals()[p] == 0,
    {
        let rows = shape[0];
        let cols = shape[1];
        proof {
            lemma_dim_product_fits(rows as int, cols as int);
        }
        let len = rows * cols;
        let mut data: Vec<i64> = Vec::new();
        data.resize(len, 0i64);
        let t = Tensor::from(shape, data, true);
        assert forall|p: int| 0 <= p < t.vals().len() implies t.vals()[p] == 0 by {}
        t
    }

    /// Layout normalizer: the logical values linearized into one contiguous
    /// row-major run, the traversal order the multiply kernel requires.
    /// An already row-major buffer is copied as it stands.
    pub fn to_contiguous(&self) -> (out: Vec<i64>)
        requires
            self.wf(),
        ensures
            int_seq(out@) == self.vals(),
    {
        if !self.column_major {
            let out = self.data.clone();
            proof {
                assert forall|p: int| 0 <= p < out@.len() implies out@[p] == self.data@[p] by {}
                assert(out@ =~= self.data@);
                assert forall|p: int| 0 <= p < self.vals().len() implies int_seq(out@)[p]
                    == self.vals()[p] by {
                    lemma_flat_decomp(p, self.rows as int, self.cols as int);
                }
                assert(int_seq(out@) =~= self.vals());
            }
            out
        } else {
            let rows = self.rows;
            let cols = self.cols;
            let mut out: Vec<i64> = Vec::new();
            let mut i: usize = 0;
            while i < rows
                invariant
                    self.wf(),
                    self.column_major,
                    rows == self.rows,
                    cols == self.cols,
                    i <= rows,
                    out@.len() == i * cols,
                    forall|p: int|
                        0 <= p < out@.len() ==> (#[trigger] out@[p]) as int == self.vals()[p],
                decreases rows - i,
            {
                let mut j: usize = 0;
                while j < cols
                    invariant
                        self.wf(),
                        self.column_major,
                        rows == self.rows,
                        cols == self.cols,
                        i < rows,
                        j <= cols,
                        out@.len() == i * cols + j,
                        forall|p: int|
                            0 <= p < out@.len() ==> (#[trigger] out@[p]) as int == self.vals()[p],
                    decreases cols - j,
                {
                    proof {
                        lemma_row_major_index(i as int, j as int, rows as int, cols as int);
                        lemma_row_major_index(j as int, i as int, cols as int, rows as int);
                    }
                    let v = self.data[j * rows + i];
                    out.push(v);
                    j = j + 1;
                }
                i = i + 1;
                assert(i * cols == (i - 1) * cols + cols) by (nonlinear_arith);
            }
            proof {
                assert(out@.len() == self.vals().len());
                assert(int_seq(out@) =~= self.vals());
            }
            out
        }
    }

    /// Column-major normalization: produces a buffer holding the same
    /// logical matrix as the row-major input `data`, but with each column
    /// stored contiguously (element `(i, j)` moves to `j * rows + i`).
    pub fn to_column_major(data: &Vec<i64>, rows: usize, cols: usize) -> (out: Vec<i64>)
        requires
            rows <= DIM_BOUND,
            cols <= DIM_BOUND,
            data@.len() == rows * cols,
        ensures
            out@.len() == rows * cols,
            forall|i: int, j: int|
                0 <= i < rows && 0 <= j < cols ==> #[trigger] out@[j * rows + i] == data@[i * cols
                    + j],
    {
        let mut out: Vec<i64> = Vec::new();
        let mut j: usize = 0;
        while j < cols
            invariant
                rows <= DIM_BOUND,
                cols <= DIM_BOUND,
                data@.len() == rows * cols,
                j <= cols,
                out@.len() == j * rows,
                forall|p: int|
                    0 <= p < out@.len() ==> #[trigger] out@[p] == data@[(p % (rows as int)) * cols
                        + p / (rows as int)],
            decreases cols - j,
        {
            let mut i: usize = 0;
            while i < rows
                invariant
                    rows <= DIM_BOUND,
                    cols <= DIM_BOUND,
                    data@.len() == rows * cols,
                    j < cols,
                    i <= rows,
                    out@.len() == j * rows + i,
                    forall|p: int|
                        0 <= p < out@.len() ==> #[trigger] out@[p] == data@[(p % (rows as int))
                            * cols + p / (rows as int)],
                decreases rows - i,
            {
                proof {
                    lemma_row_major_index(i as int, j as int, rows as int, cols as int);
                    lemma_row_major_index(j as int, i as int, cols as int, rows as int);
                }
                let v = data[i * cols + j];
                out.push(v);
                i = i + 1;
            }
            j = j + 1;
            assert(j * rows == (j - 1) * rows + rows) by (nonlinear_arith);
        }
        proof {
            assert(out@.len() == cols * rows);
            assert(cols * rows == rows * cols) by (nonlinear_arith);
            assert forall|i: int, j2: int|
                0 <= i < rows && 0 <= j2 < cols implies #[trigger] out@[j2 * rows + i] == data@[i
                * cols + j2] by {
                lemma_row_major_index(j2, i, cols as int, rows as int);
            }
        }
        out
    }

    /// The multiplication compatibility check, exactly as this library's
    /// callers have always relied on it: it compares the row count of the
    /// left operand with the column count of the right operand, and on
    /// failure returns an error carrying both shapes. (The textbook
    /// inner-dimension condition is enforced separately by `matmul`.)
    pub fn check_compatible(first: &Tensor, second: &Tensor) -> (r: Result<(), ShapeError>)
        ensures
            r is Ok <==> first.rows == second.cols,
            r matches Err(e) ==> e.left@ == seq![first.rows, first.cols] && e.right@ == seq![
                second.rows,
                second.cols,
            ],
    {
        if first.rows != second.cols {
            let e = ShapeError { left: first.shape(), right: second.shape() };
            proof {
                assert(e.left@ =~= seq![first.rows, first.cols]);
                assert(e.right@ =~= seq![second.rows, second.cols]);
            }
            return Err(e);
        }
        Ok(())
    }

    /// Replaces the shape by a new two-entry shape with the same element
    /// count. The flat row-major element order at the time of the call is
    /// kept unchanged and merely repartitioned into the new rows; the
    /// buffer is normalized to row-major in the process. A new shape whose
    /// product differs from the element count is a caller error and is
    /// excluded up front.
    pub fn reshape(&mut self, shape: &[usize])
        requires
            old(self).wf(),
            shape@.len() == 2,
            shape@[0] <= DIM_BOUND,
            shape@[1] <= DIM_BOUND,
            shape@[0] * shape@[1] == old(self).rows * old(self).cols,
        ensures
            final(self).wf(),
            final(self).rows == shape@[0],
            final(self).cols == shape@[1],
            !final(self).column_major,
            final(self).vals() == old(self).vals(),
    {
        let flat = self.to_contiguous();
        let ghost previous = *self;
        self.data = flat;
        self.rows = shape[0];
        self.cols = shape[1];
        self.column_major = false;
        proof {
            assert(self.data@.len() == previous.vals().len());
            assert forall|p: int| 0 <= p < self.vals().len() implies self.vals()[p]
                == previous.vals()[p] by {
                lemma_flat_decomp(p, self.rows as int, self.cols as int);
            }
            assert(self.vals() =~= previous.vals());
        }
    }

    /// Elementwise sum with an equally shaped tensor, producing a new
    /// row-major tensor; neither operand is changed. Mismatched shapes are
    /// a caller error and are excluded up front; the element cap keeps
    /// every sum inside the machine integer range.
    pub fn add(&mut self, other: Tensor) -> (out: Tensor)
        requires
            old(self).wf(),
            other.wf(),
            old(self).rows == other.rows,
            old(self).cols == other.cols,
            old(self).bounded(ADD_BOUND as int),
            other.bounded(ADD_BOUND as int),
        ensures
            *final(self) == *old(self),
            out.wf(),
            out.rows == old(self).rows,
            out.cols == old(self).cols,
            !out.column_major,
            out.vals() == add_vals(old(self).vals(), other.vals()),
    {
        let a = self.to_contiguous();
        let b = other.to_contiguous();
        proof {
            assert(a@.len() == int_seq(a@).len());
            assert(b@.len() == int_seq(b@).len());
        }
        let rows = self.rows;
        let cols = self.cols;
        let len = a.len();
        let mut sum: Vec<i64> = Vec::new();
        let mut p: usize = 0;
        while p < len
            invariant
                a@.len() == len,
                b@.len() == len,
                int_seq(a@) == old(self).vals(),
                int_seq(b@) == other.vals(),
                old(self).bounded(ADD_BOUND as int),
                other.bounded(ADD_BOUND as int),
                old(self).vals().len() == len,
                other.vals().len() == len,
                p <= len,
                sum@.len() == p,
                forall|t: int|
                    0 <= t < p ==> (#[trigger] sum@[t]) as int == old(self).vals()[t]
                        + other.vals()[t],
            decreases len - p,
        {
            proof {
                assert(old(self).vals()[p as int] == int_seq(a@)[p as int]);
                assert(int_seq(a@)[p as int] == a@[p as int] as int);
                assert(other.vals()[p as int] == int_seq(b@)[p as int]);
                assert(int_seq(b@)[p as int] == b@[p as int] as int);
            }
            let v = a[p] + b[p];
            sum.push(v);
            p = p + 1;
        }
        let out = Tensor { data: sum, rows, cols, column_major: false };
        proof {
            assert forall|q: int| 0 <= q < out.vals().len() implies out.vals()[q] == add_vals(
                old(self).vals(),
                other.vals(),
            )[q] by {
                lemma_flat_decomp(q, rows as int, cols as int);
            }
            assert(out.vals() =~= add_vals(old(self).vals(), other.vals()));
        }
        out
    }

    /// In-place rectifier: every negative element becomes zero, every
    /// other element is kept. Shape and layout are unchanged.
    pub fn relu(&mut self)
        requires
            old(self).wf(),
        ensures
            final(self).wf(),
            final(self).rows == old(self).rows,
            final(self).cols == old(self).cols,
            final(self).column_major == old(self).column_major,
            final(self).vals() == relu_vals(old(self).vals()),
    {
        let len = self.data.len();
        let mut t: usize = 0;
        while t < len
            invariant
                old(self).wf(),
                self.rows == old(self).rows,
                self.cols == old(self).cols,
                self.column_major == old(self).column_major,
                self.data@.len() == len,
                old(self).data@.len() == len,
                t <= len,
                forall|q: int|
                    0 <= q < t ==> (#[trigger] self.data@[q]) as int == relu_val(
                        old(self).data@[q] as int,
                    ),
                forall|q: int| t <= q < len ==> #[trigger] self.data@[q] == old(self).data@[q],
            decreases len - t,
        {
            if self.data[t] < 0 {
                self.data[t] = 0;
            }
            t = t + 1;
        }
        proof {
            assert(self.wf());
            assert forall|p: int| 0 <= p < self.vals().len() implies self.vals()[p] == relu_vals(
                old(self).vals(),
            )[p] by {
                let r = self.rows as int;
                let c = self.cols as int;
                lemma_flat_decomp(p, r, c);
                if self.column_major {
                    lemma_index_in_bounds(p % c, p / c, c, r);
                }
            }
            assert(self.vals() =~= relu_vals(old(self).vals()));
        }
    }
}

/// For a row index `i` and column index `j` in range, the flat row-major
/// position `i * c + j` decomposes back into `i` and `j`, and lies in
/// bounds for an `r` by `c` buffer.
pub proof fn lemma_row_major_index(i: int, j: int, r: int, c: int)
    by (nonlinear_arith)
    requires
        0 <= i < r,
        0 <= j < c,
        r <= DIM_BOUND,
        c <= DIM_BOUND,
    ensures
        (i * c + j) / c == i,
        (i * c + j) % c == j,
        0 <= i * c + j < r * c,
        i * c + j < c * r,
        r * c <= 0x40000000,
{
}

/// A flat position `p` of an `r` by `c` buffer decomposes into the row
/// `p / c` and the column `p % c`, which recompose to `p`.
pub proof fn lemma_flat_decomp(p: int, r: int, c: int)
    by (nonlinear_arith)
    requires
        0 <= p < r * c,
        r >= 0,
        c >= 0,
    ensures
        0 <= p / c < r,
        0 <= p % c < c,
        (p / c) * c + (p % c) == p,
{
}

/// The flat position of an in-range cell lies in bounds, whichever factor
/// order the buffer length is written in.
pub proof fn lemma_index_in_bounds(i: int, j: int, r: int, c: int)
    by (nonlinear_arith)
    requires
        0 <= i < r,
        0 <= j < c,
    ensures
        0 <= i * c + j,
        i * c + j < r * c,
        i * c + j < c * r,
        i * c <= (r - 1) * c,
{
}

/// Two in-range dimensions multiply to a product that fits `usize` on
/// every target.
pub proof fn lemma_dim_product_fits(r: int, c: int)
    by (nonlinear_arith)
    requires
        0 <= r <= DIM_BOUND,
        0 <= c <= DIM_BOUND,
    ensures
        r * c <= 0x40000000,
{
}

} // verus!
