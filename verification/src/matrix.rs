//! The layout of a dense 2-D matrix: one flat vector in row-major order,
//! element `(r, c)` at `data[r * cols + c]`.
//!
//! The network stores its weights and batches this way so that a whole
//! minibatch moves through a layer as one matrix product. What is proved
//! here is the layout: building a matrix from rows, reading and writing
//! single elements and whole rows, transposing, and gathering rows. The
//! element type is a parameter; the arithmetic on elements is the
//! caller's.
use vstd::prelude::*;

verus! {

/// A dense 2-D matrix, row-major.
#[derive(Debug, Clone, PartialEq)]
pub struct Matrix<T> {
    pub rows: usize,
    pub cols: usize,
    pub data: Vec<T>,
}

/// `r * cols + c` lies inside a `rows x cols` matrix when `(r, c)` does.
pub proof fn lemma_index_in_bounds(r: int, c: int, rows: int, cols: int)
    requires
        0 <= r < rows,
        0 <= c < cols,
    ensures
        0 <= r * cols,
        r * cols + c < rows * cols,
        r * cols + cols <= rows * cols,
{
    assert(0 <= r * cols) by (nonlinear_arith)
        requires
            0 <= r,
            0 <= c < cols,
    ;
    assert(r * cols + cols <= rows * cols) by (nonlinear_arith)
        requires
            0 <= r < rows,
            0 <= c < cols,
    ;
}

impl<T> Matrix<T> {
    /// The data holds exactly `rows * cols` elements.
    pub open spec fn wf(self) -> bool {
        self.data@.len() == self.rows * self.cols
    }

    /// The element in row `r`, column `c`.
    pub open spec fn entry(self, r: int, c: int) -> T {
        self.data@[r * self.cols + c]
    }

    /// `self` is the transpose of `m`: rows and columns swapped.
    pub open spec fn is_transpose_of(self, m: Matrix<T>) -> bool {
        &&& self.wf()
        &&& self.rows == m.cols
        &&& self.cols == m.rows
        &&& forall|r: int, c: int|
            0 <= r < m.rows && 0 <= c < m.cols ==> #[trigger] self.entry(c, r) == m.entry(r, c)
    }

    /// Row `r`, as a sequence of `cols` elements.
    pub open spec fn row_view(self, r: int) -> Seq<T> {
        self.data@.subrange(r * self.cols, r * self.cols + self.cols)
    }
}

impl<T: Copy> Matrix<T> {
    /// A `rows x cols` matrix with every element equal to `value`.
    pub fn filled(rows: usize, cols: usize, value: T) -> (m: Self)
        requires
            rows * cols <= usize::MAX,
        ensures
            m.wf(),
            m.rows == rows,
            m.cols == cols,
            forall|i: int| 0 <= i < rows * cols ==> #[trigger] m.data@[i] == value,
    {
        let n = rows * cols;
        let mut data: Vec<T> = Vec::new();
        let mut i: usize = 0;
        while i < n
            invariant
                i <= n,
                data@.len() == i,
                forall|k: int| 0 <= k < i ==> #[trigger] data@[k] == value,
            decreases n - i,
        {
            data.push(value);
            i += 1;
        }
        Self { rows, cols, data }
    }

    /// A matrix over `data`, which must hold exactly `rows * cols` elements.
    pub fn from_vec(rows: usize, cols: usize, data: Vec<T>) -> (m: Self)
        requires
            data@.len() == rows * cols,
        ensures
            m.wf(),
            m.rows == rows,
            m.cols == cols,
            m.data@ == data@,
    {
        Self { rows, cols, data }
    }

    /// A single sample as a one-row matrix.
    pub fn row_vector(values: &[T]) -> (m: Self)
        ensures
            m.wf(),
            m.rows == 1,
            m.cols == values@.len(),
            m.data@ == values@,
    {
        let mut data: Vec<T> = Vec::new();
        let mut i: usize = 0;
        while i < values.len()
            invariant
                i <= values@.len(),
                data@ == values@.subrange(0, i as int),
            decreases values@.len() - i,
        {
            data.push(values[i]);
            i += 1;
            assert(data@ =~= values@.subrange(0, i as int));
        }
        assert(values@.subrange(0, values@.len() as int) =~= values@);
        Self { rows: 1, cols: values.len(), data }
    }

    /// The element in row `r`, column `c`.
    pub fn get(&self, r: usize, c: usize) -> (value: T)
        requires
            self.wf(),
            r < self.rows,
            c < self.cols,
        ensures
            value == self.entry(r as int, c as int),
            value == self.data@[r * self.cols + c],
    {
        let len = self.data.len();
        proof {
            lemma_index_in_bounds(r as int, c as int, self.rows as int, self.cols as int);
        }
        self.data[r * self.cols + c]
    }

    /// Overwrite the element in row `r`, column `c`; nothing else changes.
    pub fn set(&mut self, r: usize, c: usize, value: T)
        requires
            old(self).wf(),
            r < old(self).rows,
            c < old(self).cols,
        ensures
            final(self).rows == old(self).rows,
            final(self).cols == old(self).cols,
            final(self).data@ == old(self).data@.update(r * old(self).cols + c, value),
    {
        let len = self.data.len();
        proof {
            lemma_index_in_bounds(r as int, c as int, self.rows as int, self.cols as int);
        }
        let i = r * self.cols + c;
        self.data.set(i, value);
    }

    /// Row `r`.
    pub fn row(&self, r: usize) -> (values: &[T])
        requires
            self.wf(),
            r < self.rows,
        ensures
            values@ == self.row_view(r as int),
            forall|c: int| 0 <= c < self.cols ==> #[trigger] values@[c] == self.entry(r as int, c),
    {
        let len = self.data.len();
        proof {
            if self.cols > 0 {
                lemma_index_in_bounds(r as int, 0, self.rows as int, self.cols as int);
            } else {
                assert(r * self.cols == 0) by (nonlinear_arith)
                    requires
                        self.cols == 0,
                ;
            }
        }
        let start = r * self.cols;
        let (_, rest) = self.data.as_slice().split_at(start);
        let (values, _) = rest.split_at(self.cols);
        values
    }
}

impl<T: Copy> Matrix<T> {
    /// Row `r`, for writing. Whatever is written into it lands in row `r`
    /// of the matrix; the rest of the matrix keeps its elements.
    pub fn row_mut(&mut self, r: usize) -> (values: &mut [T])
        requires
            old(self).wf(),
            r < old(self).rows,
        ensures
            values@ == old(self).row_view(r as int),
            final(self).rows == old(self).rows,
            final(self).cols == old(self).cols,
            final(self).data@ == old(self).data@.subrange(
                0,
                r * old(self).cols,
            ) + final(values)@ + old(self).data@.subrange(
                r * old(self).cols + old(self).cols,
                old(self).data@.len() as int,
            ),
    {
        let len = self.data.len();
        proof {
            if self.cols > 0 {
                lemma_index_in_bounds(r as int, 0, self.rows as int, self.cols as int);
            } else {
                assert(r * self.cols == 0) by (nonlinear_arith)
                    requires
                        self.cols == 0,
                ;
            }
        }
        let start = r * self.cols;
        let cols = self.cols;
        let (_, rest) = self.data.as_mut_slice().split_at_mut(start);
        let (values, _) = rest.split_at_mut(cols);
        values
    }
}

impl<T: Copy> Matrix<T> {
    /// `self^T`: swap rows and columns.
    pub fn transpose(&self) -> (out: Matrix<T>)
        requires
            self.wf(),
        ensures
            out.is_transpose_of(*self),
            forall|r: int, c: int|
                0 <= r < self.rows && 0 <= c < self.cols ==> #[trigger] out.data@[c * self.rows + r]
                    == self.data@[r * self.cols + c],
    {
        let rows = self.rows;
        let cols = self.cols;
        let len = self.data.len();
        let mut data: Vec<T> = Vec::new();
        let mut c: usize = 0;
        while c < cols
            invariant
                self.wf(),
                rows == self.rows,
                cols == self.cols,
                len == self.data@.len(),
                c <= cols,
                data@.len() == c * rows,
                forall|cc: int, rr: int|
                    0 <= cc < c && 0 <= rr < rows ==> data@[cc * rows + rr] == #[trigger] self.entry(
                        rr,
                        cc,
                    ),
            decreases cols - c,
        {
            let mut r: usize = 0;
            while r < rows
                invariant
                    self.wf(),
                    rows == self.rows,
                    cols == self.cols,
                    len == self.data@.len(),
                    c < cols,
                    r <= rows,
                    data@.len() == c * rows + r,
                    forall|cc: int, rr: int|
                        0 <= cc < c && 0 <= rr < rows ==> data@[cc * rows + rr]
                            == #[trigger] self.entry(rr, cc),
                    forall|rr: int| 0 <= rr < r ==> data@[c * rows + rr] == #[trigger] self.entry(rr, c as int),
                decreases rows - r,
            {
                proof {
                    lemma_index_in_bounds(r as int, c as int, rows as int, cols as int);
                }
                let ghost before = data@;
                data.push(self.data[r * cols + c]);
                proof {
                    assert forall|cc: int, rr: int|
                        0 <= cc < c && 0 <= rr < rows implies data@[cc * rows + rr]
                        == #[trigger] self.entry(rr, cc) by {
                        lemma_index_in_bounds(cc, rr, c as int, rows as int);
                    }
                }
                r += 1;
            }
            proof {
                assert forall|cc: int, rr: int|
                    0 <= cc < c + 1 && 0 <= rr < rows implies data@[cc * rows + rr]
                    == #[trigger] self.entry(rr, cc) by {
                    if cc == c {
                    }
                }
                assert((c + 1) * rows == c * rows + rows) by (nonlinear_arith);
            }
            c += 1;
        }
        proof {
            assert(cols * rows == rows * cols) by (nonlinear_arith);
        }
        let out = Matrix { rows: cols, cols: rows, data };
        proof {
            assert forall|r: int, c: int| 0 <= r < self.rows && 0 <= c < self.cols implies
                #[trigger] out.data@[c * self.rows + r] == self.data@[r * self.cols + c] by {
                assert(out.entry(c, r) == self.entry(r, c));
            }
        }
        out
    }
}

impl<T: Copy> Matrix<T> {
    /// Gather the given rows, in the given order, into a new matrix: how a
    /// shuffled minibatch is cut out of the whole dataset.
    pub fn select_rows(&self, indices: &[usize]) -> (out: Matrix<T>)
        requires
            self.wf(),
            forall|i: int| 0 <= i < indices@.len() ==> #[trigger] indices@[i] < self.rows,
            indices@.len() * self.cols <= usize::MAX,
        ensures
            out.wf(),
            out.rows == indices@.len(),
            out.cols == self.cols,
            forall|i: int, c: int|
                0 <= i < indices@.len() && 0 <= c < self.cols ==> #[trigger] out.entry(i, c)
                    == self.entry(indices@[i] as int, c),
    {
        let cols = self.cols;
        let n = indices.len();
        let len = self.data.len();
        let mut data: Vec<T> = Vec::new();
        let mut i: usize = 0;
        while i < n
            invariant
                self.wf(),
                cols == self.cols,
                n == indices@.len(),
                len == self.data@.len(),
                forall|k: int| 0 <= k < n ==> #[trigger] indices@[k] < self.rows,
                i <= n,
                data@.len() == i * cols,
                forall|ii: int, c: int|
                    0 <= ii < i && 0 <= c < cols ==> data@[ii * cols + c] == #[trigger] self.entry(
                        indices@[ii] as int,
                        c,
                    ),
            decreases n - i,
        {
            let src = indices[i];
            let mut c: usize = 0;
            while c < cols
                invariant
                    self.wf(),
                    cols == self.cols,
                    n == indices@.len(),
                    len == self.data@.len(),
                    i < n,
                    src == indices@[i as int],
                    src < self.rows,
                    c <= cols,
                    data@.len() == i * cols + c,
                    forall|ii: int, cc: int|
                        0 <= ii < i && 0 <= cc < cols ==> data@[ii * cols + cc]
                            == #[trigger] self.entry(indices@[ii] as int, cc),
                    forall|cc: int| 0 <= cc < c ==> data@[i * cols + cc] == #[trigger] self.entry(
                        src as int,
                        cc,
                    ),
                decreases cols - c,
            {
                proof {
                    lemma_index_in_bounds(src as int, c as int, self.rows as int, cols as int);
                }
                data.push(self.data[src * cols + c]);
                proof {
                    assert forall|ii: int, cc: int|
                        0 <= ii < i && 0 <= cc < cols implies data@[ii * cols + cc]
                        == #[trigger] self.entry(indices@[ii] as int, cc) by {
                        lemma_index_in_bounds(ii, cc, i as int, cols as int);
                    }
                }
                c += 1;
            }
            proof {
                assert((i + 1) * cols == i * cols + cols) by (nonlinear_arith);
            }
            i += 1;
        }
        Matrix { rows: n, cols, data }
    }

    /// Build a matrix from a non-empty list of rows of equal length.
    pub fn from_rows(rows: &[Vec<T>]) -> (m: Matrix<T>)
        requires
            rows@.len() > 0,
            forall|r: int| 0 <= r < rows@.len() ==> #[trigger] rows@[r]@.len() == rows@[0]@.len(),
            rows@.len() * rows@[0]@.len() <= usize::MAX,
        ensures
            m.wf(),
            m.rows == rows@.len(),
            m.cols == rows@[0]@.len(),
            forall|r: int, c: int|
                0 <= r < m.rows && 0 <= c < m.cols ==> #[trigger] m.entry(r, c) == rows@[r]@[c],
            forall|r: int| 0 <= r < m.rows ==> #[trigger] m.row_view(r) == rows@[r]@,
    {
        let n = rows.len();
        let cols = rows[0].len();
        let mut data: Vec<T> = Vec::new();
        let mut i: usize = 0;
        while i < n
            invariant
                n == rows@.len(),
                cols == rows@[0]@.len(),
                forall|r: int| 0 <= r < rows@.len() ==> #[trigger] rows@[r]@.len() == cols,
                n * cols <= usize::MAX,
                i <= n,
                data@.len() == i * cols,
                forall|ii: int, c: int|
                    0 <= ii < i && 0 <= c < cols ==> data@[ii * cols + c] == #[trigger] rows@[ii]@[c],
            decreases n - i,
        {
            let row = &rows[i];
            let mut c: usize = 0;
            while c < cols
                invariant
                    n == rows@.len(),
                    cols == rows@[0]@.len(),
                    forall|r: int| 0 <= r < rows@.len() ==> #[trigger] rows@[r]@.len() == cols,
                    n * cols <= usize::MAX,
                    i < n,
                    row@ == rows@[i as int]@,
                    c <= cols,
                    data@.len() == i * cols + c,
                    forall|ii: int, cc: int|
                        0 <= ii < i && 0 <= cc < cols ==> data@[ii * cols + cc]
                            == #[trigger] rows@[ii]@[cc],
                    forall|cc: int| 0 <= cc < c ==> data@[i * cols + cc] == #[trigger] row@[cc],
                decreases cols - c,
            {
                proof {
                    lemma_index_in_bounds(i as int, c as int, n as int, cols as int);
                }
                data.push(row[c]);
                proof {
                    assert forall|ii: int, cc: int|
                        0 <= ii < i && 0 <= cc < cols implies data@[ii * cols + cc]
                        == #[trigger] rows@[ii]@[cc] by {
                        lemma_index_in_bounds(ii, cc, i as int, cols as int);
                    }
                }
                c += 1;
            }
            proof {
                assert((i + 1) * cols == i * cols + cols) by (nonlinear_arith);
                assert forall|ii: int, cc: int|
                    0 <= ii < i + 1 && 0 <= cc < cols implies data@[ii * cols + cc]
                    == #[trigger] rows@[ii]@[cc] by {
                    if ii == i {
                        assert(rows@[ii]@[cc] == row@[cc]);
                    }
                }
            }
            i += 1;
        }
        let m = Matrix { rows: n, cols, data };
        proof {
            assert forall|r: int| 0 <= r < m.rows implies #[trigger] m.row_view(r) == rows@[r]@ by {
                assert forall|c: int| 0 <= c < cols implies m.row_view(r)[c] == rows@[r]@[c] by {
                    lemma_index_in_bounds(r, c, n as int, cols as int);
                    assert(m.entry(r, c) == rows@[r]@[c]);
                }
                if cols > 0 {
                    lemma_index_in_bounds(r, 0, n as int, cols as int);
                } else {
                    assert(r * cols == 0) by (nonlinear_arith)
                        requires
                            cols == 0,
                    ;
                }
                assert(m.row_view(r) =~= rows@[r]@);
            }
        }
        m
    }
}

/// Two positions inside a matrix with `cols` columns that land on the same
/// flat index are the same position.
pub proof fn lemma_index_injective(r1: int, c1: int, r2: int, c2: int, cols: int)
    requires
        0 <= r1,
        0 <= r2,
        0 <= c1 < cols,
        0 <= c2 < cols,
        r1 * cols + c1 == r2 * cols + c2,
    ensures
        r1 == r2,
        c1 == c2,
{
    if r1 < r2 {
        assert(r1 * cols + cols <= r2 * cols) by (nonlinear_arith)
            requires
                r1 < r2,
                cols > 0,
        ;
    } else if r2 < r1 {
        assert(r2 * cols + cols <= r1 * cols) by (nonlinear_arith)
            requires
                r2 < r1,
                cols > 0,
        ;
    }
}

/// Reading back a write: after `set(r, c, value)` the element at `(r, c)`
/// is `value` and every other element is what it was.
pub proof fn lemma_get_after_set<T>(before: Matrix<T>, after: Matrix<T>, r: int, c: int, value: T)
    requires
        before.wf(),
        0 <= r < before.rows,
        0 <= c < before.cols,
        after.rows == before.rows,
        after.cols == before.cols,
        after.data@ == before.data@.update(r * before.cols + c, value),
    ensures
        after.wf(),
        after.entry(r, c) == value,
        forall|r2: int, c2: int|
            0 <= r2 < before.rows && 0 <= c2 < before.cols && (r2 != r || c2 != c)
                ==> #[trigger] after.entry(r2, c2) == before.entry(r2, c2),
{
    lemma_index_in_bounds(r, c, before.rows as int, before.cols as int);
    assert forall|r2: int, c2: int|
        0 <= r2 < before.rows && 0 <= c2 < before.cols && (r2 != r || c2 != c)
            implies #[trigger] after.entry(r2, c2) == before.entry(r2, c2) by {
        lemma_index_in_bounds(r2, c2, before.rows as int, before.cols as int);
        if r2 * before.cols + c2 == r * before.cols + c {
            lemma_index_injective(r2, c2, r, c, before.cols as int);
        }
    }
}

/// Two well-formed matrices of one shape that agree on every element hold
/// the same data.
pub proof fn lemma_equal_entries_equal_data<T>(a: Matrix<T>, b: Matrix<T>)
    requires
        a.wf(),
        b.wf(),
        a.rows == b.rows,
        a.cols == b.cols,
        forall|r: int, c: int|
            0 <= r < a.rows && 0 <= c < a.cols ==> #[trigger] a.entry(r, c) == b.entry(r, c),
    ensures
        a.data@ == b.data@,
{
    assert forall|k: int| 0 <= k < a.data@.len() implies a.data@[k] == b.data@[k] by {
        let cols = a.cols as int;
        let rows = a.rows as int;
        assert(cols > 0) by (nonlinear_arith)
            requires
                0 <= k < rows * cols,
                rows >= 0,
        ;
        let r = k / cols;
        let c = k % cols;
        vstd::arithmetic::div_mod::lemma_fundamental_div_mod(k, cols);
        assert(0 <= c < cols);
        assert(0 <= r < rows) by (nonlinear_arith)
            requires
                k == cols * r + c,
                0 <= c < cols,
                0 <= k < rows * cols,
        ;
        assert(a.entry(r, c) == b.entry(r, c));
        assert(r * cols + c == k) by (nonlinear_arith)
            requires
                k == cols * r + c,
        ;
    }
    assert(a.data@ =~= b.data@);
}

/// Transposing twice gives back the matrix one started from.
pub proof fn lemma_transpose_twice<T>(m: Matrix<T>, t: Matrix<T>, tt: Matrix<T>)
    requires
        m.wf(),
        t.is_transpose_of(m),
        tt.is_transpose_of(t),
    ensures
        tt.rows == m.rows,
        tt.cols == m.cols,
        tt.data@ == m.data@,
{
    assert forall|r: int, c: int| 0 <= r < m.rows && 0 <= c < m.cols implies #[trigger] tt.entry(
        r,
        c,
    ) == m.entry(r, c) by {
        assert(tt.entry(r, c) == t.entry(c, r));
        assert(t.entry(c, r) == m.entry(r, c));
    }
    lemma_equal_entries_equal_data(tt, m);
}

} // verus!
