//! Compressed sparse column storage of derivative matrices, and the
//! Jacobian driver of a tape.
use vstd::prelude::*;

use crate::function::{inst_sym, param_syms, tan_or_zero, Function};
use crate::tape::{Tape, Var};

verus! {

/// Represents a sparse matrix in Compressed Sparse Column (CSC) format.
pub struct SparseStorage<T> {
    num_rows: usize,
    num_cols: usize,
    pub col_ptrs: Vec<u32>,
    pub row_idx: Vec<u32>,
    values: Vec<T>,
}

/// Marker for the Hessian driver; its evaluation is not provided.
pub struct Hessian {}

impl<T> Default for SparseStorage<T> {
    fn default() -> (r: Self)
        ensures
            r.spec_num_rows() == 0,
            r.spec_num_cols() == 0,
            r.spec_col_ptrs().len() == 0,
            r.spec_row_idx().len() == 0,
            r.spec_values().len() == 0,
    {
        SparseStorage {
            num_rows: 0,
            num_cols: 0,
            col_ptrs: Vec::new(),
            row_idx: Vec::new(),
            values: Vec::new(),
        }
    }
}

impl<T> SparseStorage<T> {
    pub closed spec fn spec_num_rows(&self) -> nat {
        self.num_rows as nat
    }

    pub closed spec fn spec_num_cols(&self) -> nat {
        self.num_cols as nat
    }

    pub closed spec fn spec_values(&self) -> Seq<T> {
        self.values@
    }

    pub closed spec fn spec_col_ptrs(&self) -> Seq<u32> {
        self.col_ptrs@
    }

    pub closed spec fn spec_row_idx(&self) -> Seq<u32> {
        self.row_idx@
    }

    /// Column `col` is described by in-range column pointers.
    pub open spec fn col_in_range(&self, col: int) -> bool {
        &&& 0 <= col
        &&& col + 1 < self.spec_col_ptrs().len()
        &&& self.spec_col_ptrs()[col] <= self.spec_col_ptrs()[col + 1]
        &&& self.spec_col_ptrs()[col + 1] <= self.spec_row_idx().len()
        &&& self.spec_col_ptrs()[col + 1] <= self.spec_values().len()
    }

    /// Every column is described by in-range column pointers.
    pub open spec fn columns_in_range(&self) -> bool {
        &&& self.spec_col_ptrs().len() == self.spec_num_cols() + 1
        &&& forall|a: int, b: int|
            0 <= a <= b <= self.spec_num_cols() ==> self.spec_col_ptrs()[a] <= self.spec_col_ptrs()[b]
        &&& self.spec_col_ptrs()[self.spec_num_cols() as int] <= self.spec_row_idx().len()
        &&& self.spec_col_ptrs()[self.spec_num_cols() as int] <= self.spec_values().len()
    }

    /// The documented CSC layout: `num_cols + 1` non-decreasing column
    /// pointers from zero to the number of stored entries, one row index
    /// per entry, each below `num_rows`, and the rows of each column
    /// strictly increasing.
    pub open spec fn csc_layout(&self) -> bool {
        let p = self.spec_col_ptrs();
        let rows = self.spec_row_idx();
        &&& self.columns_in_range()
        &&& p[0] == 0
        &&& p[self.spec_num_cols() as int] == rows.len()
        &&& rows.len() == self.spec_values().len()
        &&& forall|i: int| 0 <= i < rows.len() ==> #[trigger] rows[i] < self.spec_num_rows()
        &&& forall|c: int, i: int, j: int|
            #![trigger p[c], rows[i], rows[j]]
            0 <= c < self.spec_num_cols() && p[c] <= i < j < p[c + 1] ==> rows[i] < rows[j]
    }

    /// The matrix holds `columns`, as `from_column_entries` builds it: one
    /// column per entry of `columns`, each keeping its rows that hold an
    /// entry, in increasing order, with their values.
    pub open spec fn holds_columns(&self, num_rows: nat, columns: Seq<Vec<Option<T>>>) -> bool {
        &&& self.spec_num_rows() == num_rows
        &&& self.spec_num_cols() == columns.len()
        &&& self.spec_col_ptrs().len() == columns.len() + 1
        &&& forall|c: int| 0 <= c <= columns.len() ==> #[trigger] self.spec_col_ptrs()[c] == column_rows(columns, c).len()
        &&& self.spec_row_idx() == column_rows(columns, columns.len() as int)
        &&& self.spec_values() == column_values(columns, columns.len() as int)
    }

    /// A matrix of the given shape from its CSC arrays.
    pub fn from_parts(
        num_rows: usize,
        num_cols: usize,
        col_ptrs: Vec<u32>,
        row_idx: Vec<u32>,
        values: Vec<T>,
    ) -> (r: Self)
        ensures
            r.spec_num_rows() == num_rows,
            r.spec_num_cols() == num_cols,
            r.spec_col_ptrs() == col_ptrs@,
            r.spec_row_idx() == row_idx@,
            r.spec_values() == values@,
    {
        SparseStorage { num_rows, num_cols, col_ptrs, row_idx, values }
    }

    pub fn num_rows(&self) -> (r: usize)
        ensures
            r == self.spec_num_rows(),
    {
        self.num_rows
    }

    pub fn num_cols(&self) -> (r: usize)
        ensures
            r == self.spec_num_cols(),
    {
        self.num_cols
    }

    /// Number of explicitly stored entries.
    pub fn nnz(&self) -> (r: usize)
        ensures
            r == self.spec_values().len(),
    {
        self.values.len()
    }

    /// Column pointers; column `j`'s entries occupy
    /// `col_ptrs()[j]..col_ptrs()[j + 1]` in `row_indices()` and `values()`.
    pub fn col_ptrs(&self) -> (r: &[u32])
        ensures
            r@ == self.spec_col_ptrs(),
    {
        self.col_ptrs.as_slice()
    }

    /// Row index of each stored entry.
    pub fn row_indices(&self) -> (r: &[u32])
        ensures
            r@ == self.spec_row_idx(),
    {
        self.row_idx.as_slice()
    }

    /// Value of each stored entry, in the same order as `row_indices()`.
    pub fn values(&self) -> (r: &[T])
        ensures
            r@ == self.spec_values(),
    {
        self.values.as_slice()
    }

    /// The stored entries as `(row, col, &value)`, in column-major order.
    pub fn iter(&self) -> (r: Vec<(usize, usize, &T)>)
        requires
            self.columns_in_range(),
        ensures
            r@.len() == self.spec_col_ptrs()[self.spec_num_cols() as int] - self.spec_col_ptrs()[0],
            forall|col: int, k: int|
                #![trigger r@[k - self.spec_col_ptrs()[0]], self.spec_col_ptrs()[col]]
                0 <= col < self.spec_num_cols() && self.spec_col_ptrs()[col] <= k < self.spec_col_ptrs()[col
                    + 1] ==> r@[k - self.spec_col_ptrs()[0]] == (
                    self.spec_row_idx()[k] as usize,
                    col as usize,
                    &self.spec_values()[k],
                ),
    {
        let mut out: Vec<(usize, usize, &T)> = Vec::new();
        let ghost p0 = self.col_ptrs@[0] as int;
        let mut col: usize = 0;
        while col < self.num_cols
            invariant
                self.columns_in_range(),
                p0 == self.col_ptrs@[0],
                col <= self.num_cols,
                out@.len() == self.col_ptrs@[col as int] - p0,
                forall|c: int, k: int|
                    #![trigger out@[k - p0], self.col_ptrs@[c]]
                    0 <= c < col && self.col_ptrs@[c] <= k < self.col_ptrs@[c + 1] ==> out@[k - p0] == (
                        self.row_idx@[k] as usize,
                        c as usize,
                        &self.values@[k],
                    ),
            decreases self.num_cols - col,
        {
            assert(self.col_ptrs@[col + 1] <= self.col_ptrs@[self.num_cols as int]);
            let start = self.col_ptrs[col] as usize;
            let end = self.col_ptrs[col + 1] as usize;
            let mut k = start;
            while k < end
                invariant
                    col < self.num_cols,
                    self.columns_in_range(),
                    p0 == self.col_ptrs@[0],
                    start == self.col_ptrs@[col as int],
                    end == self.col_ptrs@[col + 1],
                    start <= k <= end,
                    out@.len() == k - p0,
                    forall|c: int, k2: int|
                        #![trigger out@[k2 - p0], self.col_ptrs@[c]]
                        0 <= c < col && self.col_ptrs@[c] <= k2 < self.col_ptrs@[c + 1] ==> out@[k2 - p0]
                            == (self.row_idx@[k2] as usize, c as usize, &self.values@[k2]),
                    forall|k2: int|
                        start <= k2 < k ==> #[trigger] out@[k2 - p0] == (
                            self.row_idx@[k2] as usize,
                            col as usize,
                            &self.values@[k2],
                        ),
                decreases end - k,
            {
                assert(self.col_ptrs@[col + 1] <= self.col_ptrs@[self.num_cols as int]);
                let ghost before = out@;
                out.push((self.row_idx[k] as usize, col, &self.values[k]));
                proof {
                    assert forall|c: int, k2: int|
                        #![trigger out@[k2 - p0], self.col_ptrs@[c]]
                        0 <= c < col && self.col_ptrs@[c] <= k2 < self.col_ptrs@[c + 1] implies out@[k2 - p0]
                            == (self.row_idx@[k2] as usize, c as usize, &self.values@[k2]) by {
                        assert(self.col_ptrs@[c + 1] <= self.col_ptrs@[col as int]);
                        assert(before[k2 - p0] == (self.row_idx@[k2] as usize, c as usize, &self.values@[k2]));
                    }
                    assert forall|k2: int|
                        start <= k2 < k + 1 implies #[trigger] out@[k2 - p0] == (
                            self.row_idx@[k2] as usize,
                            col as usize,
                            &self.values@[k2],
                        ) by {
                        if k2 < k {
                            assert(before[k2 - p0] == (self.row_idx@[k2] as usize, col as usize, &self.values@[k2]));
                        }
                    }
                }
                k += 1;
            }
            col += 1;
        }
        out
    }
}

/// The rows among the first `upto` of `col` that hold an entry, in
/// increasing order.
pub open spec fn present_rows<T>(col: Seq<Option<T>>, upto: int) -> Seq<u32>
    decreases upto,
{
    if upto <= 0 {
        Seq::empty()
    } else {
        present_rows(col, upto - 1) + if col[upto - 1] is Some {
            seq![(upto - 1) as u32]
        } else {
            Seq::empty()
        }
    }
}

/// The entries among the first `upto` of `col`, in row order.
pub open spec fn present_values<T>(col: Seq<Option<T>>, upto: int) -> Seq<T>
    decreases upto,
{
    if upto <= 0 {
        Seq::empty()
    } else {
        present_values(col, upto - 1) + if col[upto - 1] is Some {
            seq![col[upto - 1]->0]
        } else {
            Seq::empty()
        }
    }
}

/// The rows of the entries of the first `c` columns, column after column.
pub open spec fn column_rows<T>(columns: Seq<Vec<Option<T>>>, c: int) -> Seq<u32>
    decreases c,
{
    if c <= 0 {
        Seq::empty()
    } else {
        column_rows(columns, c - 1) + present_rows(columns[c - 1]@, columns[c - 1]@.len() as int)
    }
}

/// The entries of the first `c` columns, column after column.
pub open spec fn column_values<T>(columns: Seq<Vec<Option<T>>>, c: int) -> Seq<T>
    decreases c,
{
    if c <= 0 {
        Seq::empty()
    } else {
        column_values(columns, c - 1) + present_values(columns[c - 1]@, columns[c - 1]@.len() as int)
    }
}

proof fn lemma_present_rows<T>(col: Seq<Option<T>>, upto: int)
    requires
        0 <= upto <= col.len(),
        col.len() <= u32::MAX,
    ensures
        present_rows(col, upto).len() == present_values(col, upto).len(),
        present_rows(col, upto).len() <= upto,
        forall|i: int| 0 <= i < present_rows(col, upto).len() ==> #[trigger] present_rows(col, upto)[i] < upto,
        forall|i: int, j: int|
            0 <= i < j < present_rows(col, upto).len() ==> #[trigger] present_rows(col, upto)[i]
                < #[trigger] present_rows(col, upto)[j],
    decreases upto,
{
    if upto > 0 {
        lemma_present_rows(col, upto - 1);
    }
}

proof fn lemma_column_rows<T>(columns: Seq<Vec<Option<T>>>, a: int, b: int)
    requires
        0 <= a <= b <= columns.len(),
    ensures
        column_rows(columns, a).len() <= column_rows(columns, b).len(),
        column_rows(columns, b).subrange(0, column_rows(columns, a).len() as int) == column_rows(columns, a),
    decreases b,
{
    if a < b {
        lemma_column_rows(columns, a, b - 1);
        let p = column_rows(columns, b - 1);
        assert(column_rows(columns, b).subrange(0, p.len() as int) =~= p);
        assert(column_rows(columns, b).subrange(0, column_rows(columns, a).len() as int) =~= p.subrange(
            0,
            column_rows(columns, a).len() as int,
        ));
    } else {
        assert(column_rows(columns, b).subrange(0, column_rows(columns, a).len() as int) =~= column_rows(columns, a));
    }
}

proof fn lemma_column_lens<T>(columns: Seq<Vec<Option<T>>>, c: int)
    requires
        0 <= c <= columns.len(),
        forall|j: int| 0 <= j < columns.len() ==> (#[trigger] columns[j])@.len() <= u32::MAX,
    ensures
        column_rows(columns, c).len() == column_values(columns, c).len(),
    decreases c,
{
    if c > 0 {
        lemma_column_lens(columns, c - 1);
        lemma_present_rows(columns[c - 1]@, columns[c - 1]@.len() as int);
    }
}

proof fn lemma_column_values<T>(columns: Seq<Vec<Option<T>>>, a: int, b: int)
    requires
        0 <= a <= b <= columns.len(),
    ensures
        column_values(columns, a).len() <= column_values(columns, b).len(),
        column_values(columns, b).subrange(0, column_values(columns, a).len() as int) == column_values(columns, a),
    decreases b,
{
    if a < b {
        lemma_column_values(columns, a, b - 1);
        let p = column_values(columns, b - 1);
        assert(column_values(columns, b).subrange(0, p.len() as int) =~= p);
        assert(column_values(columns, b).subrange(0, column_values(columns, a).len() as int) =~= p.subrange(
            0,
            column_values(columns, a).len() as int,
        ));
    } else {
        assert(column_values(columns, b).subrange(0, column_values(columns, a).len() as int) =~= column_values(
            columns,
            a,
        ));
    }
}

/// The rows that `present_rows` lists are those with an entry, each with
/// its value at the same position of `present_values`.
proof fn lemma_present_find<T>(col: Seq<Option<T>>, upto: int)
    requires
        0 <= upto <= col.len(),
        col.len() <= u32::MAX,
    ensures
        forall|m: int|
            0 <= m < present_rows(col, upto).len() ==> col[#[trigger] present_rows(col, upto)[m] as int] is Some
                && present_values(col, upto)[m] == col[present_rows(col, upto)[m] as int]->0,
        forall|row: int|
            0 <= row < upto && (#[trigger] col[row]) is Some ==> exists|m: int|
                0 <= m < present_rows(col, upto).len() && present_rows(col, upto)[m] == row,
    decreases upto,
{
    if upto > 0 {
        lemma_present_find(col, upto - 1);
        lemma_present_rows(col, upto - 1);
        lemma_present_rows(col, upto);
        let q0 = present_rows(col, upto - 1);
        let q = present_rows(col, upto);
        let v = present_values(col, upto);
        assert forall|m: int| 0 <= m < q.len() implies col[#[trigger] q[m] as int] is Some && v[m] == col[q[m] as int]->0 by {
            if m < q0.len() {
                assert(q[m] == q0[m]);
                assert(v[m] == present_values(col, upto - 1)[m]);
            }
        }
        assert forall|row: int| 0 <= row < upto && (#[trigger] col[row]) is Some implies exists|m: int|
            0 <= m < q.len() && q[m] == row by {
            if row < upto - 1 {
                let m = choose|m: int| 0 <= m < q0.len() && q0[m] == row;
                assert(q[m] == q0[m]);
            } else {
                assert(q[q0.len() as int] == row);
            }
        }
    }
}

proof fn lemma_column_rows_bound<T>(columns: Seq<Vec<Option<T>>>, c: int, num_rows: int)
    requires
        0 <= c <= columns.len(),
        num_rows <= u32::MAX,
        forall|j: int| 0 <= j < columns.len() ==> (#[trigger] columns[j])@.len() == num_rows,
    ensures
        forall|i: int| 0 <= i < column_rows(columns, c).len() ==> #[trigger] column_rows(columns, c)[i] < num_rows,
    decreases c,
{
    if c > 0 {
        lemma_column_rows_bound(columns, c - 1, num_rows);
        let col = columns[c - 1]@;
        lemma_present_rows(col, col.len() as int);
        let p = column_rows(columns, c - 1);
        let q = present_rows(col, col.len() as int);
        assert forall|i: int| 0 <= i < column_rows(columns, c).len() implies #[trigger] column_rows(columns, c)[i]
            < num_rows by {
            if i < p.len() {
                assert(column_rows(columns, c)[i] == p[i]);
            } else {
                assert(column_rows(columns, c)[i] == q[i - p.len()]);
            }
        }
    }
}

impl<T: Copy> SparseStorage<T> {
    /// A matrix with `num_rows` rows and one column per entry of `columns`,
    /// each listing an optional entry per row: a column keeps the rows that
    /// hold an entry, in increasing order, with their values.
    pub fn from_column_entries(num_rows: usize, columns: &Vec<Vec<Option<T>>>) -> (r: Self)
        requires
            num_rows <= u32::MAX,
            columns@.len() < usize::MAX,
            forall|j: int| 0 <= j < columns@.len() ==> (#[trigger] columns@[j])@.len() == num_rows,
            column_rows(columns@, columns@.len() as int).len() <= u32::MAX,
        ensures
            r.spec_num_rows() == num_rows,
            r.spec_num_cols() == columns@.len(),
            r.spec_col_ptrs().len() == columns@.len() + 1,
            forall|c: int| 0 <= c <= columns@.len() ==> #[trigger] r.spec_col_ptrs()[c] == column_rows(columns@, c).len(),
            r.spec_row_idx() == column_rows(columns@, columns@.len() as int),
            r.spec_values() == column_values(columns@, columns@.len() as int),
            r.columns_in_range(),
            // Rows are sorted within each column.
            forall|c: int, i: int, j: int|
                #![trigger r.spec_col_ptrs()[c], r.spec_row_idx()[i], r.spec_row_idx()[j]]
                0 <= c < columns@.len() && r.spec_col_ptrs()[c] <= i < j < r.spec_col_ptrs()[c + 1]
                    ==> r.spec_row_idx()[i] < r.spec_row_idx()[j],
            r.csc_layout(),
            r.holds_columns(num_rows as nat, columns@),
    {
        let n = columns.len();
        let mut col_ptrs: Vec<u32> = Vec::new();
        let mut row_idx: Vec<u32> = Vec::new();
        let mut values: Vec<T> = Vec::new();
        col_ptrs.push(0);
        let mut c: usize = 0;
        while c < n
            invariant
                n == columns@.len(),
                num_rows <= u32::MAX,
                forall|j: int| 0 <= j < n ==> (#[trigger] columns@[j])@.len() == num_rows,
                column_rows(columns@, n as int).len() <= u32::MAX,
                c <= n,
                col_ptrs@.len() == c + 1,
                forall|k: int| 0 <= k <= c ==> #[trigger] col_ptrs@[k] == column_rows(columns@, k).len(),
                row_idx@ == column_rows(columns@, c as int),
                values@ == column_values(columns@, c as int),
            decreases n - c,
        {
            let col = &columns[c];
            let mut i: usize = 0;
            proof {
                lemma_column_rows(columns@, c + 1, n as int);
            }
            while i < num_rows
                invariant
                    n == columns@.len(),
                    c < n,
                    col@ == columns@[c as int]@,
                    col@.len() == num_rows,
                    num_rows <= u32::MAX,
                    column_rows(columns@, c + 1).len() <= u32::MAX,
                    i <= num_rows,
                    row_idx@ == column_rows(columns@, c as int) + present_rows(col@, i as int),
                    values@ == column_values(columns@, c as int) + present_values(col@, i as int),
                decreases num_rows - i,
            {
                match col[i] {
                    Some(v) => {
                        row_idx.push(i as u32);
                        values.push(v);
                    },
                    None => {},
                }
                proof {
                    assert(row_idx@ =~= column_rows(columns@, c as int) + present_rows(col@, i + 1));
                    assert(values@ =~= column_values(columns@, c as int) + present_values(col@, i + 1));
                }
                i += 1;
            }
            proof {
                assert(row_idx@ == column_rows(columns@, c + 1));
                assert(values@ == column_values(columns@, c + 1));
            }
            col_ptrs.push(row_idx.len() as u32);
            c += 1;
        }
        proof {
            let cols = columns@;
            lemma_column_lens(cols, n as int);
            lemma_column_rows_bound(cols, n as int, num_rows as int);
            assert forall|a: int, b: int| 0 <= a <= b <= n implies col_ptrs@[a] <= col_ptrs@[b] by {
                lemma_column_rows(cols, a, b);
            }
            assert forall|c2: int, i: int, j: int|
                #![trigger col_ptrs@[c2], row_idx@[i], row_idx@[j]]
                0 <= c2 < n && col_ptrs@[c2] <= i < j < col_ptrs@[c2 + 1] implies row_idx@[i]
                < row_idx@[j] by {
                let col = cols[c2]@;
                let base = column_rows(cols, c2);
                lemma_column_rows(cols, c2 + 1, n as int);
                lemma_present_rows(col, col.len() as int);
                let whole = column_rows(cols, c2 + 1);
                assert(whole == base + present_rows(col, col.len() as int));
                assert(row_idx@.subrange(0, whole.len() as int) == whole);
                assert(row_idx@[i] == whole[i]);
                assert(row_idx@[j] == whole[j]);
                assert(whole[i] == present_rows(col, col.len() as int)[i - base.len()]);
                assert(whole[j] == present_rows(col, col.len() as int)[j - base.len()]);
            }
        }
        SparseStorage { num_rows, num_cols: n, col_ptrs, row_idx, values }
    }
}

impl<T: Default + Copy> SparseStorage<T> {
    /// Entry `(row, col)`, or the default (zero) if structurally absent.
    pub fn get(&self, row: usize, col: usize) -> (r: T)
        requires
            self.col_in_range(col as int),
        ensures
            (exists|k: int|
                self.spec_col_ptrs()[col as int] <= k < self.spec_col_ptrs()[col + 1] && self.spec_row_idx()[k] == row)
                ==> {
                let k = first_position(self.spec_row_idx(), self.spec_col_ptrs()[col as int] as int, self.spec_col_ptrs()[col + 1] as int, row as int);
                r == self.spec_values()[k]
            },
            !(exists|k: int|
                self.spec_col_ptrs()[col as int] <= k < self.spec_col_ptrs()[col + 1] && self.spec_row_idx()[k] == row)
                ==> call_ensures(T::default, (), r),
    {
        let num_ptrs = self.col_ptrs.len();
        assert(col + 1 < num_ptrs);
        let start = self.col_ptrs[col] as usize;
        let end = self.col_ptrs[col + 1] as usize;
        let mut k = start;
        while k < end
            invariant
                self.col_in_range(col as int),
                start == self.spec_col_ptrs()[col as int],
                end == self.spec_col_ptrs()[col + 1],
                start <= k <= end,
                forall|k2: int| start <= k2 < k ==> self.spec_row_idx()[k2] != row,
            decreases end - k,
        {
            if self.row_idx[k] as usize == row {
                proof {
                    lemma_first_position(self.spec_row_idx(), start as int, end as int, row as int, k as int);
                }
                return self.values[k];
            }
            k += 1;
        }
        T::default()
    }
}

/// Reading back what was stored: in a matrix built from `columns`, row
/// `row` of column `col` holds a stored entry exactly when `columns` lists
/// one there, and the first stored entry for that row has its value.
pub proof fn lemma_get_of_column_entries<T>(r: SparseStorage<T>, columns: Seq<Vec<Option<T>>>, row: int, col: int)
    requires
        r.holds_columns(r.spec_num_rows(), columns),
        r.spec_num_rows() <= u32::MAX,
        forall|j: int| 0 <= j < columns.len() ==> (#[trigger] columns[j])@.len() == r.spec_num_rows(),
        0 <= row < r.spec_num_rows(),
        0 <= col < columns.len(),
    ensures
        (exists|k: int|
            r.spec_col_ptrs()[col] <= k < r.spec_col_ptrs()[col + 1] && r.spec_row_idx()[k] == row) <==> columns[col]@[row] is Some,
        columns[col]@[row] is Some ==> r.spec_values()[first_position(
            r.spec_row_idx(),
            r.spec_col_ptrs()[col] as int,
            r.spec_col_ptrs()[col + 1] as int,
            row,
        )] == columns[col]@[row]->0,
{
    let n = columns.len() as int;
    let cv = columns[col]@;
    let len = cv.len() as int;
    let base = column_rows(columns, col);
    let q = present_rows(cv, len);
    let pv = present_values(cv, len);
    let rows = r.spec_row_idx();
    let vals = r.spec_values();
    let lo = r.spec_col_ptrs()[col] as int;
    let hi = r.spec_col_ptrs()[col + 1] as int;
    lemma_present_rows(cv, len);
    lemma_present_find(cv, len);
    lemma_column_rows(columns, col + 1, n);
    lemma_column_values(columns, col + 1, n);
    assert forall|j: int| 0 <= j < columns.len() implies (#[trigger] columns[j])@.len() <= u32::MAX by {}
    lemma_column_lens(columns, col);
    assert(column_rows(columns, col + 1) == base + q);
    assert(column_values(columns, col + 1) == column_values(columns, col) + pv);
    assert(lo == base.len() && hi == base.len() + q.len());
    assert forall|k: int| lo <= k < hi implies #[trigger] rows[k] == q[k - lo] && vals[k] == pv[k - lo] by {
        assert(rows[k] == rows.subrange(0, hi)[k]);
        assert(vals[k] == vals.subrange(0, column_values(columns, col + 1).len() as int)[k]);
    }
    if exists|k: int| lo <= k < hi && rows[k] == row {
        let k = choose|k: int| lo <= k < hi && rows[k] == row;
        assert(q[k - lo] == row);
        assert(cv[q[k - lo] as int] is Some);
    }
    if cv[row] is Some {
        let m = choose|m: int| 0 <= m < q.len() && q[m] == row;
        assert(rows[lo + m] == row);
        let f = first_position(rows, lo, hi, row);
        assert(lo <= f < hi && rows[f] == row);
        assert(q[f - lo] == row);
    }
}

/// The first position in `lo..hi` whose row is `row`.
pub open spec fn first_position(rows: Seq<u32>, lo: int, hi: int, row: int) -> int
    recommends
        exists|k: int| lo <= k < hi && rows[k] == row,
{
    choose|k: int| lo <= k < hi && rows[k] == row && forall|k2: int| lo <= k2 < k ==> rows[k2] != row
}

proof fn lemma_first_position(rows: Seq<u32>, lo: int, hi: int, row: int, k: int)
    requires
        lo <= k < hi,
        rows[k] == row,
        forall|k2: int| lo <= k2 < k ==> rows[k2] != row,
    ensures
        first_position(rows, lo, hi, row) == k,
{
    let f = first_position(rows, lo, hi, row);
    assert(lo <= f < hi && rows[f] == row && forall|k2: int| lo <= k2 < f ==> rows[k2] != row);
    if f < k {
        assert(rows[f] != row);
    } else if k < f {
        assert(rows[k] != row);
    }
}

/// `g` is the forward-mode transform of `f`: a function of the primals
/// followed by their tangents, returning the returns of `f` followed by
/// their tangents (zero where structurally zero).
pub open spec fn tangent_of(g: Function, f: Function) -> bool {
    let n = f.returns@.len();
    &&& g.wf()
    &&& g.num_params == 2 * f.num_params
    &&& g.returns@.len() == 2 * n
    &&& forall|k: int|
        0 <= k < n ==> #[trigger] g.return_sym(k) == inst_sym(
            f.insts@,
            f.returns@[k] as int,
            param_syms(f.num_params as nat),
        )
    &&& forall|k: int|
        0 <= k < n ==> #[trigger] g.return_sym(n + k) == tan_or_zero(
            f.insts@,
            f.returns@[k] as int,
            f.num_params as nat,
        )
}

/// The Jacobian of some outputs of a tape with respect to some inputs,
/// held as the forward-mode transform of their compilation: seeding the
/// tangent of input `j` with one and the others with zero gives column
/// `j`.
pub struct Jacobian {
    num_rows: usize,
    num_cols: usize,
    jvp: Function,
    primal: Ghost<Function>,
}

impl Jacobian {
    pub closed spec fn spec_num_rows(&self) -> nat {
        self.num_rows as nat
    }

    pub closed spec fn spec_num_cols(&self) -> nat {
        self.num_cols as nat
    }

    /// The forward-mode function.
    pub closed spec fn spec_jvp(&self) -> Function {
        self.jvp
    }

    /// The compiled function it transforms.
    pub closed spec fn spec_primal(&self) -> Function {
        self.primal@
    }

    /// The Jacobian of `outputs` with respect to `inputs`.
    pub fn new(tape: &Tape, inputs: &[Var], outputs: &[Var]) -> (j: Self)
        requires
            tape.compile_ok(inputs@, outputs@),
            2 * inputs@.len() <= u32::MAX,
        ensures
            j.spec_num_rows() == outputs@.len(),
            j.spec_num_cols() == inputs@.len(),
            tape.compiles_to(inputs@, outputs@, j.spec_primal()),
            tangent_of(j.spec_jvp(), j.spec_primal()),
    {
        let f = tape.compile(inputs, outputs);
        let jvp = f.forward();
        Jacobian { num_rows: outputs.len(), num_cols: inputs.len(), jvp, primal: Ghost(f) }
    }

    /// Number of outputs: rows of the matrix.
    pub fn num_rows(&self) -> (r: usize)
        ensures
            r == self.spec_num_rows(),
    {
        self.num_rows
    }

    /// Number of inputs: columns of the matrix.
    pub fn num_cols(&self) -> (r: usize)
        ensures
            r == self.spec_num_cols(),
    {
        self.num_cols
    }

    /// The forward-mode function whose tangent returns are a column.
    pub fn jvp(&self) -> (r: &Function)
        ensures
            *r == self.spec_jvp(),
    {
        &self.jvp
    }
}

} // verus!
