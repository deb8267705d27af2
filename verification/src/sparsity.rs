//! Sparsity patterns in compressed sparse column (CSC) form, and greedy
//! distance-2 colorings of their columns.
use vstd::prelude::*;

verus! {

/// Column `c` of a pattern occupies positions `col_idx[c]..col_idx[c + 1]`
/// of `row`; the rows of one column are strictly increasing.
pub open spec fn spec_valid_pattern(
    num_rows: nat,
    num_cols: nat,
    col_idx: Seq<u32>,
    row: Seq<u32>,
) -> bool {
    &&& col_idx.len() == num_cols + 1
    &&& col_idx[0] == 0
    &&& monotone_before(col_idx, num_cols as int)
    &&& row.len() == col_idx[num_cols as int]
    &&& forall|c: int, k: int|
        0 <= c < num_cols && col_idx[c] <= k < col_idx[c + 1] ==> entry_ok(
            num_rows,
            col_idx,
            row,
            c,
            k,
        )
}

/// Entry `k` of column `c` names a row in range, above the previous entry
/// of the same column.
pub open spec fn entry_ok(num_rows: nat, col_idx: Seq<u32>, row: Seq<u32>, c: int, k: int) -> bool {
    &&& row[k] < num_rows
    &&& (k > col_idx[c] ==> row[k - 1] < row[k])
}

/// Every entry at a position below `pos` is fine.
pub open spec fn entries_ok_before(
    num_rows: nat,
    num_cols: nat,
    col_idx: Seq<u32>,
    row: Seq<u32>,
    pos: int,
) -> bool {
    forall|c: int, k: int|
        0 <= c < num_cols && col_idx[c] <= k < col_idx[c + 1] && k < pos ==> entry_ok(
            num_rows,
            col_idx,
            row,
            c,
            k,
        )
}

/// The column pointers are monotone below column `col`.
pub open spec fn monotone_before(col_idx: Seq<u32>, col: int) -> bool {
    forall|c: int| #![trigger col_idx[c]] 0 <= c < col ==> col_idx[c] <= col_idx[c + 1]
}

/// The column pointers have the right length and first entry, and `col` is
/// the first column whose end lies below its start.
pub open spec fn spec_non_monotone_at(num_cols: nat, col_idx: Seq<u32>, col: int) -> bool {
    &&& col_idx.len() == num_cols + 1
    &&& col_idx[0] == 0
    &&& 0 <= col < num_cols
    &&& col_idx[col] > col_idx[col + 1]
    &&& monotone_before(col_idx, col)
}

/// The column pointers are valid but `row` does not hold one entry per position.
pub open spec fn spec_row_length_wrong(num_cols: nat, col_idx: Seq<u32>, row: Seq<u32>) -> bool {
    &&& col_idx.len() == num_cols + 1
    &&& col_idx[0] == 0
    &&& monotone_before(col_idx, num_cols as int)
    &&& row.len() != col_idx[num_cols as int]
}

/// The arrays are shaped right and `position` (in column `col`) is the first
/// entry that fails.
pub open spec fn spec_first_bad_entry(
    num_rows: nat,
    num_cols: nat,
    col_idx: Seq<u32>,
    row: Seq<u32>,
    col: int,
    position: int,
) -> bool {
    &&& col_idx.len() == num_cols + 1
    &&& col_idx[0] == 0
    &&& monotone_before(col_idx, num_cols as int)
    &&& row.len() == col_idx[num_cols as int]
    &&& 0 <= col < num_cols
    &&& col_idx[col] <= position < col_idx[col + 1]
    &&& entries_ok_before(num_rows, num_cols, col_idx, row, position)
}

/// The first failing entry names a row out of range.
pub open spec fn spec_row_out_of_range_at(
    num_rows: nat,
    num_cols: nat,
    col_idx: Seq<u32>,
    row: Seq<u32>,
    col: int,
    position: int,
) -> bool {
    &&& spec_first_bad_entry(num_rows, num_cols, col_idx, row, col, position)
    &&& row[position] >= num_rows
}

/// The first failing entry is in range but not above the previous entry of
/// its column.
pub open spec fn spec_row_not_increasing_at(
    num_rows: nat,
    num_cols: nat,
    col_idx: Seq<u32>,
    row: Seq<u32>,
    col: int,
    position: int,
) -> bool {
    &&& spec_first_bad_entry(num_rows, num_cols, col_idx, row, col, position)
    &&& row[position] < num_rows
    &&& position > col_idx[col]
    &&& row[position - 1] >= row[position]
}

/// A pattern of `num_rows x num_cols` whose entries are stored column by column.
#[derive(Debug, PartialEq, Eq, Hash)]
pub struct Sparsity {
    num_rows: usize,
    num_cols: usize,
    col_idx: Vec<u32>,
    row: Vec<u32>,
}

#[derive(Debug, Clone, PartialEq, Eq)]
pub enum SparsityError {
    ColIdxWrongLength { expected: usize, got: usize },
    ColIdxFirstNotZero,
    ColIdxNotMonotone { col: usize },
    RowLengthMismatch { expected: usize, got: usize },
    RowOutOfRange { col: usize, position: usize, row: u32 },
    RowsNotStrictlyIncreasing { col: usize, position: usize },
}

impl Clone for Sparsity {
    fn clone(&self) -> (r: Self)
        ensures
            r.spec_num_rows() == self.spec_num_rows(),
            r.spec_num_cols() == self.spec_num_cols(),
            r.spec_col_idx() == self.spec_col_idx(),
            r.spec_rows() == self.spec_rows(),
    {
        proof {
            use_type_invariant(self);
        }
        Sparsity {
            num_rows: self.num_rows,
            num_cols: self.num_cols,
            col_idx: self.col_idx.clone(),
            row: self.row.clone(),
        }
    }
}

impl Sparsity {
    #[verifier::type_invariant]
    closed spec fn inv(self) -> bool {
        spec_valid_pattern(self.num_rows as nat, self.num_cols as nat, self.col_idx@, self.row@)
    }

    pub closed spec fn spec_num_rows(self) -> nat {
        self.num_rows as nat
    }

    pub closed spec fn spec_num_cols(self) -> nat {
        self.num_cols as nat
    }

    /// Column pointers: column `c` occupies `col_idx[c]..col_idx[c + 1]`.
    pub closed spec fn spec_col_idx(self) -> Seq<u32> {
        self.col_idx@
    }

    /// Row of each stored entry, column by column.
    pub closed spec fn spec_rows(self) -> Seq<u32> {
        self.row@
    }

    pub open spec fn spec_nnz(self) -> nat {
        self.spec_rows().len()
    }

    /// The pattern is in valid compressed-column form, as every pattern of
    /// this type is.
    #[verifier::opaque]
    pub open spec fn valid(self) -> bool {
        spec_valid_pattern(self.spec_num_rows(), self.spec_num_cols(), self.spec_col_idx(), self.spec_rows())
    }

    /// Entry `(r, c)` is structurally present.
    pub open spec fn contains(self, r: int, c: int) -> bool {
        &&& 0 <= c < self.spec_num_cols()
        &&& exists|k: int|
            self.spec_col_idx()[c] <= k < self.spec_col_idx()[c + 1] && self.spec_rows()[k] == r
    }

    /// Builds a pattern from its CSC arrays, checking them in order: the
    /// length and first entry of `col_idx`, its monotonicity, the length of
    /// `row`, then every entry in storage order.
    pub fn new(num_rows: usize, num_cols: usize, col_idx: Vec<u32>, row: Vec<u32>) -> (r: Result<
        Self,
        SparsityError,
    >)
        requires
            num_cols < usize::MAX,
        ensures
            col_idx.len() != num_cols + 1 ==> r == Err::<Self, SparsityError>(
                SparsityError::ColIdxWrongLength { expected: (num_cols + 1) as usize, got: col_idx.len() },
            ),
            col_idx.len() == num_cols + 1 && col_idx[0] != 0 ==> r == Err::<Self, SparsityError>(
                SparsityError::ColIdxFirstNotZero,
            ),
            forall|col: usize|
                #[trigger] spec_non_monotone_at(num_cols as nat, col_idx@, col as int) ==> r == Err::<Self, SparsityError>(
                    SparsityError::ColIdxNotMonotone { col },
                ),
            r matches Err(SparsityError::ColIdxNotMonotone { col }) ==> spec_non_monotone_at(
                num_cols as nat,
                col_idx@,
                col as int,
            ),
            spec_row_length_wrong(num_cols as nat, col_idx@, row@) ==> r == Err::<Self, SparsityError>(
                SparsityError::RowLengthMismatch { expected: col_idx[num_cols as int] as usize, got: row.len() },
            ),
            r matches Err(SparsityError::RowLengthMismatch { .. }) ==> spec_row_length_wrong(
                num_cols as nat,
                col_idx@,
                row@,
            ),
            forall|col: usize, position: usize|
                #[trigger] spec_row_out_of_range_at(num_rows as nat, num_cols as nat, col_idx@, row@, col as int, position as int)
                    ==> r == Err::<Self, SparsityError>(
                    SparsityError::RowOutOfRange { col, position, row: row[position as int] },
                ),
            r matches Err(SparsityError::RowOutOfRange { col, position, row: rw }) ==> {
                &&& spec_row_out_of_range_at(num_rows as nat, num_cols as nat, col_idx@, row@, col as int, position as int)
                &&& rw == row[position as int]
            },
            forall|col: usize, position: usize|
                #[trigger] spec_row_not_increasing_at(num_rows as nat, num_cols as nat, col_idx@, row@, col as int, position as int)
                    ==> r == Err::<Self, SparsityError>(
                    SparsityError::RowsNotStrictlyIncreasing { col, position },
                ),
            r matches Err(SparsityError::RowsNotStrictlyIncreasing { col, position }) ==> spec_row_not_increasing_at(
                num_rows as nat,
                num_cols as nat,
                col_idx@,
                row@,
                col as int,
                position as int,
            ),
            (r is Ok) <==> spec_valid_pattern(num_rows as nat, num_cols as nat, col_idx@, row@),
            r matches Ok(s) ==> {
                &&& s.spec_num_rows() == num_rows
                &&& s.spec_num_cols() == num_cols
                &&& s.spec_col_idx() == col_idx@
                &&& s.spec_rows() == row@
            },
    {
        if col_idx.len() != num_cols + 1 {
            return Err(SparsityError::ColIdxWrongLength { expected: num_cols + 1, got: col_idx.len() });
        }
        if col_idx[0] != 0 {
            return Err(SparsityError::ColIdxFirstNotZero);
        }
        let mut c: usize = 0;
        while c < num_cols
            invariant
                c <= num_cols,
                col_idx.len() == num_cols + 1,
                col_idx[0] == 0,
                monotone_before(col_idx@, c as int),
            decreases num_cols - c,
        {
            if col_idx[c] > col_idx[c + 1] {
                return Err(SparsityError::ColIdxNotMonotone { col: c });
            }
            c += 1;
        }
        proof {
            assert forall|col: usize| #[trigger] spec_non_monotone_at(num_cols as nat, col_idx@, col as int)
                implies false by {
            }
        }
        let nnz = col_idx[num_cols] as usize;
        if row.len() != nnz {
            return Err(SparsityError::RowLengthMismatch { expected: nnz, got: row.len() });
        }
        match first_bad_entry(num_rows, num_cols, &col_idx, &row) {
            Some((c, k)) => {
                proof {
                    lemma_bad_entry_determined(num_rows as nat, num_cols as nat, col_idx@, row@, c as int, k as int);
                }
                if row[k] as usize >= num_rows {
                    Err(SparsityError::RowOutOfRange { col: c, position: k, row: row[k] })
                } else {
                    Err(SparsityError::RowsNotStrictlyIncreasing { col: c, position: k })
                }
            },
            None => {
                proof {
                    lemma_no_bad_entry(num_rows as nat, num_cols as nat, col_idx@, row@);
                }
                Ok(Sparsity { num_rows, num_cols, col_idx, row })
            },
        }
    }
}

/// The failing entry found by the scan is the one every error clause names.
proof fn lemma_bad_entry_determined(
    num_rows: nat,
    num_cols: nat,
    col_idx: Seq<u32>,
    row: Seq<u32>,
    c: int,
    k: int,
)
    requires
        spec_first_bad_entry(num_rows, num_cols, col_idx, row, c, k),
        !entry_ok(num_rows, col_idx, row, c, k),
    ensures
        0 <= k < row.len(),
        forall|col: usize, position: usize|
            #[trigger] spec_row_out_of_range_at(num_rows, num_cols, col_idx, row, col as int, position as int)
                ==> col == c && position == k,
        forall|col: usize, position: usize|
            #[trigger] spec_row_not_increasing_at(num_rows, num_cols, col_idx, row, col as int, position as int)
                ==> col == c && position == k,
        !spec_valid_pattern(num_rows, num_cols, col_idx, row),
{
    lemma_monotone_bound(col_idx, num_cols as int);
    assert(col_idx[c + 1] <= col_idx[num_cols as int]);
    assert forall|col: usize, position: usize|
        #[trigger] spec_row_out_of_range_at(num_rows, num_cols, col_idx, row, col as int, position as int)
        implies col == c && position == k by {
        lemma_first_bad_unique(num_rows, num_cols, col_idx, row, c, k, col as int, position as int);
    }
    assert forall|col: usize, position: usize|
        #[trigger] spec_row_not_increasing_at(num_rows, num_cols, col_idx, row, col as int, position as int)
        implies col == c && position == k by {
        lemma_first_bad_unique(num_rows, num_cols, col_idx, row, c, k, col as int, position as int);
    }
}

/// A scan that finds no failing entry proves the pattern valid.
proof fn lemma_no_bad_entry(num_rows: nat, num_cols: nat, col_idx: Seq<u32>, row: Seq<u32>)
    requires
        col_idx.len() == num_cols + 1,
        col_idx[0] == 0,
        monotone_before(col_idx, num_cols as int),
        row.len() == col_idx[num_cols as int],
        entries_ok_before(num_rows, num_cols, col_idx, row, row.len() as int),
    ensures
        spec_valid_pattern(num_rows, num_cols, col_idx, row),
        forall|col: usize, position: usize|
            !#[trigger] spec_row_out_of_range_at(num_rows, num_cols, col_idx, row, col as int, position as int),
        forall|col: usize, position: usize|
            !#[trigger] spec_row_not_increasing_at(num_rows, num_cols, col_idx, row, col as int, position as int),
{
    lemma_monotone_bound(col_idx, num_cols as int);
    assert forall|c2: int, k2: int|
        0 <= c2 < num_cols && col_idx[c2] <= k2 < col_idx[c2 + 1] implies entry_ok(num_rows, col_idx, row, c2, k2) by {
        assert(col_idx[c2 + 1] <= col_idx[num_cols as int]);
    }
    assert forall|col: usize, position: usize|
        !#[trigger] spec_row_out_of_range_at(num_rows, num_cols, col_idx, row, col as int, position as int) by {
        if spec_row_out_of_range_at(num_rows, num_cols, col_idx, row, col as int, position as int) {
            assert(entry_ok(num_rows, col_idx, row, col as int, position as int));
        }
    }
    assert forall|col: usize, position: usize|
        !#[trigger] spec_row_not_increasing_at(num_rows, num_cols, col_idx, row, col as int, position as int) by {
        if spec_row_not_increasing_at(num_rows, num_cols, col_idx, row, col as int, position as int) {
            assert(entry_ok(num_rows, col_idx, row, col as int, position as int));
        }
    }
}

/// Scans the entries in storage order and returns the column and position
/// of the first one that is out of range or not above its predecessor.
fn first_bad_entry(num_rows: usize, num_cols: usize, col_idx: &Vec<u32>, row: &Vec<u32>) -> (r: Option<
    (usize, usize),
>)
    requires
        col_idx.len() == num_cols + 1,
        col_idx[0] == 0,
        monotone_before(col_idx@, num_cols as int),
        row.len() == col_idx[num_cols as int],
    ensures
        r is None ==> entries_ok_before(num_rows as nat, num_cols as nat, col_idx@, row@, row.len() as int),
        r matches Some((c, k)) ==> {
            &&& spec_first_bad_entry(num_rows as nat, num_cols as nat, col_idx@, row@, c as int, k as int)
            &&& !entry_ok(num_rows as nat, col_idx@, row@, c as int, k as int)
        },
{
    proof {
        lemma_monotone_bound(col_idx@, num_cols as int);
    }
    let mut c: usize = 0;
    while c < num_cols
        invariant
            c <= num_cols,
            col_idx.len() == num_cols + 1,
            col_idx[0] == 0,
            monotone_before(col_idx@, num_cols as int),
            row.len() == col_idx[num_cols as int],
            forall|a: int, b: int| 0 <= a <= b <= num_cols ==> col_idx[a] <= col_idx[b],
            entries_ok_before(num_rows as nat, num_cols as nat, col_idx@, row@, col_idx[c as int] as int),
        decreases num_cols - c,
    {
        let start = col_idx[c] as usize;
        let end = col_idx[c + 1] as usize;
        let mut k = start;
        while k < end
            invariant
                c < num_cols,
                start == col_idx[c as int],
                end == col_idx[c + 1],
                start <= k <= end,
                col_idx.len() == num_cols + 1,
                col_idx[0] == 0,
                monotone_before(col_idx@, num_cols as int),
                row.len() == col_idx[num_cols as int],
                forall|a: int, b: int| 0 <= a <= b <= num_cols ==> col_idx[a] <= col_idx[b],
                entries_ok_before(num_rows as nat, num_cols as nat, col_idx@, row@, k as int),
            decreases end - k,
        {
            assert(col_idx[c + 1] <= col_idx[num_cols as int]);
            if row[k] as usize >= num_rows || (k > start && row[k - 1] >= row[k]) {
                return Some((c, k));
            }
            proof {
                assert forall|c2: int, k2: int|
                    0 <= c2 < num_cols && col_idx[c2] <= k2 < col_idx[c2 + 1] && k2 < k + 1
                    implies entry_ok(num_rows as nat, col_idx@, row@, c2, k2) by {
                    if k2 == k {
                        lemma_unique_column(col_idx@, num_cols as int, c as int, c2, k2);
                    }
                }
            }
            k += 1;
        }
        c += 1;
    }
    None
}

/// Two descriptions of the first failing entry describe the same entry.
proof fn lemma_first_bad_unique(
    num_rows: nat,
    num_cols: nat,
    col_idx: Seq<u32>,
    row: Seq<u32>,
    c: int,
    k: int,
    c2: int,
    k2: int,
)
    requires
        spec_first_bad_entry(num_rows, num_cols, col_idx, row, c, k),
        !entry_ok(num_rows, col_idx, row, c, k),
        spec_first_bad_entry(num_rows, num_cols, col_idx, row, c2, k2),
        (row[k2] >= num_rows || (k2 > col_idx[c2] && row[k2 - 1] >= row[k2])),
    ensures
        c == c2,
        k == k2,
{
    if k < k2 {
        assert(entry_ok(num_rows, col_idx, row, c, k));
    } else if k2 < k {
        assert(entry_ok(num_rows, col_idx, row, c2, k2));
    }
    lemma_unique_column(col_idx, num_cols as int, c, c2, k);
}

/// Monotone pointers are bounded by the last one.
proof fn lemma_monotone_bound(col_idx: Seq<u32>, n: int)
    requires
        col_idx.len() == n + 1,
        n >= 0,
        monotone_before(col_idx, n),
    ensures
        forall|a: int, b: int| 0 <= a <= b <= n ==> col_idx[a] <= col_idx[b],
{
    assert forall|a: int, b: int| 0 <= a <= b <= n implies col_idx[a] <= col_idx[b] by {
        lemma_monotone_pair(col_idx, n, a, b);
    }
}

proof fn lemma_monotone_pair(col_idx: Seq<u32>, n: int, a: int, b: int)
    requires
        col_idx.len() == n + 1,
        monotone_before(col_idx, n),
        0 <= a <= b <= n,
    ensures
        col_idx[a] <= col_idx[b],
    decreases b - a,
{
    if a < b {
        lemma_monotone_pair(col_idx, n, a, b - 1);
    }
}

/// A position inside column `c` lies in no other column.
proof fn lemma_unique_column(col_idx: Seq<u32>, n: int, c: int, c2: int, k: int)
    requires
        col_idx.len() == n + 1,
        monotone_before(col_idx, n),
        0 <= c < n,
        0 <= c2 < n,
        col_idx[c] <= k < col_idx[c + 1],
        col_idx[c2] <= k < col_idx[c2 + 1],
    ensures
        c == c2,
{
    if c < c2 {
        lemma_monotone_pair(col_idx, n, c + 1, c2);
    } else if c2 < c {
        lemma_monotone_pair(col_idx, n, c2 + 1, c);
    }
}


/// The entries of the first `c` columns, one after another.
pub open spec fn concat_columns(columns: Seq<Vec<u32>>, c: int) -> Seq<u32>
    decreases c,
{
    if c <= 0 {
        Seq::empty()
    } else {
        concat_columns(columns, c - 1) + columns[c - 1]@
    }
}

/// Every column lists rows below `num_rows` in strictly increasing order.
pub open spec fn columns_valid(num_rows: nat, columns: Seq<Vec<u32>>) -> bool {
    &&& forall|c: int, j: int|
        0 <= c < columns.len() && 0 <= j < columns[c]@.len() ==> #[trigger] columns[c]@[j] < num_rows
    &&& forall|c: int, i: int, j: int|
        0 <= c < columns.len() && 0 <= i < j < columns[c]@.len() ==> #[trigger] columns[c]@[i]
            < #[trigger] columns[c]@[j]
}

proof fn lemma_concat_len_mono(columns: Seq<Vec<u32>>, a: int, b: int)
    requires
        0 <= a <= b,
    ensures
        concat_columns(columns, a).len() <= concat_columns(columns, b).len(),
    decreases b - a,
{
    if a < b {
        lemma_concat_len_mono(columns, a, b - 1);
    }
}

/// Pushing `x` onto column `r` adds exactly `x` at the end of that column's
/// stretch, and one to the total length.
proof fn lemma_concat_push(columns: Seq<Vec<u32>>, newc: Seq<Vec<u32>>, r: int, x: u32, c: int)
    requires
        0 <= r < columns.len(),
        newc.len() == columns.len(),
        newc[r]@ == columns[r]@.push(x),
        forall|j: int| 0 <= j < columns.len() && j != r ==> newc[j]@ == columns[j]@,
        0 <= c <= columns.len(),
    ensures
        concat_columns(newc, c).len() == concat_columns(columns, c).len() + (if r < c {
            1int
        } else {
            0int
        }),
    decreases c,
{
    if c > 0 {
        lemma_concat_push(columns, newc, r, x, c - 1);
    }
}

impl Sparsity {
    pub fn num_rows(&self) -> (r: usize)
        ensures
            r == self.spec_num_rows(),
    {
        self.num_rows
    }

    pub fn num_cols(&self) -> (r: usize)
        ensures
            r == self.spec_num_cols(),
    {
        self.num_cols
    }

    /// Number of stored entries: the last column pointer.
    pub fn nnz(&self) -> (r: usize)
        ensures
            r == self.spec_nnz(),
            self.spec_col_idx().len() == self.spec_num_cols() + 1,
            self.spec_col_idx()[0] == 0,
            r == self.spec_col_idx()[self.spec_num_cols() as int],
    {
        proof {
            use_type_invariant(self);
        }
        self.col_idx[self.num_cols] as usize
    }

    /// The positions of column `c` in `rows()`.
    pub fn col_range(&self, c: usize) -> (r: std::ops::Range<usize>)
        requires
            c < self.spec_num_cols(),
        ensures
            r.start == self.spec_col_idx()[c as int],
            r.end == self.spec_col_idx()[c + 1],
            r.start <= r.end <= self.spec_nnz(),
            // The first column starts at the first entry.
            self.spec_col_idx()[0] == 0,
    {
        proof {
            use_type_invariant(self);
            lemma_monotone_bound(self.col_idx@, self.num_cols as int);
        }
        self.col_idx[c] as usize..self.col_idx[c + 1] as usize
    }

    /// Row of each stored entry, column by column.
    pub fn rows(&self) -> (r: &[u32])
        ensures
            r@ == self.spec_rows(),
    {
        self.row.as_slice()
    }

    /// The full pattern of `rows x cols`: column `c` holds rows `0..rows`.
    pub fn from_dense(rows: usize, cols: usize) -> (s: Self)
        requires
            rows * cols <= u32::MAX,
        ensures
            s.spec_num_rows() == rows,
            s.spec_num_cols() == cols,
            s.spec_col_idx() == Seq::new((cols + 1) as nat, |c: int| (c * rows) as u32),
            s.spec_nnz() == rows * cols,
            forall|c: int, i: int|
                0 <= c < cols && 0 <= i < rows ==> #[trigger] s.spec_rows()[c * rows + i] == i,
    {
        let mut col_idx: Vec<u32> = Vec::new();
        let mut row: Vec<u32> = Vec::new();
        col_idx.push(0);
        let mut c: usize = 0;
        while c < cols
            invariant
                c <= cols,
                rows * cols <= u32::MAX,
                col_idx@.len() == c + 1,
                forall|j: int| 0 <= j <= c ==> #[trigger] col_idx@[j] == j * rows,
                row@.len() == c * rows,
                forall|j: int, i: int|
                    0 <= j < c && 0 <= i < rows ==> #[trigger] row@[j * rows + i] == i,
            decreases cols - c,
        {
            proof {
                lemma_mul_le(c as int + 1, cols as int, rows as int);
                assert((c + 1) * rows == c * rows + rows) by (nonlinear_arith);
            }
            let mut i: usize = 0;
            while i < rows
                invariant
                    i <= rows,
                    c < cols,
                    (c + 1) * rows <= u32::MAX,
                    (c + 1) * rows == c * rows + rows,
                    row@.len() == c * rows + i,
                    forall|j: int, i2: int|
                        0 <= j < c && 0 <= i2 < rows ==> #[trigger] row@[j * rows + i2] == i2,
                    forall|i2: int| 0 <= i2 < i ==> #[trigger] row@[c * rows + i2] == i2,
                decreases rows - i,
            {
                row.push(i as u32);
                proof {
                    assert forall|j: int, i2: int|
                        0 <= j < c && 0 <= i2 < rows implies #[trigger] row@[j * rows + i2] == i2 by {
                        lemma_mul_le(j + 1, c as int, rows as int);
                        assert((j + 1) * rows == j * rows + rows) by (nonlinear_arith);
                    }
                }
                i += 1;
            }
            c += 1;
            col_idx.push((c * rows) as u32);
            proof {
                assert forall|j: int, i2: int|
                    0 <= j < c && 0 <= i2 < rows implies #[trigger] row@[j * rows + i2] == i2 by {
                    if j == c - 1 {
                    }
                }
            }
        }
        proof {
            assert(col_idx@ =~= Seq::new((cols + 1) as nat, |j: int| (j * rows) as u32));
            assert(cols * rows == rows * cols) by (nonlinear_arith);
            lemma_dense_valid(rows as nat, cols as nat, col_idx@, row@);
        }
        Sparsity { num_rows: rows, num_cols: cols, col_idx, row }
    }

    /// Stacks per-column row lists into CSC form.
    pub fn from_columns(rows: usize, cols: usize, columns: Vec<Vec<u32>>) -> (s: Self)
        requires
            columns@.len() == cols,
            cols < usize::MAX,
            columns_valid(rows as nat, columns@),
            concat_columns(columns@, cols as int).len() <= u32::MAX,
        ensures
            s.spec_num_rows() == rows,
            s.spec_num_cols() == cols,
            forall|c: int|
                0 <= c <= cols ==> #[trigger] s.spec_col_idx()[c] == concat_columns(columns@, c).len(),
            s.spec_rows() == concat_columns(columns@, cols as int),
            forall|r: u32, c: int|
                0 <= c < cols ==> (s.contains(r as int, c) <==> columns@[c]@.contains(r)),
    {
        let mut col_idx: Vec<u32> = Vec::new();
        let mut row: Vec<u32> = Vec::new();
        col_idx.push(0);
        let mut c: usize = 0;
        while c < cols
            invariant
                c <= cols,
                columns@.len() == cols,
                concat_columns(columns@, cols as int).len() <= u32::MAX,
                col_idx@.len() == c + 1,
                forall|j: int|
                    0 <= j <= c ==> #[trigger] col_idx@[j] == concat_columns(columns@, j).len(),
                row@ == concat_columns(columns@, c as int),
            decreases cols - c,
        {
            let col = &columns[c];
            let mut i: usize = 0;
            while i < col.len()
                invariant
                    c < cols,
                    columns@.len() == cols,
                    *col == columns@[c as int],
                    i <= col@.len(),
                    row@ == concat_columns(columns@, c as int) + col@.subrange(0, i as int),
                decreases col@.len() - i,
            {
                row.push(col[i]);
                proof {
                    assert(col@.subrange(0, i + 1) =~= col@.subrange(0, i as int).push(col@[i as int]));
                    assert(row@ =~= concat_columns(columns@, c as int) + col@.subrange(0, i + 1));
                }
                i += 1;
            }
            proof {
                assert(col@.subrange(0, col@.len() as int) =~= col@);
                assert(row@ =~= concat_columns(columns@, c + 1));
                lemma_concat_len_mono(columns@, c + 1, cols as int);
            }
            col_idx.push(row.len() as u32);
            c += 1;
        }
        proof {
            lemma_columns_layout(rows as nat, cols as nat, columns@, col_idx@, row@);
        }
        let s = Sparsity { num_rows: rows, num_cols: cols, col_idx, row };
        proof {
            assert forall|r: u32, c: int| 0 <= c < cols implies (s.contains(r as int, c) <==> columns@[c]@.contains(
                r,
            )) by {
                lemma_column_slice(columns@, c);
                let start = concat_columns(columns@, c).len() as int;
                lemma_concat_len_mono(columns@, c + 1, cols as int);
                lemma_concat_prefix(columns@, c + 1, cols as int);
                if s.contains(r as int, c) {
                    let k = choose|k: int| s.spec_col_idx()[c] <= k < s.spec_col_idx()[c + 1] && s.spec_rows()[k] == r;
                    assert(concat_columns(columns@, cols as int)[k] == concat_columns(columns@, c + 1)[k]);
                    assert(columns@[c]@[k - start] == r);
                }
                if columns@[c]@.contains(r) {
                    let i = choose|i: int| 0 <= i < columns@[c]@.len() && columns@[c]@[i] == r;
                    assert(concat_columns(columns@, cols as int)[start + i] == concat_columns(columns@, c + 1)[start + i]);
                    assert(s.spec_rows()[start + i] == r);
                }
            }
        }
        s
    }
}

proof fn lemma_mul_le(a: int, b: int, m: int)
    requires
        0 <= a <= b,
        0 <= m,
    ensures
        a * m <= b * m,
{
    assert(a * m <= b * m) by (nonlinear_arith)
        requires
            0 <= a <= b,
            0 <= m,
    ;
}

/// Column `c` occupies its own stretch of the stacked rows.
proof fn lemma_column_slice(columns: Seq<Vec<u32>>, c: int)
    requires
        0 <= c,
    ensures
        concat_columns(columns, c + 1).len() == concat_columns(columns, c).len() + columns[c]@.len(),
        forall|i: int|
            0 <= i < columns[c]@.len() ==> concat_columns(columns, c + 1)[concat_columns(columns, c).len()
                + i] == columns[c]@[i],
{
}

/// An earlier stack is a prefix of a later one.
proof fn lemma_concat_prefix(columns: Seq<Vec<u32>>, a: int, b: int)
    requires
        0 <= a <= b,
    ensures
        concat_columns(columns, a).len() <= concat_columns(columns, b).len(),
        forall|k: int|
            0 <= k < concat_columns(columns, a).len() ==> #[trigger] concat_columns(columns, b)[k]
                == concat_columns(columns, a)[k],
    decreases b - a,
{
    if a < b {
        lemma_concat_prefix(columns, a, b - 1);
    }
}

/// The stacked columns form a valid pattern.
proof fn lemma_columns_layout(
    rows: nat,
    cols: nat,
    columns: Seq<Vec<u32>>,
    col_idx: Seq<u32>,
    row: Seq<u32>,
)
    requires
        columns.len() == cols,
        columns_valid(rows, columns),
        col_idx.len() == cols + 1,
        forall|j: int| 0 <= j <= cols ==> #[trigger] col_idx[j] == concat_columns(columns, j).len(),
        row == concat_columns(columns, cols as int),
    ensures
        spec_valid_pattern(rows, cols, col_idx, row),
{
    assert(col_idx[0] == 0);
    assert forall|c: int| #![trigger col_idx[c]] 0 <= c < cols implies col_idx[c] <= col_idx[c + 1] by {
        lemma_column_slice(columns, c);
    }
    assert forall|c: int, k: int|
        0 <= c < cols && col_idx[c] <= k < col_idx[c + 1] implies entry_ok(rows, col_idx, row, c, k) by {
        lemma_column_slice(columns, c);
        lemma_concat_prefix(columns, c + 1, cols as int);
        let start = concat_columns(columns, c).len() as int;
        assert(row[k] == columns[c]@[k - start]);
        assert(columns[c]@[k - start] < rows);
        if k > col_idx[c] {
            assert(row[k - 1] == columns[c]@[k - 1 - start]);
            assert(columns[c]@[k - 1 - start] < columns[c]@[k - start]);
        }
    }
}

/// The dense layout is a valid pattern.
proof fn lemma_dense_valid(rows: nat, cols: nat, col_idx: Seq<u32>, row: Seq<u32>)
    requires
        rows * cols <= u32::MAX,
        col_idx == Seq::new((cols + 1) as nat, |c: int| (c * rows) as u32),
        row.len() == cols * rows,
        forall|j: int, i: int| 0 <= j < cols && 0 <= i < rows ==> #[trigger] row[j * rows + i] == i,
    ensures
        spec_valid_pattern(rows, cols, col_idx, row),
{
    assert forall|c: int| 0 <= c <= cols implies #[trigger] col_idx[c] == c * rows by {
        lemma_mul_le(c, cols as int, rows as int);
        assert(cols * rows == rows * cols) by (nonlinear_arith);
    }
    assert forall|c: int| #![trigger col_idx[c]] 0 <= c < cols implies col_idx[c] <= col_idx[c + 1] by {
        assert((c + 1) * rows == c * rows + rows) by (nonlinear_arith);
    }
    assert(row.len() == col_idx[cols as int]) by {
        assert(cols * rows == rows * cols) by (nonlinear_arith);
    }
    assert forall|c: int, k: int|
        0 <= c < cols && col_idx[c] <= k < col_idx[c + 1] implies entry_ok(rows, col_idx, row, c, k) by {
        assert((c + 1) * rows == c * rows + rows) by (nonlinear_arith);
        lemma_mul_le(c + 1, cols as int, rows as int);
        assert(cols * rows == rows * cols) by (nonlinear_arith);
        assert(col_idx[c] == c * rows);
        assert(col_idx[c + 1] == (c + 1) * rows);
        let i = k - c * rows;
        assert(row[c * rows + i] == i);
        if k > col_idx[c] {
            assert(row[c * rows + (i - 1)] == i - 1);
        }
    }
}

impl Sparsity {
    /// The transposed pattern: entry `(c, r)` is present iff `(r, c)` is.
    pub fn transpose(&self) -> (t: Sparsity)
        requires
            self.spec_num_cols() <= u32::MAX,
            self.spec_num_rows() < usize::MAX,
        ensures
            t.spec_num_rows() == self.spec_num_cols(),
            t.spec_num_cols() == self.spec_num_rows(),
            t.spec_nnz() == self.spec_nnz(),
            forall|r: int, c: int| #[trigger] t.contains(c, r) <==> self.contains(r, c),
            is_transpose(*self, t),
            self.valid(),
            t.valid(),
    {
        proof {
            use_type_invariant(self);
            lemma_monotone_bound(self.col_idx@, self.num_cols as int);
        }
        let n = self.num_cols;
        let m = self.num_rows;
        let mut buckets: Vec<Vec<u32>> = Vec::new();
        let mut r: usize = 0;
        while r < m
            invariant
                r <= m,
                buckets@.len() == r,
                forall|j: int| 0 <= j < r ==> (#[trigger] buckets@[j])@.len() == 0,
            decreases m - r,
        {
            buckets.push(Vec::new());
            r += 1;
        }
        proof {
            lemma_concat_empty(buckets@, m as int);
        }
        let mut c: usize = 0;
        while c < n
            invariant
                self.inv(),
                n == self.num_cols,
                m == self.num_rows,
                n <= u32::MAX,
                c <= n,
                buckets@.len() == m,
                forall|a: int, b: int| 0 <= a <= b <= n ==> self.col_idx@[a] <= self.col_idx@[b],
                concat_columns(buckets@, m as int).len() == self.col_idx@[c as int],
                bucket_inv(*self, buckets@, c as int, self.col_idx@[c as int] as int),
            decreases n - c,
        {
            let start = self.col_idx[c] as usize;
            let end = self.col_idx[c + 1] as usize;
            let mut k = start;
            while k < end
                invariant
                    self.inv(),
                    n == self.num_cols,
                    m == self.num_rows,
                    n <= u32::MAX,
                    c < n,
                    start == self.col_idx@[c as int],
                    end == self.col_idx@[c + 1],
                    start <= k <= end,
                    buckets@.len() == m,
                    forall|a: int, b: int| 0 <= a <= b <= n ==> self.col_idx@[a] <= self.col_idx@[b],
                    concat_columns(buckets@, m as int).len() == k,
                    bucket_inv(*self, buckets@, c as int, k as int),
                decreases end - k,
            {
                assert(self.col_idx@[c + 1] <= self.col_idx@[n as int]);
                assert(entry_ok(m as nat, self.col_idx@, self.row@, c as int, k as int));
                let r = self.row[k] as usize;
                let ghost old_buckets = buckets@;
                buckets[r].push(c as u32);
                proof {
                    lemma_concat_push(old_buckets, buckets@, r as int, c as u32, m as int);
                    lemma_bucket_step(*self, old_buckets, buckets@, c as int, k as int);
                }
                k += 1;
            }
            proof {
                lemma_bucket_next_column(*self, buckets@, c as int);
            }
            c += 1;
        }
        proof {
            lemma_bucket_done(*self, buckets@);
        }
        let ghost bk = buckets@;
        let t = Sparsity::from_columns(n, m, buckets);
        proof {
            assert forall|r: int, c: int| #[trigger] t.contains(c, r) <==> self.contains(r, c) by {
                if self.contains(r, c) {
                    let k = choose|k: int| self.col_idx@[c] <= k < self.col_idx@[c + 1] && self.row@[k] == r;
                    assert(self.col_idx@[c + 1] <= self.col_idx@[n as int]);
                    assert(entry_ok(m as nat, self.col_idx@, self.row@, c, k));
                    assert(bk[r]@.contains(c as u32));
                }
                if t.contains(c, r) {
                    let k = choose|k: int| t.spec_col_idx()[r] <= k < t.spec_col_idx()[r + 1] && t.spec_rows()[k] == c;
                    let x = t.spec_rows()[k];
                    assert(t.contains(x as int, r));
                    assert(bk[r]@.contains(x));
                }
            }
            use_type_invariant(&t);
            reveal(Sparsity::valid);
        }
        t
    }
}

/// The buckets built so far hold, for every row, the columns before `c`
/// that contain it, and column `c` itself if one of its entries below
/// position `k` is that row; each bucket is strictly increasing.
closed spec fn bucket_inv(s: Sparsity, buckets: Seq<Vec<u32>>, c: int, k: int) -> bool {
    &&& columns_valid((c + 1) as nat, buckets)
    &&& forall|r: int, x: u32|
        0 <= r < buckets.len() ==> (#[trigger] buckets[r]@.contains(x) <==> (x < c && s.contains(r, x as int)
            || x == c && exists|k2: int| s.col_idx@[c] <= k2 < k && s.row@[k2] == r))
    &&& forall|r: int, i: int|
        0 <= r < buckets.len() && 0 <= i < buckets[r]@.len() ==> #[trigger] buckets[r]@[i] <= c
}

proof fn lemma_concat_empty(columns: Seq<Vec<u32>>, c: int)
    requires
        0 <= c <= columns.len(),
        forall|j: int| 0 <= j < c ==> (#[trigger] columns[j])@.len() == 0,
    ensures
        concat_columns(columns, c).len() == 0,
    decreases c,
{
    if c > 0 {
        lemma_concat_empty(columns, c - 1);
    }
}

proof fn lemma_bucket_step(s: Sparsity, old: Seq<Vec<u32>>, new: Seq<Vec<u32>>, c: int, k: int)
    requires
        s.inv(),
        0 <= c < s.num_cols,
        s.col_idx@[c] <= k < s.col_idx@[c + 1],
        s.col_idx@[c + 1] <= s.row@.len(),
        bucket_inv(s, old, c, k),
        old.len() == s.num_rows,
        new.len() == old.len(),
        0 <= s.row@[k] < s.num_rows,
        new[s.row@[k] as int]@ == old[s.row@[k] as int]@.push(c as u32),
        forall|j: int| 0 <= j < old.len() && j != s.row@[k] ==> new[j]@ == old[j]@,
        c <= u32::MAX,
    ensures
        bucket_inv(s, new, c, k + 1),
{
    let r0 = s.row@[k] as int;
    // Column `c` is not yet in bucket `r0`: its earlier entries hold smaller rows.
    assert(!old[r0]@.contains(c as u32)) by {
        if old[r0]@.contains(c as u32) {
            let k2 = choose|k2: int| s.col_idx@[c] <= k2 < k && s.row@[k2] == r0;
            lemma_rows_increasing(s, c, k2, k);
        }
    }
    assert forall|r: int, x: u32|
        0 <= r < new.len() implies (#[trigger] new[r]@.contains(x) <==> (x < c && s.contains(r, x as int)
            || x == c && exists|k2: int| s.col_idx@[c] <= k2 < k + 1 && s.row@[k2] == r)) by {
        if r == r0 {
            if x == c {
                assert(new[r]@[new[r]@.len() - 1] == x);
            }
            if new[r]@.contains(x) && x != c {
                let i = choose|i: int| 0 <= i < new[r]@.len() && new[r]@[i] == x;
                assert(old[r]@[i] == x);
            }
            if old[r]@.contains(x) {
                let i = choose|i: int| 0 <= i < old[r]@.len() && old[r]@[i] == x;
                assert(new[r]@[i] == x);
            }
        } else {
            if x == c && exists|k2: int| s.col_idx@[c] <= k2 < k + 1 && s.row@[k2] == r {
                let k2 = choose|k2: int| s.col_idx@[c] <= k2 < k + 1 && s.row@[k2] == r;
                assert(k2 != k);
            }
        }
    }
    assert forall|r: int, i: int|
        0 <= r < new.len() && 0 <= i < new[r]@.len() implies #[trigger] new[r]@[i] <= c by {
        if r == r0 && i < old[r]@.len() {
            assert(new[r]@[i] == old[r]@[i]);
        }
    }
    assert forall|r: int, j: int|
        0 <= r < new.len() && 0 <= j < new[r]@.len() implies #[trigger] new[r]@[j] < (c + 1) as nat by {
        assert(new[r]@[j] <= c);
    }
    assert forall|r: int, i: int, j: int|
        0 <= r < new.len() && 0 <= i < j < new[r]@.len() implies #[trigger] new[r]@[i]
        < #[trigger] new[r]@[j] by {
        if r == r0 {
            if j == new[r]@.len() - 1 {
                assert(new[r]@[i] == old[r]@[i]);
                assert(old[r]@[i] <= c);
                assert(old[r]@.contains(old[r]@[i]));
                assert(old[r]@[i] != c);
            } else {
                assert(new[r]@[i] == old[r]@[i]);
                assert(new[r]@[j] == old[r]@[j]);
            }
        } else {
            assert(new[r]@[i] == old[r]@[i]);
            assert(new[r]@[j] == old[r]@[j]);
        }
    }
}

/// Within one column, later entries hold larger rows.
proof fn lemma_rows_increasing(s: Sparsity, c: int, k1: int, k2: int)
    requires
        s.inv(),
        0 <= c < s.num_cols,
        s.col_idx@[c] <= k1 < k2 < s.col_idx@[c + 1],
    ensures
        s.row@[k1] < s.row@[k2],
    decreases k2 - k1,
{
    assert(entry_ok(s.num_rows as nat, s.col_idx@, s.row@, c, k2));
    if k1 < k2 - 1 {
        lemma_rows_increasing(s, c, k1, k2 - 1);
    }
}

proof fn lemma_contains_via(s: Sparsity, r: int, c: int)
    requires
        0 <= c < s.num_cols,
    ensures
        s.contains(r, c) <==> exists|k2: int| s.col_idx@[c] <= k2 < s.col_idx@[c + 1] && s.row@[k2] == r,
{
    if s.contains(r, c) {
        let k = choose|k: int| s.spec_col_idx()[c] <= k < s.spec_col_idx()[c + 1] && s.spec_rows()[k] == r;
        assert(s.col_idx@[c] <= k < s.col_idx@[c + 1] && s.row@[k] == r);
    }
    if exists|k2: int| s.col_idx@[c] <= k2 < s.col_idx@[c + 1] && s.row@[k2] == r {
        let k = choose|k2: int| s.col_idx@[c] <= k2 < s.col_idx@[c + 1] && s.row@[k2] == r;
        assert(s.spec_col_idx()[c] <= k < s.spec_col_idx()[c + 1] && s.spec_rows()[k] == r);
    }
}

proof fn lemma_bucket_next_column(s: Sparsity, buckets: Seq<Vec<u32>>, c: int)
    requires
        s.inv(),
        0 <= c < s.num_cols,
        bucket_inv(s, buckets, c, s.col_idx@[c + 1] as int),
    ensures
        bucket_inv(s, buckets, c + 1, s.col_idx@[c + 1] as int),
{
    assert forall|r: int, x: u32|
        0 <= r < buckets.len() implies (#[trigger] buckets[r]@.contains(x) <==> (x < c + 1 && s.contains(
            r,
            x as int,
        ) || x == c + 1 && exists|k2: int|
            s.col_idx@[c + 1] <= k2 < s.col_idx@[c + 1] && s.row@[k2] == r)) by {
        if buckets[r]@.contains(x) {
            let i = choose|i: int| 0 <= i < buckets[r]@.len() && buckets[r]@[i] == x;
            assert(buckets[r]@[i] <= c);
        }
        lemma_contains_via(s, r, c);
    }
    assert forall|r: int, j: int|
        0 <= r < buckets.len() && 0 <= j < buckets[r]@.len() implies #[trigger] buckets[r]@[j] < (c
        + 2) as nat by {
        assert(buckets[r]@[j] <= c);
    }
}

proof fn lemma_bucket_done(s: Sparsity, buckets: Seq<Vec<u32>>)
    requires
        s.inv(),
        buckets.len() == s.num_rows,
        bucket_inv(s, buckets, s.num_cols as int, s.col_idx@[s.num_cols as int] as int),
    ensures
        columns_valid(s.num_cols as nat, buckets),
        forall|r: int, x: u32|
            0 <= r < buckets.len() ==> (#[trigger] buckets[r]@.contains(x) <==> s.contains(r, x as int)),
{
    assert forall|r: int, x: u32|
        0 <= r < buckets.len() implies (#[trigger] buckets[r]@.contains(x) <==> s.contains(r, x as int)) by {
        if buckets[r]@.contains(x) {
            let i = choose|i: int| 0 <= i < buckets[r]@.len() && buckets[r]@[i] == x;
            assert(buckets[r]@[i] <= s.num_cols);
            if x == s.num_cols {
                let k2 = choose|k2: int|
                    s.col_idx@[s.num_cols as int] <= k2 < s.col_idx@[s.num_cols as int] && s.row@[k2] == r;
            }
        }
    }
    assert forall|r: int, j: int|
        0 <= r < buckets.len() && 0 <= j < buckets[r]@.len() implies #[trigger] buckets[r]@[j]
        < s.num_cols as nat by {
        let x = buckets[r]@[j];
        assert(buckets[r]@.contains(x));
        if x == s.num_cols {
            let k2 = choose|k2: int|
                s.col_idx@[s.num_cols as int] <= k2 < s.col_idx@[s.num_cols as int] && s.row@[k2] == r;
        }
    }
}

/// `t` is the transpose of `s`: rows and columns swap, entries follow.
pub open spec fn is_transpose(s: Sparsity, t: Sparsity) -> bool {
    &&& t.spec_num_rows() == s.spec_num_cols()
    &&& t.spec_num_cols() == s.spec_num_rows()
    &&& t.spec_nnz() == s.spec_nnz()
    &&& forall|r: int, c: int| #[trigger] t.contains(c, r) <==> s.contains(r, c)
}

/// Two strictly increasing sequences with the same elements are equal.
proof fn lemma_sorted_same(x: Seq<u32>, y: Seq<u32>)
    requires
        forall|i: int, j: int| 0 <= i < j < x.len() ==> x[i] < x[j],
        forall|i: int, j: int| 0 <= i < j < y.len() ==> y[i] < y[j],
        forall|v: u32| x.contains(v) <==> y.contains(v),
    ensures
        x == y,
    decreases x.len() + y.len(),
{
    if x.len() == 0 {
        if y.len() > 0 {
            assert(y.contains(y[0]));
        }
        assert(x =~= y);
    } else if y.len() == 0 {
        assert(x.contains(x[0]));
    } else {
        let a = x.last();
        let b = y.last();
        assert(x.contains(a));
        assert(y.contains(b));
        let ia = choose|i: int| 0 <= i < x.len() && x[i] == b;
        let ib = choose|i: int| 0 <= i < y.len() && y[i] == a;
        assert(b <= a) by {
            if ia < x.len() - 1 {
                assert(x[ia] < x[x.len() - 1]);
            }
        }
        assert(a <= b) by {
            if ib < y.len() - 1 {
                assert(y[ib] < y[y.len() - 1]);
            }
        }
        let x2 = x.drop_last();
        let y2 = y.drop_last();
        assert forall|v: u32| x2.contains(v) <==> y2.contains(v) by {
            if x2.contains(v) {
                let i = choose|i: int| 0 <= i < x2.len() && x2[i] == v;
                assert(x[i] < x[x.len() - 1]);
                assert(x.contains(v));
                let j = choose|j: int| 0 <= j < y.len() && y[j] == v;
                if j == y.len() - 1 {
                    assert(false);
                }
                assert(y2[j] == v);
            }
            if y2.contains(v) {
                let i = choose|i: int| 0 <= i < y2.len() && y2[i] == v;
                assert(y[i] < y[y.len() - 1]);
                assert(y.contains(v));
                let j = choose|j: int| 0 <= j < x.len() && x[j] == v;
                if j == x.len() - 1 {
                    assert(false);
                }
                assert(x2[j] == v);
            }
        }
        lemma_sorted_same(x2, y2);
        assert(x =~= x2.push(a));
        assert(y =~= y2.push(b));
    }
}

/// The rows a pattern stores in column `c`, in order.
pub open spec fn column_of(s: Sparsity, c: int) -> Seq<u32> {
    s.spec_rows().subrange(s.spec_col_idx()[c] as int, s.spec_col_idx()[c + 1] as int)
}

proof fn lemma_column_of(s: Sparsity, c: int)
    requires
        s.valid(),
        0 <= c < s.spec_num_cols(),
    ensures
        s.spec_col_idx()[c] <= s.spec_col_idx()[c + 1] <= s.spec_rows().len(),
        forall|i: int, j: int| 0 <= i < j < column_of(s, c).len() ==> column_of(s, c)[i] < column_of(s, c)[j],
        forall|v: u32| column_of(s, c).contains(v) <==> s.contains(v as int, c),
{
    reveal(Sparsity::valid);
    lemma_monotone_bound(s.spec_col_idx(), s.spec_num_cols() as int);
    let col = column_of(s, c);
    let lo = s.spec_col_idx()[c] as int;
    assert forall|i: int, j: int| 0 <= i < j < col.len() implies col[i] < col[j] by {
        lemma_column_increasing(s, c, lo + i, lo + j);
    }
    assert forall|v: u32| col.contains(v) <==> s.contains(v as int, c) by {
        if col.contains(v) {
            let i = choose|i: int| 0 <= i < col.len() && col[i] == v;
            assert(s.spec_rows()[lo + i] == v);
        }
        if s.contains(v as int, c) {
            let k = choose|k: int| s.spec_col_idx()[c] <= k < s.spec_col_idx()[c + 1] && s.spec_rows()[k] == v as int;
            assert(col[k - lo] == v);
        }
    }
}

proof fn lemma_column_increasing(s: Sparsity, c: int, i: int, j: int)
    requires
        s.valid(),
        0 <= c < s.spec_num_cols(),
        s.spec_col_idx()[c] <= i < j < s.spec_col_idx()[c + 1],
    ensures
        s.spec_rows()[i] < s.spec_rows()[j],
    decreases j - i,
{
    reveal(Sparsity::valid);
    assert(entry_ok(s.spec_num_rows(), s.spec_col_idx(), s.spec_rows(), c, j));
    if i < j - 1 {
        lemma_column_increasing(s, c, i, j - 1);
    }
}

proof fn lemma_same_upto(a: Sparsity, b: Sparsity, c: int)
    requires
        a.valid(),
        b.valid(),
        a.spec_num_rows() == b.spec_num_rows(),
        a.spec_num_cols() == b.spec_num_cols(),
        forall|r: int, c2: int| #[trigger] a.contains(r, c2) <==> b.contains(r, c2),
        0 <= c <= a.spec_num_cols(),
    ensures
        forall|c2: int| 0 <= c2 <= c ==> #[trigger] a.spec_col_idx()[c2] == b.spec_col_idx()[c2],
        a.spec_rows().subrange(0, a.spec_col_idx()[c] as int) == b.spec_rows().subrange(0, b.spec_col_idx()[c] as int),
    decreases c,
{
    reveal(Sparsity::valid);
    if c > 0 {
        let p = c - 1;
        lemma_same_upto(a, b, p);
        lemma_column_of(a, p);
        lemma_column_of(b, p);
        assert forall|v: u32| column_of(a, p).contains(v) <==> column_of(b, p).contains(v) by {
            assert(a.contains(v as int, p) <==> b.contains(v as int, p));
        }
        lemma_sorted_same(column_of(a, p), column_of(b, p));
        let sa = a.spec_col_idx()[p] as int;
        let ea = a.spec_col_idx()[c] as int;
        assert(column_of(a, p).len() == column_of(b, p).len());
        assert(a.spec_col_idx()[c] == b.spec_col_idx()[c]);
        assert(a.spec_rows().subrange(0, ea) =~= a.spec_rows().subrange(0, sa) + column_of(a, p));
        assert(b.spec_rows().subrange(0, b.spec_col_idx()[c] as int) =~= b.spec_rows().subrange(0, sa) + column_of(b, p));
    }
}

/// Two valid patterns of the same shape with the same entries are the same
/// pattern: the same column pointers and the same rows.
pub proof fn lemma_same_entries(a: Sparsity, b: Sparsity)
    requires
        a.valid(),
        b.valid(),
        a.spec_num_rows() == b.spec_num_rows(),
        a.spec_num_cols() == b.spec_num_cols(),
        forall|r: int, c: int| #[trigger] a.contains(r, c) <==> b.contains(r, c),
    ensures
        a.spec_col_idx() == b.spec_col_idx(),
        a.spec_rows() == b.spec_rows(),
{
    let n = a.spec_num_cols() as int;
    lemma_same_upto(a, b, n);
    reveal(Sparsity::valid);
    assert(a.spec_col_idx() =~= b.spec_col_idx());
    assert(a.spec_rows() =~= a.spec_rows().subrange(0, a.spec_col_idx()[n] as int));
    assert(b.spec_rows() =~= b.spec_rows().subrange(0, b.spec_col_idx()[n] as int));
}

/// Transposing twice gives back the pattern: the same shape, the same
/// column pointers and the same rows.
pub proof fn lemma_transpose_twice(s: Sparsity, t: Sparsity, u: Sparsity)
    requires
        s.valid(),
        u.valid(),
        is_transpose(s, t),
        is_transpose(t, u),
    ensures
        u.spec_num_rows() == s.spec_num_rows(),
        u.spec_num_cols() == s.spec_num_cols(),
        u.spec_col_idx() == s.spec_col_idx(),
        u.spec_rows() == s.spec_rows(),
{
    assert forall|r: int, c: int| #[trigger] u.contains(r, c) <==> s.contains(r, c) by {
        assert(u.contains(r, c) <==> t.contains(c, r));
    }
    lemma_same_entries(u, s);
}

/// Columns `c1` and `c2` share a row.
pub open spec fn share_row(s: Sparsity, c1: int, c2: int) -> bool {
    exists|r: int| s.contains(r, c1) && s.contains(r, c2)
}

/// Column `c` has the least color that no earlier column sharing a row
/// with it has: every smaller color is taken by such a column.
pub open spec fn first_fit(s: Sparsity, color: Seq<u32>, c: int) -> bool {
    forall|x: int| 0 <= x < color[c] ==> #[trigger] color_taken(s, color, c, x)
}

/// Some column has color `x`.
pub open spec fn color_used(color: Seq<u32>, x: int) -> bool {
    exists|c: int| 0 <= c < color.len() && #[trigger] color[c] == x
}

/// Color `x` is taken by a column before `c` that shares a row with it.
pub open spec fn color_taken(s: Sparsity, color: Seq<u32>, c: int, x: int) -> bool {
    exists|j: int| 0 <= j < c && #[trigger] share_row(s, j, c) && color[j] == x
}

impl Sparsity {
    #[verifier::spinoff_prover]
    #[verifier::rlimit(100)]
    /// Greedy distance-2 coloring of the columns (Curtis-Powell-Reid): the
    /// columns are colored in order, each with the smallest color that no
    /// earlier column sharing a row with it has.
    pub fn uni_coloring(&self) -> (col: Coloring)
        requires
            self.spec_num_cols() < u32::MAX,
            self.spec_num_rows() < usize::MAX,
        ensures
            col.spec_colors().len() == self.spec_num_cols(),
            forall|c: int| 0 <= c < self.spec_num_cols() ==> #[trigger] col.spec_colors()[c] <= c,
            forall|c: int|
                0 <= c < self.spec_num_cols() ==> #[trigger] col.spec_colors()[c] < col.spec_num_colors(),
            (col.spec_num_colors() == 0) <==> (self.spec_num_cols() == 0),
            self.spec_num_cols() > 0 ==> exists|c: int|
                0 <= c < self.spec_num_cols() && col.spec_colors()[c] + 1 == col.spec_num_colors(),
            forall|c1: int, c2: int|
                0 <= c1 < self.spec_num_cols() && 0 <= c2 < self.spec_num_cols() && c1 != c2 && share_row(
                    *self,
                    c1,
                    c2,
                ) ==> #[trigger] col.spec_colors()[c1] != #[trigger] col.spec_colors()[c2],
            forall|c: int| 0 <= c < self.spec_num_cols() ==> #[trigger] first_fit(*self, col.spec_colors(), c),
            forall|x: int| 0 <= x < col.spec_num_colors() ==> #[trigger] color_used(col.spec_colors(), x),
    {
        proof {
            use_type_invariant(self);
            lemma_monotone_bound(self.col_idx@, self.num_cols as int);
        }
        let n = self.num_cols;
        let t = self.transpose();
        proof {
            use_type_invariant(&t);
            lemma_monotone_bound(t.col_idx@, t.num_cols as int);
        }
        let mut color: Vec<u32> = Vec::new();
        let mut i: usize = 0;
        while i < n
            invariant
                i <= n,
                color@.len() == i,
                forall|j: int| 0 <= j < i ==> #[trigger] color@[j] == u32::MAX,
            decreases n - i,
        {
            color.push(u32::MAX);
            i += 1;
        }
        // blocking[c] == col: color c is taken by a neighbor of column col.
        let mut blocking: Vec<usize> = Vec::new();
        let mut i: usize = 0;
        while i < n + 1
            invariant
                i <= n + 1,
                n < u32::MAX,
                blocking@.len() == i,
                forall|j: int| 0 <= j < i ==> #[trigger] blocking@[j] == usize::MAX,
            decreases n + 1 - i,
        {
            blocking.push(usize::MAX);
            i += 1;
        }
        let mut col: usize = 0;
        while col < n
            invariant
                self.inv(),
                t.inv(),
                n == self.num_cols,
                n < u32::MAX,
                t.num_rows == n,
                t.num_cols == self.num_rows,
                forall|r: int, c: int| #[trigger] t.contains(c, r) <==> self.contains(r, c),
                forall|a: int, b: int| 0 <= a <= b <= n ==> self.col_idx@[a] <= self.col_idx@[b],
                forall|a: int, b: int| 0 <= a <= b <= t.num_cols ==> t.col_idx@[a] <= t.col_idx@[b],
                col <= n,
                color@.len() == n,
                blocking@.len() == n + 1,
                forall|j: int| 0 <= j < col ==> #[trigger] color@[j] <= j,
                forall|j: int| col <= j < n ==> #[trigger] color@[j] == u32::MAX,
                forall|x: int| 0 <= x <= n ==> #[trigger] blocking@[x] < col || blocking@[x] == usize::MAX,
                forall|c1: int, c2: int|
                    0 <= c1 < col && 0 <= c2 < col && c1 != c2 && share_row(*self, c1, c2)
                        ==> #[trigger] color@[c1] != #[trigger] color@[c2],
                forall|c: int| 0 <= c < col ==> #[trigger] first_fit(*self, color@, c),
            decreases n - col,
        {
            let start = self.col_idx[col] as usize;
            let end = self.col_idx[col + 1] as usize;
            let mut i = start;
            while i < end
                invariant
                    self.inv(),
                    t.inv(),
                    n == self.num_cols,
                    n < u32::MAX,
                    t.num_rows == n,
                    t.num_cols == self.num_rows,
                    forall|r: int, c: int| #[trigger] t.contains(c, r) <==> self.contains(r, c),
                    forall|a: int, b: int| 0 <= a <= b <= n ==> self.col_idx@[a] <= self.col_idx@[b],
                    forall|a: int, b: int| 0 <= a <= b <= t.num_cols ==> t.col_idx@[a] <= t.col_idx@[b],
                    col < n,
                    start == self.col_idx@[col as int],
                    end == self.col_idx@[col + 1],
                    start <= i <= end,
                    color@.len() == n,
                    blocking@.len() == n + 1,
                    forall|j: int| 0 <= j < col ==> #[trigger] color@[j] <= j,
                    forall|j: int| col <= j < n ==> #[trigger] color@[j] == u32::MAX,
                    forall|x: int|
                        0 <= x <= n ==> #[trigger] blocking@[x] < col || blocking@[x] == usize::MAX || (
                        blocking@[x] == col && x < col),
                    forall|j: int, k: int|
                        0 <= j < col && start <= k < i && #[trigger] self.contains(self.row@[k] as int, j)
                            ==> blocking@[#[trigger] color@[j] as int] == col,
                    forall|x: int|
                        0 <= x <= n && #[trigger] blocking@[x] == col ==> color_taken(*self, color@, col as int, x),
                decreases end - i,
            {
                assert(self.col_idx@[col + 1] <= self.col_idx@[n as int]);
                assert(entry_ok(self.num_rows as nat, self.col_idx@, self.row@, col as int, i as int));
                let row = self.row[i] as usize;
                let ghost old_blocking = blocking@;
                proof {
                    assert(t.col_idx@[row + 1] <= t.col_idx@[t.num_cols as int]);
                    assert forall|p: int|
                        t.col_idx@[row as int] <= p < t.col_idx@[row + 1] implies #[trigger] t.row@[p] < color@.len() by {
                        assert(entry_ok(t.num_rows as nat, t.col_idx@, t.row@, row as int, p));
                    }
                }
                mark_neighbors(&t, row, &color, &mut blocking, col);
                proof {
                    assert forall|x: int|
                        0 <= x <= n implies #[trigger] blocking@[x] < col || blocking@[x] == usize::MAX || (
                        blocking@[x] == col && x < col) by {
                        if blocking@[x] != old_blocking[x] {
                        }
                    }
                }
                proof {
                    assert forall|j: int, k: int|
                        0 <= j < col && start <= k < i + 1 && #[trigger] self.contains(self.row@[k] as int, j)
                        implies blocking@[#[trigger] color@[j] as int] == col by {
                        if k == i {
                            assert(t.contains(j, row as int));
                            let p = choose|p: int|
                                t.spec_col_idx()[row as int] <= p < t.spec_col_idx()[row + 1] && t.spec_rows()[p] == j;
                            assert(t.row@[p] < col);
                        } else {
                            assert(old_blocking[color@[j] as int] == col);
                        }
                    }
                    assert(self.contains(row as int, col as int)) by {
                        assert(self.spec_col_idx()[col as int] <= i < self.spec_col_idx()[col + 1]
                            && self.spec_rows()[i as int] == row);
                    }
                    assert forall|x: int|
                        0 <= x <= n && #[trigger] blocking@[x] == col implies color_taken(*self, color@, col as int, x) by {
                        if old_blocking[x] != col {
                            let p = choose|p: int|
                                t.col_idx@[row as int] <= p < t.col_idx@[row + 1] && t.row@[p] < col && color@[
                                    #[trigger] t.row@[p] as int] == x;
                            let j = t.row@[p] as int;
                            assert(t.contains(j, row as int)) by {
                                assert(t.spec_col_idx()[row as int] <= p < t.spec_col_idx()[row + 1]
                                    && t.spec_rows()[p] == j);
                            }
                            assert(self.contains(row as int, j));
                            assert(share_row(*self, j, col as int));
                        }
                    }
                }
                i += 1;
            }
            let mut c: usize = 0;
            while blocking[c] == col
                invariant
                    col < n,
                    blocking@.len() == n + 1,
                    c <= col,
                    forall|x: int|
                        0 <= x <= n ==> #[trigger] blocking@[x] < col || blocking@[x] == usize::MAX || (
                        blocking@[x] == col && x < col),
                    forall|x: int| 0 <= x < c ==> #[trigger] blocking@[x] == col,
                    forall|x: int|
                        0 <= x <= n && #[trigger] blocking@[x] == col ==> color_taken(*self, color@, col as int, x),
                decreases col - c,
            {
                c += 1;
            }
            proof {
                assert forall|j: int| 0 <= j < col && share_row(*self, j, col as int) implies color@[j] != c by {
                    let r = choose|r: int| self.contains(r, j) && self.contains(r, col as int);
                    let k = choose|k: int|
                        self.spec_col_idx()[col as int] <= k < self.spec_col_idx()[col + 1] && self.spec_rows()[k] == r;
                    assert(self.contains(self.row@[k] as int, j));
                }
            }
            proof {
                assert forall|x: int| 0 <= x < c implies #[trigger] color_taken(*self, color@, col as int, x) by {
                    assert(blocking@[x] == col);
                }
            }
            let ghost old_color = color@;
            color.set(col, c as u32);
            proof {
                assert forall|cc: int| 0 <= cc < col + 1 implies #[trigger] first_fit(*self, color@, cc) by {
                    if cc < col {
                        assert(first_fit(*self, old_color, cc));
                        assert forall|x: int| 0 <= x < color@[cc] implies #[trigger] color_taken(*self, color@, cc, x) by {
                            assert(color_taken(*self, old_color, cc, x));
                            let j = choose|j: int| 0 <= j < cc && #[trigger] share_row(*self, j, cc) && old_color[j] == x;
                            assert(color@[j] == old_color[j]);
                        }
                    } else {
                        assert forall|x: int| 0 <= x < color@[cc] implies #[trigger] color_taken(*self, color@, cc, x) by {
                            assert(color_taken(*self, old_color, col as int, x));
                            let j = choose|j: int| 0 <= j < col && #[trigger] share_row(*self, j, col as int) && old_color[j] == x;
                            assert(color@[j] == old_color[j]);
                        }
                    }
                }
            }
            proof {
                assert forall|c1: int, c2: int|
                    0 <= c1 < col + 1 && 0 <= c2 < col + 1 && c1 != c2 && share_row(*self, c1, c2)
                    implies #[trigger] color@[c1] != #[trigger] color@[c2] by {
                    if c1 == col {
                        assert(share_row(*self, c2, c1)) by {
                            let r = choose|r: int| self.contains(r, c1) && self.contains(r, c2);
                        }
                        assert(old_color[c2] != c);
                    } else if c2 == col {
                        assert(old_color[c1] != c);
                    } else {
                        assert(old_color[c1] != old_color[c2]);
                    }
                }
            }
            col += 1;
        }
        let mut num_colors: usize = 0;
        let mut i: usize = 0;
        while i < n
            invariant
                i <= n,
                n <= u32::MAX,
                color@.len() == n,
                forall|j: int| 0 <= j < n ==> #[trigger] color@[j] <= j,
                forall|j: int| 0 <= j < i ==> #[trigger] color@[j] < num_colors,
                (num_colors == 0) <==> (i == 0),
                i > 0 ==> exists|j: int| 0 <= j < i && color@[j] + 1 == num_colors,
                num_colors <= i,
            decreases n - i,
        {
            if color[i] as usize + 1 > num_colors {
                num_colors = color[i] as usize + 1;
            }
            proof {
                if color@[i as int] + 1 < num_colors {
                    let j = choose|j: int| 0 <= j < i && color@[j] + 1 == num_colors;
                    assert(0 <= j < i + 1 && color@[j] + 1 == num_colors);
                } else {
                    assert(color@[i as int] + 1 == num_colors);
                }
            }
            i += 1;
        }
        proof {
            assert forall|x: int| 0 <= x < num_colors implies #[trigger] color_used(color@, x) by {
                let m = choose|j: int| 0 <= j < n && color@[j] + 1 == num_colors;
                if x < color@[m] {
                    assert(first_fit(*self, color@, m));
                    assert(color_taken(*self, color@, m, x));
                    let j = choose|j: int| 0 <= j < m && #[trigger] share_row(*self, j, m) && color@[j] == x;
                    assert(color@[j] == x);
                } else {
                    assert(color@[m] == x);
                }
            }
        }
        Coloring { num_colors, color }
    }
}

/// Marks the colors of the already colored columns listed in column `row`
/// of the transposed pattern as blocked for column `col`.
fn mark_neighbors(t: &Sparsity, row: usize, color: &Vec<u32>, blocking: &mut Vec<usize>, col: usize)
    requires
        row < t.num_cols,
        t.col_idx@.len() == t.num_cols + 1,
        t.col_idx@[row as int] <= t.col_idx@[row + 1] <= t.row@.len(),
        forall|p: int|
            t.col_idx@[row as int] <= p < t.col_idx@[row + 1] ==> #[trigger] t.row@[p] < color@.len(),
        old(blocking)@.len() == color@.len() + 1,
        color@.len() < u32::MAX,
        col < color@.len(),
        forall|j: int| 0 <= j < col ==> #[trigger] color@[j] <= j,
        forall|j: int| col <= j < color@.len() ==> #[trigger] color@[j] == u32::MAX,
    ensures
        final(blocking)@.len() == old(blocking)@.len(),
        forall|x: int|
            0 <= x < old(blocking)@.len() ==> #[trigger] final(blocking)@[x] == old(blocking)@[x] || (
            final(blocking)@[x] == col && x < col),
        forall|p: int|
            t.col_idx@[row as int] <= p < t.col_idx@[row + 1] && #[trigger] t.row@[p] < col
                ==> final(blocking)@[color@[t.row@[p] as int] as int] == col,
        // Only the colors of earlier columns listed in the row are marked.
        forall|x: int|
            0 <= x < old(blocking)@.len() && #[trigger] final(blocking)@[x] != old(blocking)@[x] ==> exists|p: int|
                t.col_idx@[row as int] <= p < t.col_idx@[row + 1] && t.row@[p] < col && color@[#[trigger] t.row@[p] as int]
                    == x,
{
    let tstart = t.col_idx[row] as usize;
    let tend = t.col_idx[row + 1] as usize;
    let mut jj = tstart;
    while jj < tend
        invariant
            row < t.num_cols,
            t.col_idx@.len() == t.num_cols + 1,
            tstart == t.col_idx@[row as int],
            tend == t.col_idx@[row + 1],
            tend <= t.row@.len(),
            forall|p: int| tstart <= p < tend ==> #[trigger] t.row@[p] < color@.len(),
            col < color@.len(),
            tstart <= jj <= tend,
            blocking@.len() == color@.len() + 1,
            color@.len() < u32::MAX,
            forall|j: int| 0 <= j < col ==> #[trigger] color@[j] <= j,
            forall|j: int| col <= j < color@.len() ==> #[trigger] color@[j] == u32::MAX,
            forall|x: int|
                0 <= x < blocking@.len() ==> #[trigger] blocking@[x] == old(blocking)@[x] || (blocking@[x]
                    == col && x < col),
            forall|p: int|
                tstart <= p < jj && #[trigger] t.row@[p] < col ==> blocking@[color@[t.row@[p] as int] as int]
                    == col,
            forall|x: int|
                0 <= x < blocking@.len() && #[trigger] blocking@[x] != old(blocking)@[x] ==> exists|p: int|
                    tstart <= p < jj && t.row@[p] < col && color@[#[trigger] t.row@[p] as int] == x,
        decreases tend - jj,
    {
        let neighbor = t.row[jj] as usize;
        let c = color[neighbor];
        let ghost before = blocking@;
        if c != u32::MAX {
            blocking.set(c as usize, col);
        }
        proof {
            assert forall|p: int|
                tstart <= p < jj + 1 && #[trigger] t.row@[p] < col implies blocking@[color@[t.row@[p] as int] as int]
                == col by {
                if p < jj {
                    assert(before[color@[t.row@[p] as int] as int] == col);
                } else {
                    assert(neighbor == t.row@[p]);
                    assert(color@[neighbor as int] <= neighbor);
                    assert(c != u32::MAX);
                    assert(blocking@[c as int] == col);
                }
            }
            assert forall|x: int|
                0 <= x < blocking@.len() && #[trigger] blocking@[x] != old(blocking)@[x] implies exists|p: int|
                    tstart <= p < jj + 1 && t.row@[p] < col && color@[#[trigger] t.row@[p] as int] == x by {
                if before[x] != old(blocking)@[x] {
                    let p = choose|p: int|
                        tstart <= p < jj && t.row@[p] < col && color@[#[trigger] t.row@[p] as int] == x;
                    assert(tstart <= p < jj + 1 && t.row@[p] < col && color@[t.row@[p] as int] == x);
                } else {
                    assert(neighbor == t.row@[jj as int]);
                    assert(c != u32::MAX);
                    assert(x == c);
                    assert(color@[neighbor as int] <= neighbor);
                    assert(tstart <= jj < jj + 1 && t.row@[jj as int] < col && color@[t.row@[jj as int] as int] == x);
                }
            }
        }
        jj += 1;
    }
}

/// A color for every column of a pattern.
pub struct Coloring {
    num_colors: usize,
    color: Vec<u32>,
}

impl Coloring {
    pub closed spec fn spec_num_colors(self) -> nat {
        self.num_colors as nat
    }

    pub closed spec fn spec_colors(self) -> Seq<u32> {
        self.color@
    }

    pub fn num_colors(&self) -> (r: usize)
        ensures
            r == self.spec_num_colors(),
    {
        self.num_colors
    }

    pub fn colors(&self) -> (r: &[u32])
        ensures
            r@ == self.spec_colors(),
    {
        self.color.as_slice()
    }

    pub fn color(&self, col: usize) -> (r: u32)
        requires
            col < self.spec_colors().len(),
        ensures
            r == self.spec_colors()[col as int],
    {
        self.color[col]
    }
}

} // verus!
