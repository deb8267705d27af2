use autodiff::sparsity::{Sparsity, SparsityError};

fn example() -> Sparsity {
    // 3 x 2 pattern: column 0 holds rows 0 and 2, column 1 holds row 1.
    Sparsity::new(3, 2, vec![0, 2, 3], vec![0, 2, 1]).unwrap()
}

#[test]
fn new_accepts_valid_pattern() {
    let s = example();
    assert_eq!(s.num_rows(), 3);
    assert_eq!(s.num_cols(), 2);
    assert_eq!(s.nnz(), 3);
    assert_eq!(s.col_range(0), 0..2);
    assert_eq!(s.col_range(1), 2..3);
    assert_eq!(s.rows(), &[0, 2, 1]);
}

#[test]
fn new_rejects_wrong_col_idx_length() {
    let e = Sparsity::new(3, 2, vec![0, 2], vec![0, 2]).unwrap_err();
    assert_eq!(e, SparsityError::ColIdxWrongLength { expected: 3, got: 2 });
}

#[test]
fn new_rejects_nonzero_first_pointer() {
    let e = Sparsity::new(3, 1, vec![1, 2], vec![0, 1]).unwrap_err();
    assert_eq!(e, SparsityError::ColIdxFirstNotZero);
}

#[test]
fn new_rejects_decreasing_pointers() {
    let e = Sparsity::new(3, 2, vec![0, 2, 1], vec![0]).unwrap_err();
    assert_eq!(e, SparsityError::ColIdxNotMonotone { col: 1 });
}

#[test]
fn new_rejects_row_length_mismatch() {
    let e = Sparsity::new(3, 1, vec![0, 2], vec![0]).unwrap_err();
    assert_eq!(e, SparsityError::RowLengthMismatch { expected: 2, got: 1 });
}

#[test]
fn new_rejects_row_out_of_range() {
    let e = Sparsity::new(3, 2, vec![0, 1, 2], vec![0, 3]).unwrap_err();
    assert_eq!(e, SparsityError::RowOutOfRange { col: 1, position: 1, row: 3 });
}

#[test]
fn new_rejects_unsorted_rows() {
    let e = Sparsity::new(3, 1, vec![0, 2], vec![2, 1]).unwrap_err();
    assert_eq!(e, SparsityError::RowsNotStrictlyIncreasing { col: 0, position: 1 });
    let e = Sparsity::new(3, 1, vec![0, 2], vec![1, 1]).unwrap_err();
    assert_eq!(e, SparsityError::RowsNotStrictlyIncreasing { col: 0, position: 1 });
}

#[test]
fn from_dense_lists_every_entry() {
    let s = Sparsity::from_dense(2, 3);
    assert_eq!(s.num_rows(), 2);
    assert_eq!(s.num_cols(), 3);
    assert_eq!(s.nnz(), 6);
    assert_eq!(s.rows(), &[0, 1, 0, 1, 0, 1]);
    assert_eq!(s.col_range(2), 4..6);
}

#[test]
fn from_columns_concatenates() {
    let s = Sparsity::from_columns(4, 3, vec![vec![1, 3], vec![], vec![0]]);
    assert_eq!(s.nnz(), 3);
    assert_eq!(s.col_range(0), 0..2);
    assert_eq!(s.col_range(1), 2..2);
    assert_eq!(s.col_range(2), 2..3);
    assert_eq!(s.rows(), &[1, 3, 0]);
}

#[test]
fn transpose_swaps_entries() {
    let t = example().transpose();
    assert_eq!(t.num_rows(), 2);
    assert_eq!(t.num_cols(), 3);
    // rows of the transpose: row 0 -> col 0, row 1 -> col 1, row 2 -> col 0
    assert_eq!(t.col_range(0), 0..1);
    assert_eq!(t.col_range(1), 1..2);
    assert_eq!(t.col_range(2), 2..3);
    assert_eq!(t.rows(), &[0, 1, 0]);
}

#[test]
fn transpose_twice_is_identity() {
    let s = example();
    let tt = s.transpose().transpose();
    assert_eq!(tt, s);
}

#[test]
fn coloring_separates_columns_sharing_a_row() {
    // Columns 0 and 1 share row 0; column 2 shares nothing.
    let s = Sparsity::new(2, 3, vec![0, 1, 3, 4], vec![0, 0, 1, 1]).unwrap();
    let c = s.uni_coloring();
    assert_ne!(c.color(0), c.color(1));
    assert_ne!(c.color(1), c.color(2));
    assert_eq!(c.colors(), &[0, 1, 0]);
    assert_eq!(c.num_colors(), 2);
}

#[test]
fn coloring_of_diagonal_uses_one_color() {
    let s = Sparsity::new(3, 3, vec![0, 1, 2, 3], vec![0, 1, 2]).unwrap();
    let c = s.uni_coloring();
    assert_eq!(c.num_colors(), 1);
    assert_eq!(c.colors(), &[0, 0, 0]);
}

#[test]
fn coloring_of_dense_uses_one_color_per_column() {
    let c = Sparsity::from_dense(2, 3).uni_coloring();
    assert_eq!(c.num_colors(), 3);
    assert_eq!(c.colors(), &[0, 1, 2]);
}

#[test]
fn coloring_of_empty_pattern() {
    let c = Sparsity::from_dense(0, 0).uni_coloring();
    assert_eq!(c.num_colors(), 0);
    assert!(c.colors().is_empty());
}
