//! Matrices as rows of equal width.
use vstd::pervasive::cloned;
use vstd::prelude::*;

verus! {

/// Every row has at least as many entries as the first one.
pub open spec fn rows_cover_first<T>(matrix: Seq<Vec<T>>) -> bool {
    forall|i: int| 0 <= i < matrix.len() ==> (#[trigger] matrix[i])@.len() >= matrix[0]@.len()
}

/// Column `j` of the matrix: a clone of entry `j` of every row, top down.
pub fn column_of<T: Clone>(matrix: &[Vec<T>], j: usize) -> (entries: Vec<T>)
    requires
        forall|i: int| 0 <= i < matrix@.len() ==> j < (#[trigger] matrix@[i])@.len(),
    ensures
        entries@.len() == matrix@.len(),
        forall|i: int| 0 <= i < matrix@.len() ==> cloned(matrix@[i]@[j as int], #[trigger] entries@[i]),
{
    let mut entries: Vec<T> = Vec::new();
    let mut i: usize = 0;
    while i < matrix.len()
        invariant
            i <= matrix@.len(),
            entries@.len() == i,
            forall|k: int| 0 <= k < matrix@.len() ==> j < (#[trigger] matrix@[k])@.len(),
            forall|k: int| 0 <= k < i ==> cloned(matrix@[k]@[j as int], #[trigger] entries@[k]),
        decreases matrix@.len() - i,
    {
        let row = &matrix[i];
        entries.push(row[j].clone());
        i = i + 1;
    }
    entries
}

/// The transpose of a matrix as wide as its first row: row `j` of the
/// outcome is column `j` of the matrix. Entries of longer rows beyond that
/// width are left out.
pub fn transpose<T: Clone>(matrix: &[Vec<T>]) -> (turned: Vec<Vec<T>>)
    requires
        matrix@.len() > 0,
        rows_cover_first(matrix@),
    ensures
        turned@.len() == matrix@[0]@.len(),
        forall|j: int| 0 <= j < turned@.len() ==> (#[trigger] turned@[j])@.len() == matrix@.len(),
        forall|i: int, j: int|
            0 <= i < matrix@.len() && 0 <= j < turned@.len() ==> cloned(
                #[trigger] matrix@[i]@[j],
                #[trigger] turned@[j]@[i],
            ),
{
    let cols: usize = matrix[0].len();
    let mut turned: Vec<Vec<T>> = Vec::new();
    let mut j: usize = 0;
    while j < cols
        invariant
            j <= cols,
            matrix@.len() > 0,
            cols == matrix@[0]@.len(),
            rows_cover_first(matrix@),
            turned@.len() == j,
            forall|c: int| 0 <= c < j ==> (#[trigger] turned@[c])@.len() == matrix@.len(),
            forall|i: int, c: int|
                0 <= i < matrix@.len() && 0 <= c < j ==> cloned(
                    #[trigger] matrix@[i]@[c],
                    #[trigger] turned@[c]@[i],
                ),
        decreases cols - j,
    {
        let entries = column_of(matrix, j);
        turned.push(entries);
        j = j + 1;
    }
    turned
}

/// The matrix without its first row and its first `j` columns, cut to the
/// width of a square: row `r` of the outcome holds clones of the entries
/// `j..n` of row `r + 1`, where `n` is the number of rows of the matrix.
pub fn create_submatrix<T: Clone>(matrix: &[Vec<T>], j: usize) -> (submatrix: Vec<Vec<T>>)
    requires
        j <= matrix@.len(),
        forall|r: int| 1 <= r < matrix@.len() ==> (#[trigger] matrix@[r])@.len() >= matrix@.len(),
    ensures
        matrix@.len() == 0 ==> submatrix@.len() == 0,
        matrix@.len() > 0 ==> submatrix@.len() == matrix@.len() - 1,
        forall|r: int|
            0 <= r < submatrix@.len() ==> (#[trigger] submatrix@[r])@.len() == matrix@.len() - j,
        forall|r: int, c: int|
            0 <= r < submatrix@.len() && 0 <= c < matrix@.len() - j ==> cloned(
                #[trigger] matrix@[r + 1]@[j + c],
                #[trigger] submatrix@[r]@[c],
            ),
{
    let n: usize = matrix.len();
    let mut submatrix: Vec<Vec<T>> = Vec::new();
    let mut row: usize = 1;
    while row < n
        invariant
            1 <= row,
            row <= n || (n == 0 && row == 1),
            n == matrix@.len(),
            j <= n,
            forall|r: int| 1 <= r < n ==> (#[trigger] matrix@[r])@.len() >= n,
            submatrix@.len() == row - 1,
            forall|r: int| 0 <= r < submatrix@.len() ==> (#[trigger] submatrix@[r])@.len() == n - j,
            forall|r: int, c: int|
                0 <= r < submatrix@.len() && 0 <= c < n - j ==> cloned(
                    #[trigger] matrix@[r + 1]@[j + c],
                    #[trigger] submatrix@[r]@[c],
                ),
        decreases n - row,
    {
        let source = &matrix[row];
        let mut entries: Vec<T> = Vec::new();
        let mut col: usize = j;
        while col < n
            invariant
                j <= col <= n,
                n <= source@.len(),
                entries@.len() == col - j,
                forall|c: int|
                    0 <= c < col - j ==> cloned(source@[j + c], #[trigger] entries@[c]),
            decreases n - col,
        {
            entries.push(source[col].clone());
            col = col + 1;
        }
        submatrix.push(entries);
        row = row + 1;
    }
    submatrix
}

} // verus!
