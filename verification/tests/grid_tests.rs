use sudoku_rows::grid::Grid;
use sudoku_rows::row::Row;

/// Collect the nine digits of a row through its iterator.
fn row_values(r: &Row) -> Vec<u8> {
    let mut v: Vec<u8> = Vec::new();
    let mut it = r.iter();
    while let Some(x) = it.next() {
        v.push(x);
    }
    v
}

/// Collect the nine rows of a grid through its iterator.
fn grid_rows(g: &Grid) -> Vec<Row> {
    let mut v: Vec<Row> = Vec::new();
    let mut it = g.rows();
    while let Some(r) = it.next() {
        v.push(r);
    }
    v
}

#[test]
fn test_grid_first_rows() {
    // the greedy search fixes each stored row as the least successor that
    // clears the column and band checks at all nine positions; the ninth
    // row follows by column subtraction.  This is the lexicographically
    // first valid Sudoku grid.
    let g = Grid::first().expect("the first grid exists");
    let rows = grid_rows(&g);
    let expected: [[u8; 9]; 9] = [
        [1, 2, 3, 4, 5, 6, 7, 8, 9],
        [4, 5, 6, 7, 8, 9, 1, 2, 3],
        [7, 8, 9, 1, 2, 3, 4, 5, 6],
        [2, 1, 4, 3, 6, 5, 8, 9, 7],
        [3, 6, 5, 8, 9, 7, 2, 1, 4],
        [8, 9, 7, 2, 1, 4, 3, 6, 5],
        [5, 3, 1, 6, 4, 2, 9, 7, 8],
        [6, 4, 2, 9, 7, 8, 5, 3, 1],
        [9, 7, 8, 5, 3, 1, 6, 4, 2],
    ];
    assert_eq!(rows.len(), 9);
    for (i, row) in rows.iter().enumerate() {
        assert_eq!(row_values(row), expected[i].to_vec(), "row {}", i);
    }
}

#[test]
fn test_grid_first_pairwise_disjoint() {
    // all nine rows, the derived ninth included, are pairwise
    // column-disjoint at every position, and pairwise box-disjoint within
    // each band of three
    let g = Grid::first().expect("the first grid exists");
    let rows = grid_rows(&g);
    for i in 0..9 {
        for j in (i + 1)..9 {
            assert!(rows[i].col_successor(&rows[j]), "columns {} {}", i, j);
            if i / 3 == j / 3 {
                assert!(rows[i].box_successor(&rows[j]), "boxes {} {}", i, j);
            }
        }
    }
}

#[test]
fn test_grid_columns_are_permutations() {
    // every column of the nine rows, the derived ninth column included,
    // holds each digit once
    let g = Grid::first().expect("the first grid exists");
    let rows = grid_rows(&g);
    for c in 0..9 {
        let mut col: Vec<u8> = rows.iter().map(|r| row_values(r)[c]).collect();
        col.sort();
        assert_eq!(col, vec![1, 2, 3, 4, 5, 6, 7, 8, 9], "column {}", c);
    }
}

#[test]
fn test_grid_ninth_row_derivation_idempotent() {
    // the ninth row recovered by 45 minus each column sum equals, column by
    // column, the one digit the eight stored rows leave out
    let g = Grid::first().expect("the first grid exists");
    let rows = grid_rows(&g);
    let stored: Vec<Vec<u8>> = rows[..8].iter().map(row_values).collect();
    let ninth = row_values(&rows[8]);
    for c in 0..9 {
        let column: Vec<u8> = stored.iter().map(|r| r[c]).collect();
        let by_sum = 45 - column.iter().sum::<u8>();
        let by_difference = (1..=9).find(|d| !column.contains(d)).unwrap();
        assert_eq!(by_sum, by_difference, "column {}", c);
        assert_eq!(ninth[c], by_sum, "column {}", c);
    }
}

#[test]
fn test_grid_rows_iterator_exhausts() {
    let g = Grid::first().expect("the first grid exists");
    let mut it = g.rows();
    for _ in 0..9 {
        assert!(it.next().is_some());
    }
    assert!(it.next().is_none());
    assert!(it.next().is_none());
}
