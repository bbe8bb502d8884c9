use sudoku_rows::row::{build_rows, successors_per_row, Row};

/// Collect the nine digits of a row through its iterator.
fn row_values(r: &Row) -> Vec<u8> {
    let mut v: Vec<u8> = Vec::new();
    let mut it = r.iter();
    while let Some(x) = it.next() {
        v.push(x);
    }
    v
}

#[test]
fn test_from_slice_get() {
    let r = Row::from_slice(&[3, 6, 7, 2, 9, 4, 8, 1, 5]);
    assert_eq!(r.get(0), None);
    assert_eq!(r.get(1), Some(3));
    assert_eq!(r.get(2), Some(6));
    assert_eq!(r.get(5), Some(9));
    assert_eq!(r.get(8), Some(1));
    assert_eq!(r.get(9), Some(5));
    assert_eq!(r.get(10), None);
}

#[test]
fn test_from_slice_iter() {
    let r = Row::from_slice(&[1, 2, 3, 4, 5, 6, 7, 8, 9]);
    assert_eq!(row_values(&r), vec![1, 2, 3, 4, 5, 6, 7, 8, 9]);

    let r = Row::from_slice(&[9, 8, 7, 6, 5, 4, 3, 2, 1]);
    assert_eq!(row_values(&r), vec![9, 8, 7, 6, 5, 4, 3, 2, 1]);

    let r = Row::from_slice(&[3, 6, 7, 2, 9, 4, 8, 1, 5]);
    assert_eq!(row_values(&r), vec![3, 6, 7, 2, 9, 4, 8, 1, 5]);
}

#[test]
fn test_first() {
    let first = Row::first();
    assert_eq!(row_values(&first), vec![1, 2, 3, 4, 5, 6, 7, 8, 9]);
}

#[test]
fn test_next() {
    let r = Row::first();
    assert_eq!(
        row_values(&r.next().unwrap()),
        vec![1, 2, 3, 4, 5, 6, 7, 9, 8]
    );

    let r = Row::from_slice(&[9, 8, 7, 6, 5, 4, 3, 2, 1]);
    assert_eq!(r.next(), None);

    let r = Row::from_slice(&[3, 6, 7, 2, 9, 4, 8, 1, 5]);
    assert_eq!(
        row_values(&r.next().unwrap()),
        vec![3, 6, 7, 2, 9, 4, 8, 5, 1]
    );
}

#[test]
fn test_col_successor() {
    let r1 = Row::from_slice(&[1, 2, 3, 4, 5, 6, 7, 8, 9]);
    let r2 = Row::from_slice(&[2, 3, 4, 5, 6, 7, 8, 9, 1]);
    let r3 = Row::from_slice(&[2, 3, 5, 4, 6, 7, 8, 9, 1]);
    let r4 = Row::from_slice(&[4, 5, 6, 7, 8, 9, 1, 2, 3]);

    assert_eq!(r1.col_successor(&r2), true);
    assert_eq!(r2.col_successor(&r1), true);

    assert_eq!(r1.col_successor(&r3), false);
    assert_eq!(r3.col_successor(&r1), false);

    assert_eq!(r1.col_successor(&r4), true);
    assert_eq!(r4.col_successor(&r1), true);

    assert_eq!(r2.col_successor(&r3), false);
    assert_eq!(r3.col_successor(&r2), false);

    assert_eq!(r2.col_successor(&r4), true);
    assert_eq!(r4.col_successor(&r2), true);

    assert_eq!(r3.col_successor(&r4), true);
    assert_eq!(r4.col_successor(&r3), true);
}

#[test]
fn test_box_successor() {
    let r1 = Row::from_slice(&[1, 2, 3, 4, 5, 6, 7, 8, 9]);
    let r2 = Row::from_slice(&[2, 3, 4, 5, 6, 7, 8, 9, 1]);
    let r3 = Row::from_slice(&[2, 3, 5, 4, 6, 7, 8, 9, 1]);
    let r4 = Row::from_slice(&[4, 5, 6, 7, 8, 9, 1, 2, 3]);

    assert_eq!(r1.box_successor(&r2), false);
    assert_eq!(r2.box_successor(&r1), false);

    assert_eq!(r1.box_successor(&r3), false);
    assert_eq!(r3.box_successor(&r1), false);

    assert_eq!(r1.box_successor(&r4), true);
    assert_eq!(r4.box_successor(&r1), true);

    assert_eq!(r2.box_successor(&r3), false);
    assert_eq!(r3.box_successor(&r2), false);

    assert_eq!(r2.box_successor(&r4), false);
    assert_eq!(r4.box_successor(&r2), false);

    assert_eq!(r3.box_successor(&r4), false);
    assert_eq!(r4.box_successor(&r3), false);
}

#[test]
fn test_build_rows() {
    let all_rows = build_rows();
    let l = (1..=9).product();
    assert_eq!(all_rows.len(), l);
    let vecs: Vec<Vec<u8>> = all_rows.iter().map(row_values).collect();
    assert_eq!(vecs[0], vec![1, 2, 3, 4, 5, 6, 7, 8, 9]);
    assert_eq!(vecs[1], vec![1, 2, 3, 4, 5, 6, 7, 9, 8]);
    assert_eq!(vecs[2], vec![1, 2, 3, 4, 5, 6, 8, 7, 9]);
    assert_eq!(vecs[3], vec![1, 2, 3, 4, 5, 6, 8, 9, 7]);
    assert_eq!(vecs[4], vec![1, 2, 3, 4, 5, 6, 9, 7, 8]);
    assert_eq!(vecs[5], vec![1, 2, 3, 4, 5, 6, 9, 8, 7]);
    assert_eq!(vecs[6], vec![1, 2, 3, 4, 5, 7, 6, 8, 9]);
    assert_eq!(vecs[7], vec![1, 2, 3, 4, 5, 7, 6, 9, 8]);
    assert_eq!(vecs[8], vec![1, 2, 3, 4, 5, 7, 8, 6, 9]);
    assert_eq!(vecs[9], vec![1, 2, 3, 4, 5, 7, 8, 9, 6]);
    assert_eq!(vecs[10], vec![1, 2, 3, 4, 5, 7, 9, 6, 8]);
    assert_eq!(vecs[11], vec![1, 2, 3, 4, 5, 7, 9, 8, 6]);

    assert_eq!(vecs[l - 1], vec![9, 8, 7, 6, 5, 4, 3, 2, 1]);
    assert_eq!(vecs[l - 2], vec![9, 8, 7, 6, 5, 4, 3, 1, 2]);
    assert_eq!(vecs[l - 3], vec![9, 8, 7, 6, 5, 4, 2, 3, 1]);
    assert_eq!(vecs[l - 4], vec![9, 8, 7, 6, 5, 4, 2, 1, 3]);
}

#[test]
fn test_build_rows_strictly_increasing() {
    let all_rows = build_rows();
    let mut prev = row_values(&all_rows[0]);
    for r in all_rows.iter().skip(1) {
        let cur = row_values(r);
        assert!(prev < cur);
        prev = cur;
    }
}

#[test]
fn test_rows_are_permutations() {
    // every row reached from first() by next() holds each of 1..=9 once
    for r in build_rows() {
        let mut vals = row_values(&r);
        vals.sort();
        assert_eq!(vals, vec![1, 2, 3, 4, 5, 6, 7, 8, 9]);
    }
}

#[test]
fn test_identity_and_own_successor() {
    // the identity row and its immediate successor swap only the last two
    // digits, so they collide in the first seven columns and in the last box
    let r1 = Row::first();
    let s = r1.next().unwrap();
    assert_eq!(row_values(&s), vec![1, 2, 3, 4, 5, 6, 7, 9, 8]);
    assert_eq!(r1.col_successor(&s), false);
    assert_eq!(s.col_successor(&r1), false);
    assert_eq!(r1.box_successor(&s), false);
    assert_eq!(s.box_successor(&r1), false);
}

#[test]
fn test_col_successor_symmetric_over_sample() {
    let all_rows = build_rows();
    let a = Row::from_slice(&[3, 6, 7, 2, 9, 4, 8, 1, 5]);
    for r in all_rows.iter().step_by(4057) {
        assert_eq!(a.col_successor(r), r.col_successor(&a));
    }
}

#[test]
fn test_box_successor_symmetric_over_sample() {
    let all_rows = build_rows();
    let a = Row::from_slice(&[3, 6, 7, 2, 9, 4, 8, 1, 5]);
    for r in all_rows.iter().step_by(4057) {
        assert_eq!(a.box_successor(r), r.box_successor(&a));
    }
}

#[test]
fn test_get_unchecked() {
    let r = Row::from_slice(&[3, 6, 7, 2, 9, 4, 8, 1, 5]);
    assert_eq!(r.get_unchecked(1), 3);
    assert_eq!(r.get_unchecked(4), 2);
    assert_eq!(r.get_unchecked(8), 1);
}

#[test]
fn test_box_chunks() {
    let r = Row::from_slice(&[3, 6, 7, 2, 9, 4, 8, 1, 5]);
    let mut chunks = r.box_chunks();
    assert_eq!(chunks.next(), Some(vec![3, 6, 7]));
    assert_eq!(chunks.next(), Some(vec![2, 9, 4]));
    assert_eq!(chunks.next(), Some(vec![8, 1, 5]));
    assert_eq!(chunks.next(), None);
}

#[test]
fn test_row_iter_exhausts() {
    let r = Row::first();
    let mut it = r.iter();
    for _ in 0..9 {
        assert!(it.next().is_some());
    }
    assert_eq!(it.next(), None);
    assert_eq!(it.next(), None);
}

#[test]
fn test_derivation_idempotence_rows() {
    // the ninth digit derived by 45 minus the sum of the first eight equals
    // the one digit of 1..=9 absent from them, across the full enumeration
    for r in build_rows() {
        let vals = row_values(&r);
        let stored: Vec<u8> = vals[..8].to_vec();
        let by_sum = 45 - stored.iter().sum::<u8>();
        let by_difference = (1..=9).find(|d| !stored.contains(d)).unwrap();
        assert_eq!(by_sum, by_difference);
        assert_eq!(vals[8], by_sum);
    }
}

#[test]
fn test_successors_per_row_matches_recount() {
    let (col_count, box_count) = successors_per_row();
    let first = Row::first();
    let mut col_recount = 0usize;
    let mut box_recount = 0usize;
    for r in build_rows() {
        if first.col_successor(&r) {
            col_recount += 1;
        }
        if first.box_successor(&r) {
            box_recount += 1;
        }
    }
    assert_eq!(col_count, col_recount);
    assert_eq!(box_count, box_recount);
    assert!(col_count > 0 && col_count < 362880);
    assert!(box_count > 0 && box_count < 362880);
}
