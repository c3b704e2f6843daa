use sudoku_dlx::dancing_links::Indexed;
use sudoku_dlx::exact_cover::{Cell, Matrix, MatrixSize, SolvingState};

fn cell(index: usize) -> Cell {
    let mut c = Cell::default();
    c.set_index(index);
    c
}

fn knuth() -> Matrix {
    let mut m = Matrix::new(MatrixSize { x: 7, y: 6 });
    let rows: [[u8; 7]; 6] = [
        [0, 0, 1, 0, 1, 1, 0],
        [1, 0, 0, 1, 0, 0, 1],
        [0, 1, 1, 0, 0, 1, 0],
        [1, 0, 0, 1, 0, 0, 0],
        [0, 1, 0, 0, 0, 0, 1],
        [0, 0, 0, 1, 1, 0, 1],
    ];
    for row in rows.iter() {
        let bits: Vec<bool> = row.iter().map(|b| *b == 1).collect();
        m.add_row(&bits);
    }
    m
}

fn links(m: &Matrix) -> (Vec<(usize, usize)>, Vec<(usize, usize)>, Vec<usize>) {
    let x = m.x.data.iter().map(|l| (l.prev.get_index(), l.next.get_index())).collect();
    let y = m.y.data.iter().map(|l| (l.prev.get_index(), l.next.get_index())).collect();
    (x, y, m.column_sizes.clone())
}

#[test]
fn finds_the_one_cover() {
    let mut m = knuth();
    let mut found: Vec<Vec<usize>> = vec![];
    m.solve(&mut |s: Vec<usize>| {
        found.push(s);
        SolvingState::Continue
    });
    assert_eq!(found, vec![vec![3, 0, 4]]);
}

#[test]
fn cover_then_uncover_restores_every_link() {
    let mut m = knuth();
    let before = links(&m);
    for c in 1..=7 {
        m.cover_column(cell(c));
        assert_ne!(links(&m), before);
        m.uncover_column(cell(c));
        assert_eq!(links(&m), before);
    }
}

#[test]
fn abort_on_the_first_stops_the_search() {
    let mut m = Matrix::new(MatrixSize { x: 2, y: 4 });
    m.add_row(&[true, false]);
    m.add_row(&[false, true]);
    m.add_row(&[true, true]);
    m.add_row(&[true, false]);
    let mut calls = 0;
    m.solve(&mut |_s: Vec<usize>| {
        calls += 1;
        SolvingState::Abort
    });
    assert_eq!(calls, 1);
    // the flag stays: a later call hands out nothing
    m.solve(&mut |_s: Vec<usize>| {
        calls += 1;
        SolvingState::Continue
    });
    assert_eq!(calls, 1);
}

#[test]
fn all_covers_in_search_order() {
    let mut m = Matrix::new(MatrixSize { x: 2, y: 4 });
    m.add_row(&[true, false]);
    m.add_row(&[false, true]);
    m.add_row(&[true, true]);
    m.add_row(&[true, false]);
    let mut found: Vec<Vec<usize>> = vec![];
    m.solve(&mut |s: Vec<usize>| {
        found.push(s);
        SolvingState::Continue
    });
    assert_eq!(found, vec![vec![1, 0], vec![1, 3], vec![2]]);
}

#[test]
fn no_columns_is_one_empty_cover() {
    let mut m = Matrix::new(MatrixSize { x: 0, y: 0 });
    let mut found: Vec<Vec<usize>> = vec![];
    m.solve(&mut |s: Vec<usize>| {
        found.push(s);
        SolvingState::Continue
    });
    assert_eq!(found, vec![Vec::<usize>::new()]);
}

#[test]
fn no_cover_means_no_call() {
    let mut m = Matrix::new(MatrixSize { x: 3, y: 2 });
    m.add_row(&[true, true, false]);
    m.add_row(&[false, true, true]);
    let mut calls = 0;
    m.solve(&mut |_s: Vec<usize>| {
        calls += 1;
        SolvingState::Continue
    });
    assert_eq!(calls, 0);
}

#[test]
fn a_row_takes_a_slot_for_every_one() {
    let m = knuth();
    assert_eq!(m.x.data.len(), 1 + 7 + 16);
    assert_eq!(m.column_sizes, vec![0, 2, 2, 2, 3, 2, 2, 3]);
    let bounds: Vec<(usize, usize)> =
        m.row_bounds.iter().map(|(a, b)| (a.get_index(), b.get_index())).collect();
    assert_eq!(bounds, vec![(8, 10), (11, 13), (14, 16), (17, 18), (19, 20), (21, 23)]);
    let headers: Vec<usize> = m.column_headers.iter().map(|c| c.get_index()).collect();
    assert_eq!(&headers[0..8], &[0, 1, 2, 3, 4, 5, 6, 7]);
    assert_eq!(&headers[8..11], &[3, 5, 6]);
    // the header ring, and the ring of the first row: first, last, and down
    let (x, y, _) = links(&m);
    assert_eq!(&x[0..8], &[(7, 1), (0, 2), (1, 3), (2, 4), (3, 5), (4, 6), (5, 7), (6, 0)]);
    assert_eq!(&x[8..11], &[(9, 10), (10, 8), (8, 9)]);
    // the ring of the first column: its header and the ones of rows 1 and 3
    assert_eq!(y[1], (17, 11));
    assert_eq!(y[11], (1, 17));
    assert_eq!(y[17], (11, 1));
}

#[test]
fn covering_a_column_takes_out_its_rows() {
    let mut m = knuth();
    m.cover_column(cell(1));
    // rows 1 and 3 are out of the other columns they have a one in
    assert_eq!(m.column_sizes, vec![0, 2, 2, 2, 1, 2, 2, 2]);
    assert_eq!(m.x.link(cell(0)).next.get_index(), 2);
    m.cover_column(cell(4));
    assert_eq!(m.column_sizes, vec![0, 2, 2, 2, 1, 1, 2, 1]);
    m.uncover_column(cell(4));
    m.uncover_column(cell(1));
    assert_eq!(m.column_sizes, vec![0, 2, 2, 2, 3, 2, 2, 3]);
}

fn covers_by_hand(columns: usize, rows: &[Vec<bool>]) -> Vec<Vec<usize>> {
    let mut found = vec![];
    for mask in 0u32..(1 << rows.len()) {
        let mut hits = vec![0; columns];
        for (r, row) in rows.iter().enumerate() {
            if mask & (1 << r) != 0 {
                for (c, bit) in row.iter().enumerate() {
                    if *bit {
                        hits[c] += 1;
                    }
                }
            }
        }
        if hits.iter().all(|h| *h == 1) {
            found.push((0..rows.len()).filter(|r| mask & (1 << r) != 0).collect());
        }
    }
    found.sort();
    found
}

#[test]
fn the_solutions_are_the_exact_covers() {
    let mut seed: u32 = 12345;
    for round in 0..40 {
        let columns = 3 + round % 4;
        let mut rows: Vec<Vec<bool>> = vec![];
        while rows.len() < 11 {
            let mut row = vec![];
            for _ in 0..columns {
                seed = seed.wrapping_mul(1664525).wrapping_add(1013904223);
                row.push((seed >> 24) % 3 == 0);
            }
            if row.iter().any(|b| *b) {
                rows.push(row);
            }
        }
        let mut m = Matrix::new(MatrixSize { x: columns, y: rows.len() });
        for row in rows.iter() {
            m.add_row(row);
        }
        let before = links(&m);
        let mut found: Vec<Vec<usize>> = vec![];
        m.solve(&mut |s: Vec<usize>| {
            found.push(s);
            SolvingState::Continue
        });
        assert_eq!(links(&m), before);
        for s in found.iter_mut() {
            s.sort();
        }
        found.sort();
        assert_eq!(found, covers_by_hand(columns, &rows));
    }
}

#[test]
fn the_leftmost_of_the_smallest_columns_comes_first() {
    // both columns have two ones: the search branches on the left one, and
    // takes its rows from top to bottom
    let mut m = Matrix::new(MatrixSize { x: 2, y: 4 });
    m.add_row(&[false, true]);
    m.add_row(&[true, false]);
    m.add_row(&[false, true]);
    m.add_row(&[true, false]);
    let mut found: Vec<Vec<usize>> = vec![];
    m.solve(&mut |s: Vec<usize>| {
        found.push(s);
        SolvingState::Continue
    });
    assert_eq!(found, vec![vec![1, 0], vec![1, 2], vec![3, 0], vec![3, 2]]);
    // a column with a single one goes first, wherever it stands
    let mut m = Matrix::new(MatrixSize { x: 2, y: 3 });
    m.add_row(&[true, false]);
    m.add_row(&[true, false]);
    m.add_row(&[false, true]);
    let mut found: Vec<Vec<usize>> = vec![];
    m.solve(&mut |s: Vec<usize>| {
        found.push(s);
        SolvingState::Continue
    });
    assert_eq!(found, vec![vec![2, 0], vec![2, 1]]);
}

#[test]
fn abort_in_the_middle_stops_there() {
    let mut m = Matrix::new(MatrixSize { x: 2, y: 4 });
    m.add_row(&[false, true]);
    m.add_row(&[true, false]);
    m.add_row(&[false, true]);
    m.add_row(&[true, false]);
    let before = links(&m);
    let mut found: Vec<Vec<usize>> = vec![];
    m.solve(&mut |s: Vec<usize>| {
        found.push(s);
        if found.len() < 2 {
            SolvingState::Continue
        } else {
            SolvingState::Abort
        }
    });
    assert_eq!(found, vec![vec![1, 0], vec![1, 2]]);
    assert_eq!(m.flag(), SolvingState::Abort);
    assert_eq!(links(&m), before);
}
