use iter_grid::{Bound, Grid, IntoGrid};

fn span(start: usize, end: usize) -> (Bound, Bound) {
    (Bound::Included(start), Bound::Excluded(end))
}

fn square() -> Grid<usize> {
    (0..25).grid(5)
}

#[test]
fn test_get() {
    let file: &str = "1,2,3,4,5\n6,7,8,9,10\n11,12,13,14,15";
    let store: Vec<usize> = file
        .lines()
        .flat_map(|line| line.split(',').map(|s| s.parse::<usize>().unwrap()))
        .collect();

    (0..10)
        .grid(3)
        .iter_row(1)
        .into_iter()
        .zip([3, 4, 5])
        .for_each(|(l, r)| assert!(l == r));
    let store = store.grid(5).iter_transpose();
    assert_eq!(store, vec![1, 6, 11, 2, 7, 12, 3, 8, 13, 4, 9, 14, 5, 10, 15]);
}

#[test]
fn range_source_holds_its_integers() {
    let g = (3..7).grid(2);
    assert_eq!(g.columns, 2);
    assert_eq!(g.into_iter().collect::<Vec<usize>>(), vec![3, 4, 5, 6]);
    let empty = (7..3).grid(2);
    assert_eq!(empty.into_iter().count(), 0);
}

#[test]
fn vec_source_keeps_its_order() {
    let g = vec!['a', 'b', 'c'].grid(3);
    assert_eq!(g.into_iter().collect::<String>(), "abc");
}

#[test]
fn flat_offsets_and_coordinates() {
    let g = square();
    assert_eq!(g.index_to_flat(2, 3), 17);
    assert_eq!(g.index_from_flat(17), (2, 3));
    assert_eq!(g.index_from_flat(0), (0, 0));
    assert_eq!(g.index_from_flat(4), (4, 0));
    assert_eq!(g.index_from_flat(5), (0, 1));
    for index in 0..60 {
        let (col, row) = g.index_from_flat(index);
        assert_eq!(g.index_to_flat(col, row), index);
    }
}

#[test]
fn index_to_flat_ignores_bounds() {
    let g = (0..4).grid(3);
    assert_eq!(g.index_to_flat(7, 2), 13);
}

#[test]
fn row_of_square() {
    assert_eq!(square().iter_row(3), vec![15, 16, 17, 18, 19]);
    assert_eq!(square().iter_row(0), vec![0, 1, 2, 3, 4]);
}

#[test]
fn every_full_row_holds_its_offsets() {
    for row in 0..4 {
        let expected: Vec<usize> = (row * 3..row * 3 + 3).collect();
        assert_eq!((0..12).grid(3).iter_row(row), expected);
    }
}

#[test]
fn last_row_of_ragged_source_is_short() {
    assert_eq!((0..11).grid(4).iter_row(2), vec![8, 9, 10]);
    assert_eq!((0..11).grid(4).iter_row(3), Vec::<usize>::new());
    assert_eq!((0..11).grid(4).iter_row(usize::MAX), Vec::<usize>::new());
}

#[test]
fn row_of_zero_columns_is_empty() {
    assert_eq!((0..5).grid(0).iter_row(0), Vec::<usize>::new());
}

#[test]
fn column_of_square() {
    assert_eq!(square().iter_col(3), vec![3, 8, 13, 18, 23]);
}

#[test]
fn column_has_one_element_per_present_row() {
    let source: Vec<usize> = (0..11).collect();
    for col in 0..4 {
        let g = source.clone().grid(4);
        let column = source.clone().grid(4).iter_col(col);
        let rows = (0..).take_while(|&row| g.index_to_flat(col, row) < source.len()).count();
        assert_eq!(column.len(), rows);
        for (row, value) in column.iter().enumerate() {
            assert_eq!(*value, source[g.index_to_flat(col, row)]);
        }
    }
    assert_eq!((0..11).grid(4).iter_col(3), vec![3, 7]);
}

#[test]
fn column_of_empty_source() {
    assert_eq!(Vec::<u8>::new().grid(3).iter_col(1), Vec::<u8>::new());
}

#[test]
fn forward_diagonals() {
    assert_eq!(square().iter_diag_fwd(1, 2), vec![5, 11, 17, 23]);
    assert_eq!(square().iter_diag_fwd(4, 2), vec![2, 8, 14, 20]);
    assert_eq!(square().iter_diag_fwd(0, 0), vec![0, 6, 12, 18, 24]);
    assert_eq!(square().iter_diag_fwd(2, 9), Vec::<usize>::new());
}

#[test]
fn backward_diagonals() {
    assert_eq!(square().iter_diag_bwd(3, 2), vec![9, 13, 17, 21]);
    assert_eq!(square().iter_diag_bwd(0, 1), vec![1, 5, 9, 13, 17, 21]);
    assert_eq!(square().iter_diag_bwd(4, 0), vec![4, 8, 12, 16, 20, 24]);
    assert_eq!(square().iter_diag_bwd(4, 9), vec![5, 9, 13, 17, 21]);
    assert_eq!(square().iter_diag_bwd(0, 30), Vec::<usize>::new());
}

#[test]
fn column_range_of_square() {
    let g = square().iter_cols((Bound::Included(1), Bound::Included(2)));
    assert_eq!(g.columns, 2);
    assert_eq!(g.into_iter().collect::<Vec<_>>(), vec![1, 2, 6, 7, 11, 12, 16, 17, 21, 22]);
}

#[test]
fn column_range_bounds_resolve() {
    let all = square().iter_cols((Bound::Unbounded, Bound::Unbounded));
    assert_eq!(all.columns, 5);
    assert_eq!(all.into_iter().collect::<Vec<_>>(), (0..25).collect::<Vec<_>>());
    let tail = square().iter_cols((Bound::Excluded(2), Bound::Unbounded));
    assert_eq!(tail.columns, 2);
    assert_eq!(tail.into_iter().collect::<Vec<_>>(), vec![3, 4, 8, 9, 13, 14, 18, 19, 23, 24]);
    let none = square().iter_cols(span(2, 2));
    assert_eq!(none.columns, 0);
    assert_eq!(none.into_iter().count(), 0);
}

#[test]
fn column_range_of_ragged_source() {
    let g = (0..8).grid(3).iter_cols(span(1, 3));
    assert_eq!(g.into_iter().collect::<Vec<_>>(), vec![1, 2, 4, 5, 7]);
}

#[test]
fn row_range_of_square() {
    let g = square().iter_rows((Bound::Included(1), Bound::Included(2)));
    assert_eq!(g.columns, 5);
    assert_eq!(g.into_iter().collect::<Vec<_>>(), (5..15).collect::<Vec<_>>());
}

#[test]
fn row_range_unbounded_end_reaches_the_end() {
    let g = square().iter_rows((Bound::Included(3), Bound::Unbounded));
    assert_eq!(g.into_iter().collect::<Vec<_>>(), (15..25).collect::<Vec<_>>());
    let g = square().iter_rows((Bound::Unbounded, Bound::Excluded(1)));
    assert_eq!(g.into_iter().collect::<Vec<_>>(), vec![0, 1, 2, 3, 4]);
    let g = square().iter_rows(span(7, 9));
    assert_eq!(g.into_iter().count(), 0);
}

#[test]
fn sub_rectangle() {
    let g = square().iter_sub(span(1, 3), span(1, 3));
    assert_eq!(g.columns, 2);
    assert_eq!(g.into_iter().collect::<Vec<_>>(), vec![6, 7, 11, 12]);
}

#[test]
fn sub_rectangle_of_full_ranges_is_the_grid() {
    let g = square().iter_sub((Bound::Unbounded, Bound::Unbounded), (Bound::Unbounded, Bound::Unbounded));
    assert_eq!(g.columns, 5);
    assert_eq!(g.into_iter().collect::<Vec<_>>(), (0..25).collect::<Vec<_>>());
}

#[test]
fn transpose_of_rectangle() {
    let t = (1..7).grid(3).into_transpose();
    assert_eq!(t.columns, 2);
    assert_eq!(t.into_iter().collect::<Vec<_>>(), vec![1, 4, 2, 5, 3, 6]);
}

#[test]
fn transpose_twice_gives_source_back() {
    let source: Vec<u32> = vec![4, 8, 15, 16, 23, 42, 7, 9, 1, 0, 2, 5];
    for columns in [1, 2, 3, 4, 6, 12] {
        let back = source.clone().grid(columns).into_transpose().into_transpose();
        assert_eq!(back.columns, columns);
        assert_eq!(back.into_iter().collect::<Vec<_>>(), source);
    }
}

#[test]
fn transpose_of_empty_source() {
    let t = Vec::<u8>::new().grid(4).into_transpose();
    assert_eq!(t.columns, 0);
    assert_eq!(t.into_iter().count(), 0);
}

#[test]
fn lazy_transpose_of_ragged_source() {
    assert_eq!((0..7).grid(3).iter_transpose(), vec![0, 3, 6, 1, 4, 2, 5]);
    assert_eq!((0..7).grid(0).iter_transpose(), Vec::<usize>::new());
}

#[test]
fn transpose_clones_owned_elements() {
    let words: Vec<String> = ["a", "b", "c", "d"].iter().map(|s| s.to_string()).collect();
    let t = words.grid(2).iter_transpose();
    assert_eq!(t, vec!["a", "c", "b", "d"]);
}

#[test]
fn get_reads_by_coordinates() {
    let g = square();
    assert_eq!(*g.get(2, 3), 17);
    assert_eq!(*g.get(0, 0), 0);
    assert_eq!(*g.get(4, 4), 24);
}

#[test]
fn get_mut_writes_in_place() {
    let mut g = (0..6).grid(3);
    *g.get_mut(1, 1) = 40;
    *g.get_mut(0, 0) += 9;
    assert_eq!(g.columns, 3);
    assert_eq!(*g.get(1, 1), 40);
    assert_eq!(g.into_iter().collect::<Vec<_>>(), vec![9, 1, 2, 3, 40, 5]);
}
