use diagonals::point::{array_to_points, Point};

#[test]
fn maps_row_col_to_cartesian() {
    let p = Point::from_row_col_val(3usize, 0usize, 0usize, 1i64);
    assert_eq!(p.x, 0);
    assert_eq!(p.y, 2);
    assert_eq!(p.value, 1);
    let q = Point::from_row_col_val(3usize, 2usize, 3usize, 12i64);
    assert_eq!(q.x, 3);
    assert_eq!(q.y, 0);
    assert_eq!(q.value, 12);
}

#[test]
fn every_cell_gets_its_coordinates() {
    let array: Vec<Vec<i64>> = vec![
        vec![1, 2, 3, 4],
        vec![5, 6, 7, 8],
        vec![9, 10, 11, 12],
    ];
    let total_rows = array.len();
    let points = array_to_points(&array);
    assert_eq!(points.len(), 12);
    let mut i = 0;
    for (r, row) in array.iter().enumerate() {
        for (c, val) in row.iter().enumerate() {
            assert_eq!(points[i].x, c);
            assert_eq!(points[i].y, total_rows - r - 1);
            assert_eq!(points[i].value, *val);
            i += 1;
        }
    }
}

#[test]
fn corner_points_of_sample_array() {
    let array: Vec<Vec<i64>> = vec![
        vec![1, 2, 3, 4],
        vec![5, 6, 7, 8],
        vec![9, 10, 11, 12],
    ];
    let points = array_to_points(&array);
    assert_eq!((points[0].x, points[0].y, points[0].value), (0, 2, 1));
    assert_eq!((points[11].x, points[11].y, points[11].value), (3, 0, 12));
}

#[test]
fn ragged_rows_are_supported() {
    let array: Vec<Vec<i64>> = vec![vec![1, 2, 3], vec![4, 5, 6, 7, 8], vec![9, 10]];
    let points = array_to_points(&array);
    assert_eq!(points.len(), 10);
    // last cell of the long middle row
    assert_eq!((points[7].x, points[7].y, points[7].value), (4, 1, 8));
    // first cell of the bottom row
    assert_eq!((points[8].x, points[8].y, points[8].value), (0, 0, 9));
}

#[test]
fn empty_array_yields_no_points() {
    let array: Vec<Vec<i64>> = vec![];
    assert_eq!(array_to_points(&array).len(), 0);
}

#[test]
fn array_of_one_empty_row_yields_no_points() {
    let array: Vec<Vec<i64>> = vec![vec![]];
    assert_eq!(array_to_points(&array).len(), 0);
}
