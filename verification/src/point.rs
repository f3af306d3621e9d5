//! Placing the cells of a ragged array in the Cartesian plane.

use vstd::prelude::*;

verus! {

/// One array cell placed in the Cartesian plane.
///
/// `x` is the cell's column index; `y` counts rows from the bottom, so the
/// top row of an array of `R` rows has `y == R - 1`.
#[derive(Clone, Copy, Debug, PartialEq, Eq, Structural)]
pub struct Point<T> {
    pub x: usize,
    pub y: usize,
    pub value: T,
}

impl<T> Point<T> {
    /// Places the cell at `(row_idx, col_idx)` of an array of `total_rows`
    /// rows: the row axis is flipped so that row 0 gets the largest
    /// y-coordinate.
    pub fn from_row_col_val(total_rows: usize, row_idx: usize, col_idx: usize, val: T) -> (r: Self)
        requires
            row_idx < total_rows,
        ensures
            r.x == col_idx,
            r.y == total_rows - row_idx - 1,
            r.value == val,
    {
        Self { x: col_idx, y: total_rows - row_idx - 1, value: val }
    }
}

/// The points of row `r` of an array of `total_rows` rows, left to right.
pub open spec fn row_points<T>(row: Seq<T>, total_rows: int, r: int) -> Seq<Point<T>> {
    Seq::new(
        row.len(),
        |c: int| Point { x: c as usize, y: (total_rows - r - 1) as usize, value: row[c] },
    )
}

/// The points of every cell of `arr`, row-major, top row first, in an
/// array of `total_rows` rows.
pub open spec fn array_points<T>(arr: Seq<Seq<T>>, total_rows: int) -> Seq<Point<T>>
    decreases arr.len(),
{
    if arr.len() == 0 {
        Seq::empty()
    } else {
        array_points(arr.drop_last(), total_rows) + row_points(
            arr.last(),
            total_rows,
            arr.len() - 1,
        )
    }
}

/// The number of cells of `arr`.
pub open spec fn total_cells<T>(arr: Seq<Seq<T>>) -> int
    decreases arr.len(),
{
    if arr.len() == 0 {
        0
    } else {
        total_cells(arr.drop_last()) + arr.last().len()
    }
}

/// The rows of an array, as mathematical sequences.
pub open spec fn rows_view<T>(arr: Seq<Vec<T>>) -> Seq<Seq<T>> {
    arr.map_values(|row: Vec<T>| row@)
}

/// There is one point per cell.
pub proof fn lemma_array_points_len<T>(arr: Seq<Seq<T>>, total_rows: int)
    ensures
        array_points(arr, total_rows).len() == total_cells(arr),
    decreases arr.len(),
{
    if arr.len() > 0 {
        lemma_array_points_len(arr.drop_last(), total_rows);
    }
}

/// Every cell is mapped to the point whose coordinates the coordinate
/// convention dictates: the cell at row `r` and column `c` stands at flat
/// position `total_cells(arr.take(r)) + c` as the point
/// `(c, total_rows - r - 1)` carrying the cell's value.
pub proof fn lemma_cell_to_point<T>(arr: Seq<Seq<T>>, total_rows: int, r: int, c: int)
    requires
        arr.len() <= total_rows,
        0 <= r < arr.len(),
        0 <= c < arr[r].len(),
    ensures
        0 <= total_cells(arr.take(r)) + c < array_points(arr, total_rows).len(),
        array_points(arr, total_rows)[total_cells(arr.take(r)) + c] == (Point {
            x: c as usize,
            y: (total_rows - r - 1) as usize,
            value: arr[r][c],
        }),
    decreases arr.len(),
{
    let front = arr.drop_last();
    lemma_array_points_len(front, total_rows);
    lemma_array_points_len(arr, total_rows);
    lemma_total_cells_nonneg(arr.take(r));
    if r == arr.len() - 1 {
        assert(arr.take(r) =~= front);
        assert(array_points(arr, total_rows)[total_cells(front) + c] == row_points(
            arr.last(),
            total_rows,
            r,
        )[c]);
    } else {
        lemma_cell_to_point(front, total_rows, r, c);
        assert(arr.take(r) =~= front.take(r));
    }
}

/// The cell count of any array is non-negative.
pub proof fn lemma_total_cells_nonneg<T>(arr: Seq<Seq<T>>)
    ensures
        total_cells(arr) >= 0,
    decreases arr.len(),
{
    if arr.len() > 0 {
        lemma_total_cells_nonneg(arr.drop_last());
    }
}

/// Every point of an array comes from one of its cells; the returned pair
/// names that cell's row and column.
pub proof fn lemma_point_from_cell<T>(arr: Seq<Seq<T>>, total_rows: int, i: int) -> (rc: (int, int))
    requires
        arr.len() <= total_rows,
        0 <= i < array_points(arr, total_rows).len(),
    ensures
        0 <= rc.0 < arr.len(),
        0 <= rc.1 < arr[rc.0].len(),
        array_points(arr, total_rows)[i] == (Point {
            x: rc.1 as usize,
            y: (total_rows - rc.0 - 1) as usize,
            value: arr[rc.0][rc.1],
        }),
    decreases arr.len(),
{
    let front = arr.drop_last();
    lemma_array_points_len(front, total_rows);
    lemma_array_points_len(arr, total_rows);
    if i < total_cells(front) {
        lemma_point_from_cell(front, total_rows, i)
    } else {
        let r = arr.len() - 1;
        let c = i - total_cells(front);
        assert(array_points(arr, total_rows)[i] == row_points(arr.last(), total_rows, r)[c]);
        (r, c)
    }
}

/// Every point of an array sits no lower than the bottom row's
/// y-coordinate.
pub proof fn lemma_points_y_bound<T>(arr: Seq<Seq<T>>, total_rows: int)
    requires
        arr.len() <= total_rows <= usize::MAX,
    ensures
        forall|i: int|
            0 <= i < array_points(arr, total_rows).len() ==> (#[trigger] array_points(
                arr,
                total_rows,
            )[i]).y >= total_rows - arr.len(),
    decreases arr.len(),
{
    if arr.len() > 0 {
        let front = arr.drop_last();
        lemma_points_y_bound(front, total_rows);
        lemma_array_points_len(front, total_rows);
        lemma_total_cells_nonneg(front);
    }
}

/// Distinct cells give points with distinct coordinates: the cells of one
/// row share a y-coordinate but differ in x, and rows differ in y.
pub proof fn lemma_points_coords_distinct<T>(arr: Seq<Seq<T>>, total_rows: int)
    requires
        arr.len() <= total_rows <= usize::MAX,
        forall|t: int| 0 <= t < arr.len() ==> (#[trigger] arr[t]).len() <= usize::MAX,
    ensures
        forall|i: int, j: int|
            0 <= i < j < array_points(arr, total_rows).len() ==> ((#[trigger] array_points(
                arr,
                total_rows,
            )[i]).x != (#[trigger] array_points(arr, total_rows)[j]).x || array_points(
                arr,
                total_rows,
            )[i].y != array_points(arr, total_rows)[j].y),
    decreases arr.len(),
{
    if arr.len() > 0 {
        let pts = array_points(arr, total_rows);
        let front = arr.drop_last();
        let fl = total_cells(front);
        lemma_points_coords_distinct(front, total_rows);
        lemma_points_y_bound(front, total_rows);
        lemma_array_points_len(front, total_rows);
        lemma_array_points_len(arr, total_rows);
        lemma_total_cells_nonneg(front);
        let r = arr.len() - 1;
        assert forall|i: int, j: int| 0 <= i < j < pts.len() implies ((#[trigger] pts[i]).x != (
        #[trigger] pts[j]).x || pts[i].y != pts[j].y) by {
            if j < fl {
                assert(pts[i] == array_points(front, total_rows)[i]);
                assert(pts[j] == array_points(front, total_rows)[j]);
            } else if i >= fl {
                assert(pts[i] == row_points(arr.last(), total_rows, r)[i - fl]);
                assert(pts[j] == row_points(arr.last(), total_rows, r)[j - fl]);
                assert(pts[i].x == (i - fl) as usize);
                assert(pts[j].x == (j - fl) as usize);
            } else {
                assert(pts[i] == array_points(front, total_rows)[i]);
                assert(pts[i].y >= total_rows - front.len());
                assert(pts[j] == row_points(arr.last(), total_rows, r)[j - fl]);
                assert(pts[j].y == (total_rows - r - 1) as usize);
            }
        }
    }
}

/// An array all of whose rows are empty — in particular an array with no
/// rows — produces no points at all.
pub proof fn lemma_all_rows_empty_no_points<T>(arr: Seq<Seq<T>>, total_rows: int)
    requires
        forall|t: int| 0 <= t < arr.len() ==> (#[trigger] arr[t]).len() == 0,
    ensures
        array_points(arr, total_rows) == Seq::<Point<T>>::empty(),
    decreases arr.len(),
{
    if arr.len() > 0 {
        lemma_all_rows_empty_no_points(arr.drop_last(), total_rows);
        assert(array_points(arr, total_rows) =~= Seq::<Point<T>>::empty());
    } else {
        assert(array_points(arr, total_rows) =~= Seq::<Point<T>>::empty());
    }
}

/// Converts a ragged array into one point per cell: the cell at row `r`
/// (from the top) and column `c` becomes the point `(c, R - r - 1)`
/// carrying the cell's value, where `R` is the number of rows.
pub fn array_to_points<T: Copy>(array: &Vec<Vec<T>>) -> (points: Vec<Point<T>>)
    ensures
        points@ == array_points(rows_view(array@), array@.len() as int),
{
    let total_rows = array.len();
    let ghost all_rows = rows_view(array@);
    let mut points: Vec<Point<T>> = Vec::new();
    proof {
        assert(all_rows.take(0) =~= Seq::<Seq<T>>::empty());
    }
    let mut r: usize = 0;
    while r < total_rows
        invariant
            total_rows == array@.len(),
            all_rows == rows_view(array@),
            r <= total_rows,
            points@ == array_points(all_rows.take(r as int), total_rows as int),
        decreases total_rows - r,
    {
        let row_len = array[r].len();
        let mut c: usize = 0;
        while c < row_len
            invariant
                total_rows == array@.len(),
                all_rows == rows_view(array@),
                r < total_rows,
                row_len == array@[r as int]@.len(),
                c <= row_len,
                points@ == array_points(all_rows.take(r as int), total_rows as int)
                    + row_points(all_rows[r as int].take(c as int), total_rows as int, r as int),
            decreases row_len - c,
        {
            let val = array[r][c];
            points.push(Point::from_row_col_val(total_rows, r, c, val));
            proof {
                assert(all_rows[r as int].take(c + 1 as int) =~= all_rows[r as int].take(
                    c as int,
                ).push(all_rows[r as int][c as int]));
                assert(row_points(all_rows[r as int].take(c + 1 as int), total_rows as int, r as int)
                    =~= row_points(all_rows[r as int].take(c as int), total_rows as int, r as int)
                    .push(Point { x: c, y: (total_rows - r - 1) as usize, value: val }));
            }
            c = c + 1;
        }
        proof {
            let taken = all_rows.take(r + 1 as int);
            assert(taken.drop_last() =~= all_rows.take(r as int));
            assert(taken.last() == all_rows[r as int]);
            assert(all_rows[r as int].take(row_len as int) =~= all_rows[r as int]);
            assert(array_points(taken, total_rows as int) == array_points(
                all_rows.take(r as int),
                total_rows as int,
            ) + row_points(all_rows[r as int], total_rows as int, r as int));
        }
        r = r + 1;
    }
    proof {
        assert(all_rows.take(total_rows as int) =~= all_rows);
    }
    points
}

} // verus!
