//! The laws the grouping obeys, stated and proved over the contracts of
//! the coordinate mapper and the grouper.

use vstd::prelude::*;
use crate::group::{
    diag_points, grouping_ok, lemma_filter_distinct, lemma_filter_subset, lemma_grouping_of_empty,
    lemma_same_diagonal_keys_eq, Diagonal,
};
use crate::line::{on_diagonal, xint_num, yint_num};
use crate::point::{
    array_points, lemma_all_rows_empty_no_points, lemma_cell_to_point, lemma_point_from_cell,
    lemma_points_coords_distinct, Point,
};
use crate::rational::{frac_eq, lemma_frac_eq_trans, lemma_mul_cancel, Rational};

verus! {

/// A member of a diagonal group is a point of the input that lies on the
/// group's diagonal.
pub proof fn lemma_group_member<T>(pts: Seq<Point<T>>, s: Rational, key: Rational, e: Point<T>)
    requires
        diag_points(pts, s, key).contains(e),
    ensures
        pts.contains(e),
        on_diagonal(e, s, key),
{
    broadcast use vstd::seq_lib::group_filter_ensures;

    let pred = |q: Point<T>| on_diagonal(q, s, key);
    let onk = pts.filter(pred);
    lemma_filter_subset(pts, pred);
    if s.num < 0 {
    } else {
        let t = choose|t: int| 0 <= t < onk.reverse().len() && onk.reverse()[t] == e;
        assert(onk[onk.len() - 1 - t] == e);
        assert(onk.contains(e));
    }
}

/// A point of the input lying on a group's diagonal is a member of that
/// group.
pub proof fn lemma_on_diagonal_in_group<T>(pts: Seq<Point<T>>, s: Rational, key: Rational, i: int)
    requires
        0 <= i < pts.len(),
        on_diagonal(pts[i], s, key),
    ensures
        diag_points(pts, s, key).contains(pts[i]),
{
    broadcast use vstd::seq_lib::group_filter_ensures;

    let pred = |q: Point<T>| on_diagonal(q, s, key);
    let onk = pts.filter(pred);
    assert(onk.contains(pts[i]));
    if s.num < 0 {
    } else {
        let t = choose|t: int| 0 <= t < onk.len() && onk[t] == pts[i];
        assert(onk.reverse()[onk.len() - 1 - t] == pts[i]);
        assert(onk.reverse().contains(pts[i]));
    }
}

/// Some group's point list holds `pt`.
pub open spec fn in_some_group<T>(groups: Seq<Diagonal<T>>, pt: Point<T>) -> bool {
    exists|g: int| 0 <= g < groups.len() && (#[trigger] groups[g]).points@.contains(pt)
}

/// The groups partition the points: every point of the input belongs to a
/// group, and to only one.
pub proof fn lemma_groups_partition<T>(pts: Seq<Point<T>>, s: Rational, groups: Seq<Diagonal<T>>)
    requires
        s.wf(),
        s.num != 0,
        grouping_ok(pts, s, groups),
    ensures
        forall|i: int| 0 <= i < pts.len() ==> in_some_group(groups, #[trigger] pts[i]),
        forall|g1: int, g2: int, i: int|
            #![trigger groups[g1].points@.contains(pts[i]), groups[g2].points@.contains(pts[i])]
            0 <= g1 < groups.len() && 0 <= g2 < groups.len() && 0 <= i < pts.len()
                && groups[g1].points@.contains(pts[i]) && groups[g2].points@.contains(pts[i])
                ==> g1 == g2,
{
    assert forall|i: int| 0 <= i < pts.len() implies in_some_group(groups, #[trigger] pts[i]) by {
        let g0 = choose|g0: int| 0 <= g0 < groups.len() && on_diagonal(pts[i], s, groups[g0].key);
        lemma_on_diagonal_in_group(pts, s, groups[g0].key, i);
        assert(groups[g0].points@.contains(pts[i]));
    }
    assert forall|g1: int, g2: int, i: int|
        0 <= g1 < groups.len() && 0 <= g2 < groups.len() && 0 <= i < pts.len()
            && #[trigger] groups[g1].points@.contains(#[trigger] pts[i])
            && #[trigger] groups[g2].points@.contains(pts[i]) implies g1 == g2 by {
        lemma_group_member(pts, s, groups[g1].key, pts[i]);
        lemma_group_member(pts, s, groups[g2].key, pts[i]);
        lemma_same_diagonal_keys_eq(pts[i], s, groups[g1].key, groups[g2].key);
        if g1 < g2 {
            assert(groups[g1].key.lt_val(groups[g2].key));
        } else if g2 < g1 {
            assert(groups[g2].key.lt_val(groups[g1].key));
        }
    }
}

/// Two points sharing an x-intercept under a slope have exactly equal
/// y-intercepts: `p1.y - s·p1.x == p2.y - s·p2.x` holds exactly.
pub proof fn lemma_intercept_consistency<T>(p1: Point<T>, p2: Point<T>, s: Rational, k: Rational)
    requires
        s.wf(),
        s.num != 0,
        k.wf(),
        on_diagonal(p1, s, k),
        on_diagonal(p2, s, k),
    ensures
        yint_num(p1, s) == yint_num(p2, s),
        frac_eq(yint_num(p1, s), s.den as int, yint_num(p2, s), s.den as int),
{
    lemma_frac_eq_trans(
        xint_num(p1, s),
        s.num as int,
        k.num as int,
        k.den as int,
        xint_num(p2, s),
        s.num as int,
    );
    lemma_mul_cancel(xint_num(p1, s), xint_num(p2, s), s.num as int);
}

/// The group keys, in the order the grouping yields them, are strictly
/// ascending, and in particular pairwise distinct as rational values.
pub proof fn lemma_keys_strictly_ascending<T>(
    pts: Seq<Point<T>>,
    s: Rational,
    groups: Seq<Diagonal<T>>,
)
    requires
        grouping_ok(pts, s, groups),
    ensures
        forall|g1: int, g2: int|
            #![trigger groups[g1].key.lt_val(groups[g2].key)]
            0 <= g1 < g2 < groups.len() ==> groups[g1].key.lt_val(groups[g2].key)
                && !groups[g1].key.eq_val(groups[g2].key) && !groups[g2].key.eq_val(groups[g1].key),
{
}

/// An array with no cells — no rows at all, or rows that are all empty —
/// yields no groups under any slope.
pub proof fn lemma_empty_input_no_groups<T>(
    arr: Seq<Seq<T>>,
    total_rows: int,
    s: Rational,
    groups: Seq<Diagonal<T>>,
)
    requires
        forall|t: int| 0 <= t < arr.len() ==> (#[trigger] arr[t]).len() == 0,
        grouping_ok(array_points(arr, total_rows), s, groups),
    ensures
        groups.len() == 0,
{
    lemma_all_rows_empty_no_points(arr, total_rows);
    lemma_grouping_of_empty(s, groups);
}

/// An index of a point of maximal y-coordinate.
proof fn lemma_exists_max_y<T>(pts: Seq<Point<T>>) -> (mi: int)
    requires
        pts.len() > 0,
    ensures
        0 <= mi < pts.len(),
        forall|t: int| 0 <= t < pts.len() ==> (#[trigger] pts[t]).y <= pts[mi].y,
    decreases pts.len(),
{
    if pts.len() == 1 {
        0
    } else {
        let front = pts.drop_last();
        let fmi = lemma_exists_max_y(front);
        assert forall|t: int| 0 <= t < pts.len() - 1 implies (#[trigger] pts[t]).y
            <= pts[fmi].y by {
            assert(front[t] == pts[t]);
        }
        if pts.last().y > pts[fmi].y {
            pts.len() - 1
        } else {
            fmi
        }
    }
}

/// A diagonal holding two points of a duplicate-free input holds two
/// different points, both on it.
proof fn lemma_group_two_distinct<T>(pts: Seq<Point<T>>, s: Rational, key: Rational) -> (ab: (
    Point<T>,
    Point<T>,
))
    requires
        forall|i: int, j: int| 0 <= i < j < pts.len() ==> pts[i] != pts[j],
        diag_points(pts, s, key).len() >= 2,
    ensures
        ab.0 != ab.1,
        pts.contains(ab.0),
        pts.contains(ab.1),
        on_diagonal(ab.0, s, key),
        on_diagonal(ab.1, s, key),
{
    broadcast use vstd::seq_lib::group_filter_ensures;

    let pred = |q: Point<T>| on_diagonal(q, s, key);
    let onk = pts.filter(pred);
    lemma_filter_distinct(pts, pred);
    lemma_filter_subset(pts, pred);
    (onk[0], onk[1])
}

/// When every point lies on the x-axis, no two share a diagonal of any
/// non-zero slope: every group is a singleton.
proof fn lemma_flat_input_singletons<T>(pts: Seq<Point<T>>, s: Rational, gs: Seq<Diagonal<T>>)
    requires
        s.wf(),
        s.num != 0,
        grouping_ok(pts, s, gs),
        forall|i: int, j: int|
            0 <= i < j < pts.len() ==> ((#[trigger] pts[i]).x != (#[trigger] pts[j]).x || pts[i].y
                != pts[j].y),
        forall|i: int| 0 <= i < pts.len() ==> (#[trigger] pts[i]).y == 0,
    ensures
        forall|g: int| 0 <= g < gs.len() ==> (#[trigger] gs[g]).points@.len() <= 1,
{
    assert forall|g: int| 0 <= g < gs.len() implies (#[trigger] gs[g]).points@.len() <= 1 by {
        if gs[g].points@.len() >= 2 {
            let key = gs[g].key;
            let (e0, e1) = lemma_group_two_distinct(pts, s, key);
            lemma_frac_eq_trans(
                xint_num(e0, s),
                s.num as int,
                key.num as int,
                key.den as int,
                xint_num(e1, s),
                s.num as int,
            );
            lemma_mul_cancel(xint_num(e0, s), xint_num(e1, s), s.num as int);
            let t0 = choose|t: int| 0 <= t < pts.len() && pts[t] == e0;
            let t1 = choose|t: int| 0 <= t < pts.len() && pts[t] == e1;
            assert(e0.y == 0 && e1.y == 0);
            assert(e0.x as int * s.num as int == e1.x as int * s.num as int) by (nonlinear_arith)
                requires
                    s.num as int * e0.x as int - s.den as int * e0.y as int == s.num as int
                        * e1.x as int - s.den as int * e1.y as int,
                    e0.y == 0,
                    e1.y == 0,
            ;
            lemma_mul_cancel(e0.x as int, e1.x as int, s.num as int);
            assert(t0 != t1);
            assert(false);
        }
    }
}

/// Some group of `groups` is keyed by the rational value `k`.
pub open spec fn has_key_val<T>(groups: Seq<Diagonal<T>>, k: Rational) -> bool {
    exists|h: int| 0 <= h < groups.len() && k.eq_val((#[trigger] groups[h]).key)
}

/// The two groupings select the same set of x-intercepts, as rational
/// values.
pub open spec fn key_sets_eq<T>(gs1: Seq<Diagonal<T>>, gs2: Seq<Diagonal<T>>) -> bool {
    &&& forall|g: int| 0 <= g < gs1.len() ==> has_key_val(gs2, (#[trigger] gs1[g]).key)
    &&& forall|h: int| 0 <= h < gs2.len() ==> has_key_val(gs1, (#[trigger] gs2[h]).key)
}

/// Slopes 1 and 2 select the same key set over one array only when the
/// array is degenerate: every group of either grouping is then a
/// singleton.
///
/// Every non-empty row of an array has a cell in column 0, so a point
/// `(0, m)` of maximal y exists; its key under slope 1 is `-m`, and a key
/// of value `-m` under slope 2 would demand a point with `y = 2·x + 2·m`,
/// which exceeds the maximum unless `m = 0` — and an array confined to
/// the x-axis shares no diagonal of non-zero slope between two points.
#[verifier::rlimit(100)]
pub proof fn lemma_equal_key_sets_only_degenerate<T>(
    arr: Seq<Seq<T>>,
    total_rows: int,
    gs1: Seq<Diagonal<T>>,
    gs2: Seq<Diagonal<T>>,
)
    requires
        total_rows == arr.len(),
        total_rows <= usize::MAX,
        forall|t: int| 0 <= t < arr.len() ==> (#[trigger] arr[t]).len() <= usize::MAX,
        grouping_ok(array_points(arr, total_rows), (Rational { num: 1, den: 1 }), gs1),
        grouping_ok(array_points(arr, total_rows), (Rational { num: 2, den: 1 }), gs2),
        key_sets_eq(gs1, gs2),
    ensures
        forall|g: int| 0 <= g < gs1.len() ==> (#[trigger] gs1[g]).points@.len() <= 1,
        forall|h: int| 0 <= h < gs2.len() ==> (#[trigger] gs2[h]).points@.len() <= 1,
{
    let pts = array_points(arr, total_rows);
    let s1 = Rational { num: 1, den: 1 };
    let s2 = Rational { num: 2, den: 1 };
    if pts.len() == 0 {
        assert(pts =~= Seq::<Point<T>>::empty());
        lemma_grouping_of_empty(s1, gs1);
        lemma_grouping_of_empty(s2, gs2);
    } else {
        let mi = lemma_exists_max_y(pts);
        let m = pts[mi].y as int;
        lemma_points_coords_distinct(arr, total_rows);
        if m == 0 {
            lemma_flat_input_singletons(pts, s1, gs1);
            lemma_flat_input_singletons(pts, s2, gs2);
        } else {
            // the column-0 cell of the topmost non-empty row
            let rc = lemma_point_from_cell(arr, total_rows, mi);
            lemma_cell_to_point(arr, total_rows, rc.0, 0);
            let i0 = crate::point::total_cells(arr.take(rc.0));
            let p0 = pts[i0];
            assert(p0.x == 0 && p0.y as int == m);
            // its key under slope 1 has the rational value -m
            let g0 = choose|g: int| 0 <= g < gs1.len() && on_diagonal(p0, s1, (#[trigger] gs1[g]).key);
            let kg = gs1[g0].key;
            assert(kg.num as int == (-m) * kg.den as int);
            // a slope-2 key of the same value
            assert(has_key_val(gs2, kg));
            let h = choose|h: int| 0 <= h < gs2.len() && kg.eq_val((#[trigger] gs2[h]).key);
            let kh = gs2[h].key;
            assert(kh.num as int * kg.den as int == ((-m) * kh.den as int) * kg.den as int)
                by (nonlinear_arith)
                requires
                    kg.num as int == (-m) * kg.den as int,
                    kg.num as int * kh.den as int == kh.num as int * kg.den as int,
            ;
            lemma_mul_cancel(kh.num as int, (-m) * kh.den as int, kg.den as int);
            // some point lies on that slope-2 diagonal, impossibly high
            let e = gs2[h].points@[0];
            assert(gs2[h].points@.contains(e));
            lemma_group_member(pts, s2, kh, e);
            assert((2 * e.x as int - e.y as int) * kh.den as int == ((-2) * m) * kh.den as int)
                by (nonlinear_arith)
                requires
                    kh.num as int * 2 == (2 * e.x as int - e.y as int) * kh.den as int,
                    kh.num as int == (-m) * kh.den as int,
            ;
            lemma_mul_cancel(2 * e.x as int - e.y as int, (-2) * m, kh.den as int);
            let te = choose|t: int| 0 <= t < pts.len() && pts[t] == e;
            assert(pts[te].y <= pts[mi].y);
            assert(false);
        }
    }
}

} // verus!
