//! Grouping points by the x-intercept of the diagonal through them.

use vstd::prelude::*;
use crate::line::{on_diagonal, xint_fits, PointOnLineWithSlope};
use crate::point::Point;
use crate::rational::{lemma_frac_eq_trans, lemma_frac_lt_trans, Rational};

verus! {

/// One diagonal line: the points sharing the x-intercept `key`, in the
/// order in which they are printed.
#[derive(Debug)]
pub struct Diagonal<T> {
    pub key: Rational,
    pub points: Vec<Point<T>>,
}

/// The points of `pts` lying on the diagonal identified by `key`, in the
/// order fixed by the sign of the slope: enumeration order for a negative
/// slope, reversed enumeration order otherwise.
pub open spec fn diag_points<T>(pts: Seq<Point<T>>, s: Rational, key: Rational) -> Seq<Point<T>> {
    let onk = pts.filter(|q: Point<T>| on_diagonal(q, s, key));
    if s.num < 0 {
        onk
    } else {
        onk.reverse()
    }
}

/// `groups` is the grouping of `pts` by x-intercept under slope `s`:
/// every group holds exactly the points of its diagonal in the
/// slope-dependent order, groups are keyed by strictly ascending
/// intercepts, no group is empty, and every point has a group.
pub open spec fn grouping_ok<T>(pts: Seq<Point<T>>, s: Rational, groups: Seq<Diagonal<T>>) -> bool {
    &&& forall|g: int| 0 <= g < groups.len() ==> (#[trigger] groups[g]).key.wf()
    &&& forall|g: int|
        0 <= g < groups.len() ==> (#[trigger] groups[g]).points@ == diag_points(
            pts,
            s,
            groups[g].key,
        )
    &&& forall|g: int| 0 <= g < groups.len() ==> (#[trigger] groups[g]).points@.len() > 0
    &&& forall|g1: int, g2: int|
        0 <= g1 < g2 < groups.len() ==> (#[trigger] groups[g1]).key.lt_val(
            (#[trigger] groups[g2]).key,
        )
    &&& forall|i: int|
        0 <= i < pts.len() ==> exists|g: int|
            0 <= g < groups.len() && on_diagonal(#[trigger] pts[i], s, (#[trigger] groups[g]).key)
}

/// Filtering a sequence extended by one element keeps the old result and
/// appends the element exactly when it satisfies the predicate.
pub proof fn lemma_filter_push<A>(s: Seq<A>, pred: spec_fn(A) -> bool, e: A)
    ensures
        s.push(e).filter(pred) == if pred(e) {
            s.filter(pred).push(e)
        } else {
            s.filter(pred)
        },
{
    reveal(Seq::filter);
    assert(s.push(e).drop_last() =~= s);
    assert(s.push(e).last() == e);
}

/// Every element of a filtered sequence occurs in the original.
pub proof fn lemma_filter_subset<A>(s: Seq<A>, pred: spec_fn(A) -> bool)
    ensures
        forall|i: int|
            0 <= i < s.filter(pred).len() ==> s.contains(#[trigger] s.filter(pred)[i]),
    decreases s.len(),
{
    reveal(Seq::filter);
    if s.len() > 0 {
        let front = s.drop_last();
        lemma_filter_subset(front, pred);
        assert forall|i: int| 0 <= i < s.filter(pred).len() implies s.contains(
            #[trigger] s.filter(pred)[i],
        ) by {
            if i < front.filter(pred).len() {
                assert(front.filter(pred)[i] == s.filter(pred)[i]);
                let t = choose|t: int| 0 <= t < front.len() && front[t] == front.filter(pred)[i];
                assert(s[t] == s.filter(pred)[i]);
            } else {
                assert(s.filter(pred)[i] == s.last());
            }
        }
    }
}

/// A sequence with no element satisfying the predicate filters to nothing.
pub proof fn lemma_filter_none<A>(s: Seq<A>, pred: spec_fn(A) -> bool)
    requires
        forall|i: int| 0 <= i < s.len() ==> !pred(#[trigger] s[i]),
    ensures
        s.filter(pred) == Seq::<A>::empty(),
{
    broadcast use vstd::seq_lib::group_filter_ensures;

    lemma_filter_subset(s, pred);
    if s.filter(pred).len() > 0 {
        let e = s.filter(pred)[0];
        assert(pred(e));
        assert(s.contains(e));
    }
    assert(s.filter(pred) =~= Seq::<A>::empty());
}

/// Filtering keeps a sequence of pairwise distinct elements pairwise
/// distinct.
pub proof fn lemma_filter_distinct<A>(s: Seq<A>, pred: spec_fn(A) -> bool)
    requires
        forall|i: int, j: int| 0 <= i < j < s.len() ==> s[i] != s[j],
    ensures
        forall|i: int, j: int|
            0 <= i < j < s.filter(pred).len() ==> s.filter(pred)[i] != s.filter(pred)[j],
    decreases s.len(),
{
    reveal(Seq::filter);
    if s.len() > 0 {
        let front = s.drop_last();
        lemma_filter_distinct(front, pred);
        lemma_filter_subset(front, pred);
        assert forall|i: int, j: int|
            0 <= i < j < s.filter(pred).len() implies s.filter(pred)[i] != s.filter(pred)[j] by {
            if j < front.filter(pred).len() {
                assert(front.filter(pred)[i] == s.filter(pred)[i]);
                assert(front.filter(pred)[j] == s.filter(pred)[j]);
            } else {
                assert(s.filter(pred)[j] == s.last());
                assert(front.filter(pred)[i] == s.filter(pred)[i]);
                assert(front.contains(front.filter(pred)[i]));
                let t = choose|t: int|
                    0 <= t < front.len() && front[t] == front.filter(pred)[i];
                assert(s[t] == s.filter(pred)[i]);
                assert(s[t] != s.last());
            }
        }
    }
}

/// Two keys naming the diagonal of the same point are the same rational
/// value.
pub proof fn lemma_same_diagonal_keys_eq<T>(p: Point<T>, s: Rational, k1: Rational, k2: Rational)
    requires
        s.num != 0,
        on_diagonal(p, s, k1),
        on_diagonal(p, s, k2),
    ensures
        k1.eq_val(k2),
{
    lemma_frac_eq_trans(
        k1.num as int,
        k1.den as int,
        crate::line::xint_num(p, s),
        s.num as int,
        k2.num as int,
        k2.den as int,
    );
}

/// Extending the group whose key names the new point's diagonal keeps the
/// grouping correct: the point is appended for a negative slope and
/// prepended otherwise.
proof fn lemma_grouping_extend<T>(
    pts: Seq<Point<T>>,
    s: Rational,
    old_gs: Seq<Diagonal<T>>,
    new_gs: Seq<Diagonal<T>>,
    p: Point<T>,
    k: Rational,
    j: int,
)
    requires
        s.wf(),
        s.num != 0,
        k.wf(),
        grouping_ok(pts, s, old_gs),
        on_diagonal(p, s, k),
        0 <= j < old_gs.len(),
        old_gs[j].key.eq_val(k),
        new_gs == old_gs.update(
            j,
            Diagonal {
                key: old_gs[j].key,
                points: new_gs[j].points,
            },
        ),
        new_gs[j].points@ == if s.num < 0 {
            old_gs[j].points@.push(p)
        } else {
            old_gs[j].points@.insert(0, p)
        },
    ensures
        grouping_ok(pts.push(p), s, new_gs),
{
    let kj = old_gs[j].key;
    // the new point lies on group j's diagonal and on no other group's
    assert(on_diagonal(p, s, kj)) by {
        lemma_frac_eq_trans(
            kj.num as int,
            kj.den as int,
            k.num as int,
            k.den as int,
            crate::line::xint_num(p, s),
            s.num as int,
        );
    }
    assert forall|g: int| 0 <= g < old_gs.len() && g != j implies !on_diagonal(
        p,
        s,
        (#[trigger] old_gs[g]).key,
    ) by {
        if on_diagonal(p, s, old_gs[g].key) {
            lemma_same_diagonal_keys_eq(p, s, old_gs[g].key, kj);
        }
    }
    // each group still holds exactly its diagonal's points
    assert forall|g: int| 0 <= g < new_gs.len() implies (#[trigger] new_gs[g]).points@
        == diag_points(pts.push(p), s, new_gs[g].key) by {
        let pred = |q: Point<T>| on_diagonal(q, s, new_gs[g].key);
        lemma_filter_push(pts, pred, p);
        if g == j {
            if s.num < 0 {
            } else {
                let onk = pts.filter(pred);
                assert(onk.push(p).reverse() =~= onk.reverse().insert(0, p));
            }
        }
    }
    // every point still has a group, the keys being unchanged
    assert forall|i: int| 0 <= i < pts.push(p).len() implies exists|g: int|
        0 <= g < new_gs.len() && on_diagonal(#[trigger] pts.push(p)[i], s, (#[trigger] new_gs[g]).key) by {
        if i < pts.len() {
            let g0 = choose|g0: int|
                0 <= g0 < old_gs.len() && on_diagonal(pts[i], s, old_gs[g0].key);
            assert(new_gs[g0].key == old_gs[g0].key);
            assert(on_diagonal(pts.push(p)[i], s, new_gs[g0].key));
        } else {
            assert(pts.push(p)[i] == p);
            assert(on_diagonal(pts.push(p)[i], s, new_gs[j].key));
        }
    }
}

/// Inserting a fresh singleton group at the position its key orders it to
/// keeps the grouping correct.
proof fn lemma_grouping_insert<T>(
    pts: Seq<Point<T>>,
    s: Rational,
    old_gs: Seq<Diagonal<T>>,
    new_gs: Seq<Diagonal<T>>,
    p: Point<T>,
    k: Rational,
    j: int,
)
    requires
        s.wf(),
        s.num != 0,
        k.wf(),
        grouping_ok(pts, s, old_gs),
        on_diagonal(p, s, k),
        0 <= j <= old_gs.len(),
        forall|t: int| 0 <= t < j ==> (#[trigger] old_gs[t]).key.lt_val(k),
        j < old_gs.len() ==> !old_gs[j].key.lt_val(k) && !old_gs[j].key.eq_val(k),
        new_gs == old_gs.insert(
            j,
            Diagonal { key: k, points: new_gs[j].points },
        ),
        new_gs[j].points@ == seq![p],
    ensures
        grouping_ok(pts.push(p), s, new_gs),
{
    // k is strictly between its neighbours, hence equal to no old key
    assert forall|t: int| j <= t < old_gs.len() implies k.lt_val(
        (#[trigger] old_gs[t]).key,
    ) by {
        assert(k.lt_val(old_gs[j].key));
        if t > j {
            lemma_frac_lt_trans(
                k.num as int,
                k.den as int,
                old_gs[j].key.num as int,
                old_gs[j].key.den as int,
                old_gs[t].key.num as int,
                old_gs[t].key.den as int,
            );
        }
    }
    assert forall|t: int| 0 <= t < old_gs.len() implies !(#[trigger] old_gs[t]).key.eq_val(k) by {}
    // no old point, and no old group, lies on k's diagonal
    assert forall|i: int| 0 <= i < pts.len() implies !on_diagonal(#[trigger] pts[i], s, k) by {
        if on_diagonal(pts[i], s, k) {
            let g0 = choose|g0: int|
                0 <= g0 < old_gs.len() && on_diagonal(pts[i], s, old_gs[g0].key);
            lemma_same_diagonal_keys_eq(pts[i], s, old_gs[g0].key, k);
        }
    }
    assert forall|g: int| 0 <= g < old_gs.len() implies !on_diagonal(
        p,
        s,
        (#[trigger] old_gs[g]).key,
    ) by {
        if on_diagonal(p, s, old_gs[g].key) {
            lemma_same_diagonal_keys_eq(p, s, old_gs[g].key, k);
        }
    }
    // the new group holds exactly the one point of its diagonal so far
    let predk = |q: Point<T>| on_diagonal(q, s, k);
    lemma_filter_none(pts, predk);
    lemma_filter_push(pts, predk, p);
    assert(pts.push(p).filter(predk) =~= seq![p]);
    assert(seq![p].reverse() =~= seq![p]);
    assert(new_gs[j].points@ == diag_points(pts.push(p), s, k));
    // index bookkeeping for the shifted groups
    assert forall|g: int| 0 <= g < new_gs.len() && g != j implies #[trigger] new_gs[g]
        == old_gs[if g < j { g } else { g - 1 }] by {}
    assert forall|g: int| 0 <= g < new_gs.len() implies (#[trigger] new_gs[g]).points@
        == diag_points(pts.push(p), s, new_gs[g].key) by {
        if g != j {
            let old_g = if g < j { g } else { g - 1 };
            let pred = |q: Point<T>| on_diagonal(q, s, old_gs[old_g].key);
            lemma_filter_push(pts, pred, p);
        }
    }
    // strict ascent of the keys across the insertion point
    assert forall|g1: int, g2: int| 0 <= g1 < g2 < new_gs.len() implies (
    #[trigger] new_gs[g1]).key.lt_val((#[trigger] new_gs[g2]).key) by {}
    // every point still has a group
    assert forall|i: int| 0 <= i < pts.push(p).len() implies exists|g: int|
        0 <= g < new_gs.len() && on_diagonal(#[trigger] pts.push(p)[i], s, (#[trigger] new_gs[g]).key) by {
        if i < pts.len() {
            let g0 = choose|g0: int|
                0 <= g0 < old_gs.len() && on_diagonal(pts[i], s, old_gs[g0].key);
            let g1 = if g0 < j { g0 } else { g0 + 1 };
            assert(new_gs[g1] == old_gs[g0]);
            assert(on_diagonal(pts.push(p)[i], s, new_gs[g1].key));
        } else {
            assert(pts.push(p)[i] == p);
            assert(on_diagonal(pts.push(p)[i], s, new_gs[j].key));
        }
    }
}

/// A grouping of no points has no groups.
pub proof fn lemma_grouping_of_empty<T>(s: Rational, groups: Seq<Diagonal<T>>)
    requires
        grouping_ok(Seq::<Point<T>>::empty(), s, groups),
    ensures
        groups.len() == 0,
{
    reveal(Seq::filter);
    if groups.len() > 0 {
        assert(groups[0].points@ == diag_points(Seq::<Point<T>>::empty(), s, groups[0].key));
        assert(Seq::<Point<T>>::empty().filter(
            |q: Point<T>| on_diagonal(q, s, groups[0].key),
        ) =~= Seq::<Point<T>>::empty());
        assert(Seq::<Point<T>>::empty().reverse() =~= Seq::<Point<T>>::empty());
    }
}

/// Groups `points` by the x-intercept of the line of slope `slope`
/// through each of them.
///
/// The result lists one group per distinct intercept, keyed by strictly
/// ascending intercept; a group holds exactly the points of its diagonal,
/// in enumeration order for a negative slope and in reversed enumeration
/// order otherwise. Fails exactly when some point's intercept does not
/// fit the key type.
pub fn points_to_mapped_points<T: Copy>(slope: Rational, points: &Vec<Point<T>>) -> (r: Option<
    Vec<Diagonal<T>>,
>)
    requires
        slope.wf(),
        slope.num != 0,
    ensures
        r is Some <==> (forall|i: int|
            0 <= i < points@.len() ==> xint_fits(#[trigger] points@[i], slope)),
        match r {
            Some(groups) => {
                &&& grouping_ok(points@, slope, groups@)
                &&& (points@.len() == 0 ==> groups@.len() == 0)
            },
            None => exists|i: int| 0 <= i < points@.len() && !xint_fits(#[trigger] points@[i], slope),
        },
{
    let mut groups: Vec<Diagonal<T>> = Vec::new();
    proof {
        assert(points@.take(0) =~= Seq::<Point<T>>::empty());
    }
    let mut i: usize = 0;
    while i < points.len()
        invariant
            slope.wf(),
            slope.num != 0,
            i <= points@.len(),
            grouping_ok(points@.take(i as int), slope, groups@),
            forall|t: int| 0 <= t < i ==> xint_fits(#[trigger] points@[t], slope),
        decreases points@.len() - i,
    {
        let p = points[i];
        let on_line = PointOnLineWithSlope::with_slope_from_point(slope, p);
        let k = match on_line.x_intercept() {
            Some(k) => k,
            None => {
                return None;
            },
        };
        let mut j: usize = 0;
        while j < groups.len() && groups[j].key.lt(&k)
            invariant
                slope.wf(),
                slope.num != 0,
                k.wf(),
                grouping_ok(points@.take(i as int), slope, groups@),
                j <= groups@.len(),
                forall|t: int| 0 <= t < j ==> (#[trigger] groups@[t]).key.lt_val(k),
            decreases groups@.len() - j,
        {
            j = j + 1;
        }
        let ghost old_gs = groups@;
        let ghost pts = points@.take(i as int);
        proof {
            assert(points@.take(i + 1 as int) =~= pts.push(points@[i as int]));
        }
        let mut merge = false;
        if j < groups.len() {
            if groups[j].key.eq_rat(&k) {
                merge = true;
            }
        }
        if merge {
            let mut g = groups.remove(j);
            if slope.num < 0 {
                g.points.push(p);
            } else {
                g.points.insert(0, p);
            }
            let ghost g_new = g;
            groups.insert(j, g);
            proof {
                assert(groups@ =~= old_gs.update(j as int, g_new));
                lemma_grouping_extend(pts, slope, old_gs, groups@, p, k, j as int);
            }
        } else {
            let mut ps: Vec<Point<T>> = Vec::new();
            ps.push(p);
            let g = Diagonal { key: k, points: ps };
            let ghost g_new = g;
            groups.insert(j, g);
            proof {
                assert(groups@ == old_gs.insert(j as int, g_new));
                lemma_grouping_insert(pts, slope, old_gs, groups@, p, k, j as int);
            }
        }
        i = i + 1;
    }
    proof {
        assert(points@.take(points@.len() as int) =~= points@);
        if points@.len() == 0 {
            assert(points@ =~= Seq::<Point<T>>::empty());
            lemma_grouping_of_empty(slope, groups@);
        }
    }
    Some(groups)
}

} // verus!
