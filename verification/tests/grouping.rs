use diagonals::group::{points_to_mapped_points, Diagonal};
use diagonals::point::{array_to_points, Point};
use diagonals::rational::Rational;

fn sample_array() -> Vec<Vec<i64>> {
    vec![vec![1, 2, 3, 4], vec![5, 6, 7, 8], vec![9, 10, 11, 12]]
}

fn group_values(groups: &Vec<Diagonal<i64>>) -> Vec<Vec<i64>> {
    groups.iter().map(|g| g.points.iter().map(|p| p.value).collect()).collect()
}

#[test]
fn sample_array_slope_minus_one() {
    let points = array_to_points(&sample_array());
    let groups = points_to_mapped_points(Rational::from_int(-1), &points).unwrap();
    assert_eq!(groups.len(), 6);
    for (i, g) in groups.iter().enumerate() {
        // the diagonal of slope -1 through (x, y) crosses y = 0 at x + y
        assert_eq!((g.key.num, g.key.den), (i as i64, 1));
    }
    let expected: Vec<Vec<i64>> =
        vec![vec![9], vec![5, 10], vec![1, 6, 11], vec![2, 7, 12], vec![3, 8], vec![4]];
    assert_eq!(group_values(&groups), expected);
    // the group of the bottom-left corner holds that single point
    assert_eq!((groups[0].points[0].x, groups[0].points[0].y), (0, 0));
}

#[test]
fn sample_array_slope_one_reverses_group_order() {
    let points = array_to_points(&sample_array());
    let groups = points_to_mapped_points(Rational::from_int(1), &points).unwrap();
    assert_eq!(groups.len(), 6);
    for (i, g) in groups.iter().enumerate() {
        // the diagonal of slope 1 through (x, y) crosses y = 0 at x - y
        assert_eq!((g.key.num, g.key.den), (i as i64 - 2, 1));
    }
    // within a group the natural enumeration order is reversed, which
    // still reads left to right: ascending x
    let expected: Vec<Vec<i64>> =
        vec![vec![1], vec![5, 2], vec![9, 6, 3], vec![10, 7, 4], vec![11, 8], vec![12]];
    assert_eq!(group_values(&groups), expected);
}

#[test]
fn sample_array_slope_minus_two() {
    let points = array_to_points(&sample_array());
    let slope = Rational::from_int(-2);
    let groups = points_to_mapped_points(slope, &points).unwrap();
    // the diagonal of slope -2 through (x, y) crosses y = 0 at (2x + y) / 2
    assert_eq!(groups.len(), 9);
    for (i, g) in groups.iter().enumerate() {
        assert_eq!((g.key.num, g.key.den), (i as i64, 2));
    }
    // 2x + y == 2 for the cells of values 1 and 10, enumerated in that order
    assert_eq!(group_values(&groups)[2], vec![1, 10]);
}

#[test]
fn fractional_slope_groups_exactly() {
    let array: Vec<Vec<i64>> = vec![vec![1, 2, 3], vec![4, 5, 6]];
    let points = array_to_points(&array);
    let half = Rational::new(1, 2).unwrap();
    let groups = points_to_mapped_points(half, &points).unwrap();
    // x - 2y is -2, -1, 0 on the top row and 0, 1, 2 on the bottom row
    let expected: Vec<Vec<i64>> = vec![vec![1], vec![2], vec![4, 3], vec![5], vec![6]];
    assert_eq!(group_values(&groups), expected);
}

#[test]
fn keys_are_strictly_ascending() {
    let points = array_to_points(&sample_array());
    for slope in [Rational::from_int(-2), Rational::from_int(-1), Rational::from_int(1),
        Rational::from_int(2)] {
        let groups = points_to_mapped_points(slope, &points).unwrap();
        for w in groups.windows(2) {
            assert!(w[0].key.lt(&w[1].key));
            assert!(!w[0].key.eq_rat(&w[1].key));
        }
    }
}

#[test]
fn groups_partition_the_points() {
    let points = array_to_points(&sample_array());
    for slope in [Rational::from_int(-2), Rational::from_int(-1), Rational::from_int(1),
        Rational::from_int(2)] {
        let groups = points_to_mapped_points(slope, &points).unwrap();
        let mut seen: Vec<(usize, usize)> = Vec::new();
        for g in &groups {
            assert!(!g.points.is_empty());
            for p in &g.points {
                assert!(!seen.contains(&(p.x, p.y)));
                seen.push((p.x, p.y));
            }
        }
        assert_eq!(seen.len(), points.len());
        for p in &points {
            assert!(seen.contains(&(p.x, p.y)));
        }
    }
}

#[test]
fn empty_inputs_yield_zero_groups() {
    let empty: Vec<Vec<i64>> = vec![];
    let one_empty_row: Vec<Vec<i64>> = vec![vec![]];
    for slope in [Rational::from_int(-2), Rational::from_int(-1), Rational::from_int(1),
        Rational::from_int(2)] {
        let points = array_to_points(&empty);
        assert_eq!(points_to_mapped_points(slope, &points).unwrap().len(), 0);
        let points = array_to_points(&one_empty_row);
        assert_eq!(points_to_mapped_points(slope, &points).unwrap().len(), 0);
    }
}

#[test]
fn slope_sign_changes_the_key_set() {
    let points = array_to_points(&sample_array());
    let neg = points_to_mapped_points(Rational::from_int(-1), &points).unwrap();
    let pos = points_to_mapped_points(Rational::from_int(1), &points).unwrap();
    // slope 1 selects the diagonal of key -2, which slope -1 does not
    assert!(pos.iter().any(|g| g.key.eq_rat(&Rational::from_int(-2))));
    assert!(!neg.iter().any(|g| g.key.eq_rat(&Rational::from_int(-2))));
}

#[test]
fn slopes_one_and_two_give_different_key_sets() {
    let points = array_to_points(&sample_array());
    let one = points_to_mapped_points(Rational::from_int(1), &points).unwrap();
    let two = points_to_mapped_points(Rational::from_int(2), &points).unwrap();
    assert_eq!(one.len(), 6);
    assert_eq!(two.len(), 9);
    // slope 2 selects half-integer intercepts that slope 1 cannot
    let half_key = Rational::new(-1, 2).unwrap();
    assert!(two.iter().any(|g| g.key.eq_rat(&half_key)));
    assert!(!one.iter().any(|g| g.key.eq_rat(&half_key)));
}

#[test]
fn degenerate_single_row_shares_key_sets_with_singletons() {
    // one bottom row: every diagonal holds one point and the key sets of
    // slopes 1 and 2 coincide
    let array: Vec<Vec<i64>> = vec![vec![7, 8, 9]];
    let points = array_to_points(&array);
    let one = points_to_mapped_points(Rational::from_int(1), &points).unwrap();
    let two = points_to_mapped_points(Rational::from_int(2), &points).unwrap();
    assert_eq!(one.len(), 3);
    assert_eq!(two.len(), 3);
    for (g, h) in one.iter().zip(two.iter()) {
        assert_eq!(g.points.len(), 1);
        assert_eq!(h.points.len(), 1);
        assert!(g.key.eq_rat(&h.key));
    }
}

#[test]
fn intercept_overflow_is_an_error() {
    let points = vec![Point { x: usize::MAX, y: 0usize, value: 0i64 }];
    assert!(points_to_mapped_points(Rational::from_int(1), &points).is_none());
}

#[test]
fn shared_intercepts_mean_equal_y_intercepts() {
    // values 1, 6, 11 share the slope -1 diagonal: y - (-1)·x is 2 for each
    let points = array_to_points(&sample_array());
    let groups = points_to_mapped_points(Rational::from_int(-1), &points).unwrap();
    let g = &groups[2];
    for p in &g.points {
        assert_eq!(p.y as i64 + p.x as i64, 2);
    }
}
