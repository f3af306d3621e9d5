use diagonals::line::PointOnLineWithSlope;
use diagonals::point::Point;
use diagonals::rational::Rational;

#[test]
fn from_int_is_a_whole_number() {
    let r = Rational::from_int(-7);
    assert_eq!(r.num, -7);
    assert_eq!(r.den, 1);
}

#[test]
fn new_keeps_a_positive_denominator() {
    let r = Rational::new(1, 2).unwrap();
    assert_eq!((r.num, r.den), (1, 2));
    let s = Rational::new(3, -6).unwrap();
    assert_eq!((s.num, s.den), (-3, 6));
}

#[test]
fn new_rejects_a_zero_denominator() {
    assert!(Rational::new(5, 0).is_none());
}

#[test]
fn new_rejects_unrepresentable_normalisations() {
    assert!(Rational::new(1, i64::MIN).is_none());
    assert!(Rational::new(i64::MIN, -1).is_none());
}

#[test]
fn equality_is_of_values_not_of_fields() {
    let a = Rational::new(1, 2).unwrap();
    let b = Rational::new(2, 4).unwrap();
    let c = Rational::new(1, 3).unwrap();
    assert!(a.eq_rat(&b));
    assert!(!a.eq_rat(&c));
}

#[test]
fn order_is_of_values() {
    let third = Rational::new(1, 3).unwrap();
    let half = Rational::new(1, 2).unwrap();
    assert!(third.lt(&half));
    assert!(!half.lt(&third));
    assert!(!half.lt(&half));
    let neg = Rational::from_int(-2);
    assert!(neg.lt(&third));
}

#[test]
fn x_intercept_of_slope_minus_one() {
    // the line y = -x + 2 through (0, 2) crosses y = 0 at x = 2
    let p = Point { x: 0usize, y: 2usize, value: 1i64 };
    let on_line = PointOnLineWithSlope::with_slope_from_point(Rational::from_int(-1), p);
    let k = on_line.x_intercept().unwrap();
    assert_eq!((k.num, k.den), (2, 1));
    let b = on_line.y_intercept().unwrap();
    assert_eq!((b.num, b.den), (2, 1));
}

#[test]
fn x_intercept_of_fractional_slope() {
    // the line y = x/2 + b through (1, 2) has b = 3/2 and x-intercept -3
    let p = Point { x: 1usize, y: 2usize, value: 0i64 };
    let half = Rational::new(1, 2).unwrap();
    let on_line = PointOnLineWithSlope::with_slope_from_point(half, p);
    let k = on_line.x_intercept().unwrap();
    assert!(k.eq_rat(&Rational::from_int(-3)));
    let b = on_line.y_intercept().unwrap();
    assert!(b.eq_rat(&Rational::new(3, 2).unwrap()));
}

#[test]
fn x_intercept_overflow_is_an_error() {
    let p = Point { x: usize::MAX, y: 0usize, value: 0i64 };
    let on_line = PointOnLineWithSlope::with_slope_from_point(Rational::from_int(1), p);
    assert!(on_line.x_intercept().is_none());
    assert!(on_line.y_intercept().is_none());
}
