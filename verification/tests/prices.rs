use batch_auction::price::{Price, Standing, MAX_QUOTE_SCALE};

#[test]
fn prices_are_equal_by_number() {
    assert_eq!(Price::new(150, 2), Price::new(15, 1));
    assert_eq!(Price::new(0, 0), Price::new(0, 9));
    assert_eq!(Price::new(-7000, 3), Price::new(-7, 0));
    assert_ne!(Price::new(150, 2), Price::new(151, 2));
    assert_ne!(Price::new(15, 1), Price::new(15, 2));
}

#[test]
fn prices_are_ordered_by_number() {
    let low = Price::new(999, 3);
    let high = Price::new(1, 0);
    assert!(low.is_below(&high));
    assert!(high.is_above(&low));
    assert!(!high.is_below(&low));
    assert!(!low.is_above(&high));
    assert!(!low.is_level(&high));
    assert!(high.is_level(&Price::new(100, 2)));
    assert!(!high.is_below(&Price::new(100, 2)));
    assert!(!high.is_above(&Price::new(100, 2)));
    assert!(Price::new(-1, 1).is_below(&Price::new(0, 0)));
    assert!(Price::new(-11, 1).is_below(&Price::new(-1, 0)));
    assert!(matches!(low.standing(&high), Standing::Below));
    assert!(matches!(high.standing(&low), Standing::Above));
    assert!(matches!(high.standing(&Price::new(10, 1)), Standing::Level));
}

#[test]
fn prices_of_any_size_are_ordered() {
    let huge = Price::new(i128::MAX, 0);
    let tiny = Price::new(1, 255);
    assert!(tiny.is_below(&huge));
    assert!(Price::new(i128::MIN, 0).is_below(&tiny));
    assert!(Price::new(0, 255).is_level(&Price::new(0, 0)));
}

#[test]
fn midpoint_is_exact() {
    let m = Price::midpoint(&Price::new(1, 0), &Price::new(4, 0));
    assert_eq!((m.unscaled, m.scale), (25, 1));
    let m = Price::midpoint(&Price::new(11145, 2), &Price::new(11145, 2));
    assert_eq!((m.unscaled, m.scale), (11145, 2));
    let m = Price::midpoint(&Price::new(11176, 2), &Price::new(111, 0));
    assert_eq!((m.unscaled, m.scale), (11138, 2));
    let m = Price::midpoint(&Price::new(1, 2), &Price::new(0, 0));
    assert_eq!((m.unscaled, m.scale), (5, 3));
    let m = Price::midpoint(&Price::new(-3, 0), &Price::new(0, 5));
    assert_eq!((m.unscaled, m.scale), (-15, 1));
    let m = Price::midpoint(&Price::new(0, 3), &Price::new(0, 17));
    assert_eq!((m.unscaled, m.scale), (0, 0));
    let m = Price::midpoint(&Price::new(7, 0), &Price::new(5, 0));
    assert_eq!((m.unscaled, m.scale), (6, 0));
}

#[test]
fn midpoint_of_the_largest_quotes_fits() {
    let a = Price::new(i64::MAX as i128, MAX_QUOTE_SCALE);
    let b = Price::new(i64::MAX as i128, 0);
    assert!(a.fits_book() && b.fits_book());
    let m = Price::midpoint(&a, &b);
    let ten: i128 = 10;
    // 2 m = a + b, taken at the scale of m
    let at_scale = |p: &Price| p.unscaled * ten.pow((m.scale - p.scale) as u32);
    assert!(m.scale >= MAX_QUOTE_SCALE);
    assert_eq!(2 * m.unscaled, at_scale(&a) + at_scale(&b));
    assert!(a.is_below(&m) && m.is_below(&b));

    let a = Price::new(i64::MIN as i128, MAX_QUOTE_SCALE);
    let b = Price::new(i64::MIN as i128 + 1, 0);
    let m = Price::midpoint(&a, &b);
    let at_scale = |p: &Price| p.unscaled * ten.pow((m.scale - p.scale) as u32);
    assert_eq!(2 * m.unscaled, at_scale(&a) + at_scale(&b));
}

#[test]
fn reduced_drops_the_zeros_at_the_end() {
    let r = Price::new(12000, 3).reduced();
    assert_eq!((r.unscaled, r.scale), (12, 0));
    let r = Price::new(12000, 2).reduced();
    assert_eq!((r.unscaled, r.scale), (120, 0));
    let r = Price::new(0, 5).reduced();
    assert_eq!((r.unscaled, r.scale), (0, 0));
    let r = Price::new(-2500, 2).reduced();
    assert_eq!((r.unscaled, r.scale), (-25, 0));
    let r = Price::new(-2050, 3).reduced();
    assert_eq!((r.unscaled, r.scale), (-205, 2));
    let r = Price::new(105, 2).reduced();
    assert_eq!((r.unscaled, r.scale), (105, 2));
    assert_eq!(Price::new(12000, 3).reduced(), Price::new(12000, 3));
}

#[test]
fn the_book_accepts_quotes_only() {
    assert!(Price::new(11145, 2).fits_book());
    assert!(Price::new(i64::MAX as i128, 17).fits_book());
    assert!(Price::new(i64::MIN as i128, 0).fits_book());
    assert!(!Price::new(i64::MAX as i128 + 1, 0).fits_book());
    assert!(!Price::new(i64::MIN as i128 - 1, 0).fits_book());
    assert!(!Price::new(1, 18).fits_book());
}

#[test]
fn prices_compare_with_the_usual_signs() {
    assert!(Price::new(999, 3) < Price::new(1, 0));
    assert!(Price::new(1, 0) > Price::new(999, 3));
    assert!(Price::new(10, 1) <= Price::new(1, 0));
    assert!(Price::new(10, 1) >= Price::new(1, 0));
    assert!(!(Price::new(10, 1) < Price::new(1, 0)));
    assert!(Price::new(-5, 0) < Price::new(-49, 1));
    assert_eq!(Price::new(3, 0).partial_cmp(&Price::new(30, 1)), Some(std::cmp::Ordering::Equal));
    assert_eq!(Price::new(3, 0).partial_cmp(&Price::new(31, 1)), Some(std::cmp::Ordering::Less));
    assert_eq!(Price::new(3, 0).partial_cmp(&Price::new(29, 1)), Some(std::cmp::Ordering::Greater));
}
