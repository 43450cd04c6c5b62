use std::cmp::Ordering;
use valuable_value::order::Order;
use valuable_value::value::Value;
use valuable_value::value::Value::{Array, Bool, Float, Int, Mapping, Nil};

fn f(x: f64) -> Value {
    Float(x.to_bits())
}

#[test]
fn eq() {
    assert!(f(-0.0f64) != f(0.0f64));
    let negative_nan = f64::from_bits(u64::MAX);
    let positive_nan = negative_nan.copysign(1.0);
    assert_eq!(f(positive_nan), f(negative_nan));
}

#[test]
fn cmp() {
    assert!(Nil < Bool(false));

    assert!(Bool(false) < Bool(true));
    assert!(Bool(true) < f(f64::NEG_INFINITY));

    assert!(f(f64::NAN) < f(f64::NEG_INFINITY));
    assert!(f(f64::NEG_INFINITY) < f(-1.0));
    assert!(f(-1.0) < f(-0.0));
    assert!(f(-0.0) < f(0.0));
    assert!(f(0.0) < f(1.0));
    assert!(f(1.0) < f(f64::INFINITY));

    assert!(f(f64::NAN) < Int(i64::MIN));

    assert!(Int(i64::MAX) < Array(Vec::new()));

    assert!(Array(Vec::new()) < Mapping(Vec::new()));
}

#[test]
fn nan_equals_every_nan_and_nothing_else() {
    let nans = [u64::MAX, 0x7FF8_0000_0000_0000, 0x7FF0_0000_0000_0001, 0xFFF0_0000_0000_0001];
    for a in nans {
        for b in nans {
            assert_eq!(Float(a), Float(b));
            assert_eq!(Float(a).total_order(&Float(b)), Order::Equal);
        }
        assert_ne!(Float(a), f(f64::INFINITY));
        assert_ne!(Float(a), f(f64::NEG_INFINITY));
        assert_ne!(Float(a), f(0.0));
    }
}

#[test]
fn total_order_of_arrays_is_lexicographic() {
    let a = Array(vec![Int(1), Int(2)]);
    let b = Array(vec![Int(1), Int(3)]);
    let c = Array(vec![Int(1)]);
    assert_eq!(a.total_order(&b), Order::Less);
    assert_eq!(b.total_order(&a), Order::Greater);
    assert_eq!(c.total_order(&a), Order::Less);
    assert_eq!(a.total_order(&a), Order::Equal);
    assert_eq!(a.partial_cmp(&b), Some(Ordering::Less));
}

#[test]
fn total_order_of_maps() {
    let one = Mapping(vec![(Int(1), Nil)]);
    let two = Mapping(vec![(Int(2), Nil)]);
    let both = Mapping(vec![(Int(1), Nil), (Int(2), Nil)]);
    // The map with the greater least key is the lesser map.
    assert_eq!(two.total_order(&one), Order::Less);
    assert_eq!(two.total_order(&both), Order::Less);
    assert_eq!(one.total_order(&both), Order::Less);
    let low = Mapping(vec![(Int(1), Int(0))]);
    let high = Mapping(vec![(Int(1), Int(5))]);
    assert_eq!(low.total_order(&high), Order::Less);
    assert_eq!(Mapping(vec![]).total_order(&one), Order::Less);
}

#[test]
fn validity_is_sorted_keys() {
    assert!(Mapping(vec![(Int(1), Nil), (Int(2), Nil)]).is_wf());
    assert!(!Mapping(vec![(Int(2), Nil), (Int(1), Nil)]).is_wf());
    assert!(!Mapping(vec![(Int(1), Nil), (Int(1), Nil)]).is_wf());
    assert!(!Array(vec![Mapping(vec![(Int(2), Nil), (Int(1), Nil)])]).is_wf());
    assert!(Array(vec![Float(7), Nil]).is_wf());
}

#[test]
fn clone_keeps_the_value() {
    let v = Array(vec![Mapping(vec![(Int(1), f(1.5))]), Bool(true), Nil]);
    assert_eq!(v.clone(), v);
}

#[test]
fn meaningful_order_on_scalars() {
    assert_eq!(Nil.meaningful_partial_cmp(&Nil), Some(Ordering::Equal));
    assert_eq!(Bool(false).meaningful_partial_cmp(&Bool(true)), Some(Ordering::Less));
    assert_eq!(Int(3).meaningful_partial_cmp(&Int(2)), Some(Ordering::Greater));
    assert_eq!(Int(3).meaningful_partial_cmp(&Bool(true)), None);
    assert_eq!(f(1.0).meaningful_partial_cmp(&f(2.0)), Some(Ordering::Less));
    assert_eq!(f(f64::NAN).meaningful_partial_cmp(&f(2.0)), None);
    assert_eq!(f(f64::NAN).meaningful_partial_cmp(&Float(u64::MAX)), Some(Ordering::Equal));
    assert_eq!(f(-0.0).meaningful_partial_cmp(&f(0.0)), None);
    assert_eq!(f(-0.0).meaningful_partial_cmp(&f(-0.0)), Some(Ordering::Equal));
    assert_eq!(f(-1.0).meaningful_partial_cmp(&f(0.0)), Some(Ordering::Less));
    assert_eq!(f(-0.0).meaningful_partial_cmp(&f(1.0)), Some(Ordering::Less));
}

#[test]
fn meaningful_order_on_arrays() {
    let a = Array(vec![Int(1)]);
    let b = Array(vec![Int(1), Int(0)]);
    let c = Array(vec![Int(2)]);
    let d = Array(vec![Int(0), Int(9)]);
    assert_eq!(a.meaningful_partial_cmp(&b), Some(Ordering::Less));
    assert_eq!(b.meaningful_partial_cmp(&a), Some(Ordering::Greater));
    assert_eq!(a.meaningful_partial_cmp(&c), Some(Ordering::Less));
    assert_eq!(c.meaningful_partial_cmp(&d), None);
    assert!(a.meaningful_lt(&b));
    assert!(a.meaningful_le(&a));
    assert!(b.meaningful_gt(&a));
    assert!(b.meaningful_ge(&b));
    assert!(!c.meaningful_le(&d));
    assert!(!d.meaningful_le(&c));
}

#[test]
fn meaningful_order_on_maps() {
    let one = Mapping(vec![(Int(1), Int(5))]);
    let two = Mapping(vec![(Int(1), Int(7)), (Int(2), Nil)]);
    let other = Mapping(vec![(Int(3), Nil)]);
    assert_eq!(one.meaningful_partial_cmp(&two), Some(Ordering::Less));
    assert_eq!(two.meaningful_partial_cmp(&one), Some(Ordering::Greater));
    assert_eq!(one.meaningful_partial_cmp(&other), None);
    assert_eq!(Mapping(vec![]).meaningful_partial_cmp(&other), Some(Ordering::Less));
    // A meaningful "less" is a "less" of the total order.
    assert!(one < two);
}

#[test]
fn bounds_of_scalars() {
    assert_eq!(Bool(true).greatest_lower_bound(&Bool(false)), Some(Bool(false)));
    assert_eq!(Bool(true).least_upper_bound(&Bool(false)), Some(Bool(true)));
    assert_eq!(Int(3).greatest_lower_bound(&Int(-4)), Some(Int(-4)));
    assert_eq!(Int(3).least_upper_bound(&Int(-4)), Some(Int(3)));
    assert_eq!(f(1.0).greatest_lower_bound(&f(2.0)), Some(f(1.0)));
    assert_eq!(f(1.0).least_upper_bound(&f(2.0)), Some(f(2.0)));
    assert_eq!(f(f64::NAN).greatest_lower_bound(&f(2.0)), None);
    assert_eq!(f(0.0).least_upper_bound(&f(-0.0)), None);
    assert_eq!(Nil.greatest_lower_bound(&Int(0)), None);
    assert_eq!(Nil.least_upper_bound(&Nil), Some(Nil));
}

#[test]
fn bounds_of_arrays() {
    let a = Array(vec![Int(1), Int(9)]);
    let b = Array(vec![Int(2), Int(3), Int(4)]);
    assert_eq!(a.greatest_lower_bound(&b), Some(Array(vec![Int(1), Int(3)])));
    assert_eq!(a.least_upper_bound(&b), Some(Array(vec![Int(2), Int(9), Int(4)])));
    assert_eq!(b.least_upper_bound(&a), Some(Array(vec![Int(2), Int(9), Int(4)])));
    assert_eq!(a.greatest_lower_bound(&Array(vec![Nil])), None);
}

#[test]
fn bounds_of_maps() {
    let a = Mapping(vec![(Int(1), Int(5)), (Int(3), Int(0))]);
    let b = Mapping(vec![(Int(0), Nil), (Int(1), Int(2)), (Int(4), Nil)]);
    assert_eq!(a.greatest_lower_bound(&b), Some(Mapping(vec![(Int(1), Int(2))])));
    assert_eq!(
        a.least_upper_bound(&b),
        Some(Mapping(vec![(Int(0), Nil), (Int(1), Int(5)), (Int(3), Int(0)), (Int(4), Nil)]))
    );
    assert!(a.least_upper_bound(&b).unwrap().is_wf());
    let c = Mapping(vec![(Int(1), Nil)]);
    assert_eq!(a.greatest_lower_bound(&c), None);
    assert_eq!(a.least_upper_bound(&c), None);
}
