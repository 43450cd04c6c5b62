use std::cmp::Ordering;
use valuable_value::compact::de::{read_value, DecodeError};
use valuable_value::compact::ser::to_vec;
use valuable_value::order::Order;
use valuable_value::parser_helper::Reason;
use valuable_value::value::Value;
use valuable_value::value::Value::{Array, Bool, Float, Int, Mapping, Nil};

/// Some valid values of every variant, with equal ones and comparable ones among them.
fn samples() -> Vec<Value> {
    let f = |x: f64| Float(x.to_bits());
    vec![
        Nil,
        Bool(false),
        Bool(true),
        Float(u64::MAX),
        Float(0x7FF8_0000_0000_0000),
        f(f64::NEG_INFINITY),
        f(-1.5),
        f(-0.0),
        f(0.0),
        f(2.0),
        f(f64::INFINITY),
        Int(i64::MIN),
        Int(-1),
        Int(0),
        Int(27),
        Int(28),
        Int(i64::MAX),
        Array(vec![]),
        Array(vec![Int(1)]),
        Array(vec![Int(1), Int(2)]),
        Array(vec![Int(2)]),
        Array(vec![Array(vec![Nil]), f(1.0)]),
        Mapping(vec![]),
        Mapping(vec![(Int(1), Nil)]),
        Mapping(vec![(Int(1), Int(5))]),
        Mapping(vec![(Int(1), Int(7)), (Int(2), Nil)]),
        Mapping(vec![(Int(2), Nil)]),
        Mapping(vec![(Array(vec![]), Mapping(vec![(Nil, Nil)])), (Mapping(vec![]), Bool(true))]),
    ]
}

#[test]
fn equality_is_an_equivalence() {
    let vs = samples();
    for a in &vs {
        assert!(a == a);
        for b in &vs {
            assert_eq!(a == b, b == a);
            assert_eq!(a == b, !(a != b));
            for c in &vs {
                if a == b && b == c {
                    assert!(a == c);
                }
            }
        }
    }
}

#[test]
fn total_order_is_a_total_order() {
    let vs = samples();
    for a in &vs {
        for b in &vs {
            assert!(a <= b || b <= a);
            if a == b {
                assert!(a <= b);
            }
            if a <= b && b <= a {
                assert_eq!(a, b);
            }
            match a.total_order(b) {
                Order::Less => assert!(a < b && a <= b && !(a > b) && !(a >= b) && a != b),
                Order::Equal => assert!(!(a < b) && a <= b && !(a > b) && a >= b && a == b),
                Order::Greater => assert!(!(a < b) && !(a <= b) && a > b && a >= b && a != b),
            }
            for c in &vs {
                if a <= b && b <= c {
                    assert!(a <= c);
                }
            }
        }
    }
}

#[test]
fn meaningful_order_is_a_partial_order_within_the_total_one() {
    let vs = samples();
    for a in &vs {
        assert!(a.meaningful_le(a));
        for b in &vs {
            if a.meaningful_le(b) && b.meaningful_le(a) {
                assert_eq!(a, b);
            }
            match a.meaningful_partial_cmp(b) {
                None => {
                    assert!(!a.meaningful_lt(b) && !a.meaningful_le(b));
                    assert!(!a.meaningful_gt(b) && !a.meaningful_ge(b));
                    assert!(a != b);
                }
                Some(Ordering::Less) => {
                    assert!(a.meaningful_lt(b) && a.meaningful_le(b));
                    assert!(!a.meaningful_gt(b) && !a.meaningful_ge(b));
                    assert!(a < b);
                }
                Some(Ordering::Equal) => {
                    assert!(!a.meaningful_lt(b) && a.meaningful_le(b));
                    assert!(!a.meaningful_gt(b) && a.meaningful_ge(b));
                    assert!(a == b);
                }
                Some(Ordering::Greater) => {
                    assert!(!a.meaningful_lt(b) && !a.meaningful_le(b));
                    assert!(a.meaningful_gt(b) && a.meaningful_ge(b));
                    assert!(a > b);
                }
            }
            for c in &vs {
                if a.meaningful_le(b) && b.meaningful_le(c) {
                    assert!(a.meaningful_le(c));
                }
            }
        }
    }
}

#[test]
fn bounds_are_bounds() {
    let vs = samples();
    for a in &vs {
        assert_eq!(a.greatest_lower_bound(a).as_ref(), Some(a));
        assert_eq!(a.least_upper_bound(a).as_ref(), Some(a));
        for b in &vs {
            let comparable = a.meaningful_le(b) || b.meaningful_le(a);
            if let Some(g) = a.greatest_lower_bound(b) {
                assert!(g.is_wf());
                assert!(g.meaningful_le(a) && g.meaningful_le(b));
                assert_eq!(g == *a || g == *b, comparable);
                assert_eq!(b.greatest_lower_bound(a), Some(g.clone()));
                assert_eq!(a.least_upper_bound(&g).as_ref(), Some(a));
            } else {
                assert!(!comparable);
            }
            if let Some(u) = a.least_upper_bound(b) {
                assert!(u.is_wf());
                assert!(a.meaningful_le(&u) && b.meaningful_le(&u));
                assert_eq!(u == *a || u == *b, comparable);
                assert_eq!(b.least_upper_bound(a), Some(u.clone()));
                assert_eq!(a.greatest_lower_bound(&u).as_ref(), Some(a));
            } else {
                assert!(!comparable);
            }
        }
    }
}

#[test]
fn canonic_round_trips() {
    for v in samples() {
        assert!(v.is_wf());
        let bytes = to_vec(&v).unwrap();
        let (back, end) = read_value(&bytes, 0, true).unwrap();
        assert_eq!(back, v);
        assert_eq!(end, bytes.len());
        assert_eq!(to_vec(&back), Ok(bytes.clone()));
        assert_eq!(read_value(&bytes, 0, false), Ok((v.clone(), bytes.len())));
    }
}

#[test]
fn canonicity_errors_point_into_the_encoding() {
    let inputs: Vec<Vec<u8>> = vec![
        vec![0x1F],
        vec![0x7C, 0x05],
        vec![0x7F, 0xFF, 0xFF, 0xFF, 0xFF, 0xFF, 0xFF, 0xFF, 0xFF],
        vec![0x40, 0x7F, 0xF0, 0, 0, 0, 0, 0, 1],
        vec![0x81, 0x41],
        vec![0xC1, 0x00],
        vec![0xBC, 0x00],
        vec![0xA2, 0x61, 0x7D, 0x00, 0x05],
        vec![0xE2, 0x62, 0x00, 0x61, 0x00],
        vec![0xE1, 0xA1, 0x7C, 0x00, 0x00],
    ];
    for bytes in inputs {
        let (_, end) = read_value(&bytes, 0, false).unwrap();
        let e = read_value(&bytes, 0, true).unwrap_err();
        assert!(matches!(e.reason, Reason::Other(DecodeError::Canonicity(_))));
        assert!(e.position < end);
    }
}

#[test]
fn bounds_associate_and_are_extreme() {
    let vs = samples();
    for a in &vs {
        for b in &vs {
            let ab = a.greatest_lower_bound(b);
            let ab_up = a.least_upper_bound(b);
            for c in &vs {
                if let (Some(x), Some(y)) = (&ab, b.greatest_lower_bound(c)) {
                    if let (Some(l), Some(r)) = (x.greatest_lower_bound(c), a.greatest_lower_bound(&y)) {
                        assert_eq!(l, r);
                    }
                }
                if let (Some(x), Some(y)) = (&ab_up, b.least_upper_bound(c)) {
                    if let (Some(l), Some(r)) = (x.least_upper_bound(c), a.least_upper_bound(&y)) {
                        assert_eq!(l, r);
                    }
                }
                if let Some(g) = &ab {
                    if c.meaningful_le(a) && c.meaningful_le(b) {
                        assert!(c.meaningful_le(g));
                    }
                }
                if let Some(u) = &ab_up {
                    if a.meaningful_le(c) && b.meaningful_le(c) {
                        assert!(u.meaningful_le(c));
                    }
                }
            }
        }
    }
}

#[test]
fn a_missing_bound_on_the_way_breaks_the_grouping() {
    let a = Mapping(vec![(Int(1), Float(0.0f64.to_bits()))]);
    let b = Mapping(vec![(Int(1), Float((-0.0f64).to_bits()))]);
    let c = Mapping(vec![]);
    assert_eq!(a.greatest_lower_bound(&b), None);
    assert_eq!(b.greatest_lower_bound(&c), Some(Mapping(vec![])));
    assert_eq!(a.greatest_lower_bound(&Mapping(vec![])), Some(Mapping(vec![])));
}
