use rust_efsm::bound::Bound;
use rust_efsm::TransitionBound;

#[test]
fn transition_bound_as_explicit() {
    let a = TransitionBound {
        lower: Some(10_u32),
        upper: None,
    };

    let b = TransitionBound {
        lower: None,
        upper: Some(15_u32),
    };

    assert!(a.as_explicit() == (10, u32::MAX));
    assert!(b.as_explicit() == (0, 15));
}

#[test]
fn transition_bound_from_explicit() {
    let a = (10, u32::MAX);
    let b = (0, 15);

    assert!(
        TransitionBound::from_explicit(a)
            == TransitionBound {
                lower: Some(10_u32),
                upper: None,
            }
    );

    assert!(
        TransitionBound::from_explicit(b)
            == TransitionBound {
                lower: None,
                upper: Some(15_u32),
            }
    );
}

#[test]
fn intersect_vectors() {
    let lower_only = TransitionBound {
        lower: Some(10_u32),
        upper: None,
    };
    let upper_only = TransitionBound {
        lower: None,
        upper: Some(15_u32),
    };
    let unbounded = TransitionBound::unbounded();
    let late = TransitionBound {
        lower: Some(20_u32),
        upper: None,
    };

    assert!(
        lower_only.intersect(&upper_only)
            == Some(TransitionBound {
                lower: Some(10_u32),
                upper: Some(15_u32),
            })
    );
    assert!(lower_only.intersect(&unbounded) == Some(lower_only));
    assert!(upper_only.intersect(&unbounded) == Some(upper_only));
    assert!(late.intersect(&upper_only) == None);
}

#[test]
fn intersect_commutative_concrete() {
    let a = TransitionBound {
        lower: Some(3_u32),
        upper: Some(20_u32),
    };
    let b = TransitionBound {
        lower: Some(5_u32),
        upper: None,
    };
    assert!(a.intersect(&b) == b.intersect(&a));
}

#[test]
fn intersect_self_concrete() {
    let a = TransitionBound {
        lower: Some(7_u32),
        upper: Some(9_u32),
    };
    assert!(a.intersect(&a) == Some(a));
}

#[test]
fn intersect_agrees_with_contains() {
    let a = TransitionBound {
        lower: Some(5_u32),
        upper: Some(25_u32),
    };
    let b = TransitionBound {
        lower: Some(10_u32),
        upper: None,
    };
    let c = a.intersect(&b).unwrap();
    for d in [0_u32, 5, 9, 10, 17, 25, 26, 100] {
        assert_eq!(c.contains(&d), a.contains(&d) && b.contains(&d));
    }
}

#[test]
fn canonicalize_round_trip() {
    let x = TransitionBound {
        lower: Some(4_u32),
        upper: None,
    };
    assert!(TransitionBound::from_explicit(x.as_explicit()) == x);
}

#[test]
fn union_with_widens() {
    let mut a = TransitionBound {
        lower: Some(10_u32),
        upper: Some(20_u32),
    };
    let b = TransitionBound {
        lower: Some(5_u32),
        upper: Some(15_u32),
    };

    a.union_with(&b);
    assert_eq!(a.lower, Some(5_u32));
    assert_eq!(a.upper, Some(20_u32));
    assert!(a.contains_interval(&b));
}

#[test]
fn union_with_idempotent_when_containing() {
    let mut a = TransitionBound {
        lower: Some(1_u32),
        upper: Some(30_u32),
    };
    let b = TransitionBound {
        lower: Some(10_u32),
        upper: Some(20_u32),
    };
    assert!(a.contains_interval(&b));
    a.union_with(&b);
    assert!(
        a == TransitionBound {
            lower: Some(1_u32),
            upper: Some(30_u32),
        }
    );
}

#[test]
fn union_with_stays_canonical() {
    // Widening never stores an endpoint equal to a domain extreme.
    let mut unbounded = TransitionBound::unbounded();
    let b = TransitionBound {
        lower: Some(10_u32),
        upper: Some(20_u32),
    };
    unbounded.union_with(&b);
    assert_eq!(unbounded.lower, None);
    assert_eq!(unbounded.upper, None);

    let mut a = TransitionBound {
        lower: Some(5_u32),
        upper: Some(10_u32),
    };
    let low = TransitionBound {
        lower: None,
        upper: Some(3_u32),
    };
    a.union_with(&low);
    assert_eq!(a.lower, None);
    assert_eq!(a.upper, Some(10_u32));
}

#[test]
fn contains_bounds_inclusive() {
    let bound = TransitionBound {
        lower: Some(10_u32),
        upper: Some(20_u32),
    };

    assert!(bound.contains(&10_u32));
    assert!(bound.contains(&15_u32));
    assert!(bound.contains(&20_u32));
    assert!(!bound.contains(&5_u32));
    assert!(!bound.contains(&25_u32));
}

#[test]
fn contains_interval_cases() {
    let a = TransitionBound {
        lower: Some(5_u32),
        upper: Some(25_u32),
    };
    let b = TransitionBound {
        lower: Some(10_u32),
        upper: Some(20_u32),
    };
    let c = TransitionBound {
        lower: Some(15_u32),
        upper: Some(30_u32),
    };

    assert!(a.contains_interval(&b));
    assert!(!a.contains_interval(&c));
    assert!(!b.contains_interval(&a));
    assert!(a.contains_interval(&a));
}

#[test]
fn bound_names_the_same_interval_type() {
    let b: Bound = TransitionBound {
        lower: Some(1_u32),
        upper: Some(2_u32),
    };
    assert!(b.contains(&1_u32));
    assert!(!b.contains(&3_u32));
}
