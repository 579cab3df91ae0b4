use setgame::{Card, Property};

const ALL: [Property; 3] = [Property::First, Property::Second, Property::Third];

#[test]
fn third_of_equal_values_is_the_same_value() {
    for a in ALL {
        assert_eq!(a.third(&a), a);
    }
}

#[test]
fn third_of_distinct_values_is_the_remaining_one() {
    assert_eq!(Property::First.third(&Property::Second), Property::Third);
    assert_eq!(Property::Second.third(&Property::First), Property::Third);
    assert_eq!(Property::First.third(&Property::Third), Property::Second);
    assert_eq!(Property::Third.third(&Property::First), Property::Second);
    assert_eq!(Property::Second.third(&Property::Third), Property::First);
    assert_eq!(Property::Third.third(&Property::Second), Property::First);
}

#[test]
fn completion_is_total_and_commutative() {
    for a in ALL {
        for b in ALL {
            assert_eq!(a.third(&b), b.third(&a));
        }
    }
}

#[test]
fn completion_closes_to_all_equal_or_all_distinct() {
    for a in ALL {
        for b in ALL {
            let c = a.third(&b);
            if a == b {
                assert_eq!(c, a);
            } else {
                assert_ne!(c, a);
                assert_ne!(c, b);
            }
            assert_eq!(a.third(&c), b);
        }
    }
}

#[test]
fn card_third_completes_each_dimension() {
    let x = Card::new(Property::First, Property::First, Property::Second, Property::Third);
    let y = Card::new(Property::First, Property::Second, Property::Second, Property::First);
    let z = x.third(&y);
    assert_eq!(
        z,
        Card::new(Property::First, Property::Third, Property::Second, Property::Second)
    );
    assert_eq!(y.third(&x), z);
    assert_eq!(x.third(&z), y);
}
