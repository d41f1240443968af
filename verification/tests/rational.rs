use arith_search::rational::Rational;
use arith_search::text::{push_decimal, push_fraction};

#[test]
fn add() {
    assert_eq!(
        Rational {
            numerator: 1,
            denominator: 2,
        } + Rational {
            numerator: 1,
            denominator: 3,
        },
        Rational {
            numerator: 5,
            denominator: 6,
        }
    );
}

#[test]
fn sub() {
    assert_eq!(
        Rational {
            numerator: 1,
            denominator: 2,
        } - Rational {
            numerator: 1,
            denominator: 3,
        },
        Rational {
            numerator: 1,
            denominator: 6,
        }
    );
}

#[test]
fn mul() {
    assert_eq!(
        Rational {
            numerator: 1,
            denominator: 2,
        } * Rational {
            numerator: 1,
            denominator: 3,
        },
        Rational {
            numerator: 1,
            denominator: 6,
        }
    );
}

#[test]
fn div() {
    assert_eq!(
        Rational {
            numerator: 1,
            denominator: 2,
        } / Rational {
            numerator: 1,
            denominator: 3,
        },
        Rational {
            numerator: 3,
            denominator: 2,
        }
    );
}

fn parts(r: Rational) -> (i32, i32) {
    (r.numerator, r.denominator)
}

#[test]
fn operations_give_unreduced_parts() {
    let half = Rational::new(1, 2);
    let third = Rational::new(1, 3);
    assert_eq!(parts(half + third), (5, 6));
    assert_eq!(parts(half - third), (1, 6));
    assert_eq!(parts(half * third), (1, 6));
    assert_eq!(parts(half / third), (3, 2));
    assert_eq!(parts(half + half), (4, 4));
    assert_eq!(parts(half * half), (1, 4));
    assert_eq!(parts(half - half), (0, 4));
    assert_eq!(parts(half / half), (2, 2));
    assert_eq!(parts(Rational::new(2, -3) / Rational::new(-5, 7)), (14, 15));
    assert_eq!(parts(Rational::new(2, -3) + Rational::new(1, 3)), (3, -9));
}

#[test]
fn checked_operations_give_the_same_parts() {
    let a = Rational::new(3, 4);
    let b = Rational::new(-5, 6);
    assert_eq!(a.checked_add(b).map(parts), Some((-2, 24)));
    assert_eq!(a.checked_sub(b).map(parts), Some((38, 24)));
    assert_eq!(a.checked_mul(b).map(parts), Some((-15, 24)));
    assert_eq!(a.checked_div(b).map(parts), Some((18, -20)));
}

#[test]
fn equality_is_by_value() {
    assert_eq!(Rational::new(1, 2), Rational::new(2, 4));
    assert_eq!(Rational::new(1, -2), Rational::new(-3, 6));
    assert_ne!(Rational::new(1, 2), Rational::new(1, 3));
    assert_eq!(Rational::new(0, 5), Rational::new(0, -9));
    assert_eq!(
        Rational::new(i32::MAX, i32::MIN),
        Rational::new(i32::MAX, i32::MIN)
    );
    assert_ne!(
        Rational::new(i32::MAX, i32::MIN),
        Rational::new(i32::MIN, i32::MAX)
    );
}

#[test]
fn overflow_gives_no_value() {
    let big = Rational::new(65536, 1);
    assert_eq!(big.checked_mul(big), None);
    assert_eq!(Rational::new(1, 65536).checked_mul(Rational::new(1, 65536)), None);
    assert_eq!(Rational::new(i32::MAX, 1).checked_add(Rational::new(1, 1)), None);
    assert_eq!(Rational::new(i32::MIN, 1).checked_sub(Rational::new(1, 1)), None);
    assert_eq!(Rational::new(1, 65536).checked_add(Rational::new(1, 65536)), None);
    assert_eq!(big.checked_div(Rational::new(1, 65536)), None);
    assert_eq!(
        Rational::new(i32::MIN, 1).checked_mul(Rational::new(-1, 1)),
        None
    );
    assert_eq!(
        Rational::new(46341, 1).checked_mul(Rational::new(46341, 1)),
        None
    );
    assert_eq!(
        Rational::new(46340, 1)
            .checked_mul(Rational::new(46340, 1))
            .map(parts),
        Some((2147395600, 1))
    );
}

#[test]
fn a_sum_is_held_where_its_parts_are() {
    let a = Rational::new(1 << 20, 2);
    let b = Rational::new(i32::MIN, 1 << 12);
    assert_eq!(a.checked_add(b).map(parts), Some((0, 8192)));
    assert_eq!(
        a.checked_sub(Rational::new(i32::MAX, 1 << 12)).map(parts),
        Some((2, 8192))
    );
}

#[test]
fn division_by_zero_gives_no_value() {
    let a = Rational::new(5, 1);
    assert_eq!(a.checked_div(Rational::new(0, 1)), None);
    assert_eq!(a.checked_div(Rational::new(0, -7)), None);
    assert_eq!(Rational::new(0, 1).checked_div(a).map(parts), Some((0, 5)));
}

#[test]
fn sums_and_products_commute() {
    let samples = [
        Rational::new(1, 2),
        Rational::new(-3, 7),
        Rational::new(5, -4),
        Rational::new(0, 3),
        Rational::new(65536, 3),
        Rational::new(i32::MAX, 2),
    ];
    for a in samples {
        for b in samples {
            assert_eq!(a.checked_add(b).map(parts), b.checked_add(a).map(parts));
            assert_eq!(a.checked_mul(b).map(parts), b.checked_mul(a).map(parts));
        }
    }
}

#[test]
fn sums_associate() {
    let a = Rational::new(1, 2);
    let b = Rational::new(-3, 7);
    let c = Rational::new(5, -4);
    let left = (a + b) + c;
    let right = a + (b + c);
    assert_eq!(left, right);
    assert_eq!(parts(left), parts(right));
    assert_eq!(parts(left), (66, -56));
}

#[test]
fn a_value_minus_itself_is_zero() {
    for a in [Rational::new(3, 4), Rational::new(-7, 5), Rational::new(9, -2)] {
        let zero = a - a;
        assert_eq!(zero.numerator, 0);
        assert_eq!(zero, Rational::new(0, 1));
        assert_eq!(zero, Rational::new(0, -13));
    }
}

#[test]
fn fractions_as_text() {
    assert_eq!(Rational::new(5, 1).to_string(), "5");
    assert_eq!(Rational::new(5, 6).to_string(), "5/6");
    assert_eq!(Rational::new(-3, 1).to_string(), "-3");
    assert_eq!(Rational::new(3, -4).to_string(), "3/-4");
    assert_eq!(Rational::new(0, 1).to_string(), "0");
    assert_eq!(Rational::new(0, 0).to_string(), "0/0");
    assert_eq!(Rational::new(10, 100).to_string(), "10/100");
    assert_eq!(Rational::new(i32::MIN, 1).to_string(), "-2147483648");
    assert_eq!(
        Rational::new(i32::MAX, i32::MIN).to_string(),
        "2147483647/-2147483648"
    );
}

#[test]
fn numbers_are_appended_to_the_text() {
    let mut text = String::from("x = ");
    push_decimal(&mut text, -120);
    assert_eq!(text, "x = -120");
    push_decimal(&mut text, 7);
    assert_eq!(text, "x = -1207");
    let mut text = String::from("[");
    push_fraction(&mut text, Rational::new(5, -6));
    push_fraction(&mut text, Rational::new(-8, 1));
    assert_eq!(text, "[5/-6-8");
}
