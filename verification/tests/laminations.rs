use laminations::Comparison;
use laminations::DefaultAlgebra;
use laminations::ParseError;
use laminations::UnitFraction;

type Fraction = UnitFraction;

#[test]
fn parse_ternary() {
    let ternary = DefaultAlgebra::new(3);

    assert_eq! {
        Fraction::from_expansion(3, 0, 0, 0, 0),
        ternary.parse("_").unwrap(),
    }
    assert_eq! {
        Fraction::from_expansion(3, 1, 1, 0, 0),
        ternary.parse("1_").unwrap(),
    }
    assert_eq! {
        Fraction::from_expansion(3, 9, 3, 0, 0),
        ternary.parse("100").unwrap(),
    }
    assert_eq! {
        Fraction::from_expansion(3, 9, 3, 0, 0),
        ternary.parse("100_").unwrap(),
    }
    assert_eq! {
        Fraction::from_expansion(3, 0, 0, 9, 3),
        ternary.parse("_100").unwrap(),
    }
    assert_eq! {
        Fraction::from_expansion(3, 1, 1, 9, 3),
        ternary.parse("1_100").unwrap(),
    }

    assert!(ternary.parse("1_100_").is_err());
    assert!(ternary.parse("1_o1").is_err())
}

#[test]
fn parse_dozenal() {
    let dozenal = DefaultAlgebra::new(12);

    assert_eq! {
        Fraction::from_expansion(12, 0, 0, 3, 1),
        dozenal.parse("_3").unwrap(),
    }
    assert_eq! {
        Fraction::from_expansion(12, 1694, 3, 0, 0),
        dozenal.parse("11,9,2").unwrap(),
    }
    assert_eq! {
        Fraction::from_expansion(12, 1694, 3, 0, 0),
        dozenal.parse("11,9,2_").unwrap(),
    }
    assert_eq! {
        Fraction::from_expansion(12, 0, 0, 1694, 3),
        dozenal.parse("_11,9,2").unwrap(),
    }
    assert_eq! {
        Fraction::from_expansion(12, 11, 1, 1694, 3),
        dozenal.parse("11_11,9,2").unwrap(),
    }
}

#[test]
fn simplifies() {
    let ternary = DefaultAlgebra::new(3);
    let quaternary = DefaultAlgebra::new(4);

    let a1 = ternary.parse("_102").unwrap();
    let a2 = ternary.parse("1_021").unwrap();
    let a3 = ternary.parse("10_210").unwrap();
    let a4 = ternary.parse("102_102").unwrap();
    let a5 = ternary.parse("1021_021").unwrap();
    let b1 = ternary.parse("2_1").unwrap();
    assert_eq!(a1, a2);
    assert_eq!(a1, a3);
    assert_eq!(a1, a4);
    assert_eq!(a1, a5);
    assert_ne!(a1, b1);

    let c1 = ternary.parse("_1").unwrap();
    let c2 = ternary.parse("_111").unwrap();
    assert_eq!(c1, c2);

    let d1 = quaternary.parse("31_102").unwrap();
    let d2 = quaternary.parse("311021021_021").unwrap();
    assert_eq!(d1, d2);

    let f1 = ternary.parse("2_").unwrap();
    let f2 = ternary.parse("200_").unwrap();
    let f3 = ternary.parse("200_00").unwrap();
    assert_eq!(f1, f2);
    assert_eq!(f1, f3);

    let g1 = ternary.parse("_").unwrap();
    let g2 = ternary.parse("_2").unwrap();
    assert_eq!(g1, g2);
}

#[test]
fn construction_identity() {
    assert_eq!(UnitFraction::new(1, 2), UnitFraction::new(2, 4));
    assert_eq!(UnitFraction::new(3, 2), UnitFraction::new(1, 2));
    assert_eq!(UnitFraction::new(0, 7), UnitFraction::new(14, 2));
    assert_ne!(UnitFraction::new(1, 2), UnitFraction::new(1, 3));
}

#[test]
fn reduces_to_lowest_terms() {
    // A construction that merely copied its arguments would return (2, 4).
    assert_eq!(UnitFraction::new(2, 4).to_rational(), (1, 2));
    assert_eq!(UnitFraction::new(144, 216).to_rational(), (2, 3));
    assert_eq!(UnitFraction::new(0, 5).to_rational(), (0, 1));
}

#[test]
fn round_trip_exact() {
    let ternary = DefaultAlgebra::new(3);
    // "102" denotes (1*9 + 0*3 + 2) / 3^3 = 11 / 27, already in lowest terms.
    assert_eq!(ternary.parse("102").unwrap().to_rational(), (11, 27));
    // "1_100" denotes (26*1 + 9) / (26*3) = 35 / 78.
    assert_eq!(ternary.parse("1_100").unwrap().to_rational(), (35, 78));
    let dozenal = DefaultAlgebra::new(12);
    // "11,9,2" denotes 1694 / 1728 = 847 / 864.
    assert_eq!(dozenal.parse("11,9,2").unwrap().to_rational(), (847, 864));
}

#[test]
fn shift_drops_leading_digit() {
    let ternary = DefaultAlgebra::new(3);
    let x = ternary.parse("1_100").unwrap();
    let shifted = x.map_forward(3);
    // 35/78 times 3 is 105/78, which wraps to 27/78 = 9/26 — the value of "_100".
    assert_eq!(shifted, ternary.parse("_100").unwrap());
    assert_eq!(shifted.to_rational(), (9, 26));
    // A purely repeating expansion rotates: "_102" -> "_021".
    let y = ternary.parse("_102").unwrap();
    assert_eq!(y.map_forward(3), ternary.parse("_021").unwrap());
    // Shifting zero stays zero.
    let z = ternary.parse("_").unwrap();
    assert_eq!(z.map_forward(3), z);
}

#[test]
fn error_cases() {
    let ternary = DefaultAlgebra::new(3);
    assert!(matches!(
        ternary.parse("1_100_"),
        Err(ParseError::TooManySeparators(_))
    ));
    assert!(matches!(
        ternary.parse("1_o1"),
        Err(ParseError::InvalidDigit(_, _))
    ));
    // A numeric digit at or above the base is rejected too.
    assert!(matches!(
        ternary.parse("13"),
        Err(ParseError::InvalidDigit(_, _))
    ));
    let dozenal = DefaultAlgebra::new(12);
    assert!(matches!(
        dozenal.parse("11,12"),
        Err(ParseError::InvalidDigit(_, _))
    ));
    assert!(matches!(
        dozenal.parse("3,x,1"),
        Err(ParseError::InvalidDigit(_, _))
    ));
    // The error carries the input and the offending token.
    match ternary.parse("1_o1") {
        Err(ParseError::InvalidDigit(input, token)) => {
            assert_eq!(input, "1_o1");
            assert_eq!(token, "o");
        },
        _ => panic!("expected an invalid-digit error"),
    }
}

#[test]
fn empty_tokens_are_skipped() {
    let dozenal = DefaultAlgebra::new(12);
    // Consecutive commas do not denote a zero digit.
    assert_eq!(
        dozenal.parse("11,,9,2").unwrap(),
        dozenal.parse("11,9,2").unwrap()
    );
    assert_eq!(dozenal.parse(",,").unwrap(), dozenal.parse("_").unwrap());
}

#[test]
fn ordering_is_by_value() {
    let ternary = DefaultAlgebra::new(3);
    let third = ternary.parse("1_").unwrap();
    let half = ternary.parse("_1").unwrap();
    let two_thirds = ternary.parse("2_").unwrap();
    assert_eq!(third.compare(&half), Comparison::Less);
    assert_eq!(half.compare(&two_thirds), Comparison::Less);
    assert_eq!(third.compare(&two_thirds), Comparison::Less);
    assert_eq!(two_thirds.compare(&third), Comparison::Greater);
    assert_eq!(half.compare(&ternary.parse("_111").unwrap()), Comparison::Equal);
    // Equal values compare equal whatever expansion produced them.
    let a = ternary.parse("_102").unwrap();
    let b = ternary.parse("1_021").unwrap();
    assert_eq!(a.compare(&b), Comparison::Equal);
}

#[test]
fn digit_parts_and_values() {
    let (e, r) = laminations::parse_digit_parts(3, "1_100").unwrap();
    assert_eq!(e, vec![1]);
    assert_eq!(r, vec![1, 0, 0]);
    assert_eq!(laminations::value_from_digits(3, &r), 9);
    let (e2, r2) = laminations::parse_digit_parts(12, "11,9,2_").unwrap();
    assert_eq!(e2, vec![11, 9, 2]);
    assert_eq!(r2, vec![]);
    assert_eq!(laminations::value_from_digits(12, &e2), 1694);
    assert_eq!(laminations::value_from_digits(12, &[]), 0);
    assert!(laminations::parse_digit_parts(3, "1_1_1").is_err());
}

#[test]
fn empty_and_long_inputs() {
    let binary = DefaultAlgebra::new(2);
    // An empty input denotes zero, like a bare separator.
    assert_eq!(binary.parse("").unwrap(), binary.parse("_").unwrap());
    assert_eq!(binary.parse("").unwrap().to_rational(), (0, 1));
    // A hundred binary digits still fit the 128-bit arithmetic.
    let mut long = String::from("1");
    for _ in 0..99 {
        long.push('0');
    }
    assert_eq!(binary.parse(&long).unwrap(), binary.parse("1_").unwrap());
    assert_eq!(binary.parse(&long).unwrap().to_rational(), (1, 2));
}

#[test]
fn non_ascii_digit_is_rejected() {
    let ternary = DefaultAlgebra::new(3);
    match ternary.parse("1_\u{00f1}1") {
        Err(ParseError::InvalidDigit(input, token)) => {
            assert_eq!(input, "1_\u{00f1}1");
            assert_eq!(token, "\u{00f1}");
        },
        _ => panic!("expected an invalid-digit error"),
    }
}
