use carteira::decimal::Decimal;
use std::str::FromStr;

fn to_rust(d: &Decimal) -> rust_decimal::Decimal {
    rust_decimal::Decimal::from_i128_with_scale(d.mantissa(), d.scale())
}

fn rd(s: &str) -> rust_decimal::Decimal {
    rust_decimal::Decimal::from_str(s).unwrap()
}

#[test]
fn arithmetic_matches_rust_decimal() {
    let a = Decimal::parse("12.345").unwrap();
    let b = Decimal::parse("-0.5").unwrap();
    assert_eq!(to_rust(&a.checked_add(&b).unwrap()), rd("11.845"));
    assert_eq!(to_rust(&a.checked_sub(&b).unwrap()), rd("12.845"));
    assert_eq!(to_rust(&a.checked_mul(&b).unwrap()), rd("-6.1725"));
    assert_eq!(to_rust(&a.checked_div(&b).unwrap()), rd("-24.69"));
    assert!(a.checked_div(&Decimal::zero()).is_none());
    let max = Decimal::from_parts(79_228_162_514_264_337_593_543_950_335, 0).unwrap();
    assert!(max.checked_add(&Decimal::from_int(1)).is_none());
    assert!(max.checked_mul(&Decimal::from_int(2)).is_none());
}

#[test]
fn comparisons_are_by_value() {
    let one = Decimal::from_parts(10, 1).unwrap();
    let also_one = Decimal::from_parts(100, 2).unwrap();
    assert!(one == also_one);
    assert!(!one.lt(&also_one));
    assert!(one.ge(&also_one));
    assert!(Decimal::from_parts(-1, 28).unwrap().lt(&Decimal::zero()));
    assert!(Decimal::from_parts(1, 28).unwrap().is_positive());
    assert!(!Decimal::zero().is_positive());
    assert_eq!(one.mantissa(), 10);
    assert_eq!(one.scale(), 1);
}

#[test]
fn parts_are_checked() {
    assert!(Decimal::from_parts(1, 29).is_none());
    assert!(Decimal::from_parts(79_228_162_514_264_337_593_543_950_336, 0).is_none());
    assert!(Decimal::from_parts(-79_228_162_514_264_337_593_543_950_335, 28).is_some());
    assert!(Decimal::parse("not a number").is_none());
    assert_eq!(to_rust(&Decimal::parse("0.001").unwrap()), rd("0.001"));
}

#[test]
fn text_of_an_amount_reads_back_to_it() {
    let max: i128 = 79_228_162_514_264_337_593_543_950_335;
    let cases = [(12_345, 3), (-5, 1), (0, 0), (0, 5), (100, 2), (max, 0), (1, 28), (-max, 28)];
    for (mantissa, scale) in cases {
        let d = Decimal::from_parts(mantissa, scale).unwrap();
        let text = d.to_text();
        assert_eq!(text, to_rust(&d).to_string());
        let back = Decimal::parse(&text).unwrap();
        assert_eq!(back.mantissa(), mantissa);
        assert_eq!(back.scale(), scale);
    }
    assert_eq!(Decimal::from_parts(12_345, 3).unwrap().to_text(), "12.345");
    assert_eq!(Decimal::from_parts(100, 2).unwrap().to_text(), "1.00");
    assert_eq!(Decimal::from_parts(-5, 1).unwrap().to_text(), "-0.5");
}
