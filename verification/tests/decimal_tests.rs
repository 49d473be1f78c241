use farm_yield::decimal::Decimal;

fn parsed(text: &str) -> Decimal {
    Decimal::parse(text).expect("a decimal")
}

#[test]
fn parse_keeps_digits_and_scale() {
    assert_eq!(parsed("1.23").to_text(), "1.23");
    assert_eq!(parsed("100.0").to_text(), "100.0");
    assert_eq!(parsed("0").to_text(), "0");
    assert_eq!(parsed("42").to_text(), "42");
    assert_eq!(parsed("0.001").to_text(), "0.001");
}

#[test]
fn parse_accepts_signs() {
    assert_eq!(parsed("-7.5").to_text(), "-7.5");
    assert_eq!(parsed("+7.5").to_text(), "7.5");
}

#[test]
fn parse_drops_leading_zeros_of_the_whole_part() {
    assert_eq!(parsed("007.50").to_text(), "7.50");
    assert_eq!(parsed("000").to_text(), "0");
    assert_eq!(parsed("00.10").to_text(), "0.10");
}

#[test]
fn parse_fills_in_a_missing_whole_part() {
    assert_eq!(parsed(".5").to_text(), "0.5");
    assert_eq!(parsed("-.25").to_text(), "-0.25");
}

#[test]
fn parse_accepts_a_trailing_point() {
    assert_eq!(parsed("5.").to_text(), "5");
}

#[test]
fn zero_has_no_sign() {
    assert_eq!(parsed("-0").to_text(), "0");
    assert_eq!(parsed("-0.00").to_text(), "0.00");
}

#[test]
fn parse_refuses_what_is_no_decimal() {
    for text in [
        "", "+", "-", ".", "-.", "abc", "1.2.3", "1,5", " 1", "1 ", "--1", "1-", "inf", "NaN",
        "infinity", "١٢",
    ] {
        assert!(Decimal::parse(text).is_none(), "{:?} was accepted", text);
    }
}

#[test]
fn zero_and_one_are_written_with_one_fraction_digit() {
    assert_eq!(Decimal::zero().to_text(), "0.0");
    assert_eq!(Decimal::one().to_text(), "1.0");
}

#[test]
fn times_is_exact() {
    assert_eq!(parsed("0.1").times(&parsed("3")).to_text(), "0.3");
    assert_eq!(parsed("100.0").times(&parsed("2.0")).to_text(), "200.00");
    assert_eq!(parsed("1.5").times(&parsed("1.5")).to_text(), "2.25");
    assert_eq!(parsed("0.01").times(&parsed("0.01")).to_text(), "0.0001");
    assert_eq!(parsed("99").times(&parsed("99")).to_text(), "9801");
}

#[test]
fn times_adds_the_scales() {
    assert_eq!(parsed("2.50").times(&parsed("4.0")).to_text(), "10.000");
}

#[test]
fn times_settles_the_sign() {
    assert_eq!(parsed("-2").times(&parsed("3")).to_text(), "-6");
    assert_eq!(parsed("2").times(&parsed("-3")).to_text(), "-6");
    assert_eq!(parsed("-2").times(&parsed("-3")).to_text(), "6");
    assert_eq!(parsed("-2").times(&parsed("0")).to_text(), "0");
}

#[test]
fn times_by_zero_and_one() {
    assert_eq!(parsed("123.456").times(&Decimal::zero()).to_text(), "0.0000");
    assert_eq!(parsed("123.456").times(&Decimal::one()).to_text(), "123.4560");
}

#[test]
fn times_has_no_upper_limit() {
    let big = parsed("340282366920938463463374607431768211456");
    assert_eq!(
        big.times(&big).to_text(),
        "115792089237316195423570985008687907853269984665640564039457584007913129639936"
    );
}

#[test]
fn times_agrees_with_floats_where_floats_are_exact() {
    for (a, b) in [(100.0_f64, 2.0_f64), (50.0, 0.5), (0.25, 8.0), (1024.0, 1024.0), (3.0, 0.0)] {
        let product = parsed(&format!("{}", a)).times(&parsed(&format!("{}", b)));
        let read: f64 = product.to_text().parse().expect("a number");
        assert_eq!(read, a * b);
    }
}

#[test]
fn text_of_a_float_is_read_back_exactly() {
    for x in [0.0_f64, 1.0, 75.5, 1.2, 1e21, 1e-7, 123456.789, f64::MAX, f64::MIN_POSITIVE, -2.5] {
        let text = format!("{}", x);
        let read: f64 = parsed(&text).to_text().parse().expect("a number");
        assert_eq!(read, x);
    }
}

#[test]
fn clone_keeps_the_number() {
    let source = parsed("-12.340");
    assert_eq!(source.clone().to_text(), "-12.340");
}

#[test]
fn text_round_trips_through_parse() {
    for text in ["0", "0.0", "1.0", "-1.5", "10.01", "0.000", "123456789012345678901234567890.5"] {
        assert_eq!(parsed(text).to_text(), text);
    }
}

#[test]
fn parse_reads_exponents() {
    assert_eq!(parsed("1e5").to_text(), "100000");
    assert_eq!(parsed("1E5").to_text(), "100000");
    assert_eq!(parsed("1e+5").to_text(), "100000");
    assert_eq!(parsed("1.5e2").to_text(), "150");
    assert_eq!(parsed("1.25e1").to_text(), "12.5");
    assert_eq!(parsed("1.25e2").to_text(), "125");
    assert_eq!(parsed("1e-3").to_text(), "0.001");
    assert_eq!(parsed("2.50E-1").to_text(), "0.250");
    assert_eq!(parsed("-7.5e1").to_text(), "-75");
    assert_eq!(parsed("1.e2").to_text(), "100");
    assert_eq!(parsed(".5e1").to_text(), "5");
    assert_eq!(parsed("12e0").to_text(), "12");
    assert_eq!(parsed("12e-0").to_text(), "12");
    assert_eq!(parsed("0e10").to_text(), "0");
    assert_eq!(parsed("1e0000000002").to_text(), "100");
}

#[test]
fn parse_refuses_broken_exponents() {
    for text in ["1e", "1e+", "1e-", "e5", ".e5", "1e5.0", "1e 5", "1e5e5", "1ee5", "1e+-5", "1x5"] {
        assert!(Decimal::parse(text).is_none(), "{:?} was accepted", text);
    }
}

#[test]
fn exponent_has_a_limit() {
    assert_eq!(parsed("1e65535").to_text().len(), 65536);
    assert_eq!(parsed("1e-65535").to_text().len(), 65537);
    assert!(Decimal::parse("1e65536").is_none());
    assert!(Decimal::parse("1e-65536").is_none());
    assert!(Decimal::parse("1e99999999999999999999999999").is_none());
}

#[test]
fn debug_text_of_a_float_is_read_back_exactly() {
    for x in [0.0_f64, 1.0, 100.0, 75.5, 1e21, 1e-7, 1.5e300, f64::MAX, f64::MIN_POSITIVE, -2.5] {
        let text = format!("{:?}", x);
        let read: f64 = parsed(&text).to_text().parse().expect("a number");
        assert_eq!(read, x, "{}", text);
    }
    assert_eq!(parsed(&format!("{:?}", 100.0_f64)).to_text(), "100.0");
}
