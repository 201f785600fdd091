use recipe_calc::amount::{saturate, wide_product, Amount};

#[test]
fn whole_units_and_millionths() {
    assert_eq!(Amount::from_units(3).micros, 3_000_000);
    assert_eq!(Amount::from_units(-3).micros, -3_000_000);
    assert_eq!(Amount::from_units(i64::MAX).micros, i64::MAX);
    assert_eq!(Amount::from_units(i64::MIN).micros, i64::MIN);
    assert_eq!(Amount::zero().micros, 0);
    assert_eq!(Amount::from_micros(17).micros, 17);
}

#[test]
fn sums_and_differences_saturate() {
    let big = Amount::from_micros(i64::MAX);
    let small = Amount::from_micros(i64::MIN);
    assert_eq!(big.plus(Amount::from_micros(1)), big);
    assert_eq!(small.minus(Amount::from_micros(1)), small);
    assert_eq!(big.plus(small).micros, -1);
    assert_eq!(Amount::from_micros(5).minus(Amount::from_micros(7)).micros, -2);
    assert_eq!(Amount::zero().minus(small), big);
}

#[test]
fn products_round_toward_zero() {
    let a = Amount::from_micros(1_500_000);
    assert_eq!(a.times_count(3).micros, 4_500_000);
    assert_eq!(a.times_count(-3).micros, -4_500_000);
    assert_eq!(a.times(Amount::from_micros(333_333)).micros, 499_999);
    assert_eq!(a.times(Amount::from_micros(-333_333)).micros, -499_999);
    assert_eq!(Amount::from_micros(i64::MAX).times_count(2).micros, i64::MAX);
    assert_eq!(Amount::from_micros(i64::MIN).times_count(2).micros, i64::MIN);
    assert_eq!(Amount::from_micros(i64::MIN).times_count(-1).micros, i64::MAX);
    assert_eq!(Amount::from_micros(i64::MIN).times(Amount::from_micros(i64::MIN)).micros, i64::MAX);
}

#[test]
fn shares_and_ratios_round_toward_zero() {
    assert_eq!(Amount::from_units(100).shared_among(12).micros, 8_333_333);
    assert_eq!(Amount::from_units(-100).shared_among(12).micros, -8_333_333);
    assert_eq!(Amount::from_micros(11).shared_among(12).micros, 0);
    assert_eq!(Amount::from_micros(-11).shared_among(12).micros, 0);
    assert_eq!(Amount::from_micros(i64::MIN).shared_among(1).micros, i64::MIN);
    let five = Amount::from_units(5);
    assert_eq!(five.times_ratio(Amount::from_units(12), Amount::from_units(3)).micros, 20_000_000);
    assert_eq!(five.times_ratio(Amount::from_units(1), Amount::from_units(3)).micros, 1_666_666);
    assert_eq!(
        Amount::from_units(-5).times_ratio(Amount::from_units(1), Amount::from_units(3)).micros,
        -1_666_666
    );
    assert_eq!(
        Amount::from_micros(i64::MAX).times_ratio(Amount::from_units(2), Amount::from_units(1)).micros,
        i64::MAX
    );
}

#[test]
fn decimal_literals_are_read() {
    assert_eq!(Amount::parse("120"), Some(Amount::from_units(120)));
    assert_eq!(Amount::parse("0"), Some(Amount::zero()));
    assert_eq!(Amount::parse("007"), Some(Amount::from_units(7)));
    assert_eq!(Amount::parse("+7"), Some(Amount::from_units(7)));
    assert_eq!(Amount::parse("-7"), Some(Amount::from_units(-7)));
    assert_eq!(Amount::parse("1.5"), Some(Amount::from_micros(1_500_000)));
    assert_eq!(Amount::parse("-0.25"), Some(Amount::from_micros(-250_000)));
    assert_eq!(Amount::parse("5."), Some(Amount::from_units(5)));
    assert_eq!(Amount::parse(".5"), Some(Amount::from_micros(500_000)));
    assert_eq!(Amount::parse("0.000001"), Some(Amount::from_micros(1)));
    assert_eq!(Amount::parse("0.0000019"), Some(Amount::from_micros(1)));
    assert_eq!(Amount::parse("3.1415926535"), Some(Amount::from_micros(3_141_592)));
    assert_eq!(Amount::parse("-0"), Some(Amount::zero()));
}

#[test]
fn other_text_is_no_number() {
    let texts = [
        "", ".", "+", "-", "+.", "1.2.3", "1,5", " 1", "1 ", "--1", "+-1", "inf", "NaN", "nan",
        "infinity", "-inf", "٣", "1_000", "0x10", "e", "e5", ".e5", "1e", "1e+", "1e-", "1e5.0",
        "1ee5", "1e5e5", "1e 5", "1 e5", "1e++5", "1f3",
    ];
    for text in texts {
        assert_eq!(Amount::parse(text), None, "{:?}", text);
    }
}

#[test]
fn exponents_move_the_point() {
    assert_eq!(Amount::parse("1e3"), Some(Amount::from_units(1000)));
    assert_eq!(Amount::parse("1E3"), Some(Amount::from_units(1000)));
    assert_eq!(Amount::parse("1e+3"), Some(Amount::from_units(1000)));
    assert_eq!(Amount::parse("-1e3"), Some(Amount::from_units(-1000)));
    assert_eq!(Amount::parse("+1.5e2"), Some(Amount::from_units(150)));
    assert_eq!(Amount::parse("1e0"), Some(Amount::from_units(1)));
    assert_eq!(Amount::parse("1e-0"), Some(Amount::from_units(1)));
    assert_eq!(Amount::parse("1e007"), Some(Amount::from_units(10_000_000)));
    assert_eq!(Amount::parse(".5e1"), Some(Amount::from_units(5)));
    assert_eq!(Amount::parse("5.e0"), Some(Amount::from_units(5)));
    assert_eq!(Amount::parse("1e-3"), Some(Amount::from_micros(1_000)));
    assert_eq!(Amount::parse("1e-6"), Some(Amount::from_micros(1)));
    assert_eq!(Amount::parse("1e-7"), Some(Amount::zero()));
    assert_eq!(Amount::parse("19e-7"), Some(Amount::from_micros(1)));
    assert_eq!(Amount::parse("12345678e-10"), Some(Amount::from_micros(1_234)));
    assert_eq!(Amount::parse("0.000001e6"), Some(Amount::from_units(1)));
    assert_eq!(Amount::parse("0.0000001e7"), Some(Amount::from_units(1)));
    assert_eq!(Amount::parse("123.456789e-2"), Some(Amount::from_micros(1_234_567)));
    assert_eq!(Amount::parse("123.456789e2"), Some(Amount::from_micros(12_345_678_900)));
    assert_eq!(Amount::parse("9e12"), Some(Amount::from_micros(9_000_000_000_000_000_000)));
}

#[test]
fn far_exponents_give_zero_or_the_nearest_amount() {
    let most = Some(Amount::from_micros(i64::MAX));
    let least = Some(Amount::from_micros(i64::MIN));
    assert_eq!(Amount::parse("1e13"), most);
    assert_eq!(Amount::parse("1e18"), most);
    assert_eq!(Amount::parse("1e19"), most);
    assert_eq!(Amount::parse("-1e13"), least);
    assert_eq!(Amount::parse("9.223372036854775807e12"), most);
    assert_eq!(Amount::parse("9.223372036854775806e12"), Some(Amount::from_micros(i64::MAX - 1)));
    assert_eq!(Amount::parse("-9.223372036854775808e12"), least);
    assert_eq!(Amount::parse("-9.223372036854775807e12"), Some(Amount::from_micros(i64::MIN + 1)));
    assert_eq!(Amount::parse("9223372036854775807e-6"), most);
    assert_eq!(Amount::parse("92233720368547758070e-7"), most);
    assert_eq!(Amount::parse("1e99999999999999999999999999999999999999999"), most);
    assert_eq!(Amount::parse("-0.001e99999999999999999999999999999999999999999"), least);
    assert_eq!(Amount::parse("0e99999999999999999999999999999999999999999"), Some(Amount::zero()));
    assert_eq!(Amount::parse("0.000e1267650600228229401496703205376"), Some(Amount::zero()));
    assert_eq!(Amount::parse("1e1267650600228229401496703205376"), most);
    assert_eq!(Amount::parse("1e-99999999999999999999999999999999999999999"), Some(Amount::zero()));
    assert_eq!(Amount::parse("-1e-1267650600228229401496703205376"), Some(Amount::zero()));
    assert_eq!(
        Amount::parse("99999999999999999999999999999999999999999999e-99999999999999999999999"),
        Some(Amount::zero())
    );
    assert_eq!(
        Amount::parse("123456789012345678901234567890123456789012345678901234567890e-52"),
        Some(Amount::from_micros(12_345_678_901_234))
    );
}

#[test]
fn large_literals_become_the_nearest_amount() {
    assert_eq!(Amount::parse("9223372036854.775807"), Some(Amount::from_micros(i64::MAX)));
    assert_eq!(Amount::parse("9223372036854.775808"), Some(Amount::from_micros(i64::MAX)));
    assert_eq!(Amount::parse("9223372036854.775806"), Some(Amount::from_micros(i64::MAX - 1)));
    assert_eq!(Amount::parse("-9223372036854.775808"), Some(Amount::from_micros(i64::MIN)));
    assert_eq!(Amount::parse("-9223372036854.775809"), Some(Amount::from_micros(i64::MIN)));
    assert_eq!(Amount::parse("-9223372036854.775807"), Some(Amount::from_micros(i64::MIN + 1)));
    assert_eq!(
        Amount::parse("123456789012345678901234567890123456789012345678901234567890"),
        Some(Amount::from_micros(i64::MAX))
    );
    assert_eq!(
        Amount::parse("-123456789012345678901234567890123456789012345678901234567890.5"),
        Some(Amount::from_micros(i64::MIN))
    );
    assert_eq!(Amount::parse("18446744073709551616"), Some(Amount::from_micros(i64::MAX)));
    assert_eq!(Amount::parse("18446744073709551617"), Some(Amount::from_micros(i64::MAX)));
}

#[test]
fn amounts_are_written_in_full() {
    assert_eq!(Amount::from_units(3).to_text(), "3");
    assert_eq!(Amount::from_units(12).to_text(), "12");
    assert_eq!(Amount::zero().to_text(), "0");
    assert_eq!(Amount::from_micros(2_500_000).to_text(), "2.5");
    assert_eq!(Amount::from_micros(-2_500_000).to_text(), "-2.5");
    assert_eq!(Amount::from_micros(1).to_text(), "0.000001");
    assert_eq!(Amount::from_micros(-10).to_text(), "-0.00001");
    assert_eq!(Amount::from_micros(1_000_100).to_text(), "1.0001");
    assert_eq!(Amount::from_micros(i64::MAX).to_text(), "9223372036854.775807");
    assert_eq!(Amount::from_micros(i64::MIN).to_text(), "-9223372036854.775808");
}

#[test]
fn amounts_are_rounded_to_one_digit() {
    assert_eq!(Amount::from_units(35).to_rounded_text(), "35.0");
    assert_eq!(Amount::zero().to_rounded_text(), "0.0");
    assert_eq!(Amount::from_micros(8_333_333).to_rounded_text(), "8.3");
    assert_eq!(Amount::from_micros(8_350_001).to_rounded_text(), "8.4");
    assert_eq!(Amount::from_micros(250_000).to_rounded_text(), "0.2");
    assert_eq!(Amount::from_micros(350_000).to_rounded_text(), "0.4");
    assert_eq!(Amount::from_micros(-5_250_000).to_rounded_text(), "-5.2");
    assert_eq!(Amount::from_micros(9_950_000).to_rounded_text(), "10.0");
    assert_eq!(Amount::from_micros(-40_000).to_rounded_text(), "-0.0");
    assert_eq!(Amount::from_micros(i64::MAX).to_rounded_text(), "9223372036854.8");
}

#[test]
fn written_amounts_are_read_back() {
    for micros in [0i64, 1, -1, 999_999, 1_000_000, -1_234_567, 120_000_000, i64::MAX, i64::MIN] {
        let a = Amount::from_micros(micros);
        assert_eq!(Amount::parse(&a.to_text()), Some(a));
    }
}

#[test]
fn wide_products_and_nearest_amounts() {
    assert_eq!(wide_product(i64::MAX, 2), 2 * (i64::MAX as i128));
    assert_eq!(wide_product(i64::MIN, i32::MIN), 1i128 << 94);
    assert_eq!(wide_product(-3, 5), -15);
    assert_eq!(wide_product(0, i32::MIN), 0);
    assert_eq!(saturate(1i128 << 94).micros, i64::MAX);
    assert_eq!(saturate(-(1i128 << 94)).micros, i64::MIN);
    assert_eq!(saturate(-7).micros, -7);
}
