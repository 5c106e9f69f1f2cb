use pint_sg_validator::number::{
    add_numbers, amount_in, money_eq, number_in_str, push_plain_decimal, push_two_decimals,
    text_equals_units, zero_number, Number,
};

fn two(n: &Number) -> String {
    let mut s = String::new();
    push_two_decimals(&mut s, n);
    s
}

fn plain(n: &Number) -> String {
    let mut s = String::new();
    push_plain_decimal(&mut s, n);
    s
}

fn num(t: &str) -> Number {
    number_in_str(t).unwrap()
}

const SAMPLES: &[&str] = &[
    "0", "1", "109.00", "119", "-3.5", "1234.567", "0.125", "0.375", "2.5e1", "1e3", "-0",
    "-0.001", "inf", "-inf", "NaN", "+7.25", ".5", "5.", "1E2", "1e-7", "12.345678901",
    "100000", "0.1", "0.2", "9.99", "-12.5", "Infinity", "nan", "-nan",
];

#[test]
fn two_decimal_rendering_agrees_with_float_formatting() {
    for t in SAMPLES {
        let f: f64 = t.parse().unwrap();
        assert_eq!(two(&num(t)), format!("{:.2}", f), "{t}");
    }
}

#[test]
fn plain_rendering_agrees_with_float_display() {
    for t in SAMPLES {
        let f: f64 = t.parse().unwrap();
        assert_eq!(plain(&num(t)), format!("{}", f), "{t}");
    }
}

#[test]
fn the_empty_sum_renders_as_a_float_sum_does() {
    let none: Vec<f64> = Vec::new();
    let s: f64 = none.iter().sum();
    assert_eq!(two(&zero_number(true)), format!("{:.2}", s));
}

#[test]
fn grammar_agrees_with_float_parsing() {
    let texts = [
        "", "+", "-", ".", "e5", "1e", "1e+", "1.2.3", "--1", "1,5", " 1", "1 ", "0x10", "in",
        "infinit", "INF", "iNfInItY", "NAN", "1e5e", "+.5e-3", "00012", "1_0", "٣",
    ];
    for t in texts.iter().chain(SAMPLES.iter()) {
        assert_eq!(number_in_str(t).is_some(), t.parse::<f64>().is_ok(), "{t:?}");
    }
}

#[test]
fn amounts_drop_commas_and_surrounding_space() {
    assert_eq!(plain(&amount_in(" 1,234.50 ").unwrap()), "1234.5");
    assert_eq!(plain(&amount_in("1,2,3").unwrap()), "123");
    assert_eq!(amount_in("abc"), None);
    assert_eq!(amount_in(""), None);
}

#[test]
fn values_are_kept_as_written() {
    assert_eq!(plain(&num("0.0000000015")), "0.0000000015");
    assert_eq!(plain(&num("0.0049999995")), "0.0049999995");
    assert_eq!(plain(&num("9.0000000001")), "9.0000000001");
    assert_eq!(plain(&num("1e-400")), format!("0.{}1", "0".repeat(399)));
    assert_eq!(plain(&num("1e-2000")), "0");
    assert_eq!(plain(&num("99999999999999999999999999999.999999999")), "99999999999999999999999999999.999999999");
    assert_eq!(plain(&num("1e29")), format!("1{}", "0".repeat(29)));
    assert_eq!(plain(&num("1e308")), format!("1{}", "0".repeat(308)));
    assert_eq!(plain(&num("5e-324")), format!("0.{}5", "0".repeat(323)));
    assert_eq!(num("-1e99999999999999999999999"), Number::Infinite { negative: true });
    assert_eq!(plain(&num("1e-99999999999999999999999")), "0");
}

#[test]
fn half_a_cent_is_compared_without_rounding() {
    let zero = num("0");
    assert!(money_eq(&num("0.0049999995"), &zero));
    assert!(money_eq(&num("0.004999999999999999999999"), &zero));
    assert!(!money_eq(&num("0.005"), &zero));
    assert!(!money_eq(&num("0.0050000000001"), &zero));
    assert!(money_eq(&num("-0.0049999995"), &zero));
    assert!(money_eq(&num("0.0025000001"), &num("-0.0024999998")));
    assert!(!money_eq(&num("0.0025000001"), &num("-0.0024999999")));
}

#[test]
fn magnitudes_overflow_where_floats_do() {
    let texts = [
        "1e308", "1.7976931348623157e308", "1.7976931348623158e308", "1.7976931348623159e308",
        "1.8e308", "-1.8e308", "2e308", "1e309", "179769313486231580793728971405303415079934132710037826936173778980444968292764750946649017977587207096330286416692887910946555547851940402630657488671505820681908902000708383676273854845817711531764475730270069855571366959622842914819860834936475292719074168444365510704342711559699508093042880177904174497791",
        "179769313486231580793728971405303415079934132710037826936173778980444968292764750946649017977587207096330286416692887910946555547851940402630657488671505820681908902000708383676273854845817711531764475730270069855571366959622842914819860834936475292719074168444365510704342711559699508093042880177904174497792",
    ];
    for t in texts {
        let f: f64 = t.parse().unwrap();
        let n = num(t);
        assert_eq!(matches!(n, Number::Infinite { .. }), f.is_infinite(), "{t}");
    }
}

#[test]
fn sums_follow_float_sign_rules() {
    let pos = num("0.000000005");
    let neg = num("-0.000000005");
    let zero = add_numbers(&pos, &neg);
    assert!(matches!(zero, Number::Finite { negative: false, .. }));
    assert_eq!(plain(&zero), "0");
    assert_eq!(add_numbers(&num("inf"), &num("-inf")), Number::NotANumber);
    assert_eq!(add_numbers(&Number::NotANumber, &pos), Number::NotANumber);
    assert_eq!(add_numbers(&num("1e308"), &num("1e308")), Number::Infinite { negative: false });
    let f: f64 = 1e308 + 1e308;
    assert!(f.is_infinite());
}

#[test]
fn large_amounts_add_up_exactly() {
    let big = num("1e30");
    let total = add_numbers(&big, &num("0"));
    assert!(money_eq(&big, &total));
    assert_eq!(plain(&add_numbers(&num("1e30"), &num("0.01"))), format!("1{}.01", "0".repeat(30)));
    assert!(!money_eq(&num("1e30"), &add_numbers(&num("1e30"), &num("0.01"))));
    assert_eq!(two(&num("123456789012345678901234567890.125")), "123456789012345678901234567890.12");
}

#[test]
fn money_is_equal_within_half_a_cent() {
    let a = num("109.00");
    assert!(money_eq(&a, &num("109.004")));
    assert!(!money_eq(&a, &num("109.005")));
    assert!(!money_eq(&a, &num("119")));
    assert!(money_eq(&num("-0.001"), &num("0.002")));
    assert!(!money_eq(&Number::NotANumber, &Number::NotANumber));
    assert!(!money_eq(&num("inf"), &num("inf")));
}

#[test]
fn sums_do_not_depend_on_order() {
    let values: Vec<Number> = ["12.34", "-0.01", "1e3", "-0", "inf", "NaN", "0.000000001", "1e300"]
        .iter()
        .map(|t| num(t))
        .collect();
    for a in &values {
        for b in &values {
            assert_eq!(add_numbers(a, b), add_numbers(b, a));
            assert_eq!(money_eq(a, b), money_eq(b, a));
        }
    }
    assert_eq!(add_numbers(&num("0.1"), &num("0.2")), num("0.3"));
}

#[test]
fn a_rate_is_compared_as_written() {
    for t in ["9", "9.0", "+9.000", "0.9e1", "90e-1", "9e0", "900E-2"] {
        assert!(text_equals_units(t, 9), "{t}");
    }
    for t in ["9.0000000001", "8.99", "-9", "10", "9e1", "0.9", "9e-99999999999999999999999", "9e99999999999999999999999", "abc", ""] {
        assert!(!text_equals_units(t, 9), "{t}");
    }
    assert!(text_equals_units("-0", 0));
    assert!(text_equals_units("0e5", 0));
    assert!(!text_equals_units("0.1", 0));
}
