use haversine::{Number, Parser, Value};

fn as_double(number: &Number) -> f64 {
    number.to_text().parse().unwrap()
}

fn parsed_number(text: &str) -> Number {
    match Parser::new(text).parse() {
        Ok(Some(Value::Number(number))) => number,
        other => panic!("{:?} is no number: {:?}", text, other),
    }
}

#[test]
fn number_literals_as_doubles() {
    assert_eq!(as_double(&parsed_number("12")), 12.0);
    assert_eq!(as_double(&parsed_number("12.5")), 12.5);
    assert_eq!(as_double(&parsed_number("-120")), -120.0);
    assert_eq!(as_double(&parsed_number("-12.90")), -12.9);
}

#[test]
fn number_text_is_reduced() {
    assert_eq!(Number::parse("12.5").unwrap().to_text(), "12.5");
    assert_eq!(Number::parse("-120").unwrap().to_text(), "-120");
    assert_eq!(Number::parse("-12.90").unwrap().to_text(), "-12.9");
    assert_eq!(Number::parse("0012.500").unwrap().to_text(), "12.5");
    assert_eq!(Number::parse("0.050").unwrap().to_text(), "0.05");
    assert_eq!(Number::parse("100").unwrap().to_text(), "100");
    assert_eq!(Number::parse("1.").unwrap().to_text(), "1");
    assert_eq!(Number::parse("-.5").unwrap().to_text(), "-0.5");
}

#[test]
fn zero_has_no_sign() {
    assert_eq!(Number::parse("0").unwrap().to_text(), "0");
    assert_eq!(Number::parse("-0").unwrap().to_text(), "0");
    assert_eq!(Number::parse("-0.000").unwrap().to_text(), "0");
    assert_eq!(Number::parse("-0.0"), Number::parse("0"));
    assert!(!Number::parse("-0").unwrap().is_negative());
}

#[test]
fn equal_values_are_equal_numbers() {
    assert_eq!(Number::parse("-12.90"), Number::parse("-12.9"));
    assert_eq!(Number::parse("1.0"), Number::parse("1"));
    assert_eq!(Number::parse("007"), Number::parse("7.000"));
    assert_ne!(Number::parse("1.5"), Number::parse("15"));
    assert_ne!(Number::parse("1"), Number::parse("-1"));
    assert_ne!(Number::parse("10"), Number::parse("1"));
    assert_ne!(Number::parse("0.1"), Number::parse("0.01"));
}

#[test]
fn from_parts_is_significand_over_power_of_ten() {
    assert_eq!(Number::from_parts(false, 125, 1).to_text(), "12.5");
    assert_eq!(Number::from_parts(true, 1290, 2).to_text(), "-12.9");
    assert_eq!(Number::from_parts(false, 5, 3).to_text(), "0.005");
    assert_eq!(Number::from_parts(false, 1200, 5).to_text(), "0.012");
    assert_eq!(Number::from_parts(true, 0, 4).to_text(), "0");
    assert_eq!(
        Number::from_parts(false, u64::MAX, 0).to_text(),
        "18446744073709551615"
    );
    assert_eq!(Number::from_parts(true, 129, 1), Number::parse("-12.90").unwrap());
}

#[test]
fn sign_and_scale() {
    let number = Number::parse("-12.90").unwrap();
    assert!(number.is_negative());
    assert_eq!(number.scale(), 1);
    let number = Number::parse("3").unwrap();
    assert!(!number.is_negative());
    assert_eq!(number.scale(), 0);
}

#[test]
fn digits_beyond_any_machine_integer() {
    let text = "123456789012345678901234567890.000000000000000000001";
    assert_eq!(Number::parse(text).unwrap().to_text(), text);
}

#[test]
fn malformed_number_text() {
    assert_eq!(Number::parse(""), None);
    assert_eq!(Number::parse("-"), None);
    assert_eq!(Number::parse("."), None);
    assert_eq!(Number::parse("-."), None);
    assert_eq!(Number::parse("1.2.3"), None);
    assert_eq!(Number::parse("--1"), None);
    assert_eq!(Number::parse("1-"), None);
    assert_eq!(Number::parse("+1"), None);
    assert_eq!(Number::parse("1e5"), None);
    assert_eq!(Number::parse("1E5"), None);
    assert_eq!(Number::parse("12a"), None);
    assert_eq!(Number::parse(" 1"), None);
    assert_eq!(Number::parse("inf"), None);
}

#[test]
fn from_chars_reads_what_parse_reads() {
    let chars: Vec<char> = "-12.90".chars().collect();
    assert_eq!(Number::from_chars(&chars), Number::parse("-12.90"));
    assert_eq!(Number::from_chars(&['1', 'x']), None);
}

#[test]
fn clone_of_a_number_is_equal() {
    let number = Number::parse("-0.125").unwrap();
    assert_eq!(number.clone(), number);
}

#[test]
fn number_text_is_read_back() {
    for text in ["0", "-12.9", "0.05", "100", "-0.001", "12345678901234567890.5"] {
        let number = Number::parse(text).unwrap();
        assert_eq!(number.to_text(), text);
        assert_eq!(
            Parser::new(&number.to_text()).parse(),
            Ok(Some(Value::Number(number)))
        );
    }
}
