use verhoeff::{extract_digits, verhoeff_generate_check_digit, verhoeff_tables, verhoeff_validate};

fn validate(s: &str) -> bool {
    let (d, p, _) = verhoeff_tables();
    verhoeff_validate(s, &d, &p)
}

fn generate(s: &str) -> Option<u8> {
    let (d, p, inv) = verhoeff_tables();
    verhoeff_generate_check_digit(s, &d, &p, &inv)
}

#[test]
fn known_valid_literal() {
    assert!(validate("2363"));
}

#[test]
fn known_invalid_literal() {
    assert!(!validate("2364"));
}

#[test]
fn check_digit_of_known_number() {
    assert_eq!(generate("236"), Some(3));
}

#[test]
fn hyphens_are_ignored() {
    assert_eq!(validate("8-9-4-6-2-5"), validate("894625"));
    assert_eq!(generate("8-9-4-6-2-5"), generate("894625"));
}

#[test]
fn empty_input() {
    assert!(validate(""));
    assert_eq!(generate(""), Some(0));
}

#[test]
fn input_without_digits_behaves_as_empty() {
    assert!(validate("abc -"));
    assert_eq!(generate("no digits here"), Some(0));
}

#[test]
fn round_trip_on_sample() {
    let s = "4568435486";
    let c = generate(s).unwrap();
    assert!(c < 10);
    assert!(validate(&format!("{}{}", s, c)));
}

#[test]
fn round_trip_on_many_inputs() {
    let samples = [
        "0", "1", "9", "12", "99", "123456789", "89462597507", "00000000", "8-9-4-6-2-5",
        "31415926535897932384626", "x7y",
    ];
    for s in samples.iter() {
        let c = generate(s).unwrap();
        assert!(validate(&format!("{}{}", s, c)), "{}", s);
    }
}

#[test]
fn only_the_generated_digit_validates() {
    let s = "4568435486";
    let c = generate(s).unwrap();
    for k in 0..10u8 {
        assert_eq!(validate(&format!("{}{}", s, k)), k == c);
    }
}

#[test]
fn single_digit_errors_are_detected() {
    assert!(validate("2363"));
    for pos in 0..4 {
        for k in b'0'..=b'9' {
            let mut bytes = b"2363".to_vec();
            if bytes[pos] == k {
                continue;
            }
            bytes[pos] = k;
            let s = String::from_utf8(bytes).unwrap();
            assert!(!validate(&s), "{}", s);
        }
    }
}

#[test]
fn adjacent_transposition_is_detected() {
    assert!(validate("2363"));
    assert!(!validate("3263"));
    assert!(!validate("2633"));
}

#[test]
fn extract_digits_keeps_ascii_digits_in_order() {
    assert_eq!(extract_digits("8-9-4-6-2-5"), vec![8, 9, 4, 6, 2, 5]);
    assert_eq!(extract_digits(""), Vec::<u8>::new());
    assert_eq!(extract_digits("a1b2c3"), vec![1, 2, 3]);
}

#[test]
fn extract_digits_drops_non_ascii_digits() {
    assert_eq!(extract_digits("\u{0663}7\u{00B2}"), vec![7]);
}

#[test]
fn validate_with_published_tables() {
    let (d, p, _) = verhoeff::standard_tables();
    assert!(verhoeff_validate("2363", &d, &p));
    assert!(!verhoeff_validate("2364", &d, &p));
}
