//! The three message transforms and the decimal rendering they rest on.

use hashattacks::messagetransform::{
    append_number_to_message, generate_random_ascii, swap_similar, switch_case, MessageTransform,
};
use hashattacks::strutil::{parse_u64_str, u128_to_string, u64_to_string, usize_to_string};

#[test]
fn decimal_rendering() {
    assert_eq!(u128_to_string(0), "0");
    assert_eq!(u128_to_string(7), "7");
    assert_eq!(u128_to_string(1234567890123456789012345678901u128), "1234567890123456789012345678901");
    assert_eq!(u64_to_string(18446744073709551615), "18446744073709551615");
    assert_eq!(usize_to_string(30), "30");
}

#[test]
fn decimal_parsing() {
    let s = "x12345y";
    assert_eq!(parse_u64_str(s, 1, 6), Some(12345));
    assert_eq!(parse_u64_str(s, 0, 6), None);
    assert_eq!(parse_u64_str(s, 1, 1), None);
    assert_eq!(parse_u64_str("18446744073709551615", 0, 20), Some(u64::MAX));
    assert_eq!(parse_u64_str("18446744073709551616", 0, 20), None);
}

#[test]
fn append_number() {
    assert_eq!(append_number_to_message("msg", 0), "msg0");
    assert_eq!(append_number_to_message("msg", 42), "msg42");
}

#[test]
fn sequence_transform_appends_and_counts() {
    let mut transform = MessageTransform::AppendNumberInSequence(1);
    assert_eq!(transform.transform("m"), "m1");
    assert_eq!(transform.transform("m"), "m2");
    assert_eq!(transform.transform("other"), "other3");
}

#[test]
fn sequence_transform_outputs_pairwise_distinct() {
    let mut transform = MessageTransform::AppendNumberInSequence(1);
    let mut outputs: Vec<String> = Vec::new();
    for _ in 0..1000 {
        outputs.push(transform.transform("base"));
    }
    for i in 0..outputs.len() {
        for j in (i + 1)..outputs.len() {
            assert_ne!(outputs[i], outputs[j]);
        }
    }
}

#[test]
fn set_start_number_only_for_sequence() {
    let mut sequence = MessageTransform::AppendNumberInSequence(1);
    assert!(sequence.set_start_number(500).is_ok());
    assert_eq!(sequence.transform("m"), "m500");

    let mut mutate = MessageTransform::Mutate;
    assert!(mutate.set_start_number(500).is_err());

    let mut random = MessageTransform::AppendRandomNumber;
    assert!(random.set_start_number(500).is_err());
}

#[test]
fn random_transform_appends_digits() {
    let mut transform = MessageTransform::AppendRandomNumber;
    let output = transform.transform("base");
    assert!(output.starts_with("base"));
    let suffix = &output["base".len()..];
    assert!(!suffix.is_empty());
    assert!(suffix.chars().all(|c| c.is_ascii_digit()));
    assert_ne!(suffix, "0");
}

#[test]
fn mutate_transform_keeps_length_at_least() {
    let mut transform = MessageTransform::Mutate;
    for _ in 0..20 {
        let output = transform.transform("Some huge message");
        assert!(output.chars().count() >= "Some huge message".chars().count());
    }
    assert_eq!(transform.transform(""), "");
}

#[test]
fn switch_case_flips() {
    assert_eq!(switch_case('a'), "A");
    assert_eq!(switch_case('Z'), "z");
    assert_eq!(switch_case('7'), "7".to_uppercase());
}

#[test]
fn swap_similar_picks_other_class_member() {
    for _ in 0..50 {
        let out = swap_similar('a');
        assert!(out == "A" || out == "@" || out == "4");
    }
    for _ in 0..20 {
        let out = swap_similar('\t');
        assert!(out == " " || out == "_");
    }
    assert_eq!(swap_similar('^'), "*");
    assert_eq!(swap_similar('й'), "*");
}

#[test]
fn random_ascii_is_printable() {
    for _ in 0..100 {
        let out = generate_random_ascii();
        assert_eq!(out.chars().count(), 1);
        let c = out.chars().next().unwrap();
        assert!((' '..='~').contains(&c));
    }
}
