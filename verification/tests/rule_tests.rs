use life_core::rule::{ParseError, Rule};

#[test]
fn conway_rule_table() {
    let r = Rule::parse("23/3").unwrap();
    for n in 0u8..=8 {
        assert_eq!(r.survive(n), n == 2 || n == 3);
        assert_eq!(r.born(n), n == 3);
    }
}

#[test]
fn parse_is_order_insensitive_and_canonical() {
    let a = Rule::parse("23/3").unwrap();
    let b = Rule::parse("32/3").unwrap();
    assert!(a == b);
    assert_eq!(a.serialize(), "23/3");
    assert_eq!(b.serialize(), "23/3");
}

#[test]
fn parse_duplicates_are_idempotent() {
    let a = Rule::parse("2233/33").unwrap();
    let b = Rule::parse("23/3").unwrap();
    assert!(a == b);
}

#[test]
fn serialize_round_trips() {
    for s in ["23/3", "/", "01234567/01234567", "125/36", "/7", "0/"] {
        let r = Rule::parse(s).unwrap();
        let text = r.serialize();
        let r2 = Rule::parse(&text).unwrap();
        assert!(r == r2);
        assert_eq!(r2.serialize(), text);
    }
}

#[test]
fn parse_empty_segments_is_the_empty_rule() {
    let r = Rule::parse("/").unwrap();
    for n in 0u8..=8 {
        assert!(!r.survive(n));
        assert!(!r.born(n));
    }
}

#[test]
fn parse_rejects_missing_separator() {
    assert_eq!(Rule::parse("233"), Err(ParseError::BadFormat));
}

#[test]
fn parse_rejects_extra_separator() {
    assert_eq!(Rule::parse("2/3/1"), Err(ParseError::BadFormat));
}

#[test]
fn parse_rejects_nondigit_in_survival() {
    assert_eq!(Rule::parse("2a/3"), Err(ParseError::InvalidSurvivalChar));
}

#[test]
fn parse_rejects_survival_digit_out_of_range() {
    assert_eq!(Rule::parse("9/3"), Err(ParseError::SurvivalOutOfRange));
    assert_eq!(Rule::parse("8/3"), Err(ParseError::SurvivalOutOfRange));
}

#[test]
fn parse_rejects_nondigit_in_birth() {
    assert_eq!(Rule::parse("23/x"), Err(ParseError::InvalidBirthChar));
}

#[test]
fn parse_rejects_birth_digit_out_of_range() {
    assert_eq!(Rule::parse("23/8"), Err(ParseError::BirthOutOfRange));
}

#[test]
fn parse_reports_leftmost_offense_survival_first() {
    // survival segment is scanned before the birth segment
    assert_eq!(Rule::parse("9/x"), Err(ParseError::SurvivalOutOfRange));
    // within a segment the leftmost bad character decides
    assert_eq!(Rule::parse("2x9/3"), Err(ParseError::InvalidSurvivalChar));
}

#[test]
fn survive_born_beyond_domain_are_false() {
    let r = Rule::parse("01234567/01234567").unwrap();
    assert!(!r.survive(8));
    assert!(!r.born(8));
    assert!(!r.survive(200));
    assert!(!r.born(200));
}

#[test]
fn serialize_sorts_descending_input() {
    let r = Rule::parse("76543210/10").unwrap();
    assert_eq!(r.serialize(), "01234567/01");
}
