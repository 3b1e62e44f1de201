use identifiers::{is_name, split_fields, GenerateError, Identifier, Strategy};

fn sample() -> Identifier<'static> {
    Identifier {
        format: "prefix separator category separator increment",
        prefix: "PCN",
        category: "XX",
        initial: 0,
        separator: "-",
    }
}

fn chars(s: &str) -> Vec<char> {
    s.chars().collect()
}

#[test]
fn numeric_identifier() {
    assert_eq!(sample().increment_by(10), Ok(String::from("PCN-XX-10")));
}

#[test]
fn alpha_identifier() {
    assert_eq!(sample().increment_alpha_by(100), Ok(String::from("PCN-XX-CW")));
}

#[test]
fn shorthands_are_generate() {
    let id = sample();
    for n in [0u32, 1, 25, 26, 700, 99999] {
        assert_eq!(id.increment_by(n), id.generate(n, Strategy::NUMERIC));
        assert_eq!(id.increment_alpha_by(n), id.generate(n, Strategy::ALPHA));
    }
}

#[test]
fn initial_is_added() {
    let mut id = sample();
    id.initial = 90;
    assert_eq!(id.increment_by(10), Ok(String::from("PCN-XX-100")));
    assert_eq!(id.increment_alpha_by(10), Ok(String::from("PCN-XX-CW")));
}

#[test]
fn fields_come_in_the_order_of_the_format() {
    let mut id = sample();
    id.format = "increment separator prefix category";
    assert_eq!(id.increment_by(7), Ok(String::from("7-PCNXX")));
    assert_eq!(id.increment_alpha_by(7), Ok(String::from("H-PCNXX")));
}

#[test]
fn a_field_may_come_twice() {
    let mut id = sample();
    id.format = "increment increment prefix prefix";
    assert_eq!(id.increment_by(3), Ok(String::from("33PCNPCN")));
}

#[test]
fn same_call_same_identifier() {
    let id = sample();
    let first = id.generate(12345, Strategy::ALPHA);
    let second = id.generate(12345, Strategy::ALPHA);
    assert_eq!(first, second);
    assert_eq!(id.increment_by(12345), id.increment_by(12345));
    assert_eq!(sample().increment_by(12345), id.increment_by(12345));
}

#[test]
fn unknown_token_is_dropped() {
    let mut with = sample();
    with.format = "prefix separator serial category separator increment";
    let without = sample();
    assert_eq!(with.increment_by(10), without.increment_by(10));
    assert_eq!(with.increment_alpha_by(100), without.increment_alpha_by(100));
    assert_eq!(with.increment_by(10), Ok(String::from("PCN-XX-10")));
}

#[test]
fn names_are_matched_exactly() {
    let mut id = sample();
    id.format = "Prefix prefi prefixx increment1 category";
    assert_eq!(id.increment_by(10), Ok(String::from("XX")));
}

#[test]
fn more_spaces_add_nothing() {
    let mut id = sample();
    id.format = " prefix  separator   increment ";
    assert_eq!(id.increment_by(10), Ok(String::from("PCN-10")));
}

#[test]
fn empty_format_gives_empty_identifier() {
    let mut id = sample();
    id.format = "";
    assert_eq!(id.increment_by(10), Ok(String::new()));
    id.format = "nothing known";
    assert_eq!(id.increment_alpha_by(10), Ok(String::new()));
}

#[test]
fn fields_may_hold_any_text() {
    let id = Identifier {
        format: "prefix separator increment",
        prefix: "prefix category",
        category: "",
        initial: 5,
        separator: " \u{2192} ",
    };
    assert_eq!(id.increment_by(0), Ok(String::from("prefix category \u{2192} 5")));
}

#[test]
fn counter_out_of_range() {
    let mut id = sample();
    id.initial = u32::MAX;
    assert_eq!(id.increment_by(1), Err(GenerateError::ArithmeticOverflow));
    assert_eq!(id.increment_alpha_by(1), Err(GenerateError::ArithmeticOverflow));
    assert_eq!(id.generate(u32::MAX, Strategy::NUMERIC), Err(GenerateError::ArithmeticOverflow));
    id.initial = 1;
    assert_eq!(id.increment_by(u32::MAX), Err(GenerateError::ArithmeticOverflow));
}

#[test]
fn largest_counter() {
    let mut id = sample();
    id.initial = u32::MAX - 5;
    assert_eq!(id.increment_by(5), Ok(String::from("PCN-XX-4294967295")));
    assert_eq!(id.increment_alpha_by(5), Ok(String::from("PCN-XX-MWLQKWV")));
}

#[test]
fn format_without_counter_never_overflows() {
    let mut id = sample();
    id.format = "prefix separator category";
    id.initial = u32::MAX;
    assert_eq!(id.increment_by(1), Ok(String::from("PCN-XX")));
}

#[test]
fn split_at_every_space() {
    assert_eq!(split_fields("prefix increment"), vec![chars("prefix"), chars("increment")]);
    assert_eq!(split_fields("a  b"), vec![chars("a"), chars(""), chars("b")]);
    assert_eq!(split_fields(" a "), vec![chars(""), chars("a"), chars("")]);
    assert_eq!(split_fields(""), vec![chars("")]);
    assert_eq!(split_fields("a\tb"), vec![chars("a\tb")]);
}

#[test]
fn split_as_the_standard_library_splits() {
    for text in ["", " ", "  ", "x", "x y", " x  y z ", "prefix separator \u{e9}t\u{e9}"] {
        let expected: Vec<Vec<char>> = text.split(" ").map(chars).collect();
        assert_eq!(split_fields(text), expected);
    }
}

#[test]
fn name_of_a_token() {
    assert!(is_name(&chars("prefix"), "prefix"));
    assert!(!is_name(&chars("prefi"), "prefix"));
    assert!(!is_name(&chars("prefixx"), "prefix"));
    assert!(!is_name(&chars("prefiy"), "prefix"));
    assert!(is_name(&chars(""), ""));
    assert!(!is_name(&chars(""), "prefix"));
}
