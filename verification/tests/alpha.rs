use identifiers::{num2alpha, num2decimal, MODULO};

fn shortlex_lt(a: &str, b: &str) -> bool {
    a.len() < b.len() || (a.len() == b.len() && a < b)
}

#[test]
fn alphabet_has_26_letters() {
    assert_eq!(MODULO, 26);
}

#[test]
fn base_cases() {
    assert_eq!(num2alpha(0), "A");
    assert_eq!(num2alpha(25), "Z");
    assert_eq!(num2alpha(26), "AA");
    assert_eq!(num2alpha(51), "AZ");
    assert_eq!(num2alpha(701), "ZZ");
    assert_eq!(num2alpha(702), "AAA");
}

#[test]
fn first_letters() {
    assert_eq!(num2alpha(1), "B");
    assert_eq!(num2alpha(27), "AB");
    assert_eq!(num2alpha(52), "BA");
    assert_eq!(num2alpha(100), "CW");
    assert_eq!(num2alpha(1000), "ALM");
}

#[test]
fn zero_is_not_empty() {
    assert_eq!(num2alpha(0).len(), 1);
}

#[test]
fn length_grows_at_the_boundaries() {
    for n in 0..26u32 {
        assert_eq!(num2alpha(n).len(), 1);
    }
    for n in 26..702u32 {
        assert_eq!(num2alpha(n).len(), 2);
    }
    assert_eq!(num2alpha(18277), "ZZZ");
    assert_eq!(num2alpha(18278), "AAAA");
}

#[test]
fn largest_number() {
    assert_eq!(num2alpha(u32::MAX), "MWLQKWV");
}

#[test]
fn only_capital_letters() {
    for n in 0..20000u32 {
        assert!(num2alpha(n).chars().all(|c| ('A'..='Z').contains(&c)));
    }
}

#[test]
fn different_numbers_have_different_letters() {
    let all: Vec<String> = (0..3000u32).map(num2alpha).collect();
    for i in 0..all.len() {
        for j in (i + 1)..all.len() {
            assert_ne!(all[i], all[j]);
        }
    }
}

#[test]
fn order_is_kept_with_shorter_first() {
    let mut before = num2alpha(0);
    for n in 1..20000u32 {
        let next = num2alpha(n);
        assert!(shortlex_lt(&before, &next), "{} {}", before, next);
        before = next;
    }
}

#[test]
fn order_across_the_boundaries() {
    assert!(shortlex_lt(&num2alpha(25), &num2alpha(26)));
    assert!(shortlex_lt(&num2alpha(701), &num2alpha(702)));
    assert!(!shortlex_lt(&num2alpha(26), &num2alpha(25)));
    assert!(!shortlex_lt(&num2alpha(702), &num2alpha(701)));
}

#[test]
fn dictionary_order_within_one_length() {
    for n in 26..701u32 {
        assert!(num2alpha(n) < num2alpha(n + 1));
    }
    assert!(num2alpha(702) < num2alpha(18277));
}

#[test]
fn dictionary_order_turns_at_a_boundary() {
    assert!(num2alpha(26) < num2alpha(25));
    assert!(num2alpha(702) < num2alpha(701));
    assert!(num2alpha(0) < num2alpha(26));
    assert!(num2alpha(1) < num2alpha(52));
}

#[test]
fn decimal_digits() {
    assert_eq!(num2decimal(0), "0");
    assert_eq!(num2decimal(9), "9");
    assert_eq!(num2decimal(10), "10");
    assert_eq!(num2decimal(1905), "1905");
    assert_eq!(num2decimal(u32::MAX), "4294967295");
}

#[test]
fn decimal_digits_as_the_standard_library_writes_them() {
    for n in (0..200000u32).step_by(7) {
        assert_eq!(num2decimal(n), n.to_string());
    }
}
