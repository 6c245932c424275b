use cfg_fuzzer::text::{chars_of, parse_decimal, push_decimal, push_str, sub_chars};

#[test]
fn decimal_text_of_numbers() {
    for (n, t) in [(0usize, "0"), (7, "7"), (42, "42"), (255, "255"), (1000, "1000")] {
        let mut out = Vec::new();
        push_decimal(&mut out, n);
        assert_eq!(out.iter().collect::<String>(), t);
    }
    let mut out = vec!['x'];
    push_decimal(&mut out, usize::MAX);
    assert_eq!(out.iter().collect::<String>(), format!("x{}", usize::MAX));
}

#[test]
fn decimal_round_trip() {
    for n in [0usize, 1, 9, 10, 99, 12345, usize::MAX] {
        let mut out = Vec::new();
        push_decimal(&mut out, n);
        assert_eq!(parse_decimal(&out), Some(n));
    }
}

#[test]
fn parse_decimal_cases() {
    assert_eq!(parse_decimal(&chars_of("007")), Some(7));
    assert_eq!(parse_decimal(&chars_of("")), None);
    assert_eq!(parse_decimal(&chars_of("1a")), None);
    assert_eq!(parse_decimal(&chars_of("99999999999999999999999")), None);
}

#[test]
fn chars_and_slices() {
    let cs = chars_of("héllo");
    assert_eq!(cs, vec!['h', 'é', 'l', 'l', 'o']);
    assert_eq!(sub_chars(&cs, 1, 3), vec!['é', 'l']);
    let mut out = vec!['a'];
    push_str(&mut out, "bc");
    assert_eq!(out, vec!['a', 'b', 'c']);
}
