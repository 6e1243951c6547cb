use hanower::text::{chars_of, digit_of, parse_i64, parse_i64_between, push_decimal};

#[test]
fn parse_i64_agrees_with_the_standard_parser() {
    let inputs = [
        "",
        "0",
        "-0",
        "+0",
        "7",
        "+7",
        "-7",
        "007",
        "-007",
        "+",
        "-",
        "+-5",
        "--5",
        "5-",
        " 5",
        "5 ",
        "5_000",
        "0x10",
        "1e3",
        "1.0",
        "12a",
        "a12",
        "٣",
        "５",
        "9223372036854775807",
        "9223372036854775808",
        "+9223372036854775807",
        "-9223372036854775808",
        "-9223372036854775809",
        "00000000000000000000000000009223372036854775807",
        "-00000000000000000000000000009223372036854775808",
        "99999999999999999999999999999999999999999999",
        "-99999999999999999999999999999999999999999999",
        "18446744073709551616",
        "1844674407370955161x",
        "256",
        "1000",
        "-11000",
    ];
    for input in inputs {
        assert_eq!(parse_i64(input), input.parse::<i64>().ok(), "{:?}", input);
    }
}

#[test]
fn parse_i64_exact_values() {
    assert_eq!(parse_i64("42"), Some(42));
    assert_eq!(parse_i64("-42"), Some(-42));
    assert_eq!(parse_i64("+42"), Some(42));
    assert_eq!(parse_i64("9223372036854775807"), Some(i64::MAX));
    assert_eq!(parse_i64("-9223372036854775808"), Some(i64::MIN));
    assert_eq!(parse_i64("9223372036854775808"), None);
    assert_eq!(parse_i64(""), None);
    assert_eq!(parse_i64("-"), None);
    assert_eq!(parse_i64("4 2"), None);
}

#[test]
fn parse_i64_between_reads_only_its_part() {
    let chars: Vec<char> = "ab-12..=345".chars().collect();
    assert_eq!(parse_i64_between(&chars, 2, 5), Some(-12));
    assert_eq!(parse_i64_between(&chars, 3, 5), Some(12));
    assert_eq!(parse_i64_between(&chars, 8, 11), Some(345));
    assert_eq!(parse_i64_between(&chars, 8, 8), None);
    assert_eq!(parse_i64_between(&chars, 0, 5), None);
    assert_eq!(parse_i64_between(&chars, 2, 6), None);
}

#[test]
fn chars_of_gives_every_character() {
    assert_eq!(chars_of(""), Vec::<char>::new());
    assert_eq!(chars_of("1..=5"), vec!['1', '.', '.', '=', '5']);
    assert_eq!(chars_of("aé５z"), vec!['a', 'é', '５', 'z']);
}

#[test]
fn digits() {
    assert_eq!(digit_of('0'), Some(0));
    assert_eq!(digit_of('9'), Some(9));
    assert_eq!(digit_of('5'), Some(5));
    assert_eq!(digit_of('/'), None);
    assert_eq!(digit_of(':'), None);
    assert_eq!(digit_of('a'), None);
    assert_eq!(digit_of('５'), None);
}

#[test]
fn push_decimal_agrees_with_the_standard_formatter() {
    for n in [
        0u64,
        1,
        9,
        10,
        11,
        99,
        100,
        101,
        1234567890,
        u64::MAX,
        u64::MAX - 1,
        10000000000000000000,
    ] {
        let mut text = String::from("n = ");
        push_decimal(&mut text, n);
        assert_eq!(text, format!("n = {}", n));
    }
}

#[test]
fn decimal_round_trip() {
    for n in [0i64, 1, 10, 12345, i64::MAX] {
        let mut text = String::new();
        push_decimal(&mut text, n as u64);
        assert_eq!(parse_i64(&text), Some(n));
    }
}
