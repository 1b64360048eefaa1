use drain::number::{parse_u32, parse_u64, push_decimal, show_decimal};
use drain::text::chars_of;

#[test]
fn decimal_round_trip() {
    for n in [0u64, 1, 9, 10, 99, 100, 4294967295, 4294967296, u64::MAX - 1, u64::MAX] {
        assert_eq!(show_decimal(n), n.to_string());
        assert_eq!(parse_u64(&chars_of(&show_decimal(n))), Some(n));
    }
    assert_eq!(show_decimal(18446744073709551615), "18446744073709551615");
    assert_eq!(parse_u64(&chars_of("18446744073709551616")), None);
    let mut s = String::from("v");
    push_decimal(&mut s, 42);
    assert_eq!(s, "v42");
}

#[test]
fn numbers_are_read_as_std_reads_them() {
    for s in [
        "", "+", "-", "+7", "-7", "007", "12a", " 12", "12 ", "4294967295", "4294967296",
        "18446744073709551615", "99999999999999999999", "\u{661}", "+-1", "1_000",
    ] {
        assert_eq!(parse_u64(&chars_of(s)), s.parse::<u64>().ok(), "{:?}", s);
        assert_eq!(parse_u32(&chars_of(s)), s.parse::<u32>().ok(), "{:?}", s);
    }
}
