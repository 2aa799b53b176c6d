use borg_extract::text::decimal_str;
use borg_extract::text::decimal_u32;
use borg_extract::text::hex_str;
use borg_extract::text::number;
use borg_extract::text::number_behind;

#[test]
fn hex_of_nothing_is_empty() {
    assert_eq!(hex_str(&[]), "");
}

#[test]
fn hex_of_one_byte_has_no_space() {
    assert_eq!(hex_str(&[0x0a]), "0A");
    assert_eq!(hex_str(&[0x00]), "00");
    assert_eq!(hex_str(&[0xff]), "FF");
}

#[test]
fn hex_puts_one_space_between_bytes() {
    assert_eq!(hex_str(&[0xde, 0xad, 0xbe, 0xef]), "DE AD BE EF");
    assert_eq!(hex_str(&[0x01, 0x23, 0x45, 0x67, 0x89]), "01 23 45 67 89");
}

#[test]
fn hex_matches_the_formatter() {
    let bytes: Vec<u8> = (0..=255u8).collect();
    let mut expected = String::new();
    for byte in &bytes {
        expected.push_str(&format!("{byte:02X} "));
    }
    expected.pop();
    assert_eq!(hex_str(&bytes), expected);
}

#[test]
fn number_reads_decimal_names() {
    assert_eq!(number("0"), Some(0));
    assert_eq!(number("12"), Some(12));
    assert_eq!(number("007"), Some(7));
    assert_eq!(number("4294967295"), Some(u32::MAX));
}

#[test]
fn number_takes_a_plus_sign() {
    assert_eq!(number("+5"), Some(5));
    assert_eq!(number("+"), None);
    assert_eq!(number("++5"), None);
    assert_eq!(number("5+"), None);
}

#[test]
fn number_refuses_what_is_no_number() {
    assert_eq!(number(""), None);
    assert_eq!(number("abc"), None);
    assert_eq!(number("12a"), None);
    assert_eq!(number("-1"), None);
    assert_eq!(number(" 1"), None);
    assert_eq!(number("1 "), None);
    assert_eq!(number("1.5"), None);
    assert_eq!(number("\u{ff11}\u{ff12}"), None);
    assert_eq!(number("README"), None);
}

#[test]
fn number_refuses_what_does_not_fit() {
    assert_eq!(number("4294967296"), None);
    assert_eq!(number("99999999999999999999999999"), None);
    assert_eq!(number("00000000000000000000000001"), Some(1));
}

#[test]
fn number_agrees_with_the_standard_parser() {
    for name in ["0", "1", "42", "+42", "-42", "", "+", "x", "4294967295", "4294967296", "0x10", "1e3"] {
        assert_eq!(number(name), name.parse::<u32>().ok(), "{}", name);
    }
}

#[test]
fn decimal_of_bytes() {
    assert_eq!(decimal_u32(b"123"), Some(123));
    assert_eq!(decimal_u32(&[0x31, 0xff]), None);
}

#[test]
fn number_behind_a_prefix() {
    assert_eq!(number_behind("index.", "index.12"), Some(12));
    assert_eq!(number_behind("hints.", "hints.0"), Some(0));
    assert_eq!(number_behind("index.", "index."), None);
    assert_eq!(number_behind("index.", "index"), None);
    assert_eq!(number_behind("index.", "hints.12"), None);
    assert_eq!(number_behind("index.", "index.12.tmp"), None);
    assert_eq!(number_behind("index.", "xindex.12"), None);
    assert_eq!(number_behind("", "12"), Some(12));
}

#[test]
fn decimal_str_spells_numbers() {
    assert_eq!(decimal_str(0), "0");
    assert_eq!(decimal_str(7), "7");
    assert_eq!(decimal_str(10), "10");
    assert_eq!(decimal_str(4096), "4096");
    assert_eq!(decimal_str(1_000_000), "1000000");
    assert_eq!(decimal_str(usize::MAX), usize::MAX.to_string());
}

#[test]
fn decimal_str_is_read_back_by_number() {
    for n in [0u32, 1, 9, 10, 99, 100, 65_535, 4_294_967_295] {
        assert_eq!(number(&decimal_str(n as usize)), Some(n));
    }
}
