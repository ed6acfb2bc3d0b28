use comp_input::{FromAscii, FromText};

#[test]
fn plus_sign_is_for_signed_integers_only() {
    assert_eq!(u32::from_ascii(b"+5"), None);
    assert_eq!(i32::from_ascii(b"+5"), Some(5));
    assert_eq!(i32::from_ascii(b"-"), None);
    assert_eq!(i32::from_ascii(b"+"), None);
    assert_eq!(u8::from_ascii(b"-1"), None);
}

#[test]
fn unsigned_values() {
    assert_eq!(u8::from_ascii(b"0"), Some(0));
    assert_eq!(u8::from_ascii(b"255"), Some(255));
    assert_eq!(u16::from_ascii(b"65535"), Some(65535));
    assert_eq!(u32::from_ascii(b"4294967295"), Some(u32::MAX));
    assert_eq!(u64::from_ascii(b"18446744073709551615"), Some(u64::MAX));
    assert_eq!(usize::from_ascii(b"12345"), Some(12345));
    assert_eq!(u32::from_ascii(b"007"), Some(7));
}

#[test]
fn unsigned_values_wrap_around() {
    assert_eq!(u8::from_ascii(b"256"), Some(0));
    assert_eq!(u8::from_ascii(b"300"), Some(44));
    assert_eq!(u8::from_ascii(b"1000"), Some(232));
    assert_eq!(u16::from_ascii(b"65536"), Some(0));
    assert_eq!(u16::from_ascii(b"70000"), Some(4464));
    assert_eq!(u32::from_ascii(b"4294967296"), Some(0));
    assert_eq!(u64::from_ascii(b"18446744073709551616"), Some(0));
    assert_eq!(u64::from_ascii(b"18446744073709551626"), Some(10));
    let wide = 1u128 << usize::BITS;
    assert_eq!(usize::from_ascii((wide + 9).to_string().as_bytes()), Some(9));
}

#[test]
fn signed_values() {
    assert_eq!(i8::from_ascii(b"-128"), Some(-128));
    assert_eq!(i8::from_ascii(b"127"), Some(127));
    assert_eq!(i8::from_ascii(b"+127"), Some(127));
    assert_eq!(i8::from_ascii(b"-0"), Some(0));
    assert_eq!(i16::from_ascii(b"-32768"), Some(i16::MIN));
    assert_eq!(i32::from_ascii(b"-2147483648"), Some(i32::MIN));
    assert_eq!(i32::from_ascii(b"2147483647"), Some(i32::MAX));
    assert_eq!(i64::from_ascii(b"-9223372036854775808"), Some(i64::MIN));
    assert_eq!(i64::from_ascii(b"9223372036854775807"), Some(i64::MAX));
    assert_eq!(isize::from_ascii(b"-42"), Some(-42));
}

#[test]
fn signed_values_wrap_around() {
    assert_eq!(i8::from_ascii(b"128"), Some(-128));
    assert_eq!(i8::from_ascii(b"-129"), Some(127));
    assert_eq!(i8::from_ascii(b"255"), Some(-1));
    assert_eq!(i8::from_ascii(b"256"), Some(0));
    assert_eq!(i8::from_ascii(b"-300"), Some(-44));
    assert_eq!(i16::from_ascii(b"32768"), Some(i16::MIN));
    assert_eq!(i32::from_ascii(b"2147483648"), Some(i32::MIN));
    assert_eq!(i64::from_ascii(b"9223372036854775808"), Some(i64::MIN));
    assert_eq!(i64::from_ascii(b"-9223372036854775809"), Some(i64::MAX));
}

#[test]
fn integers_turn_away_what_is_no_literal() {
    for word in [&b""[..], b"x", b"1x", b"x1", b"1 2", b" 1", b"1.5", b"0x10", b"1_000", b"\xb2"] {
        assert_eq!(u8::from_ascii(word), None);
        assert_eq!(u16::from_ascii(word), None);
        assert_eq!(u32::from_ascii(word), None);
        assert_eq!(u64::from_ascii(word), None);
        assert_eq!(usize::from_ascii(word), None);
        assert_eq!(i8::from_ascii(word), None);
        assert_eq!(i16::from_ascii(word), None);
        assert_eq!(i32::from_ascii(word), None);
        assert_eq!(i64::from_ascii(word), None);
        assert_eq!(isize::from_ascii(word), None);
    }
    for word in [&b"--1"[..], b"+-1", b"1-", b"1+1", b"-+", b"++"] {
        assert_eq!(i8::from_ascii(word), None);
        assert_eq!(i64::from_ascii(word), None);
        assert_eq!(isize::from_ascii(word), None);
    }
}

#[test]
fn character_is_exactly_one_byte() {
    assert_eq!(char::from_ascii(b"b"), Some('b'));
    assert_eq!(char::from_ascii(b"+"), Some('+'));
    assert_eq!(char::from_ascii(b"\xe9"), Some('\u{e9}'));
    assert_eq!(char::from_ascii(b""), None);
    assert_eq!(char::from_ascii(b"ab"), None);
    assert_eq!(char::from_ascii("\u{e9}".as_bytes()), None);
}

#[test]
fn string_is_well_formed_utf8() {
    assert_eq!(String::from_ascii(b"Fino."), Some("Fino.".to_string()));
    assert_eq!(String::from_ascii(b""), Some(String::new()));
    assert_eq!(
        String::from_ascii("gr\u{fc}\u{df}e \u{4e16}\u{754c}".as_bytes()),
        Some("gr\u{fc}\u{df}e \u{4e16}\u{754c}".to_string())
    );
    assert_eq!(String::from_ascii(b"\xff"), None);
    assert_eq!(String::from_ascii(b"ab\xc3"), None);
    assert_eq!(String::from_ascii(b"\xed\xa0\x80"), None);
    assert_eq!(String::from_ascii(b"\xc0\x80"), None);
}

#[test]
fn text_of_a_line_is_a_string_as_it_is() {
    assert_eq!(String::from_text("Hello World!"), Some("Hello World!".to_string()));
    assert_eq!(String::from_text(""), Some(String::new()));
    assert_eq!(String::from_text(" 12 "), Some(" 12 ".to_string()));
}
