//! Conversions from the bytes of a word, and from the text of a line, to a
//! value.

use vstd::prelude::*;
use vstd::utf8::{decode_utf8, decode_utf8_encode_utf8, encode_utf8, valid_utf8};
use crate::decimal::{
    decimal, has_sign, is_digit, lemma_wrap_in_range, magnitude, signed_decimal,
};

verus! {

/// A type whose values can be read from the bytes of a word.
pub trait FromAscii: Sized {
    /// True when `src` writes a value of this type.
    spec fn accepts(src: Seq<u8>) -> bool;

    /// True when `value` is the value that `src` writes.
    spec fn denotes(src: Seq<u8>, value: Self) -> bool;

    /// The value that `src` writes, or `None` when it writes none.
    fn from_ascii(src: &[u8]) -> (r: Option<Self>)
        ensures
            r is Some <==> Self::accepts(src@),
            r matches Some(value) ==> Self::denotes(src@, value),
    ;
}

/// A single byte read as the character with that code.
impl FromAscii for char {
    open spec fn accepts(src: Seq<u8>) -> bool {
        src.len() == 1
    }

    open spec fn denotes(src: Seq<u8>, value: char) -> bool {
        value as u32 == src[0]
    }

    fn from_ascii(src: &[u8]) -> (r: Option<char>) {
        if src.len() != 1 {
            return None;
        }
        Some(src[0] as char)
    }
}

/// What `core::str::from_utf8` returns, as an `Option`: the text that `src`
/// encodes when `src` is well-formed UTF-8, and nothing when it is not.
#[verifier::external_body]
pub(crate) fn utf8_text(src: &[u8]) -> (r: Option<&str>)
    ensures
        r is Some <==> valid_utf8(src@),
        r matches Some(text) ==> text@ == decode_utf8(src@),
{
    core::str::from_utf8(src).ok()
}

/// Well-formed UTF-8 read as an owned string.
impl FromAscii for String {
    open spec fn accepts(src: Seq<u8>) -> bool {
        valid_utf8(src)
    }

    open spec fn denotes(src: Seq<u8>, value: String) -> bool {
        value@ == decode_utf8(src)
    }

    fn from_ascii(src: &[u8]) -> (r: Option<String>) {
        match utf8_text(src) {
            Some(text) => Some(text.to_owned()),
            None => None,
        }
    }
}

/// A type whose values can be read from the text of a line.
pub trait FromText: Sized {
    /// True when `text` writes a value of this type.
    spec fn accepts_text(text: Seq<char>) -> bool;

    /// True when `value` is the value that `text` writes.
    spec fn denotes_text(text: Seq<char>, value: Self) -> bool;

    /// The value that `text` writes, or `None` when it writes none.
    fn from_text(text: &str) -> (r: Option<Self>)
        ensures
            r is Some <==> Self::accepts_text(text@),
            r matches Some(value) ==> Self::denotes_text(text@, value),
    ;
}

/// Any line is a string: the line itself.
impl FromText for String {
    open spec fn accepts_text(text: Seq<char>) -> bool {
        true
    }

    open spec fn denotes_text(text: Seq<char>, value: String) -> bool {
        value@ == text
    }

    fn from_text(text: &str) -> (r: Option<String>) {
        Some(text.to_owned())
    }
}

/// What the parsers of words turn away: a byte that is no digit, anywhere in
/// an unsigned literal and anywhere but in the place of the sign in a signed
/// one; a sign with nothing behind it; for a character, any length but one;
/// for a string, bytes that are not well-formed UTF-8.
pub proof fn lemma_rejected_words(src: Seq<u8>, i: int)
    ensures
        0 <= i < src.len() && !is_digit(src[i]) ==> {
            &&& !u8::accepts(src)
            &&& !u16::accepts(src)
            &&& !u32::accepts(src)
            &&& !u64::accepts(src)
            &&& !usize::accepts(src)
        },
        0 <= i < src.len() && !is_digit(src[i]) && (i > 0 || !has_sign(src)) ==> {
            &&& !i8::accepts(src)
            &&& !i16::accepts(src)
            &&& !i32::accepts(src)
            &&& !i64::accepts(src)
            &&& !isize::accepts(src)
        },
        src.len() == 0 || (src.len() == 1 && has_sign(src)) ==> {
            &&& !u8::accepts(src)
            &&& !u16::accepts(src)
            &&& !u32::accepts(src)
            &&& !u64::accepts(src)
            &&& !usize::accepts(src)
            &&& !i8::accepts(src)
            &&& !i16::accepts(src)
            &&& !i32::accepts(src)
            &&& !i64::accepts(src)
            &&& !isize::accepts(src)
        },
        src.len() != 1 ==> !char::accepts(src),
        !valid_utf8(src) ==> !<String as FromAscii>::accepts(src),
{
    if 0 <= i < src.len() && !is_digit(src[i]) {
        if i > 0 || !has_sign(src) {
            let m = magnitude(src);
            if has_sign(src) {
                assert(m[i - 1] == src[i]);
            }
        }
    }
    if src.len() == 1 && has_sign(src) {
        assert(!is_digit(src[0]));
    }
}

/// Where the number that a literal writes fits the type, the parser returns
/// that number: nothing wraps around.
pub proof fn lemma_value_in_range(src: Seq<u8>)
    ensures
        forall|v: u8|
            decimal(src) <= u8::MAX && #[trigger] u8::denotes(src, v) ==> v == decimal(src),
        forall|v: u16|
            decimal(src) <= u16::MAX && #[trigger] u16::denotes(src, v) ==> v == decimal(src),
        forall|v: u32|
            decimal(src) <= u32::MAX && #[trigger] u32::denotes(src, v) ==> v == decimal(src),
        forall|v: u64|
            decimal(src) <= u64::MAX && #[trigger] u64::denotes(src, v) ==> v == decimal(src),
        forall|v: usize|
            decimal(src) <= usize::MAX && #[trigger] usize::denotes(src, v) ==> v == decimal(src),
        forall|v: i8|
            i8::MIN <= signed_decimal(src) <= i8::MAX && #[trigger] i8::denotes(src, v) ==> v
                == signed_decimal(src),
        forall|v: i16|
            i16::MIN <= signed_decimal(src) <= i16::MAX && #[trigger] i16::denotes(src, v) ==> v
                == signed_decimal(src),
        forall|v: i32|
            i32::MIN <= signed_decimal(src) <= i32::MAX && #[trigger] i32::denotes(src, v) ==> v
                == signed_decimal(src),
        forall|v: i64|
            i64::MIN <= signed_decimal(src) <= i64::MAX && #[trigger] i64::denotes(src, v) ==> v
                == signed_decimal(src),
        forall|v: isize|
            isize::MIN <= signed_decimal(src) <= isize::MAX && #[trigger] isize::denotes(src, v)
                ==> v == signed_decimal(src),
{
    lemma_wrap_in_range(decimal(src) as int, 0x100);
    lemma_wrap_in_range(decimal(src) as int, 0x1_0000);
    lemma_wrap_in_range(decimal(src) as int, 0x1_0000_0000);
    lemma_wrap_in_range(decimal(src) as int, 0x1_0000_0000_0000_0000);
    lemma_wrap_in_range(decimal(src) as int, usize::MAX + 1);
    lemma_wrap_in_range(signed_decimal(src), 0x100);
    lemma_wrap_in_range(signed_decimal(src), 0x1_0000);
    lemma_wrap_in_range(signed_decimal(src), 0x1_0000_0000);
    lemma_wrap_in_range(signed_decimal(src), 0x1_0000_0000_0000_0000);
    lemma_wrap_in_range(signed_decimal(src), usize::MAX + 1);
}

/// A string read from a word holds exactly the bytes of that word.
pub proof fn lemma_string_keeps_bytes(src: Seq<u8>, value: String)
    requires
        <String as FromAscii>::accepts(src),
        <String as FromAscii>::denotes(src, value),
    ensures
        encode_utf8(value@) == src,
{
    decode_utf8_encode_utf8(src);
}

} // verus!
