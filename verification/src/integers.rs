//! The parsers of integers, one for each width, unsigned and signed.

use vstd::prelude::*;
use crate::decimal::{
    all_digits, decimal, digit_value, has_sign, is_digit, is_signed_literal, is_unsigned_literal,
    lemma_decimal_push, lemma_not_all_digits, lemma_signed_negate, lemma_signed_step,
    lemma_unsigned_step, lemma_wrap_in_range, magnitude, signed_decimal, wrap_signed,
    wrap_unsigned, MINUS, NINE, PLUS, ZERO,
};
use crate::parse::FromAscii;

verus! {

/// The number that the digit `c` stands for, if `c` is a digit.
pub fn digit(c: u8) -> (r: Option<u8>)
    ensures
        r is Some <==> is_digit(c),
        r matches Some(x) ==> x == digit_value(c) && x < 10,
{
    if ZERO <= c && c <= NINE {
        Some(c - ZERO)
    } else {
        None
    }
}

/// Parts a signed literal into its sign, true for `-`, and what stands behind
/// the sign. There is no such parting of nothing and of a sign alone.
pub fn split_sign(src: &[u8]) -> (r: Option<(bool, &[u8])>)
    ensures
        r is None <==> src@.len() == 0 || (src@.len() == 1 && has_sign(src@)),
        r matches Some((negative, digits)) ==> {
            &&& negative == (src@[0] == MINUS)
            &&& digits@ == magnitude(src@)
            &&& digits@.len() > 0
        },
{
    if src.len() == 0 {
        return None;
    }
    if src[0] == PLUS || src[0] == MINUS {
        if src.len() == 1 {
            return None;
        }
        let digits: &[u8] = vstd::slice::slice_subrange(src, 1, src.len());
        assert(digits@ =~= magnitude(src@));
        Some((src[0] == MINUS, digits))
    } else {
        Some((false, src))
    }
}

/// An unsigned literal read into `u8`. A number too large for the type wraps
/// around.
impl FromAscii for u8 {
    open spec fn accepts(src: Seq<u8>) -> bool {
        is_unsigned_literal(src)
    }

    open spec fn denotes(src: Seq<u8>, value: u8) -> bool {
        value == wrap_unsigned(decimal(src) as int, 0x100)
    }

    fn from_ascii(src: &[u8]) -> (r: Option<u8>) {
        if src.len() == 0 {
            return None;
        }
        let mut res: u8 = 0;
        let mut i: usize = 0;
        proof {
            lemma_wrap_in_range(0, 0x100);
        }
        while i < src.len()
            invariant
                i <= src@.len(),
                all_digits(src@.take(i as int)),
                res == wrap_unsigned(decimal(src@.take(i as int)) as int, 0x100),
            decreases src@.len() - i,
        {
            let x: u8 = match digit(src[i]) {
                Some(x) => x,
                None => {
                    proof {
                        lemma_not_all_digits(src@, i as int);
                    }
                    return None;
                },
            };
            proof {
                lemma_decimal_push(src@, i as int);
                lemma_unsigned_step(
                    decimal(src@.take(i as int)) as int,
                    res as int,
                    x as int,
                    0x100,
                );
            }
            res = res.wrapping_mul(10).wrapping_add(x);
            i = i + 1;
        }
        proof {
            assert(src@.take(src@.len() as int) =~= src@);
        }
        Some(res)
    }
}

/// An unsigned literal read into `u16`. A number too large for the type wraps
/// around.
impl FromAscii for u16 {
    open spec fn accepts(src: Seq<u8>) -> bool {
        is_unsigned_literal(src)
    }

    open spec fn denotes(src: Seq<u8>, value: u16) -> bool {
        value == wrap_unsigned(decimal(src) as int, 0x1_0000)
    }

    fn from_ascii(src: &[u8]) -> (r: Option<u16>) {
        if src.len() == 0 {
            return None;
        }
        let mut res: u16 = 0;
        let mut i: usize = 0;
        proof {
            lemma_wrap_in_range(0, 0x1_0000);
        }
        while i < src.len()
            invariant
                i <= src@.len(),
                all_digits(src@.take(i as int)),
                res == wrap_unsigned(decimal(src@.take(i as int)) as int, 0x1_0000),
            decreases src@.len() - i,
        {
            let x: u16 = match digit(src[i]) {
                Some(x) => x as u16,
                None => {
                    proof {
                        lemma_not_all_digits(src@, i as int);
                    }
                    return None;
                },
            };
            proof {
                lemma_decimal_push(src@, i as int);
                lemma_unsigned_step(
                    decimal(src@.take(i as int)) as int,
                    res as int,
                    x as int,
                    0x1_0000,
                );
            }
            res = res.wrapping_mul(10).wrapping_add(x);
            i = i + 1;
        }
        proof {
            assert(src@.take(src@.len() as int) =~= src@);
        }
        Some(res)
    }
}

/// An unsigned literal read into `u32`. A number too large for the type wraps
/// around.
impl FromAscii for u32 {
    open spec fn accepts(src: Seq<u8>) -> bool {
        is_unsigned_literal(src)
    }

    open spec fn denotes(src: Seq<u8>, value: u32) -> bool {
        value == wrap_unsigned(decimal(src) as int, 0x1_0000_0000)
    }

    fn from_ascii(src: &[u8]) -> (r: Option<u32>) {
        if src.len() == 0 {
            return None;
        }
        let mut res: u32 = 0;
        let mut i: usize = 0;
        proof {
            lemma_wrap_in_range(0, 0x1_0000_0000);
        }
        while i < src.len()
            invariant
                i <= src@.len(),
                all_digits(src@.take(i as int)),
                res == wrap_unsigned(decimal(src@.take(i as int)) as int, 0x1_0000_0000),
            decreases src@.len() - i,
        {
            let x: u32 = match digit(src[i]) {
                Some(x) => x as u32,
                None => {
                    proof {
                        lemma_not_all_digits(src@, i as int);
                    }
                    return None;
                },
            };
            proof {
                lemma_decimal_push(src@, i as int);
                lemma_unsigned_step(
                    decimal(src@.take(i as int)) as int,
                    res as int,
                    x as int,
                    0x1_0000_0000,
                );
            }
            res = res.wrapping_mul(10).wrapping_add(x);
            i = i + 1;
        }
        proof {
            assert(src@.take(src@.len() as int) =~= src@);
        }
        Some(res)
    }
}

/// An unsigned literal read into `u64`. A number too large for the type wraps
/// around.
impl FromAscii for u64 {
    open spec fn accepts(src: Seq<u8>) -> bool {
        is_unsigned_literal(src)
    }

    open spec fn denotes(src: Seq<u8>, value: u64) -> bool {
        value == wrap_unsigned(decimal(src) as int, 0x1_0000_0000_0000_0000)
    }

    fn from_ascii(src: &[u8]) -> (r: Option<u64>) {
        if src.len() == 0 {
            return None;
        }
        let mut res: u64 = 0;
        let mut i: usize = 0;
        proof {
            lemma_wrap_in_range(0, 0x1_0000_0000_0000_0000);
        }
        while i < src.len()
            invariant
                i <= src@.len(),
                all_digits(src@.take(i as int)),
                res == wrap_unsigned(decimal(src@.take(i as int)) as int, 0x1_0000_0000_0000_0000),
            decreases src@.len() - i,
        {
            let x: u64 = match digit(src[i]) {
                Some(x) => x as u64,
                None => {
                    proof {
                        lemma_not_all_digits(src@, i as int);
                    }
                    return None;
                },
            };
            proof {
                lemma_decimal_push(src@, i as int);
                lemma_unsigned_step(
                    decimal(src@.take(i as int)) as int,
                    res as int,
                    x as int,
                    0x1_0000_0000_0000_0000,
                );
            }
            res = res.wrapping_mul(10).wrapping_add(x);
            i = i + 1;
        }
        proof {
            assert(src@.take(src@.len() as int) =~= src@);
        }
        Some(res)
    }
}

/// An unsigned literal read into `usize`. A number too large for the type wraps
/// around.
impl FromAscii for usize {
    open spec fn accepts(src: Seq<u8>) -> bool {
        is_unsigned_literal(src)
    }

    open spec fn denotes(src: Seq<u8>, value: usize) -> bool {
        value == wrap_unsigned(decimal(src) as int, usize::MAX + 1)
    }

    fn from_ascii(src: &[u8]) -> (r: Option<usize>) {
        if src.len() == 0 {
            return None;
        }
        let mut res: usize = 0;
        let mut i: usize = 0;
        proof {
            lemma_wrap_in_range(0, usize::MAX + 1);
        }
        while i < src.len()
            invariant
                i <= src@.len(),
                all_digits(src@.take(i as int)),
                res == wrap_unsigned(decimal(src@.take(i as int)) as int, usize::MAX + 1),
            decreases src@.len() - i,
        {
            let x: usize = match digit(src[i]) {
                Some(x) => x as usize,
                None => {
                    proof {
                        lemma_not_all_digits(src@, i as int);
                    }
                    return None;
                },
            };
            proof {
                lemma_decimal_push(src@, i as int);
                lemma_unsigned_step(
                    decimal(src@.take(i as int)) as int,
                    res as int,
                    x as int,
                    usize::MAX + 1,
                );
            }
            res = res.wrapping_mul(10).wrapping_add(x);
            i = i + 1;
        }
        proof {
            assert(src@.take(src@.len() as int) =~= src@);
        }
        Some(res)
    }
}

/// A signed literal read into `i8`. A number outside the range of the type
/// wraps around.
impl FromAscii for i8 {
    open spec fn accepts(src: Seq<u8>) -> bool {
        is_signed_literal(src)
    }

    open spec fn denotes(src: Seq<u8>, value: i8) -> bool {
        value == wrap_signed(signed_decimal(src), 0x100)
    }

    fn from_ascii(src: &[u8]) -> (r: Option<i8>) {
        let (sign, digits) = match split_sign(src) {
            Some(parts) => parts,
            None => {
                return None;
            },
        };
        let mut res: i8 = 0;
        let mut i: usize = 0;
        proof {
            lemma_wrap_in_range(0, 0x100);
        }
        while i < digits.len()
            invariant
                digits@ == magnitude(src@),
                i <= digits@.len(),
                all_digits(digits@.take(i as int)),
                res == wrap_signed(decimal(digits@.take(i as int)) as int, 0x100),
            decreases digits@.len() - i,
        {
            let x: i8 = match digit(digits[i]) {
                Some(x) => x as i8,
                None => {
                    proof {
                        lemma_not_all_digits(digits@, i as int);
                    }
                    return None;
                },
            };
            proof {
                lemma_decimal_push(digits@, i as int);
                lemma_signed_step(
                    decimal(digits@.take(i as int)) as int,
                    res as int,
                    x as int,
                    0x100,
                );
            }
            res = res.wrapping_mul(10).wrapping_add(x);
            i = i + 1;
        }
        proof {
            assert(digits@.take(digits@.len() as int) =~= digits@);
            lemma_signed_negate(decimal(digits@) as int, res as int, 0x100);
        }
        if sign {
            let zero: i8 = 0;
            Some(zero.wrapping_sub(res))
        } else {
            Some(res)
        }
    }
}

/// A signed literal read into `i16`. A number outside the range of the type
/// wraps around.
impl FromAscii for i16 {
    open spec fn accepts(src: Seq<u8>) -> bool {
        is_signed_literal(src)
    }

    open spec fn denotes(src: Seq<u8>, value: i16) -> bool {
        value == wrap_signed(signed_decimal(src), 0x1_0000)
    }

    fn from_ascii(src: &[u8]) -> (r: Option<i16>) {
        let (sign, digits) = match split_sign(src) {
            Some(parts) => parts,
            None => {
                return None;
            },
        };
        let mut res: i16 = 0;
        let mut i: usize = 0;
        proof {
            lemma_wrap_in_range(0, 0x1_0000);
        }
        while i < digits.len()
            invariant
                digits@ == magnitude(src@),
                i <= digits@.len(),
                all_digits(digits@.take(i as int)),
                res == wrap_signed(decimal(digits@.take(i as int)) as int, 0x1_0000),
            decreases digits@.len() - i,
        {
            let x: i16 = match digit(digits[i]) {
                Some(x) => x as i16,
                None => {
                    proof {
                        lemma_not_all_digits(digits@, i as int);
                    }
                    return None;
                },
            };
            proof {
                lemma_decimal_push(digits@, i as int);
                lemma_signed_step(
                    decimal(digits@.take(i as int)) as int,
                    res as int,
                    x as int,
                    0x1_0000,
                );
            }
            res = res.wrapping_mul(10).wrapping_add(x);
            i = i + 1;
        }
        proof {
            assert(digits@.take(digits@.len() as int) =~= digits@);
            lemma_signed_negate(decimal(digits@) as int, res as int, 0x1_0000);
        }
        if sign {
            let zero: i16 = 0;
            Some(zero.wrapping_sub(res))
        } else {
            Some(res)
        }
    }
}

/// A signed literal read into `i32`. A number outside the range of the type
/// wraps around.
impl FromAscii for i32 {
    open spec fn accepts(src: Seq<u8>) -> bool {
        is_signed_literal(src)
    }

    open spec fn denotes(src: Seq<u8>, value: i32) -> bool {
        value == wrap_signed(signed_decimal(src), 0x1_0000_0000)
    }

    fn from_ascii(src: &[u8]) -> (r: Option<i32>) {
        let (sign, digits) = match split_sign(src) {
            Some(parts) => parts,
            None => {
                return None;
            },
        };
        let mut res: i32 = 0;
        let mut i: usize = 0;
        proof {
            lemma_wrap_in_range(0, 0x1_0000_0000);
        }
        while i < digits.len()
            invariant
                digits@ == magnitude(src@),
                i <= digits@.len(),
                all_digits(digits@.take(i as int)),
                res == wrap_signed(decimal(digits@.take(i as int)) as int, 0x1_0000_0000),
            decreases digits@.len() - i,
        {
            let x: i32 = match digit(digits[i]) {
                Some(x) => x as i32,
                None => {
                    proof {
                        lemma_not_all_digits(digits@, i as int);
                    }
                    return None;
                },
            };
            proof {
                lemma_decimal_push(digits@, i as int);
                lemma_signed_step(
                    decimal(digits@.take(i as int)) as int,
                    res as int,
                    x as int,
                    0x1_0000_0000,
                );
            }
            res = res.wrapping_mul(10).wrapping_add(x);
            i = i + 1;
        }
        proof {
            assert(digits@.take(digits@.len() as int) =~= digits@);
            lemma_signed_negate(decimal(digits@) as int, res as int, 0x1_0000_0000);
        }
        if sign {
            let zero: i32 = 0;
            Some(zero.wrapping_sub(res))
        } else {
            Some(res)
        }
    }
}

/// A signed literal read into `i64`. A number outside the range of the type
/// wraps around.
impl FromAscii for i64 {
    open spec fn accepts(src: Seq<u8>) -> bool {
        is_signed_literal(src)
    }

    open spec fn denotes(src: Seq<u8>, value: i64) -> bool {
        value == wrap_signed(signed_decimal(src), 0x1_0000_0000_0000_0000)
    }

    fn from_ascii(src: &[u8]) -> (r: Option<i64>) {
        let (sign, digits) = match split_sign(src) {
            Some(parts) => parts,
            None => {
                return None;
            },
        };
        let mut res: i64 = 0;
        let mut i: usize = 0;
        proof {
            lemma_wrap_in_range(0, 0x1_0000_0000_0000_0000);
        }
        while i < digits.len()
            invariant
                digits@ == magnitude(src@),
                i <= digits@.len(),
                all_digits(digits@.take(i as int)),
                res == wrap_signed(decimal(digits@.take(i as int)) as int, 0x1_0000_0000_0000_0000),
            decreases digits@.len() - i,
        {
            let x: i64 = match digit(digits[i]) {
                Some(x) => x as i64,
                None => {
                    proof {
                        lemma_not_all_digits(digits@, i as int);
                    }
                    return None;
                },
            };
            proof {
                lemma_decimal_push(digits@, i as int);
                lemma_signed_step(
                    decimal(digits@.take(i as int)) as int,
                    res as int,
                    x as int,
                    0x1_0000_0000_0000_0000,
                );
            }
            res = res.wrapping_mul(10).wrapping_add(x);
            i = i + 1;
        }
        proof {
            assert(digits@.take(digits@.len() as int) =~= digits@);
            lemma_signed_negate(decimal(digits@) as int, res as int, 0x1_0000_0000_0000_0000);
        }
        if sign {
            let zero: i64 = 0;
            Some(zero.wrapping_sub(res))
        } else {
            Some(res)
        }
    }
}

/// A signed literal read into `isize`. A number outside the range of the type
/// wraps around.
impl FromAscii for isize {
    open spec fn accepts(src: Seq<u8>) -> bool {
        is_signed_literal(src)
    }

    open spec fn denotes(src: Seq<u8>, value: isize) -> bool {
        value == wrap_signed(signed_decimal(src), usize::MAX + 1)
    }

    fn from_ascii(src: &[u8]) -> (r: Option<isize>) {
        let (sign, digits) = match split_sign(src) {
            Some(parts) => parts,
            None => {
                return None;
            },
        };
        let mut res: isize = 0;
        let mut i: usize = 0;
        proof {
            lemma_wrap_in_range(0, usize::MAX + 1);
        }
        while i < digits.len()
            invariant
                digits@ == magnitude(src@),
                i <= digits@.len(),
                all_digits(digits@.take(i as int)),
                res == wrap_signed(decimal(digits@.take(i as int)) as int, usize::MAX + 1),
            decreases digits@.len() - i,
        {
            let x: isize = match digit(digits[i]) {
                Some(x) => x as isize,
                None => {
                    proof {
                        lemma_not_all_digits(digits@, i as int);
                    }
                    return None;
                },
            };
            proof {
                lemma_decimal_push(digits@, i as int);
                lemma_signed_step(
                    decimal(digits@.take(i as int)) as int,
                    res as int,
                    x as int,
                    usize::MAX + 1,
                );
            }
            res = res.wrapping_mul(10).wrapping_add(x);
            i = i + 1;
        }
        proof {
            assert(digits@.take(digits@.len() as int) =~= digits@);
            lemma_signed_negate(decimal(digits@) as int, res as int, usize::MAX + 1);
        }
        if sign {
            let zero: isize = 0;
            Some(zero.wrapping_sub(res))
        } else {
            Some(res)
        }
    }
}

} // verus!
