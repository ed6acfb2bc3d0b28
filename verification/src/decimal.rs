//! Decimal integer literals and their values, with and without wrap-around.

use vstd::prelude::*;
use vstd::arithmetic::div_mod::{
    lemma_add_mod_noop, lemma_fundamental_div_mod_converse, lemma_mod_add_multiples_vanish,
    lemma_mod_bound, lemma_mul_mod_noop_left, lemma_small_mod, lemma_sub_mod_noop,
};

verus! {

/// The byte `+`.
pub const PLUS: u8 = 0x2b;

/// The byte `-`.
pub const MINUS: u8 = 0x2d;

/// The byte `0`, the first of the ten digits.
pub const ZERO: u8 = 0x30;

/// The byte `9`, the last of the ten digits.
pub const NINE: u8 = 0x39;

/// True for the ten ASCII digits.
pub open spec fn is_digit(b: u8) -> bool {
    ZERO <= b <= NINE
}

/// The number that the digit `b` stands for; zero for a byte that is no
/// digit.
pub open spec fn digit_value(b: u8) -> nat {
    if is_digit(b) {
        (b - ZERO) as nat
    } else {
        0
    }
}

/// True when every byte of `s` is an ASCII digit.
pub open spec fn all_digits(s: Seq<u8>) -> bool {
    forall|i: int| 0 <= i < s.len() ==> is_digit(#[trigger] s[i])
}

/// The number that the digits of `s` write in base ten; zero for no digits.
pub open spec fn decimal(s: Seq<u8>) -> nat
    decreases s.len(),
{
    if s.len() == 0 {
        0
    } else {
        10 * decimal(s.drop_last()) + digit_value(s.last())
    }
}

/// An unsigned literal: one digit or more, and nothing else.
pub open spec fn is_unsigned_literal(s: Seq<u8>) -> bool {
    s.len() > 0 && all_digits(s)
}

/// True when `s` starts with a sign, `+` or `-`.
pub open spec fn has_sign(s: Seq<u8>) -> bool {
    s.len() > 0 && (s[0] == PLUS || s[0] == MINUS)
}

/// The bytes of `s` behind its sign, or all of `s` when it has none.
pub open spec fn magnitude(s: Seq<u8>) -> Seq<u8> {
    if has_sign(s) {
        s.skip(1)
    } else {
        s
    }
}

/// A signed literal: an optional sign, then one digit or more.
pub open spec fn is_signed_literal(s: Seq<u8>) -> bool {
    is_unsigned_literal(magnitude(s))
}

/// The integer that the signed literal `s` writes.
pub open spec fn signed_decimal(s: Seq<u8>) -> int {
    if s.len() > 0 && s[0] == MINUS {
        -(decimal(magnitude(s)) as int)
    } else {
        decimal(magnitude(s)) as int
    }
}

/// `v` reduced to the range of an unsigned type with `m` values.
pub open spec fn wrap_unsigned(v: int, m: int) -> int {
    v % m
}

/// `v` reduced to the range of a two's complement type with `m` values.
pub open spec fn wrap_signed(v: int, m: int) -> int {
    if 2 * (v % m) >= m {
        v % m - m
    } else {
        v % m
    }
}

/// Reading one more digit multiplies the value so far by ten and adds the
/// digit.
pub proof fn lemma_decimal_push(s: Seq<u8>, i: int)
    requires
        0 <= i < s.len(),
    ensures
        decimal(s.take(i + 1)) == 10 * decimal(s.take(i)) + digit_value(s[i]),
        all_digits(s.take(i)) && is_digit(s[i]) ==> all_digits(s.take(i + 1)),
{
    assert(s.take(i + 1).drop_last() =~= s.take(i));
    assert(s.take(i + 1).last() == s[i]);
}

/// A byte that is not a digit anywhere in `s` keeps `s` from being all
/// digits.
pub proof fn lemma_not_all_digits(s: Seq<u8>, i: int)
    requires
        0 <= i < s.len(),
        !is_digit(s[i]),
    ensures
        !all_digits(s),
{
}

/// A value inside the range of the type is not changed by wrapping.
pub proof fn lemma_wrap_in_range(v: int, m: int)
    requires
        0 < m,
        m % 2 == 0,
    ensures
        0 <= v < m ==> wrap_unsigned(v, m) == v,
        -(m / 2) <= v < m / 2 ==> wrap_signed(v, m) == v,
{
    if 0 <= v < m {
        lemma_small_mod(v as nat, m as nat);
    }
    if -(m / 2) <= v < m / 2 {
        lemma_wrap_signed_unique(v, v, m);
    }
}

/// The wrapped value lies in the signed range and differs from the value by
/// a multiple of `m`.
pub proof fn lemma_wrap_signed_congruent(v: int, m: int)
    requires
        0 < m,
        m % 2 == 0,
    ensures
        -(m / 2) <= wrap_signed(v, m) < m / 2,
        wrap_signed(v, m) % m == v % m,
{
    lemma_mod_bound(v, m);
    let r = v % m;
    if 2 * r >= m {
        lemma_mod_add_multiples_vanish(r - m, m);
        lemma_small_mod(r as nat, m as nat);
    } else {
        lemma_small_mod(r as nat, m as nat);
    }
}

/// The one value of the signed range that differs from `v` by a multiple of
/// `m` is the wrapped value of `v`.
pub proof fn lemma_wrap_signed_unique(n: int, v: int, m: int)
    requires
        0 < m,
        m % 2 == 0,
        -(m / 2) <= n < m / 2,
        n % m == v % m,
    ensures
        n == wrap_signed(v, m),
{
    if n >= 0 {
        lemma_small_mod(n as nat, m as nat);
    } else {
        lemma_mod_add_multiples_vanish(n, m);
        lemma_small_mod((n + m) as nat, m as nat);
    }
}

/// One step of an unsigned parse: from the wrapped value `r` of the digits so
/// far, a wrapping multiplication by ten and a wrapping addition of the digit
/// `x` give the wrapped value of the digits so far and `x`.
pub proof fn lemma_unsigned_step(d: int, r: int, x: int, m: int)
    requires
        10 <= m,
        0 <= x < 10,
        r == wrap_unsigned(d, m),
    ensures
        ({
            let t = (r * 10) % m;
            let n = if t + x >= m {
                t + x - m
            } else {
                t + x
            };
            n == wrap_unsigned(10 * d + x, m)
        }),
{
    let t = (r * 10) % m;
    let n = if t + x >= m {
        t + x - m
    } else {
        t + x
    };
    lemma_mod_bound(r * 10, m);
    lemma_small_mod(x as nat, m as nat);
    lemma_mul_mod_noop_left(d, 10, m);
    lemma_add_mod_noop(r * 10, x, m);
    lemma_add_mod_noop(d * 10, x, m);
    assert((t + x) % m == (10 * d + x) % m);
    if t + x >= m {
        lemma_fundamental_div_mod_converse(t + x, m, 1, n);
    } else {
        lemma_small_mod((t + x) as nat, m as nat);
    }
}

/// One step of a signed parse, as `lemma_unsigned_step` is one of an
/// unsigned parse.
pub proof fn lemma_signed_step(d: int, r: int, x: int, m: int)
    requires
        20 <= m,
        m % 2 == 0,
        0 <= x < 10,
        r == wrap_signed(d, m),
    ensures
        ({
            let t = wrap_signed(r * 10, m);
            let n = if t + x >= m / 2 {
                t + x - m
            } else {
                t + x
            };
            n == wrap_signed(10 * d + x, m)
        }),
{
    let t = wrap_signed(r * 10, m);
    let n = if t + x >= m / 2 {
        t + x - m
    } else {
        t + x
    };
    lemma_wrap_signed_congruent(d, m);
    lemma_wrap_signed_congruent(r * 10, m);
    lemma_small_mod(x as nat, m as nat);
    lemma_mul_mod_noop_left(r, 10, m);
    lemma_mul_mod_noop_left(d, 10, m);
    lemma_add_mod_noop(t, x, m);
    lemma_add_mod_noop(r * 10, x, m);
    lemma_add_mod_noop(d * 10, x, m);
    assert((t + x) % m == (10 * d + x) % m);
    if t + x >= m / 2 {
        lemma_mod_add_multiples_vanish(n, m);
    }
    lemma_wrap_signed_unique(n, 10 * d + x, m);
}

/// Negating the wrapped value and wrapping again gives the wrapped value of
/// the negation.
pub proof fn lemma_signed_negate(d: int, r: int, m: int)
    requires
        0 < m,
        m % 2 == 0,
        r == wrap_signed(d, m),
    ensures
        (if -r >= m / 2 {
            -r - m
        } else {
            -r
        }) == wrap_signed(-d, m),
{
    let n = if -r >= m / 2 {
        -r - m
    } else {
        -r
    };
    lemma_wrap_signed_congruent(d, m);
    lemma_sub_mod_noop(0, r, m);
    lemma_sub_mod_noop(0, d, m);
    assert((-r) % m == (-d) % m);
    if -r >= m / 2 {
        lemma_mod_add_multiples_vanish(n, m);
    }
    lemma_wrap_signed_unique(n, -d, m);
}

} // verus!
