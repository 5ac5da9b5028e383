//! Decimal numbers in text: reading them at a fixed scale and writing them back.
//!
//! A time is a whole number of nanoseconds, written in seconds or in milliseconds. Reading rounds
//! to the nearest unit, halves away from zero.

use crate::text::{append_chars, chars_of, string_of};
use vstd::prelude::*;

verus! {

/// Whether `c` is a decimal digit.
pub open spec fn is_digit(c: char) -> bool {
    '0' <= c && c <= '9'
}

/// Whether `s` is made of digits only.
pub open spec fn all_digits(s: Seq<char>) -> bool {
    forall|i: int| 0 <= i < s.len() ==> is_digit(#[trigger] s[i])
}

/// The value of a digit.
pub open spec fn digit_value(c: char) -> nat {
    (c as u32 - 0x30) as nat
}

/// The digit of a value below ten.
pub open spec fn digit_char(d: nat) -> char {
    ((d + 0x30) as u32) as char
}

/// The number that a sequence of digits spells.
pub open spec fn digits_value(s: Seq<char>) -> nat
    decreases s.len(),
{
    if s.len() == 0 {
        0
    } else {
        10 * digits_value(s.drop_last()) + digit_value(s.last())
    }
}

/// Ten to the power of `k`.
pub open spec fn pow10(k: nat) -> nat
    decreases k,
{
    if k == 0 {
        1
    } else {
        10 * pow10((k - 1) as nat)
    }
}

/// `digits` times ten to the power of `e`, rounded to a whole number, halves up.
pub open spec fn shifted(digits: nat, e: int) -> nat {
    if e >= 0 {
        digits * pow10(e as nat)
    } else {
        (2 * digits + pow10((-e) as nat)) / (2 * pow10((-e) as nat))
    }
}

/// The position behind the run of digits that begins at `i`.
pub open spec fn digits_end(s: Seq<char>, i: int) -> int
    decreases s.len() - i,
{
    if 0 <= i < s.len() && is_digit(s[i]) {
        digits_end(s, i + 1)
    } else {
        i
    }
}

/// A number as it is written: sign, digits without the point, digits behind the point, exponent.
pub struct Written {
    pub negative: bool,
    pub digits: Seq<char>,
    pub places: int,
    pub exponent: int,
}

/// The exponent written from `i` to the end of the text.
pub open spec fn exponent_at(s: Seq<char>, i: int) -> Option<int> {
    if i == s.len() {
        Some(0)
    } else if s[i] == 'e' || s[i] == 'E' {
        let signed = i + 1 < s.len() && (s[i + 1] == '-' || s[i + 1] == '+');
        let from = if signed {
            i + 2
        } else {
            i + 1
        };
        let end = digits_end(s, from);
        if end == s.len() && from < end {
            let size = digits_value(s.subrange(from, end)) as int;
            if signed && s[i + 1] == '-' {
                Some(-size)
            } else {
                Some(size)
            }
        } else {
            None
        }
    } else {
        None
    }
}

/// Takes a written number apart: an optional minus sign, digits, an optional point with digits
/// behind it, and an optional exponent.
pub open spec fn written(s: Seq<char>) -> Option<Written> {
    let negative = s.len() > 0 && s[0] == '-';
    let a: int = if negative {
        1
    } else {
        0
    };
    let b = digits_end(s, a);
    let pointed = b < s.len() && s[b] == '.';
    let c = if pointed {
        b + 1
    } else {
        b
    };
    let d = if pointed {
        digits_end(s, c)
    } else {
        b
    };
    if a == b || (pointed && c == d) {
        None
    } else {
        match exponent_at(s, d) {
            None => None,
            Some(exponent) => Some(
                Written {
                    negative,
                    digits: s.subrange(a, b) + s.subrange(c, d),
                    places: d - c,
                    exponent,
                },
            ),
        }
    }
}

/// The largest size of a number that is read, which is that of the lowest one.
pub const SIZE_LIMIT: u64 = 0x8000_0000_0000_0000;

/// The number of a size and a sign, if it is one that is read.
pub open spec fn with_sign(negative: bool, size: nat) -> Option<int> {
    if negative && size <= SIZE_LIMIT {
        Some(-(size as int))
    } else if !negative && size < SIZE_LIMIT {
        Some(size as int)
    } else {
        None
    }
}

/// The number that `s` spells, in units of ten to the power of `-places`.
pub open spec fn scaled(s: Seq<char>, places: nat) -> Option<int> {
    match written(s) {
        None => None,
        Some(w) => with_sign(
            w.negative,
            shifted(digits_value(w.digits), w.exponent - w.places + places),
        ),
    }
}

/// Whether `s` spells a number below zero, however small its size is.
pub open spec fn below_zero(s: Seq<char>) -> bool {
    written(s) matches Some(w) && w.negative && digits_value(w.digits) > 0
}

/// The whole number that `s` spells: an optional minus sign and digits. `-0` is none.
pub open spec fn whole(s: Seq<char>) -> Option<int> {
    match written(s) {
        Some(w) => {
            if w.places == 0 && digits_end(s, if w.negative {
                1
            } else {
                0
            }) == s.len() && (w.negative ==> digits_value(w.digits) > 0) {
                with_sign(w.negative, digits_value(w.digits))
            } else {
                None
            }
        },
        None => None,
    }
}

/// The digits of a number, without leading zeros.
pub open spec fn nat_digits(n: nat) -> Seq<char>
    decreases n,
{
    if n < 10 {
        seq![digit_char(n)]
    } else {
        nat_digits(n / 10).push(digit_char(n % 10))
    }
}

/// The last `k` digits of a number.
pub open spec fn low_digits(n: nat, k: nat) -> Seq<char>
    decreases k,
{
    if k == 0 {
        Seq::empty()
    } else {
        low_digits(n / 10, (k - 1) as nat).push(digit_char(n % 10))
    }
}

/// `s` without the zeros it ends with.
pub open spec fn without_zeros(s: Seq<char>) -> Seq<char>
    decreases s.len(),
{
    if s.len() > 0 && s.last() == '0' {
        without_zeros(s.drop_last())
    } else {
        s
    }
}

/// The sign of a number, if it is negative.
pub open spec fn sign_of(n: int) -> Seq<char> {
    if n < 0 {
        seq!['-']
    } else {
        Seq::empty()
    }
}

/// A whole number in decimal.
pub open spec fn whole_text(n: int) -> Seq<char> {
    sign_of(n) + nat_digits(vstd::math::abs(n))
}

/// The number of nanoseconds from which on a time is written without an exponent.
pub const TINY: u64 = 10_000;

/// A tiny number of nanoseconds in seconds: a digit, the others behind a point, an exponent.
pub open spec fn tiny_seconds(size: nat) -> Seq<char> {
    let digits = without_zeros(nat_digits(size));
    digits.take(1) + (if digits.len() > 1 {
        seq!['.'] + digits.skip(1)
    } else {
        Seq::empty()
    }) + seq!['e', '-', digit_char((10 - nat_digits(size).len()) as nat)]
}

/// A number of nanoseconds in seconds, with as many decimal places as it needs and at least
/// one behind a point; with an exponent where it is tiny.
pub open spec fn seconds_float(nanos: int) -> Seq<char> {
    let size = vstd::math::abs(nanos);
    let places = without_zeros(low_digits(size, 9));
    if 0 < size < TINY {
        sign_of(nanos) + tiny_seconds(size)
    } else {
        sign_of(nanos) + nat_digits(size / 1_000_000_000) + seq!['.'] + (if places.len() == 0 {
            seq!['0']
        } else {
            places
        })
    }
}

/// A number of nanoseconds in seconds, with as many decimal places as it needs.
pub open spec fn seconds_text(nanos: int) -> Seq<char> {
    let size = vstd::math::abs(nanos);
    let places = without_zeros(low_digits(size, 9));
    sign_of(nanos) + nat_digits(size / 1_000_000_000) + (if places.len() == 0 {
        Seq::empty()
    } else {
        seq!['.'] + places
    })
}

/// Whether `c` is a decimal digit.
pub(crate) fn is_digit_char(c: char) -> (r: bool)
    ensures
        r == is_digit(c),
{
    '0' <= c && c <= '9'
}

/// Finds the end of the run of digits that begins at `i`.
fn digits_end_exec(s: &[char], i: usize) -> (r: usize)
    requires
        i <= s@.len(),
    ensures
        r == digits_end(s@, i as int),
        i <= r <= s@.len(),
        all_digits(s@.subrange(i as int, r as int)),
{
    let mut j: usize = i;
    while j < s.len() && is_digit_char(s[j])
        invariant
            i <= j <= s@.len(),
            digits_end(s@, j as int) == digits_end(s@, i as int),
            forall|k: int| i <= k < j ==> is_digit(#[trigger] s@[k]),
        decreases s@.len() - j,
    {
        j += 1;
    }
    j
}

proof fn lemma_digit(c: char)
    requires
        is_digit(c),
    ensures
        digit_value(c) < 10,
        digit_char(digit_value(c)) == c,
{
}

proof fn lemma_pow10_positive(k: nat)
    ensures
        pow10(k) > 0,
    decreases k,
{
    if k > 0 {
        lemma_pow10_positive((k - 1) as nat);
    }
}

proof fn lemma_digits_bound(s: Seq<char>)
    requires
        all_digits(s),
    ensures
        digits_value(s) < pow10(s.len()),
    decreases s.len(),
{
    if s.len() > 0 {
        lemma_digits_bound(s.drop_last());
        lemma_digit(s.last());
    }
}

proof fn lemma_digits_concat(a: Seq<char>, b: Seq<char>)
    ensures
        digits_value(a + b) == digits_value(a) * pow10(b.len()) + digits_value(b),
    decreases b.len(),
{
    if b.len() == 0 {
        assert(a + b =~= a);
        assert(digits_value(a) * pow10(0) == digits_value(a)) by (nonlinear_arith)
            requires
                pow10(0) == 1,
        ;
    } else {
        let t = b.drop_last();
        lemma_digits_concat(a, t);
        assert((a + b).drop_last() =~= a + t);
        assert((a + b).last() == b.last());
        assert(10 * (digits_value(a) * pow10(t.len())) == digits_value(a) * (10 * pow10(
            t.len(),
        ))) by (nonlinear_arith);
    }
}

/// Rounding digits to ten to the power of `k` depends on the first digit dropped.
proof fn lemma_round(kept: Seq<char>, dropped: Seq<char>)
    requires
        all_digits(kept),
        all_digits(dropped),
        dropped.len() > 0,
    ensures
        shifted(digits_value(kept + dropped), -(dropped.len() as int)) == digits_value(kept) + (
        if digit_value(dropped[0]) >= 5 {
            1nat
        } else {
            0
        }),
{
    let k = dropped.len();
    let q = digits_value(kept);
    let r = digits_value(dropped);
    let p = pow10(k);
    let tail = dropped.skip(1);
    let first = dropped.take(1);
    lemma_digits_concat(kept, dropped);
    lemma_digits_concat(first, tail);
    assert(first + tail =~= dropped);
    assert(first.drop_last() =~= Seq::<char>::empty());
    assert(digits_value(first) == digit_value(dropped[0])) by {
        assert(digits_value(first.drop_last()) == 0);
    }
    lemma_digits_bound(tail);
    lemma_digits_bound(dropped);
    lemma_pow10_positive(k);
    let d = digit_value(dropped[0]);
    let h = pow10((k - 1) as nat);
    lemma_digit(dropped[0]);
    assert(r == d * h + digits_value(tail));
    assert(p == 10 * h);
    if d >= 5 {
        assert(d * h >= 5 * h) by (nonlinear_arith)
            requires
                d >= 5,
                h >= 0,
        ;
        assert(2 * r >= p);
        assert((2 * (q * p + r) + p) / (2 * p) == q + 1) by (nonlinear_arith)
            requires
                p > 0,
                p <= 2 * r < 2 * p,
        ;
    } else {
        assert(d * h <= 4 * h) by (nonlinear_arith)
            requires
                d <= 4,
                h >= 0,
        ;
        assert(2 * r < p);
        assert((2 * (q * p + r) + p) / (2 * p) == q) by (nonlinear_arith)
            requires
                p > 0,
                0 <= 2 * r < p,
        ;
    }
}

proof fn lemma_pow10_grows(j: nat, k: nat)
    requires
        j <= k,
    ensures
        pow10(j) <= pow10(k),
    decreases k,
{
    if j < k {
        lemma_pow10_grows(j, (k - 1) as nat);
    }
}

/// Digits that all lie below the unit round to zero.
proof fn lemma_round_away(digits: Seq<char>, k: nat)
    requires
        all_digits(digits),
        k > digits.len(),
    ensures
        shifted(digits_value(digits), -(k as int)) == 0,
{
    lemma_digits_bound(digits);
    lemma_pow10_grows(digits.len(), (k - 1) as nat);
    lemma_pow10_positive(digits.len());
    let d = digits_value(digits);
    let p = pow10(k);
    assert((2 * d + p) / (2 * p) == 0) by (nonlinear_arith)
        requires
            0 <= 2 * d < p,
    ;
}

proof fn lemma_digits_grow(digits: Seq<char>, n: int)
    requires
        0 <= n <= digits.len(),
    ensures
        digits_value(digits.take(n)) <= digits_value(digits),
    decreases digits.len() - n,
{
    if n < digits.len() {
        lemma_digits_grow(digits, n + 1);
        assert(digits.take(n + 1).drop_last() =~= digits.take(n));
    } else {
        assert(digits.take(n) =~= digits);
    }
}

/// The number that digits spell, unless it is above the limit.
pub(crate) fn value_of(digits: &[char]) -> (r: Option<u64>)
    requires
        all_digits(digits@),
    ensures
        match r {
            Some(v) => v == digits_value(digits@) && v <= SIZE_LIMIT,
            None => digits_value(digits@) > SIZE_LIMIT,
        },
{
    let mut v: u64 = 0;
    let mut i: usize = 0;
    while i < digits.len()
        invariant
            i <= digits@.len(),
            all_digits(digits@),
            v == digits_value(digits@.take(i as int)),
            v <= SIZE_LIMIT,
        decreases digits@.len() - i,
    {
        let c = digits[i];
        proof {
            assert(digits@.take(i + 1).drop_last() =~= digits@.take(i as int));
            lemma_digits_grow(digits@, i + 1);
            assert(is_digit(digits@[i as int]));
        }
        let d: u64 = (c as u32 - 0x30) as u64;
        if v > (SIZE_LIMIT - d) / 10 {
            return None;
        }
        v = v * 10 + d;
        i += 1;
    }
    proof {
        assert(digits@.take(i as int) =~= digits@);
    }
    Some(v)
}

/// Multiplies by ten `e` times, unless the result is above the limit.
fn shift_up(v: u64, e: u128) -> (r: Option<u64>)
    requires
        v <= SIZE_LIMIT,
    ensures
        match r {
            Some(w) => w == v * pow10(e as nat) && w <= SIZE_LIMIT,
            None => v * pow10(e as nat) > SIZE_LIMIT,
        },
{
    if v == 0 {
        proof {
            assert(v * pow10(e as nat) == 0) by (nonlinear_arith)
                requires
                    v == 0,
            ;
        }
        return Some(0);
    }
    let mut w: u64 = v;
    let mut k: u128 = 0;
    proof {
        assert(v * pow10(0) == v) by (nonlinear_arith)
            requires
                pow10(0) == 1,
        ;
    }
    while k < e
        invariant
            k <= e,
            0 < v,
            w == v * pow10(k as nat),
            0 < w <= SIZE_LIMIT,
        decreases e - k,
    {
        proof {
            assert(v * (10 * pow10(k as nat)) == 10 * (v * pow10(k as nat))) by (nonlinear_arith);
        }
        if w > SIZE_LIMIT / 10 {
            proof {
                lemma_pow10_grows((k + 1) as nat, e as nat);
                assert(v * pow10((k + 1) as nat) <= v * pow10(e as nat)) by (nonlinear_arith)
                    requires
                        pow10((k + 1) as nat) <= pow10(e as nat),
                ;
            }
            return None;
        }
        w = w * 10;
        k += 1;
    }
    Some(w)
}

/// The size from which on exponents are not told apart: more than digits can make up for.
const HUGE: i128 = 100_000_000_000_000_000_000_000_000_000;

/// Whether `e` stands for the exponent `x`: it is that one, unless both are huge.
spec fn stands_for(e: i128, x: int) -> bool {
    &&& -HUGE <= x <= HUGE ==> e == x
    &&& x > HUGE ==> e > HUGE
    &&& x < -HUGE ==> e < -HUGE
    &&& -10 * HUGE - 10 < e < 10 * HUGE + 10
}

/// The value of digits, unless it is huge.
fn exponent_value(digits: &[char]) -> (r: i128)
    requires
        all_digits(digits@),
    ensures
        r >= 0,
        stands_for(r, digits_value(digits@) as int),
{
    let mut v: i128 = 0;
    let mut i: usize = 0;
    while i < digits.len() && v <= HUGE
        invariant
            i <= digits@.len(),
            all_digits(digits@),
            v == digits_value(digits@.take(i as int)),
            0 <= v < 10 * HUGE + 10,
        decreases digits@.len() - i,
    {
        proof {
            assert(digits@.take(i + 1).drop_last() =~= digits@.take(i as int));
            assert(is_digit(digits@[i as int]));
        }
        v = v * 10 + (digits[i] as u32 - 0x30) as i128;
        i += 1;
    }
    proof {
        lemma_digits_grow(digits@, i as int);
        if i == digits@.len() {
            assert(digits@.take(i as int) =~= digits@);
        }
    }
    v
}

/// Reads the exponent written from `i` on.
fn exponent_at_exec(s: &[char], i: usize) -> (r: Option<i128>)
    requires
        i <= s@.len(),
    ensures
        match r {
            Some(e) => exponent_at(s@, i as int) matches Some(x) && stands_for(e, x),
            None => exponent_at(s@, i as int) is None,
        },
{
    if i == s.len() {
        return Some(0);
    }
    if s[i] != 'e' && s[i] != 'E' {
        return None;
    }
    let signed = s.len() - i > 1 && (s[i + 1] == '-' || s[i + 1] == '+');
    let from: usize = if signed {
        i + 2
    } else {
        i + 1
    };
    let end = digits_end_exec(s, from);
    if end == s.len() && from < end {
        let run = vstd::slice::slice_subrange(s, from, end);
        let size = exponent_value(run);
        if signed && s[i + 1] == '-' {
            Some(-size)
        } else {
            Some(size)
        }
    } else {
        None
    }
}

/// Takes a written number apart.
fn take_apart(s: &[char]) -> (r: Option<(bool, Vec<char>, usize, i128)>)
    ensures
        match r {
            Some((negative, digits, places, exponent)) => {
                &&& written(s@) matches Some(w) && w.negative == negative && w.digits == digits@
                    && w.places == places && stands_for(exponent, w.exponent)
                &&& all_digits(digits@)
            },
            None => written(s@) is None,
        },
{
    let negative = s.len() > 0 && s[0] == '-';
    let a: usize = if negative {
        1
    } else {
        0
    };
    let b = digits_end_exec(s, a);
    let pointed = b < s.len() && s[b] == '.';
    let c: usize = if pointed {
        b + 1
    } else {
        b
    };
    let d: usize = if pointed {
        digits_end_exec(s, c)
    } else {
        b
    };
    if a == b || (pointed && c == d) {
        return None;
    }
    match exponent_at_exec(s, d) {
        None => None,
        Some(exponent) => {
            let mut digits: Vec<char> = Vec::new();
            append_chars(&mut digits, vstd::slice::slice_subrange(s, a, b));
            append_chars(&mut digits, vstd::slice::slice_subrange(s, c, d));
            proof {
                assert(digits@ =~= s@.subrange(a as int, b as int) + s@.subrange(
                    c as int,
                    d as int,
                ));
                assert forall|i: int| 0 <= i < digits@.len() implies is_digit(
                    #[trigger] digits@[i],
                ) by {
                    if i < b - a {
                        assert(is_digit(s@.subrange(a as int, b as int)[i]));
                    } else {
                        assert(is_digit(s@.subrange(c as int, d as int)[i - (b - a)]));
                    }
                }
            }
            Some((negative, digits, d - c, exponent))
        },
    }
}

/// Digits with a huge exponent are none at all, or too many.
proof fn lemma_huge(digits: Seq<char>, e: int)
    requires
        e >= 20,
        digits_value(digits) > 0,
    ensures
        shifted(digits_value(digits), e) > SIZE_LIMIT,
{
    let d = digits_value(digits);
    lemma_pow10_grows(20, e as nat);
    assert(pow10(20) == 100_000_000_000_000_000_000) by {
        reveal_with_fuel(pow10, 21);
    }
    assert(d * pow10(e as nat) >= pow10(e as nat)) by (nonlinear_arith)
        requires
            d >= 1,
    ;
}

/// The size of a number, given its digits, its exponent and how many of the digits stand behind
/// the point, in units of ten to the power of `-places`, unless it is above the limit.
fn size_at(
    digits: &[char],
    exponent: i128,
    behind: usize,
    places: u32,
    Ghost(x): Ghost<int>,
) -> (r: Option<u64>)
    requires
        all_digits(digits@),
        stands_for(exponent, x),
    ensures
        match r {
            Some(v) => v == shifted(digits_value(digits@), x - behind + places) && v <= SIZE_LIMIT,
            None => shifted(digits_value(digits@), x - behind + places) > SIZE_LIMIT,
        },
{
    let count: usize = digits.len();
    if exponent > HUGE {
        return match value_of(digits) {
            Some(0) => {
                proof {
                    let p = pow10((x - behind + places) as nat);
                    assert(0 * p == 0) by (nonlinear_arith);
                }
                Some(0)
            },
            _ => {
                proof {
                    lemma_huge(digits@, x - behind + places);
                }
                None
            },
        };
    }
    if exponent < -HUGE {
        proof {
            lemma_round_away(digits@, (-(x - behind + places)) as nat);
        }
        return Some(0);
    }
    let e: i128 = exponent - behind as i128 + places as i128;
    if e >= 0 {
        proof {
            lemma_pow10_positive(e as nat);
            assert(digits_value(digits@) * pow10(e as nat) >= digits_value(digits@))
                by (nonlinear_arith)
                requires
                    pow10(e as nat) > 0,
            ;
        }
        return match value_of(digits) {
            None => None,
            Some(v) => shift_up(v, e as u128),
        };
    }
    let k: i128 = -e;
    if k > count as i128 {
        proof {
            lemma_round_away(digits@, k as nat);
        }
        return Some(0);
    }
    let cut: usize = count - k as usize;
    let kept = vstd::slice::slice_subrange(digits, 0, cut);
    let up = digits[cut] >= '5';
    proof {
        let dropped = digits@.skip(cut as int);
        assert(kept@ + dropped =~= digits@);
        assert(all_digits(kept@)) by {
            assert forall|i: int| 0 <= i < kept@.len() implies is_digit(#[trigger] kept@[i]) by {
                assert(is_digit(digits@[i]));
            }
        }
        assert(all_digits(dropped)) by {
            assert forall|i: int| 0 <= i < dropped.len() implies is_digit(
                #[trigger] dropped[i],
            ) by {
                assert(is_digit(digits@[cut + i]));
            }
        }
        lemma_round(kept@, dropped);
        assert(is_digit(digits@[cut as int]));
    }
    match value_of(kept) {
        None => None,
        Some(v) => {
            if !up {
                Some(v)
            } else if v == SIZE_LIMIT {
                None
            } else {
                Some(v + 1)
            }
        },
    }
}

/// The number of a size and a sign.
fn signed_number(negative: bool, size: u64) -> (r: Option<i64>)
    requires
        size <= SIZE_LIMIT,
    ensures
        match r {
            Some(v) => with_sign(negative, size as nat) == Some(v as int),
            None => with_sign(negative, size as nat) is None,
        },
{
    if size < SIZE_LIMIT {
        if negative {
            Some(-(size as i64))
        } else {
            Some(size as i64)
        }
    } else if negative {
        Some(i64::MIN)
    } else {
        None
    }
}

/// Whether a number is written that is below zero, however small its size is.
pub fn is_below_zero(text: &str) -> (r: bool)
    ensures
        r == below_zero(text@),
{
    let chars = chars_of(text);
    match take_apart(chars.as_slice()) {
        None => false,
        Some((negative, digits, _, _)) => negative && match value_of(digits.as_slice()) {
            Some(v) => v > 0,
            None => true,
        },
    }
}

/// Reads a number in units of ten to the power of `-places`, rounded to the nearest unit.
pub fn parse_scaled(text: &str, places: u32) -> (r: Option<i64>)
    ensures
        match r {
            Some(v) => scaled(text@, places as nat) == Some(v as int),
            None => scaled(text@, places as nat) is None,
        },
{
    let chars = chars_of(text);
    match take_apart(chars.as_slice()) {
        None => None,
        Some((negative, digits, behind, exponent)) => {
            let size = size_at(
                digits.as_slice(),
                exponent,
                behind,
                places,
                Ghost(written(text@)->0.exponent),
            );
            match size {
                None => None,
                Some(v) => signed_number(negative, v),
            }
        },
    }
}

/// Reads a whole number: an optional minus sign and digits.
pub fn parse_whole(text: &str) -> (r: Option<i64>)
    ensures
        match r {
            Some(v) => whole(text@) == Some(v as int),
            None => whole(text@) is None,
        },
{
    let chars = chars_of(text);
    match take_apart(chars.as_slice()) {
        None => None,
        Some((negative, digits, behind, _)) => {
            let from: usize = if negative {
                1
            } else {
                0
            };
            if behind == 0 && digits_end_exec(chars.as_slice(), from) == chars.len() {
                match value_of(digits.as_slice()) {
                    None => None,
                    Some(v) => {
                        if negative && v == 0 {
                            None
                        } else {
                            signed_number(negative, v)
                        }
                    },
                }
            } else {
                None
            }
        },
    }
}

/// The digits of a number.
fn nat_digits_exec(n: u64) -> (r: Vec<char>)
    ensures
        r@ == nat_digits(n as nat),
    decreases n,
{
    let d = ((n % 10) as u8 + 0x30) as char;
    let mut out: Vec<char> = if n < 10 {
        Vec::new()
    } else {
        nat_digits_exec(n / 10)
    };
    out.push(d);
    proof {
        assert(out@ =~= nat_digits(n as nat));
    }
    out
}

/// The last `k` digits of a number, without the zeros at their end.
fn places_exec(n: u64, k: u32) -> (r: Vec<char>)
    ensures
        r@ == without_zeros(low_digits(n as nat, k as nat)),
    decreases k,
{
    if k == 0 {
        return Vec::new();
    }
    let ghost all = low_digits(n as nat, k as nat);
    let ghost high = low_digits((n / 10) as nat, (k - 1) as nat);
    proof {
        assert(all.drop_last() =~= high);
    }
    if n % 10 == 0 {
        return places_exec(n / 10, k - 1);
    }
    let mut out = low_digits_exec(n / 10, k - 1);
    out.push(((n % 10) as u8 + 0x30) as char);
    out
}

/// The last `k` digits of a number.
fn low_digits_exec(n: u64, k: u32) -> (r: Vec<char>)
    ensures
        r@ == low_digits(n as nat, k as nat),
    decreases k,
{
    if k == 0 {
        return Vec::new();
    }
    let mut out = low_digits_exec(n / 10, k - 1);
    out.push(((n % 10) as u8 + 0x30) as char);
    out
}

/// The size of a number, without its sign.
fn size_of(n: i64) -> (r: u64)
    ensures
        r == vstd::math::abs(n as int),
{
    if n < 0 {
        (-(n + 1)) as u64 + 1
    } else {
        n as u64
    }
}

/// Writes a number that is not negative in decimal.
pub fn show_nat(n: u64) -> (r: String)
    ensures
        r@ == whole_text(n as int),
{
    let digits = nat_digits_exec(n);
    proof {
        assert(digits@ =~= whole_text(n as int));
    }
    string_of(digits.as_slice())
}

/// Writes a whole number in decimal.
pub fn show_whole(n: i64) -> (r: String)
    ensures
        r@ == whole_text(n as int),
{
    let mut out: Vec<char> = Vec::new();
    if n < 0 {
        out.push('-');
    }
    let digits = nat_digits_exec(size_of(n));
    append_chars(&mut out, digits.as_slice());
    proof {
        assert(out@ =~= whole_text(n as int));
    }
    string_of(out.as_slice())
}

/// Writes a time in seconds, with as many decimal places as it needs.
pub fn show_seconds(nanos: i64) -> (r: String)
    ensures
        r@ == seconds_text(nanos as int),
{
    let size = size_of(nanos);
    let mut out: Vec<char> = Vec::new();
    if nanos < 0 {
        out.push('-');
    }
    let digits = nat_digits_exec(size / 1_000_000_000);
    append_chars(&mut out, digits.as_slice());
    let places = places_exec(size, 9);
    if places.len() > 0 {
        out.push('.');
        append_chars(&mut out, places.as_slice());
    }
    proof {
        assert(out@ =~= seconds_text(nanos as int));
    }
    string_of(out.as_slice())
}

/// The digits of a number without the zeros at their end.
fn without_zeros_exec(digits: Vec<char>) -> (r: Vec<char>)
    ensures
        r@ == without_zeros(digits@),
{
    let mut out = digits;
    while out.len() > 0 && out[out.len() - 1] == '0'
        invariant
            without_zeros(out@) == without_zeros(digits@),
        decreases out@.len(),
    {
        proof {
            assert(out@.last() == '0');
        }
        out.pop();
    }
    out
}

/// A tiny number has at most four digits, the first of which is not zero.
proof fn lemma_tiny(size: nat)
    requires
        0 < size < TINY,
    ensures
        ({
            let all = nat_digits(size);
            let digits = without_zeros(all);
            &&& 1 <= all.len() <= 4
            &&& all_digits(digits)
            &&& 1 <= digits.len() <= all.len()
            &&& digits[0] != '0'
            &&& digits_value(digits) * pow10((all.len() - digits.len()) as nat) == size
        }),
{
    let all = nat_digits(size);
    let digits = without_zeros(all);
    reveal_with_fuel(nat_digits, 5);
    lemma_nat_digits(size);
    lemma_without_zeros(all);
    lemma_leading_zero(size);
    if digits.len() == 0 {
        assert(digits_value(digits) * pow10(all.len()) == 0) by (nonlinear_arith)
            requires
                digits_value(digits) == 0,
        ;
    }
    if digits[0] == '0' {
        assert(all[0] == digits[0]);
        assert(all.drop_last() =~= Seq::<char>::empty());
        assert(digits_value(all.drop_last()) == 0);
    }
}

/// Writes a time in seconds, with a point and a decimal place, or with an exponent where it is
/// tiny.
pub fn show_seconds_float(nanos: i64) -> (r: String)
    ensures
        r@ == seconds_float(nanos as int),
{
    let size = size_of(nanos);
    let mut out: Vec<char> = Vec::new();
    if nanos < 0 {
        out.push('-');
    }
    if 0 < size && size < TINY {
        let all = nat_digits_exec(size);
        proof {
            lemma_tiny(size as nat);
        }
        let count: usize = all.len();
        let digits = without_zeros_exec(all);
        out.push(digits[0]);
        if digits.len() > 1 {
            out.push('.');
            append_chars(
                &mut out,
                vstd::slice::slice_subrange(digits.as_slice(), 1, digits.len()),
            );
        }
        out.push('e');
        out.push('-');
        out.push(((10 - count) as u8 + 0x30) as char);
        proof {
            assert(out@ =~= seconds_float(nanos as int));
        }
        return string_of(out.as_slice());
    }
    let digits = nat_digits_exec(size / 1_000_000_000);
    append_chars(&mut out, digits.as_slice());
    out.push('.');
    let places = places_exec(size, 9);
    if places.len() > 0 {
        append_chars(&mut out, places.as_slice());
    } else {
        out.push('0');
    }
    proof {
        assert(out@ =~= seconds_float(nanos as int));
    }
    string_of(out.as_slice())
}

proof fn lemma_digit_char(d: nat)
    requires
        d < 10,
    ensures
        is_digit(digit_char(d)),
        digit_value(digit_char(d)) == d,
{
}

/// The digits of a number spell that number.
pub proof fn lemma_nat_digits(n: nat)
    ensures
        all_digits(nat_digits(n)),
        nat_digits(n).len() > 0,
        digits_value(nat_digits(n)) == n,
    decreases n,
{
    let s = nat_digits(n);
    lemma_digit_char(n % 10);
    if n < 10 {
        lemma_digit_char(n);
        assert(s.drop_last() =~= Seq::<char>::empty());
        assert(digits_value(s.drop_last()) == 0);
    } else {
        lemma_nat_digits(n / 10);
        assert(s.drop_last() =~= nat_digits(n / 10));
    }
}

proof fn lemma_low_digits(n: nat, k: nat)
    ensures
        all_digits(low_digits(n, k)),
        low_digits(n, k).len() == k,
        digits_value(low_digits(n, k)) == n % pow10(k),
    decreases k,
{
    if k > 0 {
        let s = low_digits(n, k);
        lemma_digit_char(n % 10);
        lemma_low_digits(n / 10, (k - 1) as nat);
        assert(s.drop_last() =~= low_digits(n / 10, (k - 1) as nat));
        let p = pow10((k - 1) as nat);
        lemma_pow10_positive((k - 1) as nat);
        vstd::arithmetic::div_mod::lemma_breakdown(n as int, 10, p as int);
    } else {
        assert(n % 1 == 0);
    }
}

proof fn lemma_without_zeros(s: Seq<char>)
    requires
        all_digits(s),
    ensures
        all_digits(without_zeros(s)),
        without_zeros(s).len() <= s.len(),
        without_zeros(s) == s.take(without_zeros(s).len() as int),
        digits_value(without_zeros(s)) * pow10((s.len() - without_zeros(s).len()) as nat)
            == digits_value(s),
    decreases s.len(),
{
    if s.len() > 0 && s.last() == '0' {
        let t = s.drop_last();
        lemma_without_zeros(t);
        let w = without_zeros(t);
        assert(t.take(w.len() as int) =~= s.take(w.len() as int));
        let k = (t.len() - w.len()) as nat;
        assert(digits_value(w) * pow10((k + 1) as nat) == 10 * (digits_value(w) * pow10(k)))
            by (nonlinear_arith)
            requires
                pow10((k + 1) as nat) == 10 * pow10(k),
        ;
    } else {
        assert(s.take(s.len() as int) =~= s);
        assert(digits_value(s) * pow10(0) == digits_value(s)) by (nonlinear_arith)
            requires
                pow10(0) == 1,
        ;
    }
}

proof fn lemma_digits_end(s: Seq<char>, i: int, j: int)
    requires
        0 <= i <= j <= s.len(),
        forall|k: int| i <= k < j ==> is_digit(#[trigger] s[k]),
        j == s.len() || !is_digit(s[j]),
    ensures
        digits_end(s, i) == j,
    decreases j - i,
{
    if i < j {
        lemma_digits_end(s, i + 1, j);
    }
}

proof fn lemma_pow10_sum(a: nat, b: nat)
    ensures
        pow10(a + b) == pow10(a) * pow10(b),
    decreases a,
{
    if a == 0 {
        assert(pow10(0) * pow10(b) == pow10(b)) by (nonlinear_arith)
            requires
                pow10(0) == 1,
        ;
    } else {
        lemma_pow10_sum((a - 1) as nat, b);
        assert(((a - 1) as nat + b) as nat == (a + b - 1) as nat);
        assert((10 * pow10((a - 1) as nat)) * pow10(b) == 10 * (pow10((a - 1) as nat) * pow10(b)))
            by (nonlinear_arith);
    }
}

/// Reads back a number written as a sign, whole digits and digits behind a point.
proof fn lemma_read_back(n: int, front: Seq<char>, back: Seq<char>, text: Seq<char>)
    requires
        all_digits(front),
        front.len() > 0,
        all_digits(back),
        back.len() <= 9,
        text == sign_of(n) + front + (if back.len() == 0 {
            Seq::empty()
        } else {
            seq!['.'] + back
        }),
        digits_value(front) * pow10(9) + digits_value(back) * pow10((9 - back.len()) as nat)
            == vstd::math::abs(n),
        i64::MIN <= n <= i64::MAX,
    ensures
        scaled(text, 9) == Some(n),
{
    let a = sign_of(n).len() as int;
    let b = a + front.len();
    let pointed = back.len() > 0;
    let c = if pointed {
        b + 1
    } else {
        b
    };
    let d = c + back.len();
    assert(is_digit(front[0]));
    assert(text[a] == front[0]);
    assert(text.len() == d);
    assert forall|k: int| a <= k < b implies is_digit(#[trigger] text[k]) by {
        assert(text[k] == front[k - a]);
    }
    assert forall|k: int| c <= k < d implies is_digit(#[trigger] text[k]) by {
        assert(text[k] == back[k - c]);
    }
    if pointed {
        assert(text[b] == '.');
    }
    lemma_digits_end(text, a, b);
    if pointed {
        lemma_digits_end(text, c, d);
    }
    assert(text.subrange(a, b) =~= front);
    assert(text.subrange(c, d) =~= back);
    let m = back.len();
    let e = (9 - m) as nat;
    lemma_digits_concat(front, back);
    lemma_pow10_sum(m, e);
    let x = digits_value(front);
    let y = digits_value(back);
    assert((x * pow10(m) + y) * pow10(e) == x * (pow10(m) * pow10(e)) + y * pow10(e))
        by (nonlinear_arith);
    assert(m + e == 9);
}

/// The parts of a tiny time as it is written.
proof fn lemma_tiny_written(nanos: int)
    requires
        0 < vstd::math::abs(nanos) < TINY,
    ensures
        ({
            let digits = without_zeros(nat_digits(vstd::math::abs(nanos)));
            written(seconds_float(nanos)) == Some(
                (Written {
                    negative: nanos < 0,
                    digits,
                    places: digits.len() - 1,
                    exponent: nat_digits(vstd::math::abs(nanos)).len() - 10,
                }),
            )
        }),
        ({
            let text = seconds_float(nanos);
            let a = sign_of(nanos).len() as int;
            text[a] != '0' && is_digit(text[a])
        }),
{
    let size = vstd::math::abs(nanos);
    let all = nat_digits(size);
    let digits = without_zeros(all);
    let text = seconds_float(nanos);
    lemma_tiny(size);
    let m = digits.len() as int;
    let a = sign_of(nanos).len() as int;
    let b = a + 1;
    let c = if m > 1 {
        b + 1
    } else {
        b
    };
    let d = c + m - 1;
    let last = digit_char((10 - all.len()) as nat);
    lemma_digit_char((10 - all.len()) as nat);
    assert(text.len() == d + 3);
    assert(text[a] == digits[0]);
    assert(is_digit(digits[0]));
    assert(text[d] == 'e' && text[d + 1] == '-' && text[d + 2] == last);
    assert(m > 1 ==> text[b] == '.');
    assert forall|k: int| c <= k < d implies is_digit(#[trigger] text[k]) by {
        assert(text[k] == digits[k - c + 1]);
    }
    lemma_digits_end(text, a, b);
    if m > 1 {
        lemma_digits_end(text, c, d);
    }
    lemma_digits_end(text, d + 2, d + 3);
    let run = text.subrange(d + 2, d + 3);
    assert(run.drop_last() =~= Seq::<char>::empty());
    assert(digits_value(run.drop_last()) == 0);
    assert(digits_value(run) == 10 - all.len());
    assert(text.subrange(a, b) + text.subrange(c, d) =~= digits);
}

/// A time that was written reads back as the same time.
pub proof fn law_seconds_read_back(nanos: int)
    requires
        i64::MIN <= nanos <= i64::MAX,
    ensures
        scaled(seconds_text(nanos), 9) == Some(nanos),
        scaled(seconds_float(nanos), 9) == Some(nanos),
{
    let size = vstd::math::abs(nanos);
    let front = nat_digits(size / 1_000_000_000);
    let low = low_digits(size, 9);
    let places = without_zeros(low);
    lemma_nat_digits(size / 1_000_000_000);
    lemma_low_digits(size, 9);
    lemma_without_zeros(low);
    assert(pow10(9) == 1_000_000_000) by {
        reveal_with_fuel(pow10, 10);
    }
    lemma_read_back(nanos, front, places, seconds_text(nanos));
    if 0 < size < TINY {
        lemma_tiny(size);
        lemma_tiny_written(nanos);
    } else if places.len() == 0 {
        let zero = seq!['0'];
        assert(zero.drop_last() =~= Seq::<char>::empty());
        assert(digits_value(zero) == 0) by {
            assert(digits_value(zero.drop_last()) == 0);
        }
        assert(digits_value(zero) * pow10(8) == 0) by (nonlinear_arith)
            requires
                digits_value(zero) == 0,
        ;
        assert(digits_value(places) == 0);
        assert(digits_value(places) * pow10(9) == 0) by (nonlinear_arith)
            requires
                digits_value(places) == 0,
        ;
        assert(sign_of(nanos) + front + seq!['.'] + zero =~= sign_of(nanos) + front + (seq!['.']
            + zero));
        lemma_read_back(nanos, front, zero, seconds_float(nanos));
    } else {
        assert(sign_of(nanos) + front + seq!['.'] + places =~= sign_of(nanos) + front + (seq!['.']
            + places));
        lemma_read_back(nanos, front, places, seconds_float(nanos));
    }
}

/// A whole number that was written reads back as the same number.
pub proof fn law_whole_read_back(n: int)
    requires
        i64::MIN <= n <= i64::MAX,
    ensures
        whole(whole_text(n)) == Some(n),
{
    let size = vstd::math::abs(n);
    let front = nat_digits(size);
    let text = whole_text(n);
    let a = sign_of(n).len() as int;
    lemma_nat_digits(size);
    assert(is_digit(front[0]));
    assert(text[a] == front[0]);
    assert forall|k: int| a <= k < text.len() implies is_digit(#[trigger] text[k]) by {
        assert(text[k] == front[k - a]);
    }
    lemma_digits_end(text, a, text.len() as int);
    assert(text.subrange(a, text.len() as int) =~= front);
    assert(front + text.subrange(text.len() as int, text.len() as int) =~= front);
}

proof fn lemma_leading_zero(n: nat)
    ensures
        nat_digits(n)[0] == '0' ==> nat_digits(n).len() == 1,
    decreases n,
{
    lemma_digit_char(n % 10);
    if n >= 10 {
        lemma_nat_digits(n / 10);
        lemma_leading_zero(n / 10);
        assert(nat_digits(n)[0] == nat_digits(n / 10)[0]);
        if nat_digits(n / 10)[0] == '0' {
            let low = nat_digits(n / 10);
            assert(low.drop_last() =~= Seq::<char>::empty());
            assert(digits_value(low) == 0) by {
                assert(digits_value(low.drop_last()) == 0);
            }
        }
    }
}

proof fn lemma_digit_count(n: nat, k: nat)
    requires
        n < pow10(k),
        k > 0,
    ensures
        nat_digits(n).len() <= k,
    decreases k,
{
    if n >= 10 {
        if k == 1 {
            assert(pow10(1) == 10) by {
                reveal_with_fuel(pow10, 2);
            }
        }
        lemma_digit_count(n / 10, (k - 1) as nat);
    }
}

/// Numbers are written with few characters.
proof fn lemma_short(n: int)
    requires
        i64::MIN <= n <= i64::MAX,
    ensures
        whole_text(n).len() <= 50,
        seconds_float(n).len() <= 50,
{
    let size = vstd::math::abs(n);
    assert(pow10(20) == 100_000_000_000_000_000_000) by {
        reveal_with_fuel(pow10, 21);
    }
    lemma_digit_count(size, 20);
    lemma_digit_count(size / 1_000_000_000, 20);
    lemma_low_digits(size, 9);
    lemma_without_zeros(low_digits(size, 9));
    if 0 < size < TINY {
        lemma_tiny(size);
    }
}

/// Numbers are written without leading zeros, and can be read.
pub proof fn lemma_no_leading_zeros(n: int, text: Seq<char>)
    requires
        i64::MIN <= n <= i64::MAX,
        text == whole_text(n) || text == seconds_float(n),
    ensures
        written(text) is Some,
        scaled(text, 9) is Some || whole(text) is Some,
        text.len() <= 50,
        ({
            let a: int = if text.len() > 0 && text[0] == '-' {
                1
            } else {
                0
            };
            text[a] == '0' ==> digits_end(text, a) == a + 1
        }),
{
    lemma_short(n);
    law_whole_read_back(n);
    law_seconds_read_back(n);
    let size = vstd::math::abs(n);
    if text != whole_text(n) && 0 < size < TINY {
        lemma_tiny_written(n);
    } else {
        lemma_plain_leading_zeros(n, text);
    }
}

proof fn lemma_plain_leading_zeros(n: int, text: Seq<char>)
    requires
        i64::MIN <= n <= i64::MAX,
        text == whole_text(n) || (text == seconds_float(n) && !(0 < vstd::math::abs(n) < TINY)),
    ensures
        ({
            let a: int = if text.len() > 0 && text[0] == '-' {
                1
            } else {
                0
            };
            text[a] == '0' ==> digits_end(text, a) == a + 1
        }),
{
    let size = vstd::math::abs(n);
    let high = if text == whole_text(n) {
        size
    } else {
        size / 1_000_000_000
    };
    let front = nat_digits(high);
    lemma_nat_digits(high);
    lemma_leading_zero(high);
    let a = sign_of(n).len() as int;
    let b = a + front.len();
    assert(is_digit(front[0]));
    assert(text[a] == front[0]);
    assert forall|k: int| a <= k < b implies is_digit(#[trigger] text[k]) by {
        assert(text[k] == front[k - a]);
    }
    if text != whole_text(n) {
        assert(text[b] == '.');
    }
    lemma_digits_end(text, a, b);
}

proof fn lemma_digit_run(s: Seq<char>, i: int)
    requires
        0 <= i <= s.len(),
    ensures
        i <= digits_end(s, i) <= s.len(),
        forall|k: int| i <= k < digits_end(s, i) ==> is_digit(#[trigger] s[k]),
    decreases s.len() - i,
{
    if i < s.len() && is_digit(s[i]) {
        lemma_digit_run(s, i + 1);
    }
}

/// A number is written with digits, signs, a point and an exponent mark only.
pub proof fn lemma_number_chars(s: Seq<char>, i: int)
    requires
        written(s) is Some,
        0 <= i < s.len(),
    ensures
        is_digit(s[i]) || s[i] == '-' || s[i] == '+' || s[i] == '.' || s[i] == 'e' || s[i] == 'E',
{
    let a: int = if s.len() > 0 && s[0] == '-' {
        1
    } else {
        0
    };
    lemma_digit_run(s, a);
    let b = digits_end(s, a);
    let pointed = b < s.len() && s[b] == '.';
    let c = if pointed {
        b + 1
    } else {
        b
    };
    let d = if pointed {
        digits_end(s, c)
    } else {
        b
    };
    if pointed {
        lemma_digit_run(s, c);
    }
    assert(exponent_at(s, d) is Some);
    if d < s.len() {
        let signed = d + 1 < s.len() && (s[d + 1] == '-' || s[d + 1] == '+');
        let from = if signed {
            d + 2
        } else {
            d + 1
        };
        lemma_digit_run(s, from);
    }
}

/// A whole number that is not negative reads at any scale as a multiple of the unit.
pub proof fn lemma_whole_written(n: nat, places: nat)
    requires
        n * pow10(places) <= i64::MAX,
    ensures
        scaled(whole_text(n as int), places) == Some((n * pow10(places)) as int),
{
    let front = nat_digits(n);
    let text = whole_text(n as int);
    lemma_nat_digits(n);
    assert(text =~= front);
    assert(is_digit(front[0]));
    lemma_digits_end(text, 0, text.len() as int);
    assert(text.subrange(0, text.len() as int) =~= front);
    assert(front + text.subrange(text.len() as int, text.len() as int) =~= front);
}

/// Digits spell a number in base ten, the last one counting once, and each before it ten times as
/// much as the one behind it.
pub proof fn law_digits_count_by_tens(front: Seq<char>, c: char)
    requires
        '0' <= c <= '9',
    ensures
        digits_value(Seq::empty()) == 0,
        digits_value(front.push(c)) == 10 * digits_value(front) + (c as u32 - '0' as u32),
        pow10(0) == 1,
        forall|k: nat| #[trigger] pow10(k + 1) == 10 * pow10(k),
{
    assert(front.push(c).drop_last() =~= front);
}

/// A number is written with the digits that spell it, and without leading zeros; a minus sign
/// stands in front of a negative one.
pub proof fn law_numbers_are_written_in_digits(n: nat)
    ensures
        nat_digits(n).len() > 0,
        forall|i: int| 0 <= i < nat_digits(n).len() ==> '0' <= #[trigger] nat_digits(n)[i] <= '9',
        digits_value(nat_digits(n)) == n,
        nat_digits(n).len() > 1 ==> nat_digits(n)[0] != '0',
        whole_text(n as int) == nat_digits(n),
        n > 0 ==> whole_text(-(n as int)) == seq!['-'] + nat_digits(n),
{
    lemma_nat_digits(n);
    lemma_leading_zero(n);
    assert forall|i: int| 0 <= i < nat_digits(n).len() implies '0' <= #[trigger] nat_digits(n)[i]
        <= '9' by {
        assert(is_digit(nat_digits(n)[i]));
    }
    assert(whole_text(n as int) =~= nat_digits(n));
}

/// Whole seconds are written as whole numbers, with a point and a zero behind them where a
/// fraction is called for. Any other time ends in a digit that is not zero.
pub proof fn law_seconds_are_written_short(n: int)
    ensures
        seconds_text(n * 1_000_000_000) == whole_text(n),
        seconds_float(n * 1_000_000_000) == whole_text(n) + seq!['.', '0'],
        n % 1_000_000_000 != 0 ==> seconds_text(n).last() != '0',
{
    let whole_part = n * 1_000_000_000;
    let size = vstd::math::abs(whole_part);
    assert(size == vstd::math::abs(n) * 1_000_000_000);
    assert(size / 1_000_000_000 == vstd::math::abs(n));
    assert(size % 1_000_000_000 == 0);
    lemma_zeros_go(size);
    assert(seconds_text(whole_part) =~= whole_text(n));
    assert(seconds_float(whole_part) =~= whole_text(n) + seq!['.', '0']);
    if n % 1_000_000_000 != 0 {
        let left = vstd::math::abs(n);
        assert(left % 1_000_000_000 != 0);
        lemma_zeros_go(left);
        let places = without_zeros(low_digits(left, 9));
        assert(seconds_text(n).last() == places.last());
    }
}

proof fn lemma_zeros_go(size: nat)
    ensures
        ({
            let places = without_zeros(low_digits(size, 9));
            &&& size % 1_000_000_000 == 0 ==> places.len() == 0
            &&& size % 1_000_000_000 != 0 ==> places.len() > 0 && places.last() != '0'
        }),
{
    let all = low_digits(size, 9);
    let places = without_zeros(all);
    lemma_low_digits(size, 9);
    lemma_without_zeros(all);
    assert(pow10(9) == 1_000_000_000) by {
        reveal_with_fuel(pow10, 10);
    }
    lemma_last_left(all);
    if places.len() > 0 {
        let v = digits_value(places);
        let p = pow10((all.len() - places.len()) as nat);
        lemma_pow10_positive((all.len() - places.len()) as nat);
        assert(is_digit(places.last()));
        lemma_digit(places.last());
        assert(digit_value(places.last()) > 0);
        assert(v > 0);
        assert(v * p > 0) by (nonlinear_arith)
            requires
                v > 0,
                p > 0,
        ;
    } else {
        assert(digits_value(places) == 0);
        assert(0 * pow10((all.len() - places.len()) as nat) == 0);
    }
}

proof fn lemma_last_left(s: Seq<char>)
    ensures
        without_zeros(s).len() > 0 ==> without_zeros(s).last() != '0',
    decreases s.len(),
{
    if s.len() > 0 && s.last() == '0' {
        lemma_last_left(s.drop_last());
    }
}

/// Rounding gives the whole number next to the exact one: it is not further off than half a unit,
/// and a half goes up. What needs no rounding is exact.
pub proof fn law_rounding_is_to_the_nearest(digits: nat, e: nat)
    ensures
        shifted(digits, e as int) == digits * pow10(e),
        e > 0 ==> 2 * digits - pow10(e) < 2 * shifted(digits, -(e as int)) * pow10(e) <= 2 * digits
            + pow10(e),
{
    lemma_pow10_positive(e);
    if e > 0 {
        let p: int = pow10(e) as int;
        let n: int = 2 * digits + p;
        let q: int = n / (2 * p);
        assert(shifted(digits, -(e as int)) == q);
        assert(n - 2 * p < (2 * p) * q <= n) by (nonlinear_arith)
            requires
                p > 0,
                q == n / (2 * p),
        ;
        assert((2 * p) * q == 2 * q * p) by (nonlinear_arith);
    }
}

/// How a number is read: an optional minus sign, digits, and an optional point with digits behind
/// it. Its value is that of all the digits as one number, less a power of ten for each digit behind
/// the point. What does not fit a time is not read.
pub proof fn law_number_is_read_by_its_parts(
    minus: Seq<char>,
    front: Seq<char>,
    back: Seq<char>,
    text: Seq<char>,
    places: nat,
)
    requires
        minus == Seq::<char>::empty() || minus == seq!['-'],
        front.len() > 0,
        forall|i: int| 0 <= i < front.len() ==> '0' <= #[trigger] front[i] <= '9',
        forall|i: int| 0 <= i < back.len() ==> '0' <= #[trigger] back[i] <= '9',
        text == minus + front + (if back.len() == 0 {
            Seq::empty()
        } else {
            seq!['.'] + back
        }),
    ensures
        ({
            let size = shifted(digits_value(front + back), places - back.len());
            scaled(text, places) == (if minus.len() > 0 && size <= 0x8000_0000_0000_0000 {
                Some(-(size as int))
            } else if minus.len() == 0 && size <= 0x7fff_ffff_ffff_ffff {
                Some(size as int)
            } else {
                None
            })
        }),
{
    assert(text + Seq::<char>::empty() =~= text);
    lemma_head_parts(minus, front, back, Seq::empty(), text);
}

/// An exponent, of either sign, multiplies the number before it by that power of ten.
pub proof fn law_exponent_shifts_the_number(
    minus: Seq<char>,
    front: Seq<char>,
    back: Seq<char>,
    head: Seq<char>,
    mark: char,
    sign: Seq<char>,
    power: Seq<char>,
    places: nat,
)
    requires
        minus == Seq::<char>::empty() || minus == seq!['-'],
        front.len() > 0,
        power.len() > 0,
        forall|i: int| 0 <= i < front.len() ==> '0' <= #[trigger] front[i] <= '9',
        forall|i: int| 0 <= i < back.len() ==> '0' <= #[trigger] back[i] <= '9',
        forall|i: int| 0 <= i < power.len() ==> '0' <= #[trigger] power[i] <= '9',
        head == minus + front + (if back.len() == 0 {
            Seq::empty()
        } else {
            seq!['.'] + back
        }),
        mark == 'e' || mark == 'E',
        sign == Seq::<char>::empty() || sign == seq!['+'] || sign == seq!['-'],
    ensures
        ({
            let x: int = if sign == seq!['-'] {
                -(digits_value(power) as int)
            } else {
                digits_value(power) as int
            };
            let size = shifted(digits_value(front + back), x - back.len() + places);
            scaled(head + (seq![mark] + sign + power), places) == (if minus.len() > 0 && size
                <= 0x8000_0000_0000_0000 {
                Some(-(size as int))
            } else if minus.len() == 0 && size <= 0x7fff_ffff_ffff_ffff {
                Some(size as int)
            } else {
                None
            })
        }),
{
    let tail = seq![mark] + sign + power;
    assert(tail[0] == mark);
    lemma_head_parts(minus, front, back, tail, head + tail);
    lemma_exponent_part(head, mark, sign, power, head + tail);
}

/// An exponent behind a number.
proof fn lemma_exponent_part(
    head: Seq<char>,
    mark: char,
    sign: Seq<char>,
    power: Seq<char>,
    text: Seq<char>,
)
    requires
        power.len() > 0,
        forall|i: int| 0 <= i < power.len() ==> '0' <= #[trigger] power[i] <= '9',
        mark == 'e' || mark == 'E',
        sign == Seq::<char>::empty() || sign == seq!['+'] || sign == seq!['-'],
        text == head + (seq![mark] + sign + power),
    ensures
        exponent_at(text, head.len() as int) == Some(
            if sign == seq!['-'] {
                -(digits_value(power) as int)
            } else {
                digits_value(power) as int
            },
        ),
{
    let d = head.len() as int;
    assert(text[d] == mark);
    let from = d + 1 + sign.len();
    assert forall|k: int| from <= k < text.len() implies is_digit(#[trigger] text[k]) by {
        assert(text[k] == power[k - from]);
    }
    lemma_digits_end(text, from, text.len() as int);
    assert(text.subrange(from, text.len() as int) =~= power);
    assert(seq!['+'][0] == '+' && seq!['-'][0] == '-');
    if sign.len() > 0 {
        assert(text[d + 1] == sign[0]);
    } else {
        assert(text[d + 1] == power[0]);
    }
}

/// The digits of a number that something else may follow.
proof fn lemma_head_parts(
    minus: Seq<char>,
    front: Seq<char>,
    back: Seq<char>,
    tail: Seq<char>,
    text: Seq<char>,
)
    requires
        minus == Seq::<char>::empty() || minus == seq!['-'],
        front.len() > 0,
        forall|i: int| 0 <= i < front.len() ==> '0' <= #[trigger] front[i] <= '9',
        forall|i: int| 0 <= i < back.len() ==> '0' <= #[trigger] back[i] <= '9',
        tail.len() == 0 || tail[0] == 'e' || tail[0] == 'E',
        text == minus + front + (if back.len() == 0 {
            Seq::empty()
        } else {
            seq!['.'] + back
        }) + tail,
    ensures
        ({
            let d = text.len() - tail.len();
            match exponent_at(text, d) {
                None => written(text) is None,
                Some(exponent) => written(text) == Some(
                    (Written {
                        negative: minus.len() > 0,
                        digits: front + back,
                        places: back.len() as int,
                        exponent,
                    }),
                ),
            }
        }),
{
    let frac = if back.len() == 0 {
        Seq::empty()
    } else {
        seq!['.'] + back
    };
    let a = minus.len() as int;
    let b = a + front.len();
    assert(text.len() == a + front.len() + frac.len() + tail.len());
    assert forall|k: int| a <= k < b implies is_digit(#[trigger] text[k]) by {
        assert(text[k] == front[k - a]);
    }
    assert(text[a] == front[0]);
    if a > 0 {
        assert(text[0] == minus[0]);
    }
    if back.len() > 0 {
        assert(text[b] == '.');
        let c = b + 1;
        let d = c + back.len();
        assert forall|k: int| c <= k < d implies is_digit(#[trigger] text[k]) by {
            assert(text[k] == back[k - c]);
        }
        if tail.len() > 0 {
            assert(text[d] == tail[0]);
        }
        lemma_digits_end(text, a, b);
        lemma_digits_end(text, c, d);
        assert(text.subrange(a, b) + text.subrange(c, d) =~= front + back);
    } else {
        if tail.len() > 0 {
            assert(text[b] == tail[0]);
        }
        lemma_digits_end(text, a, b);
        assert(text.subrange(a, b) + text.subrange(b, b) =~= front + back);
    }
}

/// A whole number is read from digits with an optional minus sign. With a point or an exponent it
/// is none, and neither is a negative zero nor what does not fit.
pub proof fn law_whole_numbers_are_read(minus: Seq<char>, front: Seq<char>, back: Seq<char>)
    requires
        minus == Seq::<char>::empty() || minus == seq!['-'],
        front.len() > 0,
        forall|i: int| 0 <= i < front.len() ==> '0' <= #[trigger] front[i] <= '9',
        forall|i: int| 0 <= i < back.len() ==> '0' <= #[trigger] back[i] <= '9',
    ensures
        ({
            let size = digits_value(front);
            whole(minus + front) == (if minus.len() == 0 && size <= 0x7fff_ffff_ffff_ffff {
                Some(size as int)
            } else if minus.len() > 0 && 0 < size <= 0x8000_0000_0000_0000 {
                Some(-(size as int))
            } else {
                None
            })
        }),
        back.len() > 0 ==> whole(minus + front + (seq!['.'] + back)) is None,
        below_zero(minus + front) <==> minus.len() > 0 && digits_value(front) > 0,
        back.len() > 0 ==> (below_zero(minus + front + (seq!['.'] + back)) <==> minus.len() > 0
            && digits_value(front + back) > 0),
{
    let none = Seq::<char>::empty();
    let text = minus + front;
    assert(text + none + none =~= text);
    lemma_head_parts(minus, front, none, none, text);
    assert(front + none =~= front);
    let a = minus.len() as int;
    assert forall|k: int| a <= k < text.len() implies is_digit(#[trigger] text[k]) by {
        assert(text[k] == front[k - a]);
    }
    lemma_digits_end(text, a, text.len() as int);
    if back.len() > 0 {
        let more = minus + front + (seq!['.'] + back);
        assert(more + none =~= more);
        lemma_head_parts(minus, front, back, none, more);
    }
}

} // verus!
