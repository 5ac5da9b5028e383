//! Backslash escapes in typed text: what each stands for, and the units text is typed in.

use crate::text::{append_bytes, chars_of, string_of, utf8_bytes, views};
use vstd::prelude::*;
use vstd::utf8::encode_utf8;

verus! {

/// `char::from_u32` gives the character with that code point, and nothing for a surrogate or a
/// number above U+10FFFF.
pub assume_specification[ char::from_u32 ](i: u32) -> (r: Option<char>)
    ensures
        match r {
            Some(c) => is_code_point(i) && c as u32 == i,
            None => !is_code_point(i),
        },
;

/// What is wrong with the digits of a `\u` or `\x` escape.
#[derive(Debug, Clone, Copy, PartialEq, Eq, Structural)]
pub enum HexFault {
    /// The text ends before the last digit.
    End,
    /// This character is not a hexadecimal digit.
    Digit(char),
}

/// Why a text cannot be decoded.
#[derive(Debug, Clone, Copy, PartialEq, Eq, Structural)]
pub enum EscapeError {
    /// `\u` without four hexadecimal digits after it.
    Unicode(HexFault),
    /// `\x` without two hexadecimal digits after it.
    Hex(HexFault),
    /// `\u` with the code of a surrogate.
    CodePoint(u32),
}

/// Whether a number is the code point of a character.
pub open spec fn is_code_point(code: u32) -> bool {
    code <= 0xd7ff || (0xe000 <= code && code <= 0x10ffff)
}

/// The value of a hexadecimal digit.
pub open spec fn hex_digit(c: char) -> Option<u32> {
    if '0' <= c && c <= '9' {
        Some((c as u32 - 0x30) as u32)
    } else if 'a' <= c && c <= 'f' {
        Some((c as u32 - 0x57) as u32)
    } else if 'A' <= c && c <= 'F' {
        Some((c as u32 - 0x37) as u32)
    } else {
        None
    }
}

/// The number that the first `n` characters spell in hexadecimal, or what is wrong with the
/// first of them that is not a digit.
pub open spec fn hex_value(s: Seq<char>, n: nat) -> Result<int, HexFault>
    decreases n,
{
    if n == 0 {
        Ok(0)
    } else {
        match hex_value(s, (n - 1) as nat) {
            Err(fault) => Err(fault),
            Ok(high) => {
                if s.len() < n {
                    Err(HexFault::End)
                } else {
                    match hex_digit(s[n - 1]) {
                        Some(d) => Ok(16 * high + d),
                        None => Err(HexFault::Digit(s[n - 1])),
                    }
                }
            },
        }
    }
}

/// The length of the first typing unit of a text that is not empty: an escape, or one character.
/// An escape that the text cuts short is as long as what is there.
pub open spec fn first_unit_len(s: Seq<char>) -> int {
    let full: int = if s[0] != '\\' || s.len() == 1 {
        1
    } else if s[1] == 'u' {
        6
    } else if s[1] == 'x' {
        4
    } else {
        2
    };
    if full <= s.len() {
        full
    } else {
        s.len() as int
    }
}

/// The bytes that one typing unit stands for. An unknown escape stands for itself, and so does
/// a backslash alone.
pub open spec fn unit_bytes(unit: Seq<char>) -> Result<Seq<u8>, EscapeError> {
    if unit[0] != '\\' || unit.len() == 1 {
        Ok(encode_utf8(seq![unit[0]]))
    } else if unit[1] == 'r' {
        Ok(seq![0x0d])
    } else if unit[1] == 'n' {
        Ok(seq![0x0a])
    } else if unit[1] == 't' {
        Ok(seq![0x09])
    } else if unit[1] == '0' {
        Ok(seq![0x00])
    } else if unit[1] == '\\' {
        Ok(seq![0x5c])
    } else if unit[1] == 'u' {
        match hex_value(unit.skip(2), 4) {
            Err(fault) => Err(EscapeError::Unicode(fault)),
            Ok(code) => {
                if is_code_point(code as u32) {
                    Ok(encode_utf8(seq![(code as u32) as char]))
                } else {
                    Err(EscapeError::CodePoint(code as u32))
                }
            },
        }
    } else if unit[1] == 'x' {
        match hex_value(unit.skip(2), 2) {
            Err(fault) => Err(EscapeError::Hex(fault)),
            Ok(code) => Ok(seq![code as u8]),
        }
    } else {
        Ok(encode_utf8(seq!['\\']) + encode_utf8(seq![unit[1]]))
    }
}

/// The bytes that a text stands for, or the first error in it.
pub open spec fn decoded(s: Seq<char>) -> Result<Seq<u8>, EscapeError>
    decreases s.len(),
{
    if s.len() == 0 {
        Ok(Seq::empty())
    } else {
        match unit_bytes(s.take(first_unit_len(s))) {
            Err(e) => Err(e),
            Ok(head) => match decoded(s.skip(first_unit_len(s))) {
                Err(e) => Err(e),
                Ok(tail) => Ok(head + tail),
            },
        }
    }
}

/// The typing units of a text, in order.
pub open spec fn units(s: Seq<char>) -> Seq<Seq<char>>
    decreases s.len(),
{
    if s.len() == 0 {
        Seq::empty()
    } else {
        seq![s.take(first_unit_len(s))] + units(s.skip(first_unit_len(s)))
    }
}

/// The bytes of each unit of a list, one after the other.
pub open spec fn all_unit_bytes(list: Seq<Seq<char>>) -> Seq<u8>
    decreases list.len(),
{
    if list.len() == 0 {
        Seq::empty()
    } else {
        decoded(list[0])->Ok_0 + all_unit_bytes(list.skip(1))
    }
}

/// The value of a hexadecimal digit.
fn hex_digit_exec(c: char) -> (r: Option<u32>)
    ensures
        r == hex_digit(c),
        r matches Some(d) ==> d < 16,
{
    if '0' <= c && c <= '9' {
        Some(c as u32 - 0x30)
    } else if 'a' <= c && c <= 'f' {
        Some(c as u32 - 0x57)
    } else if 'A' <= c && c <= 'F' {
        Some(c as u32 - 0x37)
    } else {
        None
    }
}

/// Reads `n` hexadecimal digits from position `i` on.
fn read_hex(chars: &[char], i: usize, n: usize) -> (r: Result<u32, HexFault>)
    requires
        i <= chars@.len(),
        n <= 4,
    ensures
        match r {
            Ok(v) => hex_value(chars@.skip(i as int), n as nat) == Ok::<int, HexFault>(v as int),
            Err(f) => hex_value(chars@.skip(i as int), n as nat) == Err::<int, HexFault>(f),
        },
        r matches Ok(v) ==> n == 2 ==> v < 0x100,
        r matches Ok(v) ==> v < 0x10000,
{
    let ghost s = chars@.skip(i as int);
    let mut value: u32 = 0;
    let mut k: usize = 0;
    while k < n
        invariant
            k <= n <= 4,
            i <= chars.len(),
            s == chars@.skip(i as int),
            hex_value(s, k as nat) == Ok::<int, HexFault>(value as int),
            k == 0 ==> value == 0,
            k == 1 ==> value < 0x10,
            k == 2 ==> value < 0x100,
            k == 3 ==> value < 0x1000,
            k == 4 ==> value < 0x10000,
        decreases n - k,
    {
        if chars.len() - i <= k {
            proof {
                lemma_hex_fault(s, (k + 1) as nat, n as nat);
            }
            return Err(HexFault::End);
        }
        let c = chars[i + k];
        match hex_digit_exec(c) {
            None => {
                proof {
                    lemma_hex_fault(s, (k + 1) as nat, n as nat);
                }
                return Err(HexFault::Digit(c));
            },
            Some(d) => {
                value = value * 16 + d;
            },
        }
        k += 1;
    }
    Ok(value)
}

proof fn lemma_hex_fault(s: Seq<char>, k: nat, n: nat)
    requires
        k <= n,
        hex_value(s, k) is Err,
    ensures
        hex_value(s, n) == hex_value(s, k),
    decreases n,
{
    if k < n {
        lemma_hex_fault(s, k, (n - 1) as nat);
    }
}

proof fn lemma_hex_value_take(s: Seq<char>, m: int, n: nat)
    requires
        n <= m <= s.len(),
    ensures
        hex_value(s.take(m), n) == hex_value(s, n),
    decreases n,
{
    if n > 0 {
        lemma_hex_value_take(s, m, (n - 1) as nat);
    }
}

/// The length of the typing unit that begins at `i`.
fn unit_len_at(chars: &[char], i: usize) -> (r: usize)
    requires
        i < chars@.len(),
    ensures
        r == first_unit_len(chars@.skip(i as int)),
        0 < r <= chars@.len() - i,
{
    let left: usize = chars.len() - i;
    let full: usize = if chars[i] != '\\' || left == 1 {
        1
    } else if chars[i + 1] == 'u' {
        6
    } else if chars[i + 1] == 'x' {
        4
    } else {
        2
    };
    if full <= left {
        full
    } else {
        left
    }
}

/// Decodes one typing unit.
fn decode_unit(unit: &[char]) -> (r: Result<Vec<u8>, EscapeError>)
    requires
        unit@.len() > 0,
    ensures
        match r {
            Ok(bytes) => unit_bytes(unit@) == Ok::<Seq<u8>, EscapeError>(bytes@),
            Err(e) => unit_bytes(unit@) == Err::<Seq<u8>, EscapeError>(e),
        },
{
    if unit[0] != '\\' || unit.len() == 1 {
        let one = [unit[0]];
        proof {
            assert(one@ =~= seq![unit@[0]]);
        }
        return Ok(utf8_bytes(one.as_slice()));
    }
    let mut out: Vec<u8> = Vec::new();
    let kind = unit[1];
    if kind == 'r' {
        out.push(0x0d);
    } else if kind == 'n' {
        out.push(0x0a);
    } else if kind == 't' {
        out.push(0x09);
    } else if kind == '0' {
        out.push(0x00);
    } else if kind == '\\' {
        out.push(0x5c);
    } else if kind == 'u' {
        match read_hex(unit, 2, 4) {
            Err(fault) => {
                return Err(EscapeError::Unicode(fault));
            },
            Ok(code) => match char::from_u32(code) {
                None => {
                    return Err(EscapeError::CodePoint(code));
                },
                Some(c) => {
                    let one = [c];
                    proof {
                        assert(one@ =~= seq![c]);
                        vstd::utf8::char_u32_cast(c, code);
                    }
                    out = utf8_bytes(one.as_slice());
                },
            },
        }
    } else if kind == 'x' {
        match read_hex(unit, 2, 2) {
            Err(fault) => {
                return Err(EscapeError::Hex(fault));
            },
            Ok(code) => {
                out.push(code as u8);
            },
        }
    } else {
        let back = ['\\'];
        let one = [kind];
        proof {
            assert(back@ =~= seq!['\\']);
            assert(one@ =~= seq![kind]);
        }
        out = utf8_bytes(back.as_slice());
        let more = utf8_bytes(one.as_slice());
        append_bytes(&mut out, more.as_slice());
    }
    proof {
        assert(unit_bytes(unit@) matches Ok(b) && b =~= out@);
    }
    Ok(out)
}

/// Decodes the escapes of a text into the bytes to send.
pub fn decode_escapes(input: &str) -> (r: Result<Vec<u8>, EscapeError>)
    ensures
        match r {
            Ok(bytes) => decoded(input@) == Ok::<Seq<u8>, EscapeError>(bytes@),
            Err(e) => decoded(input@) == Err::<Seq<u8>, EscapeError>(e),
        },
{
    let chars = chars_of(input);
    let mut out: Vec<u8> = Vec::new();
    let mut i: usize = 0;
    proof {
        assert(chars@.skip(0) =~= input@);
    }
    while i < chars.len()
        invariant
            i <= chars@.len(),
            match decoded(chars@.skip(i as int)) {
                Ok(rest) => decoded(input@) == Ok::<Seq<u8>, EscapeError>(out@ + rest),
                Err(e) => decoded(input@) == Err::<Seq<u8>, EscapeError>(e),
            },
        decreases chars@.len() - i,
    {
        let n = unit_len_at(chars.as_slice(), i);
        let unit = vstd::slice::slice_subrange(chars.as_slice(), i, i + n);
        let ghost rest = chars@.skip(i as int);
        proof {
            assert(unit@ =~= rest.take(n as int));
            assert(chars@.skip(i + n) =~= rest.skip(n as int));
        }
        match decode_unit(unit) {
            Err(e) => {
                return Err(e);
            },
            Ok(bytes) => {
                let ghost before = out@;
                append_bytes(&mut out, bytes.as_slice());
                proof {
                    if let Ok(tail) = decoded(rest.skip(n as int)) {
                        assert(before + (bytes@ + tail) =~= out@ + tail);
                    }
                }
            },
        }
        i += n;
    }
    proof {
        assert(chars@.skip(i as int).len() == 0);
        assert(out@ + Seq::<u8>::empty() =~= out@);
    }
    Ok(out)
}

/// Splits a text into its typing units.
pub fn split_into_units(input: &str) -> (r: Vec<String>)
    ensures
        views(r@) == units(input@),
{
    let chars = chars_of(input);
    let mut out: Vec<String> = Vec::new();
    let mut i: usize = 0;
    proof {
        assert(chars@.skip(0) =~= input@);
        assert(views(out@) + units(input@) =~= units(input@));
    }
    while i < chars.len()
        invariant
            i <= chars@.len(),
            views(out@) + units(chars@.skip(i as int)) == units(input@),
        decreases chars@.len() - i,
    {
        let n = unit_len_at(chars.as_slice(), i);
        let unit = vstd::slice::slice_subrange(chars.as_slice(), i, i + n);
        let ghost rest = chars@.skip(i as int);
        let ghost before = views(out@);
        let text = string_of(unit);
        proof {
            assert(unit@ =~= rest.take(n as int));
            assert(chars@.skip(i + n) =~= rest.skip(n as int));
            assert(views(out@.push(text)) =~= before.push(unit@));
            assert(before.push(unit@) + units(rest.skip(n as int)) =~= before + (seq![unit@]
                + units(rest.skip(n as int))));
        }
        out.push(text);
        i += n;
    }
    proof {
        assert(chars@.skip(i as int).len() == 0);
        assert(views(out@) + Seq::<Seq<char>>::empty() =~= views(out@));
    }
    out
}

/// A text that is one unit decodes as that unit.
proof fn lemma_unit_alone(s: Seq<char>)
    requires
        s.len() > 0,
    ensures
        decoded(s.take(first_unit_len(s))) == unit_bytes(s.take(first_unit_len(s))),
{
    let n = first_unit_len(s);
    let unit = s.take(n);
    assert(first_unit_len(unit) == n);
    assert(unit.take(n) =~= unit);
    assert(unit.skip(n) =~= Seq::<char>::empty());
    assert(decoded(unit.skip(n)) == Ok::<Seq<u8>, EscapeError>(Seq::empty()));
    if let Ok(b) = unit_bytes(unit) {
        assert(b + Seq::<u8>::empty() =~= b);
    }
}

/// Typing a text unit by unit sends what the whole text stands for, and nothing of the text is
/// lost between the units.
pub proof fn law_units_make_the_text(s: Seq<char>)
    ensures
        units(s).flatten() == s,
        decoded(s) is Ok <==> (forall|i: int|
            0 <= i < units(s).len() ==> decoded(#[trigger] units(s)[i]) is Ok),
        decoded(s) matches Ok(bytes) ==> all_unit_bytes(units(s)) == bytes,
    decreases s.len(),
{
    if s.len() == 0 {
    } else {
        let n = first_unit_len(s);
        let unit = s.take(n);
        let tail = units(s.skip(n));
        let list = units(s);
        law_units_make_the_text(s.skip(n));
        lemma_unit_alone(s);
        assert(list == seq![unit] + tail);
        assert(list.drop_first() =~= tail);
        assert(list.skip(1) =~= tail);
        assert(unit + s.skip(n) =~= s);
        if decoded(s) is Ok {
            assert forall|i: int| 0 <= i < list.len() implies decoded(#[trigger] list[i]) is Ok by {
                if i > 0 {
                    assert(list[i] == tail[i - 1]);
                }
            }
        } else if decoded(list[0]) is Ok {
            let i = choose|i: int| 0 <= i < tail.len() && decoded(#[trigger] tail[i]) is Err;
            assert(list[i + 1] == tail[i]);
        }
    }
}

/// A text without backslashes is typed as it is.
pub proof fn law_plain_text_is_sent_verbatim(s: Seq<char>)
    requires
        forall|i: int| 0 <= i < s.len() ==> s[i] != '\\',
    ensures
        decoded(s) == Ok::<Seq<u8>, EscapeError>(encode_utf8(s)),
        units(s).len() == s.len(),
    decreases s.len(),
{
    if s.len() > 0 {
        law_plain_text_is_sent_verbatim(s.skip(1));
        assert(s.take(1) =~= seq![s[0]]);
        assert(s.skip(1) =~= s.drop_first());
        let one = seq![s[0]];
        assert(one.drop_first() =~= Seq::<char>::empty());
        assert(encode_utf8(one) =~= vstd::utf8::encode_scalar(s[0] as u32)) by {
            reveal_with_fuel(encode_utf8, 2);
        }
    }
}

/// The value of a hexadecimal digit: of either case, and of no other character.
pub proof fn law_hex_digits(c: char)
    ensures
        '0' <= c <= '9' ==> hex_digit(c) == Some((c as u32 - '0' as u32) as u32),
        'a' <= c <= 'f' ==> hex_digit(c) == Some((c as u32 - 'a' as u32 + 10) as u32),
        'A' <= c <= 'F' ==> hex_digit(c) == Some((c as u32 - 'A' as u32 + 10) as u32),
        !('0' <= c <= '9') && !('a' <= c <= 'f') && !('A' <= c <= 'F') ==> hex_digit(c) is None,
{
}

/// What stands behind what: the bytes of the first unit, then those of the rest; an error in the
/// first unit comes first.
proof fn lemma_decoded_step(unit: Seq<char>, rest: Seq<char>)
    requires
        unit.len() > 0,
        first_unit_len(unit + rest) == unit.len(),
    ensures
        decoded(unit + rest) == (match unit_bytes(unit) {
            Err(e) => Err(e),
            Ok(head) => match decoded(rest) {
                Err(e) => Err(e),
                Ok(tail) => Ok(head + tail),
            },
        }),
        units(unit + rest) == seq![unit] + units(rest),
{
    let s = unit + rest;
    assert(s.take(unit.len() as int) =~= unit);
    assert(s.skip(unit.len() as int) =~= rest);
}

/// A character that is no backslash is typed by itself, as it is, and so is a backslash at the end.
pub proof fn law_characters_stand_for_themselves(c: char, rest: Seq<char>)
    requires
        c != '\\' || rest.len() == 0,
    ensures
        decoded(seq![c] + rest) == (match decoded(rest) {
            Ok(tail) => Ok::<Seq<u8>, EscapeError>(encode_utf8(seq![c]) + tail),
            Err(e) => Err(e),
        }),
        units(seq![c] + rest) == seq![seq![c]] + units(rest),
        decoded(Seq::empty()) == Ok::<Seq<u8>, EscapeError>(Seq::empty()),
        units(Seq::empty()).len() == 0,
{
    assert((seq![c] + rest)[0] == c);
    lemma_decoded_step(seq![c], rest);
}

/// What a backslash and one character stand for: a return, a line feed, a tab, a zero byte or a
/// backslash; any other than `u` and `x` for both as they are. The two are typed together.
pub proof fn law_short_escapes(c: char, rest: Seq<char>)
    requires
        c != 'u',
        c != 'x',
    ensures
        ({
            let bytes: Seq<u8> = if c == 'r' {
                seq![0x0d]
            } else if c == 'n' {
                seq![0x0a]
            } else if c == 't' {
                seq![0x09]
            } else if c == '0' {
                seq![0x00]
            } else if c == '\\' {
                seq![0x5c]
            } else {
                encode_utf8(seq!['\\']) + encode_utf8(seq![c])
            };
            decoded(seq!['\\', c] + rest) == (match decoded(rest) {
                Ok(tail) => Ok::<Seq<u8>, EscapeError>(bytes + tail),
                Err(e) => Err(e),
            })
        }),
        units(seq!['\\', c] + rest) == seq![seq!['\\', c]] + units(rest),
{
    let unit = seq!['\\', c];
    assert((unit + rest)[0] == '\\' && (unit + rest)[1] == c);
    lemma_decoded_step(unit, rest);
}

/// A backslash, `x` and two hexadecimal digits stand for that one byte, and are typed together.
/// Without two digits there is an error, which says what stands where the first missing one should.
pub proof fn law_hex_escapes(a: char, b: char, rest: Seq<char>)
    ensures
        units(seq!['\\', 'x', a, b] + rest) == seq![seq!['\\', 'x', a, b]] + units(rest),
        hex_digit(a) is Some && hex_digit(b) is Some ==> decoded(seq!['\\', 'x', a, b] + rest) == (
        match decoded(rest) {
            Ok(tail) => Ok::<Seq<u8>, EscapeError>(
                seq![(16 * hex_digit(a)->0 + hex_digit(b)->0) as u8] + tail,
            ),
            Err(e) => Err(e),
        }),
        hex_digit(a) is None ==> decoded(seq!['\\', 'x', a, b] + rest) == Err::<
            Seq<u8>,
            EscapeError,
        >(EscapeError::Hex(HexFault::Digit(a))),
        hex_digit(a) is Some && hex_digit(b) is None ==> decoded(seq!['\\', 'x', a, b] + rest)
            == Err::<Seq<u8>, EscapeError>(EscapeError::Hex(HexFault::Digit(b))),
        decoded(seq!['\\', 'x']) == Err::<Seq<u8>, EscapeError>(EscapeError::Hex(HexFault::End)),
        hex_digit(a) is Some ==> decoded(seq!['\\', 'x', a]) == Err::<Seq<u8>, EscapeError>(
            EscapeError::Hex(HexFault::End),
        ),
{
    reveal_with_fuel(hex_value, 3);
    let unit = seq!['\\', 'x', a, b];
    assert((unit + rest)[0] == '\\' && (unit + rest)[1] == 'x');
    lemma_decoded_step(unit, rest);
    let digits = unit.skip(2);
    assert(digits[0] == a && digits[1] == b && digits.len() == 2);
    let none = Seq::<char>::empty();
    let two = seq!['\\', 'x'];
    assert(two + none =~= two);
    lemma_decoded_step(two, none);
    assert(two.skip(2).len() == 0);
    let three = seq!['\\', 'x', a];
    assert(three + none =~= three);
    lemma_decoded_step(three, none);
    assert(three.skip(2).len() == 1 && three.skip(2)[0] == a);
}

/// A backslash, `u` and four hexadecimal digits stand for the character with that code, and are
/// typed together. The code of a surrogate is an error, and so is anything but four digits.
pub proof fn law_unicode_escapes(a: char, b: char, c: char, d: char, rest: Seq<char>)
    ensures
        ({
            let text = seq!['\\', 'u', a, b, c, d] + rest;
            let code = 4096 * hex_digit(a)->0 + 256 * hex_digit(b)->0 + 16 * hex_digit(c)->0
                + hex_digit(d)->0;
            let all = hex_digit(a) is Some && hex_digit(b) is Some && hex_digit(c) is Some
                && hex_digit(d) is Some;
            &&& units(text) == seq![seq!['\\', 'u', a, b, c, d]] + units(rest)
            &&& !all ==> decoded(text) is Err && decoded(text)->Err_0 is Unicode
            &&& all && 0xd800 <= code <= 0xdfff ==> decoded(text) == Err::<Seq<u8>, EscapeError>(
                EscapeError::CodePoint(code as u32),
            )
            &&& all && !(0xd800 <= code <= 0xdfff) ==> decoded(text) == (match decoded(rest) {
                Ok(tail) => Ok::<Seq<u8>, EscapeError>(
                    encode_utf8(seq![(code as u32) as char]) + tail,
                ),
                Err(e) => Err(e),
            })
        }),
{
    let unit = seq!['\\', 'u', a, b, c, d];
    assert((unit + rest)[0] == '\\' && (unit + rest)[1] == 'u');
    lemma_decoded_step(unit, rest);
    let digits = unit.skip(2);
    assert(digits[0] == a && digits[1] == b && digits[2] == c && digits[3] == d);
    assert(digits.len() == 4);
    reveal_with_fuel(hex_value, 5);
}

/// Of the four digits of a `\u` escape the first that is none is told; where the text ends before
/// the fourth, that is. What is there is still typed together.
pub proof fn law_unicode_escapes_tell_the_digit(
    a: char,
    b: char,
    c: char,
    d: char,
    rest: Seq<char>,
    digits: Seq<char>,
)
    ensures
        ({
            let text = seq!['\\', 'u', a, b, c, d] + rest;
            let bad = if hex_digit(a) is None {
                a
            } else if hex_digit(b) is None {
                b
            } else if hex_digit(c) is None {
                c
            } else {
                d
            };
            hex_digit(bad) is None ==> decoded(text) == Err::<Seq<u8>, EscapeError>(
                EscapeError::Unicode(HexFault::Digit(bad)),
            )
        }),
        digits.len() < 4 ==> units(seq!['\\', 'u'] + digits) == seq![seq!['\\', 'u'] + digits],
        digits.len() < 4 && (forall|i: int|
            0 <= i < digits.len() ==> hex_digit(#[trigger] digits[i]) is Some) ==> decoded(
            seq!['\\', 'u'] + digits,
        ) == Err::<Seq<u8>, EscapeError>(EscapeError::Unicode(HexFault::End)),
        hex_digit(a) is None ==> decoded(seq!['\\', 'x', a]) == Err::<Seq<u8>, EscapeError>(
            EscapeError::Hex(HexFault::Digit(a)),
        ),
        units(seq!['\\', 'x', a]) == seq![seq!['\\', 'x', a]],
        units(seq!['\\', 'x']) == seq![seq!['\\', 'x']],
{
    let none = Seq::<char>::empty();
    let unit = seq!['\\', 'u', a, b, c, d];
    assert((unit + rest)[0] == '\\' && (unit + rest)[1] == 'u');
    lemma_decoded_step(unit, rest);
    let four = unit.skip(2);
    assert(four[0] == a && four[1] == b && four[2] == c && four[3] == d && four.len() == 4);
    assert(hex_digit(a) is None ==> hex_value(four, 4) == Err::<int, HexFault>(
        HexFault::Digit(a),
    )) by {
        reveal_with_fuel(hex_value, 5);
    }
    assert(hex_digit(a) is Some && hex_digit(b) is None ==> hex_value(four, 4) == Err::<
        int,
        HexFault,
    >(HexFault::Digit(b))) by {
        reveal_with_fuel(hex_value, 5);
    }
    assert(hex_digit(a) is Some && hex_digit(b) is Some && hex_digit(c) is None ==> hex_value(
        four,
        4,
    ) == Err::<int, HexFault>(HexFault::Digit(c))) by {
        reveal_with_fuel(hex_value, 5);
    }
    assert(hex_digit(a) is Some && hex_digit(b) is Some && hex_digit(c) is Some && hex_digit(
        d,
    ) is None ==> hex_value(four, 4) == Err::<int, HexFault>(HexFault::Digit(d))) by {
        reveal_with_fuel(hex_value, 5);
    }
    if digits.len() < 4 {
        let short = seq!['\\', 'u'] + digits;
        assert(short + none =~= short);
        assert(short[0] == '\\' && short[1] == 'u');
        lemma_decoded_step(short, none);
        assert(units(none) =~= Seq::<Seq<char>>::empty());
        assert(seq![short] + units(none) =~= seq![short]);
        assert(short.skip(2) =~= digits);
        if forall|i: int| 0 <= i < digits.len() ==> hex_digit(#[trigger] digits[i]) is Some {
            lemma_hex_end(digits, 4);
        }
    }
    let three = seq!['\\', 'x', a];
    assert(three + none =~= three);
    lemma_decoded_step(three, none);
    assert(three.skip(2).len() == 1 && three.skip(2)[0] == a);
    assert(hex_digit(a) is None ==> hex_value(three.skip(2), 2) == Err::<int, HexFault>(
        HexFault::Digit(a),
    )) by {
        reveal_with_fuel(hex_value, 3);
    }
    let two = seq!['\\', 'x'];
    assert(two + none =~= two);
    lemma_decoded_step(two, none);
    assert(seq![three] + units(none) =~= seq![three]);
    assert(seq![two] + units(none) =~= seq![two]);
}

/// Digits that end too early.
proof fn lemma_hex_end(digits: Seq<char>, n: nat)
    requires
        forall|i: int| 0 <= i < digits.len() ==> hex_digit(#[trigger] digits[i]) is Some,
    ensures
        n <= digits.len() ==> hex_value(digits, n) is Ok,
        n > digits.len() ==> hex_value(digits, n) == Err::<int, HexFault>(HexFault::End),
    decreases n,
{
    if n > 0 {
        lemma_hex_end(digits, (n - 1) as nat);
        if n <= digits.len() {
            assert(hex_digit(digits[n - 1]) is Some);
        }
    }
}

} // verus!
