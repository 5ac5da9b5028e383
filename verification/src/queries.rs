//! Terminal queries in a child's output: finding them, answering them, removing them.
//!
//! A full-screen program probes its terminal with short escape sequences. They draw nothing: they
//! are answered while recording, and they are taken out of what is recorded, because a terminal
//! that plays the recording would answer them again, onto the screen.

use crate::text::{append_bytes, ascii_bytes};
use vstd::prelude::*;

verus! {

/// The escape byte, which starts every sequence.
pub const ESC: u8 = 0x1b;

/// The bell byte, one of the two terminators of an operating-system command.
pub const BEL: u8 = 0x07;

/// A question that a program puts to its terminal.
#[derive(Debug, Clone, Copy, PartialEq, Eq, Structural)]
pub enum Query {
    /// Where is the cursor?
    CursorPosition,
    /// Is the terminal in working order?
    DeviceStatus,
    /// What kind of terminal is this?
    DeviceAttributes,
    /// What is the foreground colour?
    Foreground,
    /// What is the background colour?
    Background,
}

/// Whether `b` ends a control sequence that started with `ESC [`.
pub open spec fn is_final_byte(b: u8) -> bool {
    0x40 <= b <= 0x7e
}

/// The position of the first final byte of `s` at or after `j`; the length of `s` if there is none.
pub open spec fn final_byte_from(s: Seq<u8>, j: int) -> int
    decreases s.len() - j,
{
    if j >= s.len() || is_final_byte(s[j]) {
        j
    } else {
        final_byte_from(s, j + 1)
    }
}

/// The length of the terminator that stands in `s` at `j`: one for a bell, two for `ESC \\`, zero
/// where no terminator stands.
pub open spec fn terminator_len(s: Seq<u8>, j: int) -> int {
    if s[j] == BEL {
        1
    } else if s[j] == ESC && j + 1 < s.len() && s[j + 1] == 0x5c {
        2
    } else {
        0
    }
}

/// The position of the first terminator of `s` at or after `j`; the length of `s` if there is none.
pub open spec fn terminator_from(s: Seq<u8>, j: int) -> int
    decreases s.len() - j,
{
    if j >= s.len() || terminator_len(s, j) > 0 {
        j
    } else {
        terminator_from(s, j + 1)
    }
}

/// The length of what stands at the start of `s`, which holds at least one byte: a whole control
/// sequence (`ESC [` up to its final byte), a whole operating-system command (`ESC ]` up to and
/// with its terminator), everything that is left where one of these has no end yet, or else a
/// single byte.
pub open spec fn unit_len(s: Seq<u8>) -> int {
    if s.len() < 2 || s[0] != ESC {
        1
    } else if s[1] == 0x5b {
        let j = final_byte_from(s, 2);
        if j < s.len() {
            j + 1
        } else {
            s.len() as int
        }
    } else if s[1] == 0x5d {
        let j = terminator_from(s, 2);
        if j < s.len() {
            j + terminator_len(s, j)
        } else {
            s.len() as int
        }
    } else {
        1
    }
}

/// The query that the bytes of one unit spell, if they spell one.
pub open spec fn query_of(unit: Seq<u8>) -> Option<Query> {
    if unit == seq![ESC, 0x5b, 0x36, 0x6e] {
        Some(Query::CursorPosition)
    } else if unit == seq![ESC, 0x5b, 0x35, 0x6e] {
        Some(Query::DeviceStatus)
    } else if unit == seq![ESC, 0x5b, 0x63] || unit == seq![ESC, 0x5b, 0x30, 0x63] {
        Some(Query::DeviceAttributes)
    } else if unit == seq![ESC, 0x5d, 0x31, 0x30, 0x3b, 0x3f, BEL] || unit == seq![
        ESC,
        0x5d,
        0x31,
        0x30,
        0x3b,
        0x3f,
        ESC,
        0x5c,
    ] {
        Some(Query::Foreground)
    } else if unit == seq![ESC, 0x5d, 0x31, 0x31, 0x3b, 0x3f, BEL] || unit == seq![
        ESC,
        0x5d,
        0x31,
        0x31,
        0x3b,
        0x3f,
        ESC,
        0x5c,
    ] {
        Some(Query::Background)
    } else {
        None
    }
}

/// What a terminal answers: row 1 and column 1, all in order, a VT100 with advanced video, a
/// light-grey foreground, a black background.
pub open spec fn answer(query: Query) -> Seq<u8> {
    crate::text::ascii_codes(match query {
        Query::CursorPosition => "\u{1b}[1;1R"@,
        Query::DeviceStatus => "\u{1b}[0n"@,
        Query::DeviceAttributes => "\u{1b}[?1;2c"@,
        Query::Foreground => "\u{1b}]10;rgb:c7c7/c7c7/c7c7\u{1b}\\"@,
        Query::Background => "\u{1b}]11;rgb:0000/0000/0000\u{1b}\\"@,
    })
}

/// A unit is never empty and never longer than what it was taken from.
pub proof fn lemma_unit_len(s: Seq<u8>)
    requires
        s.len() > 0,
    ensures
        1 <= unit_len(s) <= s.len(),
{
    if s.len() >= 2 {
        lemma_final_byte_from(s, 2);
        lemma_terminator_from(s, 2);
    }
}

proof fn lemma_final_byte_from(s: Seq<u8>, j: int)
    requires
        0 <= j <= s.len(),
    ensures
        j <= final_byte_from(s, j) <= s.len(),
        forall|k: int| j <= k < final_byte_from(s, j) ==> !is_final_byte(s[k]),
        final_byte_from(s, j) < s.len() ==> is_final_byte(s[final_byte_from(s, j)]),
    decreases s.len() - j,
{
    if j < s.len() && !is_final_byte(s[j]) {
        lemma_final_byte_from(s, j + 1);
    }
}

proof fn lemma_terminator_from(s: Seq<u8>, j: int)
    requires
        0 <= j <= s.len(),
    ensures
        j <= terminator_from(s, j) <= s.len(),
        forall|k: int| j <= k < terminator_from(s, j) ==> terminator_len(s, k) == 0,
        terminator_from(s, j) < s.len() ==> {
            &&& terminator_len(s, terminator_from(s, j)) > 0
            &&& terminator_from(s, j) + terminator_len(s, terminator_from(s, j)) <= s.len()
        },
    decreases s.len() - j,
{
    if j < s.len() && terminator_len(s, j) == 0 {
        lemma_terminator_from(s, j + 1);
    }
}

/// `bytes` without its queries, every other byte kept in order.
pub open spec fn stripped(bytes: Seq<u8>) -> Seq<u8>
    decreases bytes.len(),
{
    if bytes.len() == 0 {
        bytes
    } else {
        let n = unit_len(bytes);
        if 1 <= n <= bytes.len() {
            let rest = stripped(bytes.skip(n));
            if query_of(bytes.take(n)) is Some {
                rest
            } else {
                bytes.take(n) + rest
            }
        } else {
            bytes
        }
    }
}

/// The answers to the queries of `bytes`, in order.
pub open spec fn answers(bytes: Seq<u8>) -> Seq<u8>
    decreases bytes.len(),
{
    if bytes.len() == 0 {
        bytes
    } else {
        let n = unit_len(bytes);
        if 1 <= n <= bytes.len() {
            let rest = answers(bytes.skip(n));
            match query_of(bytes.take(n)) {
                Some(query) => answer(query) + rest,
                None => rest,
            }
        } else {
            bytes
        }
    }
}

/// The length of the unit at `i`.
fn unit_len_at(bytes: &[u8], i: usize) -> (r: usize)
    requires
        i < bytes@.len(),
    ensures
        r == unit_len(bytes@.skip(i as int)),
        1 <= r,
        i + r <= bytes@.len(),
{
    let ghost s = bytes@.skip(i as int);
    let len: usize = bytes.len();
    proof {
        lemma_unit_len(s);
    }
    if len - i < 2 || bytes[i] != ESC {
        return 1;
    }
    if bytes[i + 1] == 0x5b {
        let mut j: usize = i + 2;
        while j < len && !(0x40 <= bytes[j] && bytes[j] <= 0x7e)
            invariant
                len == bytes@.len(),
                s == bytes@.skip(i as int),
                i + 2 <= j <= len,
                final_byte_from(s, 2) == final_byte_from(s, j - i),
            decreases len - j,
        {
            j += 1;
        }
        if j < len {
            return j + 1 - i;
        }
        return len - i;
    }
    if bytes[i + 1] == 0x5d {
        let mut j: usize = i + 2;
        while j < len
            invariant
                len == bytes@.len(),
                s == bytes@.skip(i as int),
                s.len() >= 2,
                s[0] == ESC,
                s[1] == 0x5d,
                i + 2 <= j <= len,
                terminator_from(s, 2) == terminator_from(s, j - i),
            decreases len - j,
        {
            if bytes[j] == BEL {
                return j + 1 - i;
            }
            if bytes[j] == ESC && j + 1 < len && bytes[j + 1] == 0x5c {
                return j + 2 - i;
            }
            j += 1;
        }
        return len - i;
    }
    1
}

/// The bytes of a query, one by one.
proof fn lemma_query_bytes(unit: Seq<u8>)
    requires
        query_of(unit) is Some,
    ensures
        unit.len() >= 3,
        unit[0] == ESC,
        unit[1] == 0x5b || unit[1] == 0x5d,
        unit[1] == 0x5b ==> {
            ||| unit.len() == 3 && unit[2] == 0x63
            ||| unit.len() == 4 && unit[2] == 0x30 && unit[3] == 0x63
            ||| unit.len() == 4 && unit[2] == 0x35 && unit[3] == 0x6e
            ||| unit.len() == 4 && unit[2] == 0x36 && unit[3] == 0x6e
        },
        unit[1] == 0x5d ==> {
            &&& unit.len() == 7 && unit[6] == BEL || unit.len() == 8 && unit[6] == ESC && unit[7]
                == 0x5c
            &&& unit[2] == 0x31 && (unit[3] == 0x30 || unit[3] == 0x31)
            &&& unit[4] == 0x3b && unit[5] == 0x3f
        },
{
}

/// The query that the `n` bytes at `i` spell.
fn query_at(bytes: &[u8], i: usize, n: usize) -> (r: Option<Query>)
    requires
        i + n <= bytes@.len(),
    ensures
        r == query_of(bytes@.subrange(i as int, i + n)),
{
    let ghost unit = bytes@.subrange(i as int, i + n);
    proof {
        if query_of(unit) is Some {
            lemma_query_bytes(unit);
        }
        assert(forall|k: int| 0 <= k < n ==> unit[k] == bytes@[i + k]);
    }
    if n < 3 || n == 5 || n == 6 || n > 8 || bytes[i] != ESC {
        return None;
    }
    if bytes[i + 1] == 0x5b {
        if n == 3 && bytes[i + 2] == 0x63 {
            proof {
                assert(unit =~= seq![ESC, 0x5b, 0x63]);
            }
            return Some(Query::DeviceAttributes);
        }
        if n == 4 && bytes[i + 2] == 0x30 && bytes[i + 3] == 0x63 {
            proof {
                assert(unit =~= seq![ESC, 0x5b, 0x30, 0x63]);
            }
            return Some(Query::DeviceAttributes);
        }
        if n == 4 && bytes[i + 2] == 0x35 && bytes[i + 3] == 0x6e {
            proof {
                assert(unit =~= seq![ESC, 0x5b, 0x35, 0x6e]);
            }
            return Some(Query::DeviceStatus);
        }
        if n == 4 && bytes[i + 2] == 0x36 && bytes[i + 3] == 0x6e {
            proof {
                assert(unit =~= seq![ESC, 0x5b, 0x36, 0x6e]);
            }
            return Some(Query::CursorPosition);
        }
        return None;
    }
    if bytes[i + 1] == 0x5d && n >= 7 && bytes[i + 2] == 0x31 && (bytes[i + 3] == 0x30 || bytes[i
        + 3] == 0x31) && bytes[i + 4] == 0x3b && bytes[i + 5] == 0x3f {
        let bell: bool = n == 7 && bytes[i + 6] == BEL;
        let string_end: bool = n == 8 && bytes[i + 6] == ESC && bytes[i + 7] == 0x5c;
        if bell || string_end {
            let d: u8 = bytes[i + 3];
            proof {
                if bell {
                    assert(unit =~= seq![ESC, 0x5d, 0x31, d, 0x3b, 0x3f, BEL]);
                } else {
                    assert(unit =~= seq![ESC, 0x5d, 0x31, d, 0x3b, 0x3f, ESC, 0x5c]);
                }
            }
            return if d == 0x30 {
                Some(Query::Foreground)
            } else {
                Some(Query::Background)
            };
        }
    }
    None
}

/// The bytes that answer `query`.
fn answer_bytes(query: Query) -> (r: Vec<u8>)
    ensures
        r@ == answer(query),
{
    match query {
        Query::CursorPosition => ascii_bytes("\u{1b}[1;1R"),
        Query::DeviceStatus => ascii_bytes("\u{1b}[0n"),
        Query::DeviceAttributes => ascii_bytes("\u{1b}[?1;2c"),
        Query::Foreground => ascii_bytes("\u{1b}]10;rgb:c7c7/c7c7/c7c7\u{1b}\\"),
        Query::Background => ascii_bytes("\u{1b}]11;rgb:0000/0000/0000\u{1b}\\"),
    }
}

/// Removes the terminal queries from `bytes` and keeps every other byte.
///
/// A sequence that has no end yet is kept as it stands, and so is every escape that asks nothing:
/// colours, cursor moves, mode changes, colour settings and colour reports.
pub fn strip_terminal_queries(bytes: &[u8]) -> (r: Vec<u8>)
    ensures
        r@ == stripped(bytes@),
{
    let mut out: Vec<u8> = Vec::new();
    let mut i: usize = 0;
    proof {
        assert(bytes@.skip(0) =~= bytes@);
        assert(out@ + stripped(bytes@) =~= stripped(bytes@));
    }
    while i < bytes.len()
        invariant
            i <= bytes@.len(),
            out@ + stripped(bytes@.skip(i as int)) == stripped(bytes@),
        decreases bytes@.len() - i,
    {
        let n = unit_len_at(bytes, i);
        let ghost s = bytes@.skip(i as int);
        let ghost before = out@;
        proof {
            assert(s.take(n as int) =~= bytes@.subrange(i as int, i + n));
            assert(s.skip(n as int) =~= bytes@.skip(i + n));
        }
        if query_at(bytes, i, n).is_none() {
            append_bytes(&mut out, vstd::slice::slice_subrange(bytes, i, i + n));
            proof {
                assert(before + (s.take(n as int) + stripped(s.skip(n as int))) =~= (before
                    + s.take(n as int)) + stripped(s.skip(n as int)));
            }
        }
        i += n;
    }
    proof {
        assert(bytes@.skip(i as int) =~= Seq::<u8>::empty());
        assert(out@ + Seq::<u8>::empty() =~= out@);
    }
    out
}

/// The replies that a terminal sends to the queries of `bytes`, one after the other. Empty when
/// nothing is asked; a query that has no end yet is not answered.
pub fn build_query_reply(bytes: &[u8]) -> (r: Vec<u8>)
    ensures
        r@ == answers(bytes@),
{
    let mut out: Vec<u8> = Vec::new();
    let mut i: usize = 0;
    proof {
        assert(bytes@.skip(0) =~= bytes@);
        assert(out@ + answers(bytes@) =~= answers(bytes@));
    }
    while i < bytes.len()
        invariant
            i <= bytes@.len(),
            out@ + answers(bytes@.skip(i as int)) == answers(bytes@),
        decreases bytes@.len() - i,
    {
        let n = unit_len_at(bytes, i);
        let ghost s = bytes@.skip(i as int);
        let ghost before = out@;
        proof {
            assert(s.take(n as int) =~= bytes@.subrange(i as int, i + n));
            assert(s.skip(n as int) =~= bytes@.skip(i + n));
        }
        if let Some(query) = query_at(bytes, i, n) {
            let reply = answer_bytes(query);
            append_bytes(&mut out, reply.as_slice());
            proof {
                assert(before + (answer(query) + answers(s.skip(n as int))) =~= (before + answer(
                    query,
                )) + answers(s.skip(n as int)));
            }
        }
        i += n;
    }
    proof {
        assert(bytes@.skip(i as int) =~= Seq::<u8>::empty());
        assert(out@ + Seq::<u8>::empty() =~= out@);
    }
    out
}

/// Exactly the queries are removed and exactly they are answered: nothing is removed if and only if
/// there is nothing to reply.
pub proof fn law_removed_iff_answered(bytes: Seq<u8>)
    ensures
        stripped(bytes) == bytes <==> answers(bytes).len() == 0,
        stripped(bytes).len() <= bytes.len(),
    decreases bytes.len(),
{
    if bytes.len() > 0 {
        lemma_unit_len(bytes);
        let n = unit_len(bytes);
        law_removed_iff_answered(bytes.skip(n));
        assert(bytes =~= bytes.take(n) + bytes.skip(n));
        match query_of(bytes.take(n)) {
            Some(query) => {
                lemma_answer_not_empty(query);
                assert(stripped(bytes).len() < bytes.len());
            },
            None => {
                if stripped(bytes) == bytes {
                    assert(stripped(bytes.skip(n)) =~= stripped(bytes).skip(n));
                }
            },
        }
    }
}

proof fn lemma_answer_not_empty(query: Query)
    ensures
        answer(query).len() > 0,
{
    reveal_strlit("\u{1b}[1;1R");
    reveal_strlit("\u{1b}[0n");
    reveal_strlit("\u{1b}[?1;2c");
    reveal_strlit("\u{1b}]10;rgb:c7c7/c7c7/c7c7\u{1b}\\");
    reveal_strlit("\u{1b}]11;rgb:0000/0000/0000\u{1b}\\");
}

/// Output without an escape byte is recorded as it is and asks nothing.
pub proof fn law_plain_output_untouched(bytes: Seq<u8>)
    requires
        forall|i: int| 0 <= i < bytes.len() ==> bytes[i] != ESC,
    ensures
        stripped(bytes) == bytes,
        answers(bytes).len() == 0,
    decreases bytes.len(),
{
    if bytes.len() > 0 {
        let rest = bytes.skip(1);
        assert forall|i: int| 0 <= i < rest.len() implies rest[i] != ESC by {
            assert(rest[i] == bytes[i + 1]);
        }
        law_plain_output_untouched(rest);
        assert(bytes.take(1)[0] == bytes[0]);
        assert(bytes.take(1) + rest =~= bytes);
    }
}

/// Output without an escape byte passes through in front of other output, and changes nothing
/// about what that asks.
pub proof fn law_plain_output_passes_in_front(before: Seq<u8>, after: Seq<u8>)
    requires
        forall|i: int| 0 <= i < before.len() ==> before[i] != ESC,
    ensures
        stripped(before + after) == before + stripped(after),
        answers(before + after) == answers(after),
    decreases before.len(),
{
    let s = before + after;
    if before.len() == 0 {
        assert(s =~= after);
        assert(before + stripped(after) =~= stripped(after));
    } else {
        let rest = before.skip(1);
        assert forall|i: int| 0 <= i < rest.len() implies rest[i] != ESC by {
            assert(rest[i] == before[i + 1]);
        }
        law_plain_output_passes_in_front(rest, after);
        assert(s[0] == before[0]);
        assert(s.take(1)[0] == s[0]);
        assert(s.skip(1) =~= rest + after);
        assert(s.take(1) + (rest + stripped(after)) =~= before + stripped(after));
    }
}

/// A query is one unit, whatever follows it.
proof fn lemma_query_is_unit(q: Seq<u8>, after: Seq<u8>)
    requires
        query_of(q) is Some,
    ensures
        unit_len(q + after) == q.len(),
{
    let s = q + after;
    lemma_query_bytes(q);
    assert forall|k: int| 0 <= k < q.len() implies s[k] == q[k] by {}
    if q[1] == 0x5b {
        reveal_with_fuel(final_byte_from, 3);
    } else {
        reveal_with_fuel(terminator_from, 6);
        assert(terminator_len(s, 2) == 0);
        assert(terminator_len(s, 3) == 0);
        assert(terminator_len(s, 4) == 0);
        assert(terminator_len(s, 5) == 0);
        assert(terminator_len(s, 6) == q.len() - 6);
    }
}

/// Between other output, only the query goes, and only it is answered.
pub proof fn law_only_the_query_goes(before: Seq<u8>, q: Seq<u8>, after: Seq<u8>)
    requires
        forall|i: int| 0 <= i < before.len() ==> before[i] != ESC,
        query_of(q) is Some,
    ensures
        stripped(before + q + after) == before + stripped(after),
        answers(before + q + after) == answer(query_of(q)->0) + answers(after),
    decreases before.len(),
{
    let s = before + q + after;
    if before.len() == 0 {
        assert(s =~= q + after);
        lemma_query_is_unit(q, after);
        lemma_query_bytes(q);
        assert(s.take(q.len() as int) =~= q);
        assert(s.skip(q.len() as int) =~= after);
        assert(before + stripped(after) =~= stripped(after));
    } else {
        let rest = before.skip(1);
        assert forall|i: int| 0 <= i < rest.len() implies rest[i] != ESC by {
            assert(rest[i] == before[i + 1]);
        }
        law_only_the_query_goes(rest, q, after);
        assert(s[0] == before[0]);
        assert(s.skip(1) =~= rest + q + after);
        assert(s.take(1)[0] == before[0]);
        assert(s.take(1) + (rest + stripped(after)) =~= before + stripped(after));
    }
}

/// The questions that are put to a terminal, each with the bytes that ask it.
pub proof fn law_queries_are_told_by_their_bytes(unit: Seq<u8>)
    ensures
        query_of(seq![0x1bu8, 0x5b, 0x36, 0x6e]) == Some(Query::CursorPosition),
        query_of(seq![0x1bu8, 0x5b, 0x35, 0x6e]) == Some(Query::DeviceStatus),
        query_of(seq![0x1bu8, 0x5b, 0x63]) == Some(Query::DeviceAttributes),
        query_of(seq![0x1bu8, 0x5b, 0x30, 0x63]) == Some(Query::DeviceAttributes),
        query_of(seq![0x1bu8, 0x5d, 0x31, 0x30, 0x3b, 0x3f, 0x07]) == Some(Query::Foreground),
        query_of(seq![0x1bu8, 0x5d, 0x31, 0x30, 0x3b, 0x3f, 0x1b, 0x5c]) == Some(
            Query::Foreground,
        ),
        query_of(seq![0x1bu8, 0x5d, 0x31, 0x31, 0x3b, 0x3f, 0x07]) == Some(Query::Background),
        query_of(seq![0x1bu8, 0x5d, 0x31, 0x31, 0x3b, 0x3f, 0x1b, 0x5c]) == Some(
            Query::Background,
        ),
        query_of(unit) is Some ==> {
            ||| unit == seq![0x1bu8, 0x5b, 0x36, 0x6e]
            ||| unit == seq![0x1bu8, 0x5b, 0x35, 0x6e]
            ||| unit == seq![0x1bu8, 0x5b, 0x63]
            ||| unit == seq![0x1bu8, 0x5b, 0x30, 0x63]
            ||| unit == seq![0x1bu8, 0x5d, 0x31, 0x30, 0x3b, 0x3f, 0x07]
            ||| unit == seq![0x1bu8, 0x5d, 0x31, 0x30, 0x3b, 0x3f, 0x1b, 0x5c]
            ||| unit == seq![0x1bu8, 0x5d, 0x31, 0x31, 0x3b, 0x3f, 0x07]
            ||| unit == seq![0x1bu8, 0x5d, 0x31, 0x31, 0x3b, 0x3f, 0x1b, 0x5c]
        },
{
    let a = seq![0x1bu8, 0x5b, 0x36, 0x6e];
    let b = seq![0x1bu8, 0x5b, 0x35, 0x6e];
    let c = seq![0x1bu8, 0x5b, 0x63];
    let d = seq![0x1bu8, 0x5b, 0x30, 0x63];
    let e = seq![0x1bu8, 0x5d, 0x31, 0x30, 0x3b, 0x3f, 0x07];
    let f = seq![0x1bu8, 0x5d, 0x31, 0x30, 0x3b, 0x3f, 0x1b, 0x5c];
    let g = seq![0x1bu8, 0x5d, 0x31, 0x31, 0x3b, 0x3f, 0x07];
    let h = seq![0x1bu8, 0x5d, 0x31, 0x31, 0x3b, 0x3f, 0x1b, 0x5c];
    assert(a.len() == 4 && b.len() == 4 && c.len() == 3 && d.len() == 4);
    assert(e.len() == 7 && f.len() == 8 && g.len() == 7 && h.len() == 8);
    assert(a[2] == 0x36 && b[2] == 0x35 && d[2] == 0x30);
    assert(e[3] == 0x30 && f[3] == 0x30 && g[3] == 0x31 && h[3] == 0x31);
}

/// What is answered: row 1 and column 1; all in order; a VT100 with advanced video; a light-grey
/// foreground; a black background.
pub proof fn law_answers_are_told()
    ensures
        answer(Query::CursorPosition) == seq![0x1bu8, 0x5b, 0x31, 0x3b, 0x31, 0x52],
        answer(Query::DeviceStatus) == seq![0x1bu8, 0x5b, 0x30, 0x6e],
        answer(Query::DeviceAttributes) == seq![0x1bu8, 0x5b, 0x3f, 0x31, 0x3b, 0x32, 0x63],
        answer(Query::Foreground) == seq![
            0x1bu8, 0x5d, 0x31, 0x30, 0x3b, 0x72, 0x67, 0x62, 0x3a, 0x63, 0x37, 0x63, 0x37, 0x2f,
            0x63, 0x37, 0x63, 0x37, 0x2f, 0x63, 0x37, 0x63, 0x37, 0x1b, 0x5c,
        ],
        answer(Query::Background) == seq![
            0x1bu8, 0x5d, 0x31, 0x31, 0x3b, 0x72, 0x67, 0x62, 0x3a, 0x30, 0x30, 0x30, 0x30, 0x2f,
            0x30, 0x30, 0x30, 0x30, 0x2f, 0x30, 0x30, 0x30, 0x30, 0x1b, 0x5c,
        ],
{
    reveal_strlit("\u{1b}[1;1R");
    reveal_strlit("\u{1b}[0n");
    reveal_strlit("\u{1b}[?1;2c");
    reveal_strlit("\u{1b}]10;rgb:c7c7/c7c7/c7c7\u{1b}\\");
    reveal_strlit("\u{1b}]11;rgb:0000/0000/0000\u{1b}\\");
}

proof fn lemma_kept_unit(unit: Seq<u8>, after: Seq<u8>)
    requires
        unit.len() > 0,
        unit_len(unit + after) == unit.len(),
        query_of(unit) is None,
    ensures
        stripped(unit + after) == unit + stripped(after),
        answers(unit + after) == answers(after),
{
    let s = unit + after;
    assert(s.take(unit.len() as int) =~= unit);
    assert(s.skip(unit.len() as int) =~= after);
}

/// A control sequence that asks nothing passes through whole, whatever follows it.
pub proof fn law_other_sequences_pass(middle: Seq<u8>, last: u8, after: Seq<u8>)
    requires
        forall|i: int| 0 <= i < middle.len() ==> !(0x40 <= #[trigger] middle[i] <= 0x7e),
        0x40 <= last <= 0x7e,
        middle + seq![last] != seq![0x36u8, 0x6e],
        middle + seq![last] != seq![0x35u8, 0x6e],
        middle + seq![last] != seq![0x63u8],
        middle + seq![last] != seq![0x30u8, 0x63],
    ensures
        ({
            let unit = seq![0x1bu8, 0x5b] + (middle + seq![last]);
            &&& stripped(unit + after) == unit + stripped(after)
            &&& answers(unit + after) == answers(after)
        }),
{
    let tail = middle + seq![last];
    let unit = seq![0x1bu8, 0x5b] + tail;
    let s = unit + after;
    let n = unit.len() as int;
    lemma_final_byte_from(s, 2);
    let j = final_byte_from(s, 2);
    assert(s[n - 1] == last);
    if j < n - 1 {
        assert(s[j] == middle[j - 2]);
    }
    assert(j == n - 1) by {
        if j > n - 1 {
            assert(!is_final_byte(s[n - 1]));
        }
    }
    assert(s[0] == 0x1b && s[1] == 0x5b);
    assert(unit.skip(2) =~= tail);
    law_queries_are_told_by_their_bytes(unit);
    if query_of(unit) is Some {
        assert(unit[1] == 0x5b);
        assert(seq![0x1bu8, 0x5b, 0x36, 0x6e].skip(2) =~= seq![0x36u8, 0x6e]);
        assert(seq![0x1bu8, 0x5b, 0x35, 0x6e].skip(2) =~= seq![0x35u8, 0x6e]);
        assert(seq![0x1bu8, 0x5b, 0x63].skip(2) =~= seq![0x63u8]);
        assert(seq![0x1bu8, 0x5b, 0x30, 0x63].skip(2) =~= seq![0x30u8, 0x63]);
        assert(seq![0x1bu8, 0x5d, 0x31, 0x30, 0x3b, 0x3f, 0x07][1] == 0x5d);
        assert(seq![0x1bu8, 0x5d, 0x31, 0x30, 0x3b, 0x3f, 0x1b, 0x5c][1] == 0x5d);
        assert(seq![0x1bu8, 0x5d, 0x31, 0x31, 0x3b, 0x3f, 0x07][1] == 0x5d);
        assert(seq![0x1bu8, 0x5d, 0x31, 0x31, 0x3b, 0x3f, 0x1b, 0x5c][1] == 0x5d);
    }
    lemma_kept_unit(unit, after);
}

/// An operating-system command that asks nothing passes through whole, with either terminator.
pub proof fn law_other_commands_pass(middle: Seq<u8>, bell: bool, after: Seq<u8>)
    requires
        forall|i: int|
            0 <= i < middle.len() ==> #[trigger] middle[i] != 0x07 && !(middle[i] == 0x1b && i + 1
                < middle.len() && middle[i + 1] == 0x5c),
        middle != seq![0x31u8, 0x30, 0x3b, 0x3f],
        middle != seq![0x31u8, 0x31, 0x3b, 0x3f],
    ensures
        ({
            let end = if bell {
                seq![0x07u8]
            } else {
                seq![0x1bu8, 0x5c]
            };
            let unit = seq![0x1bu8, 0x5d] + middle + end;
            &&& stripped(unit + after) == unit + stripped(after)
            &&& answers(unit + after) == answers(after)
        }),
{
    let end = if bell {
        seq![0x07u8]
    } else {
        seq![0x1bu8, 0x5c]
    };
    let unit = seq![0x1bu8, 0x5d] + middle + end;
    let s = unit + after;
    let at = 2 + middle.len() as int;
    lemma_terminator_from(s, 2);
    let j = terminator_from(s, 2);
    assert(s[at] == end[0]);
    if !bell {
        assert(s[at + 1] == 0x5c);
    }
    if j < at {
        assert(s[j] == middle[j - 2]);
        if j + 1 < at {
            assert(s[j + 1] == middle[j - 1]);
        }
    }
    assert(terminator_len(s, at) == end.len());
    assert(j == at);
    assert(s[0] == 0x1b && s[1] == 0x5d);
    assert(unit.subrange(2, at) =~= middle);
    assert(unit[at] == end[0]);
    law_queries_are_told_by_their_bytes(unit);
    if query_of(unit) is Some {
        lemma_query_bytes(unit);
        assert(unit[1] == 0x5d);
        assert(unit[2] == 0x31 && unit[4] == 0x3b && unit[5] == 0x3f);
        if at < 6 {
            assert(unit[at] == 0x07 || unit[at] == 0x1b);
        }
        if at > 6 {
            assert(unit[6] == middle[4]);
            if at > 7 {
                assert(unit[7] == middle[5]);
            } else {
                assert(unit[7] == end[0]);
            }
        }
        assert(at == 6);
        assert(middle[0] == unit[2] && middle[1] == unit[3] && middle[2] == unit[4] && middle[3]
            == unit[5]);
        assert(middle =~= seq![0x31u8, 0x30, 0x3b, 0x3f] || middle =~= seq![
            0x31u8,
            0x31,
            0x3b,
            0x3f,
        ]);
    }
    lemma_kept_unit(unit, after);
}

/// A sequence that has no end yet is kept as it stands and asks nothing.
pub proof fn law_unfinished_sequences_stay(kind: u8, middle: Seq<u8>)
    requires
        kind == 0x5b || kind == 0x5d,
        kind == 0x5b ==> forall|i: int|
            0 <= i < middle.len() ==> !(0x40 <= #[trigger] middle[i] <= 0x7e),
        kind == 0x5d ==> forall|i: int|
            0 <= i < middle.len() ==> #[trigger] middle[i] != 0x07 && !(middle[i] == 0x1b && i + 1
                < middle.len() && middle[i + 1] == 0x5c),
    ensures
        stripped(seq![0x1bu8, kind] + middle) == seq![0x1bu8, kind] + middle,
        answers(seq![0x1bu8, kind] + middle).len() == 0,
{
    let s = seq![0x1bu8, kind] + middle;
    let n = s.len() as int;
    assert(s[0] == 0x1b && s[1] == kind);
    if kind == 0x5b {
        lemma_final_byte_from(s, 2);
        let j = final_byte_from(s, 2);
        if j < n {
            assert(s[j] == middle[j - 2]);
        }
    } else {
        lemma_terminator_from(s, 2);
        let j = terminator_from(s, 2);
        if j < n {
            assert(s[j] == middle[j - 2]);
            if j + 1 < n {
                assert(s[j + 1] == middle[j - 1]);
            }
        }
    }
    assert(unit_len(s) == n);
    assert(query_of(s) is None) by {
        if query_of(s) is Some {
            lemma_query_bytes(s);
            assert(s[n - 1] == middle[n - 3]);
            if kind == 0x5d {
                assert(s[6] == middle[4]);
                if n == 8 {
                    assert(s[7] == middle[5]);
                }
            }
        }
    }
    assert(s + Seq::<u8>::empty() =~= s);
    lemma_kept_unit(s, Seq::empty());
    assert(s + stripped(Seq::empty()) =~= s);
}

/// An escape byte with something else behind it than the beginning of a sequence passes by itself,
/// and so does one at the end.
pub proof fn law_other_escapes_pass(b: u8, after: Seq<u8>)
    requires
        b != 0x5b,
        b != 0x5d,
    ensures
        stripped(seq![0x1bu8]) == seq![0x1bu8],
        answers(seq![0x1bu8]).len() == 0,
        stripped(seq![0x1bu8, b] + after) == seq![0x1bu8] + stripped(seq![b] + after),
        answers(seq![0x1bu8, b] + after) == answers(seq![b] + after),
{
    let one = seq![0x1bu8];
    law_queries_are_told_by_their_bytes(one);
    assert(query_of(one) is None) by {
        if query_of(one) is Some {
            lemma_query_bytes(one);
        }
    }
    let none = Seq::<u8>::empty();
    assert(one + none =~= one);
    lemma_kept_unit(one, none);
    assert(one + stripped(none) =~= one);
    let rest = seq![b] + after;
    assert(seq![0x1bu8, b] + after =~= one + rest);
    assert((one + rest)[1] == b);
    lemma_kept_unit(one, rest);
}

} // verus!
