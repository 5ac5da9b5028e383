//! What errors say.

use crate::cast::CastError;
use crate::castfile::CastFault;
use crate::decimal::{show_nat, whole_text};
use crate::escapes::{EscapeError, HexFault};
use crate::filters::FilterError;
use crate::perform::{NoPassword, TakeError};
use crate::pty::TimedOut;
use crate::text::{copy_text, message_of};
use vstd::prelude::*;

verus! {

/// What is said of a recording that cannot be read, written or merged.
pub open spec fn cast_message(f: CastFault) -> Seq<char> {
    match f {
        CastFault::Unsorted => "Events must be sorted chronologically"@,
        CastFault::CommentEvent => "Comment events must be filtered before saving"@,
        CastFault::InvalidJson(line) => "invalid JSON line: "@ + line,
        CastFault::MissingHeader => "Missing asciicast header"@,
        CastFault::InvalidHeader => "Invalid header data"@,
        CastFault::UnsupportedVersion(v) => "Unsupported file format version "@ + whole_text(
            v as int,
        ),
        CastFault::InvalidEvent(n) => "Invalid event on line "@ + whole_text(n as int),
        CastFault::InvalidTime(n) => "Invalid event time on line "@ + whole_text(n as int),
        CastFault::InvalidCode(n) => "Invalid event code on line "@ + whole_text(n as int),
        CastFault::InvalidData(n) => "Invalid event data on line "@ + whole_text(n as int),
        CastFault::InvalidResize(data, n) => "Invalid resize data "@ + data + " on line "@
            + whole_text(n as int),
        CastFault::UnknownCode(code, n) => "Invalid event code "@ + code + " on line "@
            + whole_text(n as int),
    }
}

/// What is said of hexadecimal digits.
pub open spec fn hex_message(f: HexFault) -> Seq<char> {
    match f {
        HexFault::End => "unexpected end of string in hex escape"@,
        HexFault::Digit(c) => "invalid hex digit '"@ + seq![c] + "'"@,
    }
}

/// A hexadecimal digit, in upper case.
pub open spec fn upper_hex(d: int) -> char {
    if d < 10 {
        ((d + 0x30) as u32) as char
    } else {
        ((d + 0x37) as u32) as char
    }
}

/// The last four hexadecimal digits of a number.
pub open spec fn hex4(n: u32) -> Seq<char> {
    seq![
        upper_hex(n as int / 4096 % 16),
        upper_hex(n as int / 256 % 16),
        upper_hex(n as int / 16 % 16),
        upper_hex(n as int % 16),
    ]
}

/// What is said of an escape that cannot be decoded.
pub open spec fn escape_message(e: EscapeError) -> Seq<char> {
    match e {
        EscapeError::Unicode(f) => "invalid \\u escape: expected 4 hex digits: "@ + hex_message(f),
        EscapeError::Hex(f) => "invalid \\x escape: expected 2 hex digits: "@ + hex_message(f),
        EscapeError::CodePoint(code) => "invalid unicode code point U+"@ + hex4(code),
    }
}

/// A text and a number behind it.
fn with_number(text: &str, n: u64) -> (r: String)
    ensures
        r@ == text@ + whole_text(n as int),
{
    let mut out = copy_text(text);
    let number = show_nat(n);
    out.append(number.as_str());
    out
}

impl CastError {
    /// What this error says.
    pub fn message(&self) -> (r: String)
        ensures
            r@ == cast_message(self@),
    {
        match self {
            CastError::Unsorted => copy_text("Events must be sorted chronologically"),
            CastError::CommentEvent => copy_text("Comment events must be filtered before saving"),
            CastError::InvalidJson(line) => {
                let mut out = copy_text("invalid JSON line: ");
                out.append(line.as_str());
                out
            },
            CastError::MissingHeader => copy_text("Missing asciicast header"),
            CastError::InvalidHeader => copy_text("Invalid header data"),
            CastError::UnsupportedVersion(v) => with_number(
                "Unsupported file format version ",
                *v as u64,
            ),
            CastError::InvalidEvent(n) => with_number("Invalid event on line ", *n as u64),
            CastError::InvalidTime(n) => with_number("Invalid event time on line ", *n as u64),
            CastError::InvalidCode(n) => with_number("Invalid event code on line ", *n as u64),
            CastError::InvalidData(n) => with_number("Invalid event data on line ", *n as u64),
            CastError::InvalidResize(data, n) => with_number(
                message_of("Invalid resize data ", data.as_str(), " on line ").as_str(),
                *n as u64,
            ),
            CastError::UnknownCode(code, n) => with_number(
                message_of("Invalid event code ", code.as_str(), " on line ").as_str(),
                *n as u64,
            ),
        }
    }
}

impl FilterError {
    /// What this error says.
    pub fn message(&self) -> (r: String)
        ensures
            r@ == "invalid regex in filter: "@ + self.regex@ + ": "@ + self.reason@,
    {
        let mut out = message_of("invalid regex in filter: ", self.regex.as_str(), ": ");
        out.append(self.reason.as_str());
        out
    }
}

impl HexFault {
    /// What this fault says.
    fn message(self) -> (r: String)
        ensures
            r@ == hex_message(self),
    {
        match self {
            HexFault::End => copy_text("unexpected end of string in hex escape"),
            HexFault::Digit(c) => {
                let mut out = copy_text("invalid hex digit '");
                out.push(c);
                out.append("'");
                proof {
                    assert(out@ =~= hex_message(self));
                }
                out
            },
        }
    }
}

/// A hexadecimal digit, in upper case.
fn upper_hex_exec(d: u8) -> (r: char)
    requires
        d < 16,
    ensures
        r == upper_hex(d as int),
{
    if d < 10 {
        (d + 0x30) as char
    } else {
        (d + 0x37) as char
    }
}

impl EscapeError {
    /// What this error says.
    pub fn message(&self) -> (r: String)
        ensures
            r@ == escape_message(*self),
    {
        match self {
            EscapeError::Unicode(f) => {
                let mut out = copy_text("invalid \\u escape: expected 4 hex digits: ");
                let more = f.message();
                out.append(more.as_str());
                out
            },
            EscapeError::Hex(f) => {
                let mut out = copy_text("invalid \\x escape: expected 2 hex digits: ");
                let more = f.message();
                out.append(more.as_str());
                out
            },
            EscapeError::CodePoint(code) => {
                let mut out = copy_text("invalid unicode code point U+");
                let n = *code;
                out.push(upper_hex_exec((n / 4096 % 16) as u8));
                out.push(upper_hex_exec((n / 256 % 16) as u8));
                out.push(upper_hex_exec((n / 16 % 16) as u8));
                out.push(upper_hex_exec((n % 16) as u8));
                proof {
                    assert(out@ =~= escape_message(*self));
                }
                out
            },
        }
    }
}

impl TakeError {
    /// What this error says.
    pub fn message(&self) -> (r: String)
        ensures
            r@ == (match self {
                TakeError::Merge(e) => cast_message(e@),
                TakeError::Filter(e) => "invalid regex in filter: "@ + e.regex@ + ": "@ + e.reason@,
            }),
    {
        match self {
            TakeError::Merge(e) => e.message(),
            TakeError::Filter(e) => e.message(),
        }
    }
}

impl TimedOut {
    /// What this error says.
    pub fn message(&self) -> (r: String)
        ensures
            r@ == "timed out waiting for expected output"@,
    {
        copy_text("timed out waiting for expected output")
    }
}

impl NoPassword {
    /// What this error says.
    pub fn message(&self) -> (r: String)
        ensures
            r@ == "a sudo: block requires a password, but none was supplied (or it was empty)"@,
    {
        copy_text("a sudo: block requires a password, but none was supplied (or it was empty)")
    }
}

/// A code is told in four hexadecimal digits, which spell it.
pub proof fn law_code_is_told_in_hex(n: u32)
    requires
        n <= 0xffff,
    ensures
        hex4(n).len() == 4,
        forall|i: int| 0 <= i < 4 ==> crate::escapes::hex_digit(#[trigger] hex4(n)[i]) is Some,
        4096 * crate::escapes::hex_digit(hex4(n)[0])->0 + 256 * crate::escapes::hex_digit(
            hex4(n)[1],
        )->0 + 16 * crate::escapes::hex_digit(hex4(n)[2])->0 + crate::escapes::hex_digit(
            hex4(n)[3],
        )->0 == n,
        forall|i: int| 0 <= i < 4 ==> !('a' <= #[trigger] hex4(n)[i] <= 'f'),
{
    let a = n as int / 4096 % 16;
    let b = n as int / 256 % 16;
    let c = n as int / 16 % 16;
    let d = n as int % 16;
    lemma_upper_hex(a);
    lemma_upper_hex(b);
    lemma_upper_hex(c);
    lemma_upper_hex(d);
    assert(hex4(n)[0] == upper_hex(a) && hex4(n)[1] == upper_hex(b) && hex4(n)[2] == upper_hex(c)
        && hex4(n)[3] == upper_hex(d));
    assert(4096 * a + 256 * b + 16 * c + d == n);
}

proof fn lemma_upper_hex(d: int)
    requires
        0 <= d < 16,
    ensures
        crate::escapes::hex_digit(upper_hex(d)) == Some(d as u32),
        !('a' <= upper_hex(d) <= 'f'),
{
}

/// What is said of a line ends with the number of that line.
pub proof fn law_messages_tell_the_line(n: usize, data: Seq<char>)
    ensures
        cast_message(CastFault::InvalidEvent(n)) == "Invalid event on line "@ + whole_text(
            n as int,
        ),
        cast_message(CastFault::InvalidTime(n)) == "Invalid event time on line "@ + whole_text(
            n as int,
        ),
        cast_message(CastFault::InvalidCode(n)) == "Invalid event code on line "@ + whole_text(
            n as int,
        ),
        cast_message(CastFault::InvalidData(n)) == "Invalid event data on line "@ + whole_text(
            n as int,
        ),
        cast_message(CastFault::InvalidResize(data, n)) == "Invalid resize data "@ + data
            + " on line "@ + whole_text(n as int),
        cast_message(CastFault::UnknownCode(data, n)) == "Invalid event code "@ + data
            + " on line "@ + whole_text(n as int),
{
}

/// What is said of an escape tells which kind it is and what stands where a digit should.
pub proof fn law_messages_tell_the_escape(c: char, code: u32)
    ensures
        escape_message(EscapeError::Unicode(HexFault::Digit(c)))
            == "invalid \\u escape: expected 4 hex digits: "@ + ("invalid hex digit '"@ + seq![c]
            + "'"@),
        escape_message(EscapeError::Hex(HexFault::Digit(c)))
            == "invalid \\x escape: expected 2 hex digits: "@ + ("invalid hex digit '"@ + seq![c]
            + "'"@),
        escape_message(EscapeError::Unicode(HexFault::End))
            == "invalid \\u escape: expected 4 hex digits: "@
            + "unexpected end of string in hex escape"@,
        escape_message(EscapeError::Hex(HexFault::End))
            == "invalid \\x escape: expected 2 hex digits: "@
            + "unexpected end of string in hex escape"@,
        escape_message(EscapeError::CodePoint(code)) == "invalid unicode code point U+"@ + hex4(
            code,
        ),
{
}

} // verus!
