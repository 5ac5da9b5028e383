use ascii_rat::escapes::{decode_escapes, split_into_units, EscapeError, HexFault};

#[test]
fn decode_simple_escapes() {
    assert_eq!(decode_escapes("abc").unwrap(), b"abc");
    assert_eq!(decode_escapes("a\\rb").unwrap(), b"a\rb");
    assert_eq!(decode_escapes("a\\nb").unwrap(), b"a\nb");
    assert_eq!(decode_escapes("a\\tb").unwrap(), b"a\tb");
    assert_eq!(decode_escapes("a\\\\b").unwrap(), b"a\\b");
}

#[test]
fn decode_unicode_escapes() {
    // \u001b is ESC (0x1b).
    assert_eq!(decode_escapes("\\u001b").unwrap(), vec![0x1b]);
    // The down-arrow sequence: ESC O B.
    assert_eq!(decode_escapes("\\u001bOB").unwrap(), vec![0x1b, b'O', b'B']);
    assert_eq!(
        decode_escapes("\\r\\u001bOB\\r\\u001bOB\\u001bOB").unwrap(),
        vec![b'\r', 0x1b, b'O', b'B', b'\r', 0x1b, b'O', b'B', 0x1b, b'O', b'B']
    );
    // The delete-key sequence: "/" then ESC [ 3 ~.
    assert_eq!(
        decode_escapes("/\\u001b[3~").unwrap(),
        vec![b'/', 0x1b, b'[', b'3', b'~']
    );
}

#[test]
fn decode_hex_escape() {
    assert_eq!(decode_escapes("\\x1b").unwrap(), vec![0x1b]);
}

#[test]
fn split_units_keeps_escape_sequences_intact() {
    let units = split_into_units("a\\u001bOB");
    assert_eq!(units, vec!["a", "\\u001b", "O", "B"]);
}

#[test]
fn decode_edge_cases() {
    assert_eq!(decode_escapes("").unwrap(), b"");
    assert_eq!(decode_escapes("\\0").unwrap(), vec![0]);
    assert_eq!(decode_escapes("end\\").unwrap(), b"end\\");
    assert_eq!(decode_escapes("\\q\\\u{e9}").unwrap(), "\\q\\\u{e9}".as_bytes());
    assert_eq!(decode_escapes("\\u2192").unwrap(), "\u{2192}".as_bytes());
    assert_eq!(decode_escapes("\\xfF").unwrap(), vec![0xff]);
    assert_eq!(decode_escapes("\u{2192}\u{1f600}").unwrap(), "\u{2192}\u{1f600}".as_bytes());
}

#[test]
fn decode_errors() {
    assert_eq!(decode_escapes("\\u00"), Err(EscapeError::Unicode(HexFault::End)));
    assert_eq!(decode_escapes("\\u00zz"), Err(EscapeError::Unicode(HexFault::Digit('z'))));
    assert_eq!(decode_escapes("a\\x"), Err(EscapeError::Hex(HexFault::End)));
    assert_eq!(decode_escapes("\\xg0"), Err(EscapeError::Hex(HexFault::Digit('g'))));
    assert_eq!(decode_escapes("\\ud800"), Err(EscapeError::CodePoint(0xd800)));
    // The first error is the one reported.
    assert_eq!(decode_escapes("\\xg0\\ud800"), Err(EscapeError::Hex(HexFault::Digit('g'))));
    assert_eq!(
        decode_escapes("\\ud800").unwrap_err().message(),
        "invalid unicode code point U+D800"
    );
    assert_eq!(
        decode_escapes("\\u00zz").unwrap_err().message(),
        "invalid \\u escape: expected 4 hex digits: invalid hex digit 'z'"
    );
    assert_eq!(
        decode_escapes("\\x").unwrap_err().message(),
        "invalid \\x escape: expected 2 hex digits: unexpected end of string in hex escape"
    );
}

#[test]
fn units_make_the_text() {
    for text in ["", "plain", "a\\u001bOB\\x41\\r\\\\\\", "\\q\u{e9}\\n", "\\u2192\\u2192x"] {
        let units = split_into_units(text);
        assert_eq!(units.join(""), text);
        let mut bytes: Vec<u8> = Vec::new();
        for unit in &units {
            bytes.extend(decode_escapes(unit).unwrap());
        }
        assert_eq!(bytes, decode_escapes(text).unwrap());
    }
    assert_eq!(split_into_units("\\u12"), vec!["\\u12"]);
    for text in ["a\\xg0b", "\\u12", "ok\\ud800", "\\x4", "fine\\n"] {
        let all = split_into_units(text).iter().all(|u| decode_escapes(u).is_ok());
        assert_eq!(all, decode_escapes(text).is_ok());
    }
}
