use ascii_rat::queries::{build_query_reply, strip_terminal_queries};

#[test]
fn no_reply_for_ordinary_output() {
    assert!(build_query_reply(b"hello world").is_empty());
    assert!(build_query_reply(b"\x1b[100Dsome text\x1b[0m").is_empty());
    assert!(build_query_reply(b"\x1b[?25l\x1b[?2004h").is_empty());
}

#[test]
fn answers_cursor_position_report() {
    assert_eq!(build_query_reply(b"\x1b[6n"), b"\x1b[1;1R");
}

#[test]
fn answers_device_status_ok() {
    assert_eq!(build_query_reply(b"\x1b[5n"), b"\x1b[0n");
}

#[test]
fn answers_primary_device_attributes() {
    assert_eq!(build_query_reply(b"\x1b[c"), b"\x1b[?1;2c");
    assert_eq!(build_query_reply(b"\x1b[0c"), b"\x1b[?1;2c");
}

#[test]
fn answers_background_colour_query() {
    assert_eq!(
        build_query_reply(b"\x1b]11;?\x1b\\"),
        b"\x1b]11;rgb:0000/0000/0000\x1b\\"
    );
    assert_eq!(
        build_query_reply(b"\x1b]11;?\x07"),
        b"\x1b]11;rgb:0000/0000/0000\x1b\\"
    );
}

#[test]
fn answers_foreground_colour_query() {
    assert_eq!(
        build_query_reply(b"\x1b]10;?\x1b\\"),
        b"\x1b]10;rgb:c7c7/c7c7/c7c7\x1b\\"
    );
}

#[test]
fn answers_the_reported_scrambled_query_sequence() {
    let reply = build_query_reply(b"\x1b]11;?\x1b\\\x1b[6n");
    assert_eq!(reply, b"\x1b]11;rgb:0000/0000/0000\x1b\\\x1b[1;1R");
}

#[test]
fn colour_query_only_answers_the_query_form() {
    assert!(build_query_reply(b"\x1b]11;rgb:2222/1f1f/2222\x1b\\").is_empty());
}

#[test]
fn incomplete_trailing_query_is_ignored() {
    assert!(build_query_reply(b"text\x1b[6").is_empty());
    assert!(build_query_reply(b"text\x1b]11;?").is_empty());
}

#[test]
fn strip_leaves_ordinary_output_untouched() {
    for input in [
        b"hello world\r\n".as_slice(),
        b"\x1b[36martie\x1b[00m:\x1b[34m~\x1b[00m ".as_slice(),
        b"\x1b[100D\x1b[2K\r".as_slice(),
        b"\x1b[?25l\x1b[?2004h".as_slice(),
        b"\x1b_Gpayload\x1b\\".as_slice(),
    ] {
        assert_eq!(strip_terminal_queries(input), input.to_vec());
    }
}

#[test]
fn strip_removes_cursor_position_query() {
    assert_eq!(strip_terminal_queries(b"\x1b[6n"), Vec::<u8>::new());
    // Surrounded by real output: only the query is removed.
    assert_eq!(strip_terminal_queries(b"abc\x1b[6ndef"), b"abcdef".to_vec());
}

#[test]
fn strip_removes_device_status_and_attributes_queries() {
    assert_eq!(strip_terminal_queries(b"\x1b[5n"), Vec::<u8>::new());
    assert_eq!(strip_terminal_queries(b"\x1b[c"), Vec::<u8>::new());
    assert_eq!(strip_terminal_queries(b"\x1b[0c"), Vec::<u8>::new());
}

#[test]
fn strip_removes_colour_queries_but_keeps_colour_sets() {
    assert_eq!(strip_terminal_queries(b"\x1b]11;?\x1b\\"), Vec::<u8>::new());
    assert_eq!(strip_terminal_queries(b"\x1b]10;?\x07"), Vec::<u8>::new());
    let set = b"\x1b]11;rgb:2222/1f1f/2222\x1b\\";
    assert_eq!(strip_terminal_queries(set), set.to_vec());
}

#[test]
fn strip_removes_the_reported_scrambled_sequence() {
    assert_eq!(
        strip_terminal_queries(b"\x1b]11;?\x1b\\\x1b[6n"),
        Vec::<u8>::new()
    );
    let input = b"\x1b[?2004l\r\x1b]11;?\x1b\\\x1b[6nroot\r\n";
    assert_eq!(
        strip_terminal_queries(input),
        b"\x1b[?2004l\rroot\r\n".to_vec()
    );
}

#[test]
fn strip_keeps_incomplete_trailing_sequence_verbatim() {
    assert_eq!(strip_terminal_queries(b"text\x1b[6"), b"text\x1b[6".to_vec());
    assert_eq!(
        strip_terminal_queries(b"text\x1b]11;?"),
        b"text\x1b]11;?".to_vec()
    );
}

#[test]
fn nothing_is_removed_where_nothing_is_answered() {
    for input in [
        b"".as_slice(),
        b"plain".as_slice(),
        b"\x1b".as_slice(),
        b"\x1b[6m\x1b[7n\x1b[1c".as_slice(),
        b"\x1b]12;?\x07".as_slice(),
        b"\x1b[6n".as_slice(),
        b"a\x1b[cb\x1b]10;?\x07".as_slice(),
    ] {
        assert_eq!(
            strip_terminal_queries(input) == input,
            build_query_reply(input).is_empty()
        );
    }
}

#[test]
fn plain_output_in_front_passes_through() {
    for after in [&b"\x1b[6n"[..], b"x\x1b[6ny", b"", b"[6n", b"\x1b"] {
        for before in [&b"abc"[..], b"", b"[6n\r\n", b"\xff\x00"] {
            let all = [before, after].concat();
            assert_eq!(
                strip_terminal_queries(&all),
                [before, &strip_terminal_queries(after)].concat()
            );
            assert_eq!(build_query_reply(&all), build_query_reply(after));
        }
    }
}
