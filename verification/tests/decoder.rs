use ascii_rat::actions::Action;
use ascii_rat::decoder::Decoder;
use ascii_rat::keys::{KeyName, KeyPress};

fn at(ms: u64) -> u64 {
    7_000_000_000 + ms * 1_000_000
}

fn ns(seconds: f64) -> i64 {
    (seconds * 1e9).round() as i64
}

#[test]
fn printable_chars_collapse_into_one_text_action() {
    let mut d = Decoder::new(10_000, 0);
    d.feed(b"ls", at(0));
    let actions = d.finish();
    assert_eq!(actions, vec![Action::Text("ls".to_string())]);
}

#[test]
fn enter_flushes_text_and_becomes_key() {
    let mut d = Decoder::new(10_000, 0);
    d.feed(b"ls", at(0));
    d.feed(b"\r", at(1));
    let actions = d.finish();
    assert_eq!(
        actions,
        vec![
            Action::Text("ls".to_string()),
            Action::Key {
                keys: vec![KeyName::Enter.into()]
            },
        ]
    );
}

#[test]
fn line_feed_is_treated_as_enter() {
    let mut d = Decoder::new(10_000, 0);
    d.feed(b"hi\n", at(0));
    let actions = d.finish();
    assert_eq!(
        actions,
        vec![
            Action::Text("hi".to_string()),
            Action::Key {
                keys: vec![KeyName::Enter.into()]
            },
        ]
    );
}

#[test]
fn arrow_escape_sequence_becomes_key() {
    let mut d = Decoder::new(10_000, 0);
    // SS3 Down: ESC O B
    d.feed(b"\x1bOB", at(0));
    let actions = d.finish();
    assert_eq!(
        actions,
        vec![Action::Key {
            keys: vec![KeyName::Down.into()]
        }]
    );
}

#[test]
fn partial_escape_across_reads_decodes_to_one_key() {
    let mut d = Decoder::new(10_000, 0);
    // Delete is ESC [ 3 ~ split across three reads.
    d.feed(b"\x1b", at(0));
    d.feed(b"[3", at(1));
    d.feed(b"~", at(2));
    let actions = d.finish();
    assert_eq!(
        actions,
        vec![Action::Key {
            keys: vec![KeyName::Delete.into()]
        }]
    );
}

#[test]
fn idle_gap_becomes_wait_between_actions() {
    let mut d = Decoder::new(400, 0);
    d.feed(b"a", at(0));
    // 1s gap before the next key.
    d.feed(b"\r", at(1000));
    let actions = d.finish();
    assert_eq!(
        actions,
        vec![
            Action::Text("a".to_string()),
            Action::Wait { nanos: ns(1.0) },
            Action::Key {
                keys: vec![KeyName::Enter.into()]
            },
        ]
    );
}

#[test]
fn wait_is_rounded_to_nearest_step() {
    // Round to the nearest 500ms: a 1.7s gap snaps to 1.5s.
    let mut d = Decoder::new(400, 500);
    d.feed(b"a", at(0));
    d.feed(b"\r", at(1700));
    let actions = d.finish();
    assert_eq!(
        actions,
        vec![
            Action::Text("a".to_string()),
            Action::Wait { nanos: ns(1.5) },
            Action::Key {
                keys: vec![KeyName::Enter.into()]
            },
        ]
    );
}

#[test]
fn full_sequence_ls_enter_wait_down() {
    let mut d = Decoder::new(400, 0);
    d.feed(b"ls", at(0));
    d.feed(b"\r", at(10));
    // long gap
    d.feed(b"\x1bOB", at(1000));
    let actions = d.finish();
    assert_eq!(
        actions,
        vec![
            Action::Text("ls".to_string()),
            Action::Key {
                keys: vec![KeyName::Enter.into()]
            },
            Action::Wait { nanos: ns(0.99) },
            Action::Key {
                keys: vec![KeyName::Down.into()]
            },
        ]
    );
}

#[test]
fn lone_esc_is_decoded_when_no_longer_match_follows() {
    let mut d = Decoder::new(10_000, 0);
    // ESC followed by a printable 'x' (not a known escape sequence): the
    // ESC becomes an Esc key and 'x' becomes text.
    d.feed(b"\x1bxyz", at(0));
    let actions = d.finish();
    assert_eq!(
        actions,
        vec![
            Action::Key {
                keys: vec![KeyName::Esc.into()]
            },
            Action::Text("xyz".to_string()),
        ]
    );
}

#[test]
fn combinations_are_recorded() {
    let mut d = Decoder::new(10_000, 0);
    d.feed(b"\x03\x1b[Z\x1b[1;5C", at(0));
    let keys: Vec<KeyPress> = ["Ctrl-C", "Shift-Tab", "Ctrl-Right"]
        .iter()
        .map(|n| KeyPress::parse(n).unwrap())
        .collect();
    assert_eq!(d.finish(), vec![Action::Key { keys }]);
}

#[test]
fn cutting_reads_changes_nothing() {
    let bytes = "ls -la\r\u{2192}\u{1b}[1;6Dx\u{1b}[3~\t\u{1b}q".as_bytes();
    let mut whole = Decoder::new(10_000, 0);
    whole.feed(bytes, at(0));
    let wanted = whole.finish();
    for cut in 0..bytes.len() {
        let mut d = Decoder::new(10_000, 0);
        d.feed(&bytes[..cut], at(0));
        d.feed(&bytes[cut..], at(1));
        assert_eq!(d.finish(), wanted);
    }
    let mut d = Decoder::new(10_000, 0);
    for b in bytes {
        d.feed(&[*b], at(0));
    }
    assert_eq!(d.finish(), wanted);
}

#[test]
fn gaps_add_up_and_zero_waits_go() {
    let mut d = Decoder::new(100, 0);
    d.feed(b"a", at(0));
    d.feed(b"", at(1000));
    d.feed(b"b", at(3000));
    assert_eq!(
        d.finish(),
        vec![
            Action::Text("a".to_string()),
            Action::Wait { nanos: ns(3.0) },
            Action::Text("b".to_string()),
        ]
    );
    // A gap that rounds to nothing is no wait.
    let mut d = Decoder::new(100, 500);
    d.feed(b"a", at(0));
    d.feed(b"b", at(200));
    assert_eq!(
        d.finish(),
        vec![Action::Text("a".to_string()), Action::Text("b".to_string())]
    );
    // A gap below the threshold is none.
    let mut d = Decoder::new(100, 0);
    d.feed(b"a", at(0));
    d.feed(b"b", at(99));
    assert_eq!(d.finish(), vec![Action::Text("ab".to_string())]);
}

#[test]
fn what_is_left_over_becomes_text() {
    let mut d = Decoder::new(100, 0);
    d.feed(b"\x1b[3", at(0));
    assert_eq!(d.finish(), vec![Action::Text("\x1b[3".to_string())]);
    let mut d = Decoder::new(100, 0);
    d.feed(b"ab\x1b", at(0));
    assert_eq!(d.finish(), vec![Action::Text("ab\x1b".to_string())]);
    let mut d = Decoder::new(100, 0);
    d.feed(b"a\xe2\x86", at(0));
    assert_eq!(d.finish(), vec![Action::Text("a\u{fffd}".to_string())]);
    let mut d = Decoder::new(100, 0);
    d.feed(b"a\xff\xe2b", at(0));
    assert_eq!(d.finish(), vec![Action::Text("ab".to_string())]);
}

#[test]
fn esc_is_told_by_the_key_behind_it() {
    let keys = [
        KeyName::Esc,
        KeyName::Esc,
        KeyName::Up,
        KeyName::Esc,
        KeyName::Space,
        KeyName::Esc,
        KeyName::Enter,
        KeyName::Esc,
        KeyName::Delete,
    ];
    let mut bytes: Vec<u8> = Vec::new();
    for key in keys {
        bytes.extend_from_slice(key.bytes());
    }
    let mut d = Decoder::new(100, 0);
    d.feed(&bytes, at(0));
    let want: Vec<KeyPress> = keys.iter().map(|k| (*k).into()).collect();
    assert_eq!(d.finish(), vec![Action::Key { keys: want }]);
}

#[test]
fn a_recording_has_its_shape() {
    let mut d = Decoder::new(10, 0);
    let mut n: u64 = 7;
    let mut now: u64 = 0;
    for _ in 0..2000 {
        n = n.wrapping_mul(6364136223846793005).wrapping_add(1442695040888963407);
        now += (n >> 60) * 2;
        let pieces: [&[u8]; 10] = [
            b"a", b" ", b"\r", b"\x1b[A", b"\x1b", b"\x01", b"\xc3\xa9", b"\xff", b"xy", b"[",
        ];
        d.feed(pieces[(n >> 40) as usize % 10], at(now));
    }
    let actions = d.finish();
    for pair in actions.windows(2) {
        assert!(!matches!(pair, [Action::Key { .. }, Action::Key { .. }]));
        assert!(!matches!(pair, [Action::Wait { .. }, Action::Wait { .. }]));
    }
    assert!(!matches!(actions.last(), Some(Action::Wait { .. })));
    for action in &actions {
        match action {
            Action::Text(text) => assert!(!text.is_empty() && !text.contains(' ')),
            Action::Key { keys } => assert!(!keys.is_empty()),
            Action::Wait { nanos } => assert!(*nanos > 0),
            _ => unreachable!(),
        }
    }
}
