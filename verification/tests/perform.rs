use ascii_rat::actions::Action;
use ascii_rat::capture::command_or_shell;
use ascii_rat::cast::{CastError, Event, Header};
use ascii_rat::escapes::EscapeError;
use ascii_rat::filters::Filter;
use ascii_rat::keys::KeyName;
use ascii_rat::pace::Pace;
use ascii_rat::perform::{marker_time, NoPassword, Step, SudoMove, Take, TakeError};
use ascii_rat::pty::OutputChunk;
use ascii_rat::script::{Script, SudoConfig};

const T: (i64, i64) = (1, 2);
const PRE: (i64, i64) = (3, 4);
const POST: (i64, i64) = (5, 6);
const KEY: (i64, i64) = (7, 8);

fn script(actions: Vec<Action>) -> Script {
    Script {
        output_file: "o.cast".to_string(),
        start_delay: (9, 10),
        end_delay: (11, 12),
        typing_delay: T,
        pre_nl_delay: PRE,
        post_nl_delay: POST,
        key_delay: KEY,
        with_comments: false,
        comments_at_top: true,
        actions,
        filters: vec![],
        cols: None,
        rows: None,
        sudo: None,
    }
}

fn text(s: &str) -> Action {
    Action::Text(s.to_string())
}

fn chunk(instant: u64, bytes: &[u8]) -> OutputChunk {
    OutputChunk { instant, bytes: bytes.to_vec() }
}

fn sent(steps: &[Step]) -> Vec<u8> {
    let mut out = Vec::new();
    for step in steps {
        if let Step::Write(bytes) = step {
            out.extend_from_slice(bytes);
        }
    }
    out
}

#[test]
fn text_is_typed_unit_by_unit() {
    let steps = script(vec![]).steps(&text("a\\u001b")).unwrap();
    assert_eq!(
        steps,
        vec![
            Step::Write(b"a".to_vec()),
            Step::Pause(T),
            Step::Capture,
            Step::Write(b"\x1b".to_vec()),
            Step::Pause(T),
            Step::Capture,
            Step::Pause(PRE),
            Step::Settle(POST),
            Step::Capture,
            Step::SudoCheck { wait: false },
        ]
    );
}

#[test]
fn input_has_its_own_delays() {
    let action = Action::Input { text: "x".to_string(), pre_nl_delay: 20, post_nl_delay: 30 };
    let steps = script(vec![]).steps(&action).unwrap();
    assert_eq!(steps[3..5], [Step::Pause((20, 20)), Step::Settle((30, 30))]);
}

#[test]
fn keys_are_pressed_one_by_one() {
    let action = Action::Key { keys: vec![KeyName::Down.into(), KeyName::Enter.into()] };
    assert_eq!(
        script(vec![]).steps(&action).unwrap(),
        vec![
            Step::Write(b"\x1bOB".to_vec()),
            Step::Pause(KEY),
            Step::Capture,
            Step::Write(b"\r".to_vec()),
            Step::Pause(KEY),
            Step::Capture,
            Step::NoLine,
            Step::SudoCheck { wait: true },
        ]
    );
}

#[test]
fn a_note_is_typed_and_wiped() {
    let action = Action::InlineComment { text: "# n".to_string(), show: 50 };
    let steps = script(vec![]).steps(&action).unwrap();
    assert_eq!(sent(&steps), b"# n\x15");
    let pauses = steps.iter().filter(|s| **s == Step::Pause((50, 50))).count();
    assert_eq!(pauses, 2);
}

#[test]
fn other_actions_take_their_steps() {
    let s = script(vec![]);
    assert_eq!(
        s.steps(&Action::Marker { label: "m".to_string() }).unwrap(),
        vec![Step::Mark("m".to_string())]
    );
    assert_eq!(
        s.steps(&Action::Comment { comment: "c".to_string() }).unwrap(),
        vec![Step::Caption("c".to_string())]
    );
    assert_eq!(
        s.steps(&Action::Wait { nanos: 5 }).unwrap(),
        vec![Step::Pause((5, 5)), Step::Capture, Step::NoLine]
    );
    assert_eq!(
        s.steps(&Action::Expect { text: "e".to_string(), timeout: 6 }).unwrap(),
        vec![Step::Expect { needle: "e".to_string(), timeout: 6 }, Step::NoLine]
    );
    assert_eq!(s.steps(&Action::End).unwrap(), vec![]);
}

#[test]
fn nothing_is_typed_of_a_text_with_a_fault() {
    assert_eq!(
        script(vec![]).steps(&text("abc\\ud800")).unwrap_err(),
        EscapeError::CodePoint(0xd800)
    );
}

#[test]
fn an_end_stops_the_recording() {
    let s = script(vec![text("a"), Action::End, text("b")]);
    assert_eq!(s.performed_actions(), 2);
    assert_eq!(s.closing(), vec![Step::Close { keep: false }]);
    let s = script(vec![text("a"), text("b")]);
    assert_eq!(s.performed_actions(), 2);
    assert_eq!(s.opening(), vec![Step::Pause((9, 10)), Step::Capture]);
    assert_eq!(
        s.closing(),
        vec![Step::Pause((11, 12)), Step::Capture, Step::Close { keep: true }]
    );
}

#[test]
fn markers_stand_before_the_next_line() {
    assert_eq!(marker_time(2_000_000_000, 0), 2_000_000_000);
    assert_eq!(marker_time(2_000_000_000, 500_000_000), 1_600_000_000);
    assert_eq!(marker_time(1_234_567_890, 0), 1_235_000_000);
    assert_eq!(marker_time(1_234_499_999, 0), 1_234_000_000);
    assert_eq!(marker_time(0, 1_000_000_000), -800_000_000);
}

#[test]
fn a_take_becomes_a_recording() {
    let s = script(vec![]);
    let mut take = Take::new();
    take.capture(vec![chunk(1_000_000_000, b"one\x1b[6n")]);
    take.settle(500_000_000);
    take.mark(2_000_000_000, "M".to_string());
    take.no_line();
    take.caption(2_500_000_000, s.comments_at_top, "C".to_string());
    take.capture(vec![chunk(3_000_000_000, b"two")]);
    let cast = take.finish(&s, Header::new(80, 24), 0).unwrap();
    assert_eq!(
        cast.events,
        vec![
            Event::Output { time: 1_000_000_000, data: "one".to_string() },
            Event::Marker { time: 1_600_000_000, label: "M".to_string() },
            Event::Output { time: 3_000_000_000, data: "two".to_string() },
        ]
    );
    assert!(cast.to_text().is_ok());
}

#[test]
fn comments_are_shown_where_a_script_says_so() {
    let mut s = script(vec![]);
    s.with_comments = true;
    assert_eq!(s.effective_filters(), vec![Filter::Comment]);
    let mut take = Take::new();
    take.caption(1_000_000_000, true, "Hi".to_string());
    take.capture(vec![chunk(2_000_000_000, b"x")]);
    let cast = take.finish(&s, Header::new(4, 2), 0).unwrap();
    let overlay = "\u{1b}[s\u{1b}[1;1H\u{1b}[7m Hi \u{1b}[m\u{1b}[u";
    assert_eq!(
        cast.events,
        vec![
            Event::Output { time: 1_000_000_000, data: overlay.to_string() },
            Event::Output { time: 2_000_000_000, data: format!("x{overlay}") },
        ]
    );
    s.filters = vec![Filter::Comment];
    assert_eq!(s.effective_filters(), vec![Filter::Comment]);
}

#[test]
fn a_take_can_fail() {
    let s = script(vec![]);
    let mut take = Take::new();
    take.capture(vec![chunk(0, b"x")]);
    take.mark(2_000_000_000, "a".to_string());
    take.mark(1_000_000_000, "b".to_string());
    let error = take.finish(&s, Header::new(80, 24), 0).unwrap_err();
    assert_eq!(error, TakeError::Merge(CastError::Unsorted));
    assert_eq!(error.message(), "Events must be sorted chronologically");

    let mut s = script(vec![]);
    s.filters = vec![Filter::RegexReplacement { regex: "[".to_string(), replacement: "".to_string() }];
    let error = Take::new().finish(&s, Header::new(80, 24), 0).unwrap_err();
    assert!(matches!(error, TakeError::Filter(_)));
    assert!(error.message().starts_with("invalid regex in filter: [: "));
}

#[test]
fn a_password_is_typed_once() {
    let mut s = script(vec![]);
    let mut take = Take::new();
    take.capture(vec![chunk(0, b"[sudo] Passw"), chunk(1, b"ord: ")]);
    // Without a sudo block nothing happens.
    assert_eq!(take.sudo_check(&s, true), SudoMove::Skip);
    s.sudo = Some(SudoConfig::default());
    assert_eq!(take.sudo_check(&s, false), SudoMove::Type);
    assert_eq!(take.type_password(&s, None), Err(NoPassword));
    assert_eq!(take.type_password(&s, Some("")), Err(NoPassword));
    assert!(NoPassword.message().contains("sudo"));
    assert_eq!(take.sudo_check(&s, false), SudoMove::Type);
    let steps = take.type_password(&s, Some("p\u{e9}")).unwrap();
    assert_eq!(
        steps,
        vec![
            Step::Write(b"p".to_vec()),
            Step::Pause(T),
            Step::Capture,
            Step::Write(b"\xc3\xa9".to_vec()),
            Step::Pause(T),
            Step::Capture,
            Step::Write(b"\r".to_vec()),
            Step::Capture,
        ]
    );
    assert_eq!(take.sudo_check(&s, true), SudoMove::Skip);
}

#[test]
fn a_prompt_is_waited_for() {
    let mut s = script(vec![]);
    s.sudo = Some(SudoConfig { prompts: vec!["PIN".to_string()] });
    let mut take = Take::new();
    assert_eq!(take.sudo_check(&s, false), SudoMove::Skip);
    assert_eq!(take.sudo_check(&s, true), SudoMove::Await);
    assert_eq!(take.sudo_waited(&s, vec![chunk(1, b"nothing")]), SudoMove::Skip);
    assert_eq!(take.sudo_check(&s, true), SudoMove::Await);
    assert_eq!(take.sudo_waited(&s, vec![chunk(2, b"pin?")]), SudoMove::Type);
    // What came while waiting is kept.
    let cast = take.finish(&s, Header::new(80, 24), 0).unwrap();
    assert_eq!(cast.events.len(), 2);
}

#[test]
fn delays_stay_in_their_range() {
    let mut pace = Pace::new();
    let mut seen: Vec<i64> = Vec::new();
    for _ in 0..100 {
        let n = pace.sample((10, 1_000_000));
        assert!(10 <= n && n <= 1_000_000);
        seen.push(n);
    }
    assert!(seen.iter().any(|n| *n != seen[0]));
    assert_eq!(pace.sample((5, 5)), 5);
    assert_eq!(pace.sample((5, 3)), 5);
    assert_eq!(pace.sample((i64::MIN, i64::MIN)), i64::MIN);
    // The same delays come in every run.
    let mut again = Pace::new();
    for n in seen {
        assert_eq!(again.sample((10, 1_000_000)), n);
    }
}

#[test]
fn no_command_is_bash() {
    assert_eq!(command_or_shell(vec![]), vec!["bash".to_string()]);
    assert_eq!(command_or_shell(vec!["ls".to_string()]), vec!["ls".to_string()]);
}
