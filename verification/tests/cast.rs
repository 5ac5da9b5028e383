use ascii_rat::cast::{AsciiCast, CastError, Event, Header, Theme};
use ascii_rat::castfile::{parse_cast, parse_resize};
use ascii_rat::json::Node;
use serde_json::Value;

fn ns(seconds: f64) -> i64 {
    (seconds * 1e9).round() as i64
}

fn value(node: &Node) -> Value {
    serde_json::from_str(&node.to_text()).unwrap()
}

#[test]
fn header_roundtrip() {
    let env = vec![
        ("SHELL".to_string(), "/usr/bin/bash".to_string()),
        ("TERM".to_string(), "xterm-ghostty".to_string()),
    ];
    let header = Header {
        version: 2,
        width: 100,
        height: 40,
        timestamp: Some(1783352093),
        duration: None,
        idle_time_limit: None,
        command: None,
        title: None,
        env: Some(env),
        theme: None,
    };
    let cast = AsciiCast::new(header, vec![]);
    let lines = cast.to_lines().unwrap();
    // Only the header line, no events.
    assert_eq!(lines.len(), 1);
    let parsed: Value = serde_json::from_str(&lines[0]).unwrap();
    assert_eq!(parsed["version"], 2);
    assert_eq!(parsed["width"], 100);
    assert_eq!(parsed["height"], 40);
    assert_eq!(parsed["timestamp"], 1783352093);
    assert_eq!(parsed["env"]["SHELL"], "/usr/bin/bash");
    // Skipped Nones must not appear.
    assert!(parsed.get("duration").is_none());
    assert!(parsed.get("theme").is_none());
}

#[test]
fn event_serialization() {
    let out = Event::Output {
        time: ns(0.007052),
        data: "hi".to_string(),
    };
    assert_eq!(
        value(&out.as_data().unwrap()),
        Value::Array(vec![Value::from(0.007052), Value::from("o"), Value::from("hi")])
    );

    let marker = Event::Marker {
        time: ns(1.5),
        label: "END".to_string(),
    };
    assert_eq!(
        value(&marker.as_data().unwrap()),
        Value::Array(vec![Value::from(1.5), Value::from("m"), Value::from("END")])
    );

    let resize = Event::Resize {
        time: 0,
        columns: 100,
        rows: 40,
    };
    assert_eq!(
        value(&resize.as_data().unwrap()),
        Value::Array(vec![Value::from(0.0), Value::from("r"), Value::from("100x40")])
    );

    // Comment events cannot be serialized.
    let comment = Event::Comment {
        time: 0,
        top: true,
        comment: "hello".to_string(),
    };
    assert!(comment.as_data().is_err());
}

#[test]
fn parse_and_reload_roundtrip() {
    let lines = vec![
        r#"{"version": 2, "width": 100, "height": 40}"#.to_string(),
        r#"[0.1, "o", "hello"]"#.to_string(),
        r#"[0.2, "m", "END"]"#.to_string(),
        r#"[0.3, "r", "80x24"]"#.to_string(),
    ];
    let values: Vec<Node> = lines.iter().map(|l| Node::from_text(l).unwrap()).collect();
    let cast = parse_cast(&values).unwrap();
    assert_eq!(cast.header.width, 100);
    assert_eq!(cast.events.len(), 3);
    assert_eq!(
        cast.events[0],
        Event::Output {
            time: ns(0.1),
            data: "hello".to_string()
        }
    );
    assert_eq!(
        cast.events[2],
        Event::Resize {
            time: ns(0.3),
            columns: 80,
            rows: 24
        }
    );
}

fn out(seconds: f64, data: &str) -> Event {
    Event::Output { time: ns(seconds), data: data.to_string() }
}

fn marker(seconds: f64, label: &str) -> Event {
    Event::Marker { time: ns(seconds), label: label.to_string() }
}

fn times(cast: &AsciiCast) -> Vec<i64> {
    cast.events.iter().map(|e| e.time()).collect()
}

#[test]
fn insert_events_merges_chronologically() {
    let header = Header::new(80, 24);
    let recorded = vec![out(0.0, "a"), out(1.0, "b"), out(2.0, "c")];
    let cast = AsciiCast::new(header, recorded);
    let inserted = vec![marker(0.5, "m1"), marker(1.5, "m2")];
    let merged = cast.insert_events(inserted).unwrap();
    assert_eq!(times(&merged), vec![0, ns(0.5), ns(1.0), ns(1.5), ns(2.0)]);
}

#[test]
fn insert_events_trailing_inserts() {
    let header = Header::new(80, 24);
    let cast = AsciiCast::new(header, vec![out(0.0, "a")]);
    let merged = cast.insert_events(vec![marker(5.0, "late")]).unwrap();
    assert_eq!(times(&merged), vec![0, ns(5.0)]);
}

#[test]
fn insert_events_rejects_unsorted() {
    let header = Header::new(80, 24);
    let cast = AsciiCast::new(header, vec![out(0.0, "a")]);
    let inserted = vec![marker(2.0, "b"), marker(1.0, "a")];
    assert!(cast.insert_events(inserted).is_err());
}

#[test]
fn inserted_events_go_behind_output_of_the_same_time() {
    let cast = AsciiCast::new(Header::new(80, 24), vec![out(1.0, "a"), out(1.0, "b")]);
    let merged = cast.insert_events(vec![marker(1.0, "m"), marker(1.0, "n")]).unwrap();
    assert_eq!(
        merged.events,
        vec![out(1.0, "a"), out(1.0, "b"), marker(1.0, "m"), marker(1.0, "n")]
    );
}

#[test]
fn inserted_events_must_be_in_order_with_and_without_output() {
    for events in [vec![], vec![out(0.0, "a")]] {
        let cast = AsciiCast::new(Header::new(80, 24), events);
        assert_eq!(
            cast.insert_events(vec![marker(2.0, "b"), marker(1.0, "a")]).unwrap_err(),
            CastError::Unsorted
        );
        let count = cast.events.len();
        let merged = cast.insert_events(vec![marker(1.0, "b"), marker(1.0, "a")]).unwrap();
        assert_eq!(merged.events.len(), count + 2);
    }
}

fn with_header(fields: &str) -> Result<AsciiCast, CastError> {
    AsciiCast::from_text(&format!("{{\"version\":2,\"width\":80,\"height\":24{fields}}}\n"))
}

#[test]
fn a_theme_may_be_a_list() {
    let cast = with_header(",\"theme\":[\"#fff\",\"#000\",[\"#111\"]]").unwrap();
    assert_eq!(
        cast.header.theme,
        Some(Theme {
            fg: "#fff".to_string(),
            bg: "#000".to_string(),
            palette: vec!["#111".to_string()],
        })
    );
    assert!(with_header(",\"theme\":[\"#fff\",\"#000\"]").is_err());
    assert!(with_header(",\"theme\":[\"#fff\",\"#000\",[],1]").is_err());
    assert!(with_header(",\"theme\":[\"#fff\",1,[]]").is_err());
}

#[test]
fn the_lowest_numbers_are_saved_and_read_back() {
    let mut header = Header::new(80, 24);
    header.timestamp = Some(i64::MIN);
    header.duration = Some(i64::MIN);
    let events = vec![Event::Output { time: i64::MIN, data: "x".to_string() }];
    let cast = AsciiCast::new(header, events);
    assert_eq!(AsciiCast::from_text(&cast.to_text().unwrap()).unwrap(), cast);
    assert!(with_header(",\"timestamp\":-9223372036854775809").is_err());
    assert!(with_header(",\"timestamp\":9223372036854775808").is_err());
}

#[test]
fn any_variable_is_saved_and_read_back() {
    for name in ["$serde_json::private::RawValue", "$serde_json::private::Number", "", "a b"] {
        for value in ["", "null", "x", "{}"] {
            let mut header = Header::new(80, 24);
            header.env = Some(vec![(name.to_string(), value.to_string())]);
            let cast = AsciiCast::new(header, vec![out(1.0, "a")]);
            assert_eq!(AsciiCast::from_text(&cast.to_text().unwrap()).unwrap(), cast);
        }
    }
}

#[test]
fn numbers_are_read_as_json_has_them() {
    // A minus sign before zero makes a number that is not whole.
    assert!(with_header(",\"timestamp\":-0").is_err());
    assert!(with_header(",\"duration\":-0").is_ok());
    assert!(AsciiCast::from_text("{\"version\":2,\"width\":-0,\"height\":24}\n").is_err());
    // Exponents may have any number of digits, as long as the number is not too large.
    let cast = with_header(",\"duration\":0e1000000000,\"idle_time_limit\":5e-99999999999999999");
    let header = cast.unwrap().header;
    assert_eq!((header.duration, header.idle_time_limit), (Some(0), Some(0)));
    assert!(with_header(",\"duration\":1e1000000000").is_err());
    // That holds of fields that are left aside too.
    assert!(with_header(",\"other\":1e300").is_ok());
    assert!(with_header(",\"other\":1e400").is_err());
    assert!(with_header(",\"other\":[{\"a\":-1e400}]").is_err());
}

fn full_cast() -> AsciiCast {
    let header = Header {
        version: 2,
        width: 80,
        height: 24,
        timestamp: Some(-5),
        duration: Some(ns(12.25)),
        idle_time_limit: Some(ns(2.0)),
        command: Some("bash -c \"x\"".to_string()),
        title: Some("t\u{e9}t\u{2192}\n\u{1b}".to_string()),
        env: Some(vec![("A".to_string(), "1".to_string()), ("B".to_string(), "".to_string())]),
        theme: Some(Theme {
            fg: "#fff".to_string(),
            bg: "#000".to_string(),
            palette: vec!["#111".to_string(), "#222".to_string()],
        }),
    };
    let events = vec![
        out(0.000000001, "x\u{1b}[0m\r\n\"\\"),
        Event::Input { time: 1, data: "k".to_string() },
        marker(1.5, "END"),
        Event::Resize { time: ns(3.0), columns: 65535, rows: 0 },
        out(-0.5, ""),
    ];
    AsciiCast::new(header, events)
}

#[test]
fn a_saved_recording_reads_back() {
    let cast = full_cast();
    let text = cast.to_text().unwrap();
    assert_eq!(AsciiCast::from_text(&text).unwrap(), cast);
    assert_eq!(text.lines().count(), 6);
}

#[test]
fn a_saved_recording_is_what_it_should_be() {
    let mut cast = AsciiCast::new(Header::new(80, 24), vec![out(0.25, "hi\n"), marker(2.0, "M")]);
    cast.header.timestamp = Some(7);
    assert_eq!(
        cast.to_text().unwrap(),
        "{\"height\":24,\"timestamp\":7,\"version\":2,\"width\":80}\n[0.25,\"o\",\"hi\\n\"]\n[2.0,\"m\",\"M\"]\n"
    );
}

#[test]
fn comments_are_not_saved() {
    let comment = Event::Comment { time: 0, top: true, comment: "c".to_string() };
    let cast = AsciiCast::new(Header::new(80, 24), vec![out(0.0, "a"), comment]);
    assert_eq!(cast.to_lines().unwrap_err(), CastError::CommentEvent);
    assert_eq!(cast.to_text().unwrap_err(), CastError::CommentEvent);
}

fn fault(text: &str) -> CastError {
    AsciiCast::from_text(text).unwrap_err()
}

#[test]
fn faults_of_a_file() {
    let head = "{\"version\":2,\"width\":80,\"height\":24}\n";
    for (text, error, message) in [
        ("".to_string(), CastError::MissingHeader, "Missing asciicast header"),
        ("[1]\n".to_string(), CastError::MissingHeader, "Missing asciicast header"),
        (
            "nope\n".to_string(),
            CastError::InvalidJson("nope".to_string()),
            "invalid JSON line: nope",
        ),
        ("{\"version\":2}\n".to_string(), CastError::InvalidHeader, "Invalid header data"),
        (
            "{\"version\":3,\"width\":80,\"height\":24}".to_string(),
            CastError::UnsupportedVersion(3),
            "Unsupported file format version 3",
        ),
        (format!("{head}[1,\"o\"]"), CastError::InvalidEvent(1), "Invalid event on line 1"),
        (
            format!("{head}[0,\"o\",\"\"]\n{{}}"),
            CastError::InvalidEvent(2),
            "Invalid event on line 2",
        ),
        (
            format!("{head}[\"1\",\"o\",\"x\"]"),
            CastError::InvalidTime(1),
            "Invalid event time on line 1",
        ),
        (format!("{head}[1,2,\"x\"]"), CastError::InvalidCode(1), "Invalid event code on line 1"),
        (format!("{head}[1,\"o\",2]"), CastError::InvalidData(1), "Invalid event data on line 1"),
        (
            format!("{head}[1,\"r\",\"80\"]"),
            CastError::InvalidResize("80".to_string(), 1),
            "Invalid resize data 80 on line 1",
        ),
        (
            format!("{head}[1,\"q\",\"\"]"),
            CastError::UnknownCode("q".to_string(), 1),
            "Invalid event code q on line 1",
        ),
    ] {
        assert_eq!(fault(&text), error);
        assert_eq!(error.message(), message);
    }
    assert_eq!(CastError::Unsorted.message(), "Events must be sorted chronologically");
    assert_eq!(
        CastError::CommentEvent.message(),
        "Comment events must be filtered before saving"
    );
}

#[test]
fn blank_lines_are_passed_over() {
    let text = "\n  \n{\"version\":2,\"width\":80,\"height\":24}\n\n[1,\"o\",\"x\"]\n \n";
    assert_eq!(AsciiCast::from_text(text).unwrap().events, vec![out(1.0, "x")]);
}

#[test]
fn carriage_returns_before_line_feeds_are_passed_over() {
    let text = "{\"version\":2,\"width\":80,\"height\":24}\r\n[1,\"o\",\"x\"]\r\n";
    assert_eq!(AsciiCast::from_text(text).unwrap().events, vec![out(1.0, "x")]);
    assert_eq!(fault("nope\r\n"), CastError::InvalidJson("nope".to_string()));
    assert_eq!(fault("nope\r"), CastError::InvalidJson("nope\r".to_string()));
}

#[test]
fn sizes_are_read() {
    assert_eq!(parse_resize("80x24"), Some((80, 24)));
    assert_eq!(parse_resize("0x65535"), Some((0, 65535)));
    assert_eq!(parse_resize("65536x1"), None);
    assert_eq!(parse_resize("80x"), None);
    assert_eq!(parse_resize("x24"), None);
    assert_eq!(parse_resize("80"), None);
    assert_eq!(parse_resize("80x24x2"), None);
    assert_eq!(parse_resize("80X24"), None);
}

#[test]
fn copies_are_equal() {
    let cast = full_cast();
    assert_eq!(cast.clone(), cast);
}
