use ascii_rat::cast::{AsciiCast, Event, Header};
use ascii_rat::filters::{center, comment_overlay_data, replace_output, strip_comments, Filter};
use ascii_rat::script::Script;

fn ns(seconds: f64) -> i64 {
    (seconds * 1e9).round() as i64
}

#[test]
fn deserialize_end_marker_filter() {
    let yaml = "filter_id: EndMarkerFilter\nend_label: END\n";
    let f = Filter::from_yaml(yaml).unwrap();
    assert_eq!(
        f,
        Filter::EndMarker {
            end_label: "END".to_string()
        }
    );
}

#[test]
fn deserialize_regex_filter() {
    let yaml = "filter_id: RegexReplacementFilter\nregex: 'a+'\nreplacement: 'b'\n";
    let f = Filter::from_yaml(yaml).unwrap();
    assert_eq!(
        f,
        Filter::RegexReplacement {
            regex: "a+".to_string(),
            replacement: "b".to_string()
        }
    );
}

#[test]
fn deserialize_comment_filter() {
    let yaml = "filter_id: CommentFilter\n";
    let f = Filter::from_yaml(yaml).unwrap();
    assert_eq!(f, Filter::Comment);
}

#[test]
fn deserialize_invalid_filter() {
    let yaml = "filter_id: Nope\n";
    assert!(Filter::from_yaml(yaml).is_err());
}

fn out(time: f64, data: &str) -> Event {
    Event::Output {
        time: ns(time),
        data: data.to_string(),
    }
}

fn marker(time: f64, label: &str) -> Event {
    Event::Marker {
        time: ns(time),
        label: label.to_string(),
    }
}

#[test]
fn end_marker_truncates_at_label() {
    let header = Header::new(80, 24);
    let events = vec![
        out(0.0, "a"),
        out(1.0, "b"),
        marker(1.5, "END"),
        out(2.0, "c"),
    ];
    let filtered = Filter::EndMarker {
        end_label: "END".to_string(),
    }
    .apply(&header, events)
    .unwrap();
    assert_eq!(filtered, vec![out(0.0, "a"), out(1.0, "b")]);
}

#[test]
fn start_marker_drops_before_label() {
    let header = Header::new(80, 24);
    let events = vec![
        out(0.0, "a"),
        marker(0.5, "START"),
        out(1.0, "b"),
        out(2.0, "c"),
    ];
    let filtered = Filter::StartMarker {
        start_label: "START".to_string(),
    }
    .apply(&header, events)
    .unwrap();
    assert_eq!(filtered, vec![out(1.0, "b"), out(2.0, "c")]);
}

#[test]
fn regex_replacement_touches_output_only() {
    let header = Header::new(80, 24);
    let events = vec![out(0.0, "secret123"), marker(1.0, "secret123")];
    let filtered = Filter::RegexReplacement {
        regex: r"\d+".to_string(),
        replacement: "***".to_string(),
    }
    .apply(&header, events)
    .unwrap();
    assert_eq!(
        filtered,
        vec![out(0.0, "secret***"), marker(1.0, "secret123")]
    );
}

#[test]
fn comment_filter_renders_top_status_line() {
    let header = Header::new(20, 10);
    let events = vec![Event::Comment {
        time: ns(0.5),
        top: true,
        comment: "Hi".to_string(),
    }];
    let filtered = Filter::Comment.apply(&header, events).unwrap();
    assert_eq!(filtered.len(), 1);
    match &filtered[0] {
        Event::Output { time, data } => {
            assert_eq!(*time, ns(0.5));
            // Save cursor, move to line 1 col 1.
            assert!(data.starts_with("\u{1b}[s\u{1b}[1;1H"));
            // Reversed video wrapping, centered in 20 cols.
            assert!(data.contains("\u{1b}[7m"));
            assert!(data.contains("\u{1b}[m"));
            // Restore cursor at the end.
            assert!(data.ends_with("\u{1b}[u"));
            // "Hi" centered in 20 columns: 9 left, 9 right.
            assert!(data.contains(&format!("{}Hi{}", " ".repeat(9), " ".repeat(9))));
        }
        other => panic!("expected Output event, got {other:?}"),
    }
}

#[test]
fn comment_filter_bottom_uses_rows_line() {
    let header = Header::new(20, 10);
    let events = vec![Event::Comment {
        time: 0,
        top: false,
        comment: "x".to_string(),
    }];
    let filtered = Filter::Comment.apply(&header, events).unwrap();
    match &filtered[0] {
        Event::Output { data, .. } => {
            // Bottom comment moves to the last row (height = 10).
            assert!(data.starts_with("\u{1b}[s\u{1b}[10;1H"));
        }
        other => panic!("expected Output event, got {other:?}"),
    }
}

fn comment(time: f64, top: bool, text: &str) -> Event {
    Event::Comment {
        time: ns(time),
        top,
        comment: text.to_string(),
    }
}

fn output_data(event: &Event) -> &str {
    match event {
        Event::Output { data, .. } => data,
        other => panic!("expected Output event, got {other:?}"),
    }
}

#[test]
fn output_after_active_comment_reemits_overlay() {
    let header = Header::new(20, 10);
    let overlay = comment_overlay_data(true, "Hi", 20, 10);
    let events = vec![comment(0.0, true, "Hi"), out(1.0, "TUI-frame")];
    let filtered = Filter::Comment.apply(&header, events).unwrap();
    assert_eq!(filtered.len(), 2);
    // The comment itself becomes the overlay output.
    assert_eq!(output_data(&filtered[0]), overlay);
    // The following output event has the overlay repainted after it.
    assert_eq!(output_data(&filtered[1]), format!("TUI-frame{overlay}"));
}

#[test]
fn later_comment_supersedes_previous_overlay() {
    let header = Header::new(20, 10);
    let first = comment_overlay_data(true, "One", 20, 10);
    let second = comment_overlay_data(true, "Two", 20, 10);
    let events = vec![
        comment(0.0, true, "One"),
        out(1.0, "frameA"),
        comment(2.0, true, "Two"),
        out(3.0, "frameB"),
    ];
    let filtered = Filter::Comment.apply(&header, events).unwrap();
    assert_eq!(filtered.len(), 4);
    // First comment overlay, then frameA repaints the first overlay.
    assert_eq!(output_data(&filtered[1]), format!("frameA{first}"));
    // Second comment overlay, then frameB repaints the SECOND overlay only.
    assert_eq!(output_data(&filtered[2]), second);
    assert_eq!(output_data(&filtered[3]), format!("frameB{second}"));
    // frameB must NOT contain the first (superseded) overlay text "One".
    assert!(!output_data(&filtered[3]).contains("One"));
}

#[test]
fn output_before_any_comment_is_untouched() {
    let header = Header::new(20, 10);
    let events = vec![out(0.0, "boot"), comment(1.0, true, "Hi")];
    let filtered = Filter::Comment.apply(&header, events).unwrap();
    // The pre-comment output is unchanged (no overlay appended).
    assert_eq!(output_data(&filtered[0]), "boot");
}

#[test]
fn center_matches_python_semantics() {
    // Python f'{s:^{w}}' puts the extra space on the right for odd padding.
    assert_eq!(center("ab", 5), " ab  ");
    assert_eq!(center("abc", 3), "abc");
    assert_eq!(center("abcd", 2), "abcd");
}

#[test]
fn center_counts_characters() {
    assert_eq!(center("\u{2192}", 4), " \u{2192}  ");
    assert_eq!(center("", 2), "  ");
}

#[test]
fn an_overlay_is_what_it_should_be() {
    assert_eq!(
        comment_overlay_data(false, "Hi", 6, 10),
        "\u{1b}[s\u{1b}[10;1H\u{1b}[7m  Hi  \u{1b}[m\u{1b}[u"
    );
}

#[test]
fn groups_of_a_match_can_be_put_back() {
    let filter = Filter::RegexReplacement {
        regex: r"user=(\w+)".to_string(),
        replacement: "user=<$1>".to_string(),
    };
    let input = Event::Input { time: 0, data: "user=x".to_string() };
    let filtered = filter
        .apply(&Header::new(80, 24), vec![out(0.0, "user=a user=b"), input.clone()])
        .unwrap();
    assert_eq!(filtered, vec![out(0.0, "user=<a> user=<b>"), input]);
}

#[test]
fn a_filter_with_a_bad_pattern_fails() {
    let filter = Filter::RegexReplacement { regex: "(".to_string(), replacement: "".to_string() };
    let error = filter.apply(&Header::new(80, 24), vec![out(0.0, "a")]).unwrap_err();
    assert_eq!(error.regex, "(");
    assert!(error.message().starts_with("invalid regex in filter: (: "));
    assert!(error.reason.contains("unclosed group"));
    assert!(filter.apply(&Header::new(80, 24), vec![]).is_err());
}

#[test]
fn a_missing_marker_drops_all_or_nothing() {
    let header = Header::new(80, 24);
    let events = || vec![out(0.0, "a"), marker(1.0, "OTHER"), out(2.0, "b")];
    let start = Filter::StartMarker { start_label: "X".to_string() };
    let end = Filter::EndMarker { end_label: "X".to_string() };
    assert_eq!(start.apply(&header, events()).unwrap(), vec![]);
    assert_eq!(end.apply(&header, events()).unwrap(), events());
}

#[test]
fn filters_follow_each_other() {
    let cast = AsciiCast::new(
        Header::new(20, 10),
        vec![out(0.0, "a1"), marker(1.0, "S"), out(2.0, "b2"), marker(3.0, "E"), out(4.0, "c3")],
    );
    let filters = vec![
        Filter::StartMarker { start_label: "S".to_string() },
        Filter::EndMarker { end_label: "E".to_string() },
        Filter::RegexReplacement { regex: "[0-9]".to_string(), replacement: "#".to_string() },
    ];
    let filtered = cast.filter_events(&filters).unwrap();
    assert_eq!(filtered.events, vec![out(2.0, "b#")]);
    assert_eq!(filtered.header, cast.header);
    assert_eq!(cast.filter_events(&[]).unwrap(), cast);
}

#[test]
fn only_output_is_replaced() {
    assert_eq!(replace_output(&out(1.0, "a"), "b".to_string()), out(1.0, "b"));
    assert_eq!(replace_output(&marker(1.0, "a"), "b".to_string()), marker(1.0, "a"));
}

#[test]
fn stripping_takes_comments_only() {
    let events = vec![comment(0.0, true, "x"), out(1.0, "a"), comment(2.0, false, "y"), marker(3.0, "m")];
    assert_eq!(strip_comments(&events), vec![out(1.0, "a"), marker(3.0, "m")]);
}

#[test]
fn faults_of_a_filter() {
    for (yaml, message) in [
        ("filter_id: Nope", "Invalid filter Nope"),
        ("regex: a", "missing field `filter_id`"),
        ("filter_id: EndMarkerFilter", "missing field `end_label`"),
        ("filter_id: StartMarkerFilter", "missing field `start_label`"),
        ("filter_id: RegexReplacementFilter\nregex: a", "missing field `replacement`"),
        ("filter_id: CommentFilter\nextra: 1", "unknown field `extra`"),
        ("- 1", "a filter must be a mapping with a `filter_id` field"),
    ] {
        assert_eq!(Filter::from_yaml(yaml).unwrap_err(), message);
    }
}

const DEMO: &str = "output_file: demo.cast\ncols: 100\nrows: 40\nactions:\n- END_REC:\n";

#[test]
fn pipeline_produces_valid_v2_cast() {
    let script = Script::from_yaml(DEMO).expect("the script should load");
    let cols = script.cols.unwrap();
    let rows = script.rows.unwrap();

    // A synthetic recorded output stream.
    let recorded = vec![
        out(0.0, "\u{1b}[2J"),
        out(1.0, "hello world"),
        out(5.0, "after end"),
    ];
    let header = Header::new(cols, rows);
    let cast = AsciiCast::new(header, recorded);

    // Inserted marker/comment events (must be chronologically sorted).
    let inserted = vec![
        comment(0.5, script.comments_at_top, "Intro"),
        // The END marker sits before the "after end" output so EndMarkerFilter
        // truncates it.
        marker(2.0, "END"),
    ];

    let cast = cast.insert_events(inserted).expect("insert should succeed");

    let filters = vec![
        Filter::EndMarker {
            end_label: "END".to_string(),
        },
        Filter::Comment,
    ];
    let cast = cast.filter_events(&filters).expect("filters should apply");

    // EndMarkerFilter must have dropped everything at/after the END marker.
    assert!(
        cast.events.iter().all(|e| e.time() < ns(2.0)),
        "events after END should be trimmed"
    );
    // No raw Marker/Comment events should remain after filtering.
    assert!(cast
        .events
        .iter()
        .all(|e| !matches!(e, Event::Marker { .. } | Event::Comment { .. })));

    // The comment must have become an output status-line escape sequence.
    let has_status_line = cast.events.iter().any(|e| match e {
        Event::Output { data, .. } => data.contains("\u{1b}[7m") && data.contains("Intro"),
        _ => false,
    });
    assert!(has_status_line, "comment should render as a status line");

    // Serialize and validate every line as asciicast v2.
    let lines = cast.to_lines().expect("serialization should succeed");
    assert!(lines.len() >= 2, "expected header + at least one event");

    // Header line: JSON object with version 2 and the demo's dimensions.
    let header_val: serde_json::Value =
        serde_json::from_str(&lines[0]).expect("header must be JSON");
    assert!(header_val.is_object());
    assert_eq!(header_val["version"], 2);
    assert_eq!(header_val["width"], cols);
    assert_eq!(header_val["height"], rows);

    // Every event line: 3-element JSON array [time, code, data].
    for line in &lines[1..] {
        let val: serde_json::Value = serde_json::from_str(line).expect("event must be JSON");
        let arr = val.as_array().expect("event must be an array");
        assert_eq!(arr.len(), 3, "event must have 3 elements: {line}");
        assert!(arr[0].is_number(), "time must be a number: {line}");
        assert!(arr[1].is_string(), "code must be a string: {line}");
        assert!(arr[2].is_string(), "data must be a string: {line}");
    }
}
