use ascii_rat::actions::{Action, DEFAULT_SHOW, DEFAULT_TIMEOUT};
use ascii_rat::filters::Filter;
use ascii_rat::json::Node;
use ascii_rat::keys::{KeyName, KeyPress};
use ascii_rat::script::{resolve_delay, Script, SudoConfig, DEFAULT_KEY_DELAY};

fn ns(seconds: f64) -> i64 {
    (seconds * 1e9).round() as i64
}

fn fixed(seconds: f64) -> (i64, i64) {
    (ns(seconds), ns(seconds))
}

fn named(keys: &[KeyName]) -> Action {
    Action::Key { keys: keys.iter().map(|k| KeyPress::from(*k)).collect() }
}

const DEMO: &str = r#"
output_file: "2026-06-06-snap-rat-vibes.cast"
cols: 100
rows: 40
start_delay_ms: 500
end_delay_ms: 500
typing_delay_ms: 75
pre_nl_delay_ms: 200
post_nl_delay_ms: 500
key_delay_ms: 250
sudo: {}
actions:
- Marker: sudo for privileged operations
- sudo snap-rat-vibes
- Enter: 1
- Wait: 1.0
- "/"
- Esc:
- Keys: [Down, Down, Enter]
- PageDown: 2
- Down: 6
- q
- END_REC:
"#;

#[test]
fn parse_demo_yaml() {
    let script = Script::from_yaml(DEMO).expect("the demo should parse");
    assert_eq!(script.output_file, "2026-06-06-snap-rat-vibes.cast");
    // All delays are written with the `_ms` suffix (milliseconds) and a
    // single number, so each becomes a fixed `(x, x)` range.
    assert_eq!(script.start_delay, fixed(0.5));
    assert_eq!(script.end_delay, fixed(0.5));
    assert_eq!(script.typing_delay, fixed(0.075));
    assert_eq!(script.pre_nl_delay, fixed(0.2));
    assert_eq!(script.post_nl_delay, fixed(0.5));
    assert_eq!(script.key_delay, fixed(0.25));
    assert!(!script.with_comments);
    assert!(!script.comments_at_top);
    assert_eq!(script.cols, Some(100));
    assert_eq!(script.rows, Some(40));

    // First action is a marker, then a bare string command...
    assert_eq!(
        script.actions[0],
        Action::Marker {
            label: "sudo for privileged operations".to_string()
        }
    );
    assert_eq!(
        script.actions[1],
        Action::Text("sudo snap-rat-vibes".to_string())
    );
    // ...followed by an explicit `Enter: 1` (typed strings do not submit).
    assert_eq!(script.actions[2], named(&[KeyName::Enter]));
    assert_eq!(script.actions[3], Action::Wait { nanos: ns(1.0) });
    // A bare `Esc:` (no count) parses as a single Esc press.
    assert!(script.actions.contains(&named(&[KeyName::Esc])));
    // A queued multi-key action (the `Keys: [..]` list form) is present.
    assert!(script.actions.contains(&named(&[KeyName::Down, KeyName::Down, KeyName::Enter])));
    // A `PageDown: 2` shorthand expands to two PageDown presses, and a
    // `Down: 6` shorthand expands to six Down presses.
    assert!(script.actions.contains(&named(&[KeyName::PageDown; 2])));
    assert!(script.actions.contains(&named(&[KeyName::Down; 6])));
    // The top-level `sudo:` block enables password typing with defaults.
    assert!(script.sudo_enabled());
    assert_eq!(
        script.sudo.as_ref().unwrap().prompts,
        vec!["assword".to_string(), "[sudo]".to_string()]
    );
    // The `q` quit command is present (types `q` to exit the TUI).
    assert!(script
        .actions
        .iter()
        .any(|a| matches!(a, Action::Text(t) if t == "q")));
    // Recording is stopped by an `END_REC:` action.
    assert_eq!(script.actions.last().unwrap(), &Action::End);
    assert!(script.filters.is_empty());
}

#[test]
fn demo_yaml_loads() {
    let script = Script::from_yaml(DEMO).expect("the demo should load");
    assert_eq!(script.cols, Some(100));
    assert_eq!(script.rows, Some(40));
    // The recording is stopped by an `End` action (not a marker + filter).
    assert!(script.actions.iter().any(|a| matches!(a, Action::End)));
    assert!(script.filters.is_empty());
}

/// Reads a single action from a one-item YAML sequence (the shape actions
/// appear in inside a script).
fn deserialize_single_action(yaml_item: &str) -> Action {
    let items = match Node::from_yaml(yaml_item).expect("item should be YAML") {
        Node::List(items) => items,
        other => panic!("expected a list, got {other:?}"),
    };
    assert_eq!(items.len(), 1, "expected exactly one action");
    Action::from_node(&items[0]).expect("action item should deserialize")
}

#[test]
fn action_serialize_roundtrips_per_variant() {
    // For each `Action` variant, serializing then deserializing must yield
    // an equal value, so a produced script is consumable by the loader.
    let cases = vec![
        Action::Text("echo hi".to_string()),
        Action::Input {
            text: "/".to_string(),
            pre_nl_delay: ns(0.2),
            post_nl_delay: ns(0.5),
        },
        Action::Marker {
            label: "intro".to_string(),
        },
        Action::Comment {
            comment: "a caption".to_string(),
        },
        named(&[KeyName::Down, KeyName::Down, KeyName::Enter]),
        named(&[KeyName::Esc]),
        Action::Wait { nanos: ns(1.5) },
        Action::End,
        Action::InlineComment { text: "# note".to_string(), show: ns(1.25) },
        Action::Expect { text: "READY $".to_string(), timeout: ns(7.0) },
        Action::Key {
            keys: vec![
                KeyPress::parse("Ctrl-C").unwrap(),
                KeyPress::parse("Alt-Shift-\u{e9}").unwrap(),
                KeyPress::parse("Ctrl-Right").unwrap(),
            ],
        },
        Action::Text("123".to_string()),
        Action::Text("true".to_string()),
        Action::Text("".to_string()),
        Action::Text("a: b\n- c\t\\u001b\u{1b}".to_string()),
        Action::Marker { label: "0x10".to_string() },
    ];

    for original in cases {
        let yaml = original
            .to_yaml()
            .unwrap_or_else(|e| panic!("serialize failed for {original:?}: {e}"));
        let back = Action::from_yaml(&yaml)
            .unwrap_or_else(|e| panic!("deserialize failed for {yaml:?}: {e}"));
        assert_eq!(back, original, "round-trip mismatch via YAML:\n{yaml}");
        assert_eq!(Action::from_node(&original.to_node()).unwrap(), original);
    }
}

#[test]
fn action_text_serializes_as_bare_scalar() {
    // `Text` must be a bare scalar (not a mapping) so it matches the
    // human-authored grammar.
    let yaml = Action::Text("ls -la".to_string()).to_yaml().unwrap();
    assert_eq!(yaml.trim(), "ls -la");
    assert_eq!(
        deserialize_single_action("- ls -la"),
        Action::Text("ls -la".to_string())
    );
}

#[test]
fn action_end_serializes_as_end_rec_mapping() {
    // `End` must serialize to the `END_REC:` mapping the loader recognizes.
    let yaml = Action::End.to_yaml().unwrap();
    assert!(yaml.contains("END_REC"), "unexpected END serialization: {yaml}");
    assert_eq!(deserialize_single_action(&format!("- {}", yaml.trim())), Action::End);
}

#[test]
fn parse_key_shorthand_actions() {
    // The `KeyName: count` shorthand repeats a single key `count` times.
    let yaml = script_yaml_with_actions("- Down: 3\n- Enter: 1");
    let script = Script::from_yaml(&yaml).expect("should parse key actions");
    assert_eq!(script.actions[0], named(&[KeyName::Down, KeyName::Down, KeyName::Down]));
    assert_eq!(script.actions[1], named(&[KeyName::Enter]));
}

#[test]
fn parse_key_shorthand_without_count_is_single_press() {
    // A bare key with no count (`Esc:` → null value, or the explicit
    // `Esc: ~`) is treated as a single press.
    let yaml = script_yaml_with_actions("- Esc:\n- Enter: ~");
    let script = Script::from_yaml(&yaml).expect("should parse key actions");
    assert_eq!(script.actions[0], named(&[KeyName::Esc]));
    assert_eq!(script.actions[1], named(&[KeyName::Enter]));
}

#[test]
fn parse_keys_list_action() {
    // The `Keys: [..]` form queues several distinct keys in one action, in
    // order, without any implicit newline.
    let yaml = script_yaml_with_actions("- Keys: [Down, Down, Enter]");
    let script = Script::from_yaml(&yaml).expect("should parse keys list");
    assert_eq!(script.actions[0], named(&[KeyName::Down, KeyName::Down, KeyName::Enter]));
}

#[test]
fn progress_label_describes_each_action() {
    assert_eq!(
        Action::Text("sudo whoami".to_string()).progress_label(),
        "type \"sudo whoami\""
    );
    assert_eq!(
        Action::Marker {
            label: "intro".to_string()
        }
        .progress_label(),
        "marker \"intro\""
    );
    assert_eq!(named(&[KeyName::Down, KeyName::Enter]).progress_label(), "key Down Enter");
    assert_eq!(Action::Wait { nanos: ns(2.0) }.progress_label(), "wait 2s");
    assert_eq!(Action::End.progress_label(), "end recording");
}

#[test]
fn progress_labels_quote_what_they_show() {
    let input = Action::Input { text: "a\"\n".to_string(), pre_nl_delay: 0, post_nl_delay: 0 };
    assert_eq!(input.progress_label(), "type \"a\\\"\\n\"");
    assert_eq!(
        Action::Comment { comment: "c".to_string() }.progress_label(),
        "comment \"c\""
    );
    assert_eq!(Action::Wait { nanos: ns(0.25) }.progress_label(), "wait 0.25s");
}

#[test]
fn parse_action_mapping_with_two_keys_fails() {
    // An action mapping must have exactly one tag key; two is an error.
    let yaml = script_yaml_with_actions("- {Down: 1, Enter: 1}");
    let err = Script::from_yaml(&yaml).expect_err("two tags in one mapping should fail");
    assert!(err.contains("exactly one"), "error was: {err}");
}

#[test]
fn parse_empty_keys_list_fails() {
    let yaml = script_yaml_with_actions("- Keys: []");
    let err = Script::from_yaml(&yaml).expect_err("empty keys list should fail");
    assert!(err.contains("at least one"), "error was: {err}");
}

#[test]
fn parse_zero_count_key_fails() {
    let yaml = script_yaml_with_actions("- Down: 0");
    let err = Script::from_yaml(&yaml).expect_err("a zero repeat count should fail");
    assert!(err.contains(">= 1"), "error was: {err}");
}

#[test]
fn key_delay_defaults_when_omitted() {
    // A script that omits `key_delay` still parses and gets the default range.
    let yaml = script_yaml_with_actions("- Down: 1");
    let script = Script::from_yaml(&yaml).expect("should parse");
    assert_eq!(script.key_delay, DEFAULT_KEY_DELAY);
}

#[test]
fn key_delay_is_read_from_yaml() {
    let yaml = r#"
output_file: "out.cast"
start_delay: 0.1
end_delay: 0.1
typing_delay: [0.0, 0.0]
pre_nl_delay: [0.0, 0.0]
post_nl_delay: [0.0, 0.0]
key_delay: [0.3, 0.4]
actions:
- Down: 1
"#;
    let script = Script::from_yaml(yaml).expect("should parse");
    assert_eq!(script.key_delay, (ns(0.3), ns(0.4)));
}

#[test]
fn parse_invalid_key_name_fails() {
    let yaml = script_yaml_with_actions("- NotAKey: 1");
    assert!(Script::from_yaml(&yaml).is_err());
}

/// Build a minimal script YAML with the given `actions:` fragment spliced in.
fn script_yaml_with_actions(actions_fragment: &str) -> String {
    format!(
        r#"
output_file: "out.cast"
start_delay: 0.1
end_delay: 0.1
typing_delay: [0.0, 0.0]
pre_nl_delay: [0.0, 0.0]
post_nl_delay: [0.0, 0.0]
actions:
{actions_fragment}
"#
    )
}

#[test]
fn parse_wait_action() {
    let yaml = script_yaml_with_actions("- Wait: 2.0");
    let script = Script::from_yaml(&yaml).expect("should parse Wait action");
    assert_eq!(script.actions[0], Action::Wait { nanos: ns(2.0) });
}

#[test]
fn parse_wait_negative_seconds_fails() {
    let yaml = script_yaml_with_actions("- Wait: -1.0");
    let err = Script::from_yaml(&yaml).expect_err("negative seconds should fail");
    assert!(err.contains(">= 0"), "error was: {err}");
}

#[test]
fn parse_end_action() {
    // `END_REC:` (a null value) ends the recording; it becomes `Action::End`.
    let yaml = script_yaml_with_actions("- \"cmd\"\n- END_REC:");
    let script = Script::from_yaml(&yaml).expect("should parse END_REC action");
    assert_eq!(script.actions.last().unwrap(), &Action::End);
}

#[test]
fn end_key_is_a_keypress_not_end_recording() {
    // The `End` special key must still be usable as a normal keypress and
    // must NOT be mistaken for the recording-stop action (`END_REC`).
    let yaml = script_yaml_with_actions("- End: 2");
    let script = Script::from_yaml(&yaml).expect("should parse End key");
    assert_eq!(script.actions[0], named(&[KeyName::End, KeyName::End]));
}

#[test]
fn parse_marker_and_comment_actions() {
    // Natural single-key tag mappings for Marker/Comment.
    let yaml = script_yaml_with_actions("- Marker: END\n- Comment: hello");
    let script = Script::from_yaml(&yaml).expect("should parse");
    assert_eq!(
        script.actions[0],
        Action::Marker {
            label: "END".to_string()
        }
    );
    assert_eq!(
        script.actions[1],
        Action::Comment {
            comment: "hello".to_string()
        }
    );
}

#[test]
fn parse_input_action_mapping() {
    // `Input:` takes a nested mapping value.
    let yaml = script_yaml_with_actions(
        "- Input: {text: \"/\", pre_nl_delay: 0.1, post_nl_delay: 0.2}",
    );
    let script = Script::from_yaml(&yaml).expect("should parse Input");
    assert_eq!(
        script.actions[0],
        Action::Input {
            text: "/".to_string(),
            pre_nl_delay: ns(0.1),
            post_nl_delay: ns(0.2),
        }
    );
}

#[test]
fn parse_scalar_delay_is_fixed_range() {
    // A single number delay becomes a fixed `(x, x)` range (no jitter).
    let yaml = r#"
output_file: "out.cast"
start_delay: 0.1
end_delay: 0.1
typing_delay: 0.02
pre_nl_delay: [0.0, 0.0]
post_nl_delay: [0.0, 0.0]
actions:
- Down: 1
"#;
    let script = Script::from_yaml(yaml).expect("should parse");
    assert_eq!(script.typing_delay, fixed(0.02));
}

#[test]
fn parse_ms_delay_converts_to_seconds() {
    // A `_ms` field is given in milliseconds.
    let yaml = r#"
output_file: "out.cast"
start_delay: 0.1
end_delay: 0.1
typing_delay: [0.0, 0.0]
pre_nl_delay: [0.0, 0.0]
post_nl_delay: [0.0, 0.0]
key_delay_ms: 150
actions:
- Down: 1
"#;
    let script = Script::from_yaml(yaml).expect("should parse");
    assert_eq!(script.key_delay, fixed(0.15));
}

#[test]
fn parse_delay_seconds_and_ms_together_fails() {
    // A field may not be given in both seconds and milliseconds at once.
    let yaml = r#"
output_file: "out.cast"
start_delay: 0.1
end_delay: 0.1
typing_delay: [0.0, 0.0]
pre_nl_delay: [0.0, 0.0]
post_nl_delay: [0.0, 0.0]
key_delay: 0.15
key_delay_ms: 150
actions:
- Down: 1
"#;
    let err = Script::from_yaml(yaml).expect_err("both key_delay and key_delay_ms should fail");
    assert!(err.contains("not both"), "error was: {err}");
}

/// Build a minimal script YAML with a custom `sudo:` fragment spliced in.
fn script_yaml_with_sudo(sudo_fragment: &str) -> String {
    format!(
        r#"
output_file: "out.cast"
start_delay: 0.1
end_delay: 0.1
typing_delay: [0.0, 0.0]
pre_nl_delay: [0.0, 0.0]
post_nl_delay: [0.0, 0.0]
{sudo_fragment}
actions:
- sudo something
- exit
"#
    )
}

#[test]
fn sudo_flag_true_enables_default_prompts() {
    let yaml = script_yaml_with_sudo("sudo: true");
    let script = Script::from_yaml(&yaml).expect("should parse sudo: true");
    assert!(script.sudo_enabled());
    assert_eq!(
        script.sudo.as_ref().unwrap().prompts,
        vec!["assword".to_string(), "[sudo]".to_string()]
    );
}

#[test]
fn sudo_empty_mapping_enables_default_prompts() {
    let yaml = script_yaml_with_sudo("sudo: {}");
    let script = Script::from_yaml(&yaml).expect("should parse sudo: {}");
    assert!(script.sudo_enabled());
    assert_eq!(
        script.sudo.as_ref().unwrap().prompts,
        vec!["assword".to_string(), "[sudo]".to_string()]
    );
}

#[test]
fn sudo_explicit_prompts_override_defaults() {
    let yaml = script_yaml_with_sudo("sudo:\n  prompts:\n  - \"> \"\n  - \"assword\"");
    let script = Script::from_yaml(&yaml).expect("should parse sudo with prompts");
    assert!(script.sudo_enabled());
    assert_eq!(
        script.sudo.as_ref().unwrap().prompts,
        vec!["> ".to_string(), "assword".to_string()]
    );
}

#[test]
fn sudo_absent_or_false_is_disabled() {
    // Absent entirely.
    let yaml = r#"
output_file: "out.cast"
start_delay: 0.1
end_delay: 0.1
typing_delay: [0.0, 0.0]
pre_nl_delay: [0.0, 0.0]
post_nl_delay: [0.0, 0.0]
actions:
- echo hi
- exit
"#;
    let script = Script::from_yaml(yaml).expect("should parse");
    assert!(!script.sudo_enabled());

    // Explicit `sudo: false`.
    let yaml = script_yaml_with_sudo("sudo: false");
    let script = Script::from_yaml(&yaml).expect("should parse sudo: false");
    assert!(!script.sudo_enabled());
}

#[test]
fn default_prompts_are_those_of_sudo() {
    let config = SudoConfig::default();
    assert_eq!(config.prompts, vec!["assword".to_string(), "[sudo]".to_string()]);
    assert_eq!(config.clone(), config);
}

#[test]
fn absent_fields_have_defaults() {
    let script = Script::from_yaml("output_file: a\nactions: [x]").unwrap();
    assert_eq!(script.start_delay, (0, 0));
    assert_eq!(script.end_delay, (0, 0));
    assert_eq!(script.typing_delay, (0, 0));
    assert_eq!(script.pre_nl_delay, (0, 0));
    assert_eq!(script.post_nl_delay, (0, 0));
    assert_eq!(script.key_delay, (80_000_000, 120_000_000));
    assert_eq!((script.cols, script.rows), (None, None));
    assert!(!script.with_comments && !script.comments_at_top);
    assert_eq!(script.filters, vec![]);
    assert_eq!(script.sudo, None);
}

#[test]
fn expected_output_and_notes_are_read() {
    let yaml = script_yaml_with_actions(
        "- Expect: ready\n- Expect: {text: done, timeout: 2}\n- InlineComment: look\n- InlineComment: {text: here, show: 1.5}\n- Ctrl-C:\n- Keys: [Shift-Tab, ctrl-right]",
    );
    let script = Script::from_yaml(&yaml).unwrap();
    assert_eq!(
        script.actions,
        vec![
            Action::Expect { text: "ready".to_string(), timeout: DEFAULT_TIMEOUT },
            Action::Expect { text: "done".to_string(), timeout: ns(2.0) },
            Action::InlineComment { text: "look".to_string(), show: DEFAULT_SHOW },
            Action::InlineComment { text: "here".to_string(), show: ns(1.5) },
            Action::Key { keys: vec![KeyPress::parse("Ctrl-C").unwrap()] },
            Action::Key {
                keys: vec![
                    KeyPress::parse("Shift-Tab").unwrap(),
                    KeyPress::parse("Ctrl-Right").unwrap(),
                ],
            },
        ]
    );
}

#[test]
fn filters_of_a_script_are_read() {
    let script = Script::from_yaml(
        "output_file: a\nactions: []\nfilters:\n- filter_id: CommentFilter\n- {filter_id: StartMarkerFilter, start_label: S}\n",
    )
    .unwrap();
    assert_eq!(
        script.filters,
        vec![Filter::Comment, Filter::StartMarker { start_label: "S".to_string() }]
    );
    assert_eq!(script.filters.clone(), script.filters);
}

#[test]
fn faults_of_an_action() {
    for (yaml, message) in [
        ("Down: -1", "invalid value for `Down`"),
        ("Down: x", "invalid value for `Down`"),
        ("Down: 0", "`Down` count must be >= 1"),
        ("NotAKey: 1", "Invalid action or key `NotAKey`"),
        ("Keys: []", "`Keys` must list at least one key"),
        ("Keys: [Down, Nope]", "Invalid key name Nope"),
        ("Wait: -1", "Wait seconds must be >= 0"),
        ("Wait: x", "invalid value for `Wait`"),
        ("Expect: {text: a, timeout: -1}", "Expect seconds must be >= 0"),
        ("InlineComment: {show: 1}", "missing field `text`"),
        ("Input: {text: a, pre_nl_delay: 1}", "missing field `post_nl_delay`"),
        ("Marker: [a]", "invalid value for `Marker`"),
        ("{}", "an action mapping must not be empty"),
        ("[a]", "an action must be a text or a mapping"),
    ] {
        assert_eq!(Action::from_yaml(yaml).unwrap_err(), message, "for {yaml}");
    }
}

#[test]
fn faults_of_a_script() {
    for (yaml, part) in [
        ("actions: []", "missing field `output_file`"),
        ("output_file: a", "missing field `actions`"),
        ("output_file: a\nactions: x", "invalid value for `actions`"),
        ("output_file: a\nactions: []\ncols: 70000", "invalid value for `cols`"),
        ("output_file: a\nactions: []\nrows: x", "invalid value for `rows`"),
        ("output_file: a\nactions: []\nwith_comments: 1", "invalid value for `with_comments`"),
        ("output_file: a\nactions: []\nsudo: 5", "invalid value for `sudo`"),
        ("output_file: a\nactions: []\nfilters: 5", "invalid value for `filters`"),
        ("output_file: a\nactions: []\nkey_delay: x", "a delay must be a number or a [low, high] two-element list"),
        ("output_file: a\nactions: []\nkey_delay: []", "delay range needs a low value"),
        ("output_file: a\nactions: []\nkey_delay: [1]", "delay range needs a high value"),
        ("output_file: a\nactions: []\nkey_delay: [1, 2, 3]", "delay range must have exactly two values [low, high]"),
    ] {
        let error = Script::from_yaml(yaml).unwrap_err();
        assert!(error.contains(part), "for {yaml}: {error}");
    }
    assert!(Script::from_yaml("a: [").is_err());
    assert!(Script::from_yaml("- a").is_err());
}

#[test]
fn a_delay_is_spelled_one_way() {
    assert_eq!(resolve_delay(Some((1, 2)), None, "d", None), Ok((1, 2)));
    assert_eq!(resolve_delay(None, Some((3, 4)), "d", Some((0, 0))), Ok((3, 4)));
    assert_eq!(resolve_delay(None, None, "d", Some((5, 6))), Ok((5, 6)));
    assert_eq!(
        resolve_delay(None, None, "d", None).unwrap_err(),
        "missing field `d` (or `d_ms`)"
    );
    assert_eq!(
        resolve_delay(Some((1, 1)), Some((1, 1)), "d", None).unwrap_err(),
        "use either `d` (seconds) or `d_ms` (milliseconds), not both"
    );
}

#[test]
fn no_duration_is_negative_however_small() {
    for yaml in [
        "Wait: -1e-10",
        "Wait: -0.5",
        "Expect: {text: a, timeout: -1e-12}",
        "InlineComment: {text: a, show: -1e-30}",
    ] {
        let error = Action::from_yaml(yaml).unwrap_err();
        assert!(error.ends_with("seconds must be >= 0"), "{error}");
    }
    assert_eq!(Action::from_yaml("Wait: -0.0"), Ok(Action::Wait { nanos: 0 }));
    assert_eq!(Action::from_yaml("Wait: 1e-10"), Ok(Action::Wait { nanos: 0 }));
}
