use ascii_rat::actions::Action;
use ascii_rat::decoder::Decoder;
use ascii_rat::emit::ScriptDoc;
use ascii_rat::keys::KeyName;
use ascii_rat::script::Script;

fn sample_doc(actions: Vec<Action>) -> ScriptDoc {
    ScriptDoc {
        output_file: "demo.cast".to_string(),
        cols: 100,
        rows: 40,
        typing_delay_ms: 75,
        actions,
    }
}

#[test]
fn emitted_yaml_parses_via_script_from_yaml() {
    let doc = sample_doc(vec![
        Action::Text("ls".to_string()),
        Action::Key {
            keys: vec![KeyName::Enter.into()],
        },
        Action::Wait { nanos: 1_000_000_000 },
        Action::Key {
            keys: vec![KeyName::Down.into()],
        },
    ]);
    let yaml = doc.to_yaml_string().expect("serialize");
    let script = Script::from_yaml(&yaml).expect("emitted YAML should parse");

    assert_eq!(script.output_file, "demo.cast");
    assert_eq!(script.cols, Some(100));
    assert_eq!(script.rows, Some(40));
    assert_eq!(script.typing_delay, (75_000_000, 75_000_000));

    // First actions preserved in order.
    assert_eq!(script.actions[0], Action::Text("ls".to_string()));
    assert_eq!(
        script.actions[1],
        Action::Key {
            keys: vec![KeyName::Enter.into()]
        }
    );
    assert_eq!(script.actions[2], Action::Wait { nanos: 1_000_000_000 });
    assert_eq!(
        script.actions[3],
        Action::Key {
            keys: vec![KeyName::Down.into()]
        }
    );
    // Terminated by END_REC.
    assert_eq!(script.actions.last().unwrap(), &Action::End);
}

#[test]
fn emitted_yaml_carries_recorded_by_header_and_still_parses() {
    // Every scribe output file must start with the identifying comment, and
    // that leading YAML comment must not stop the file from loading back.
    let doc = sample_doc(vec![Action::Text("ls".to_string())]);
    let yaml = doc.to_yaml_string().expect("serialize");
    assert!(
        yaml.starts_with("# recorded by ascii-rat-scribe\n"),
        "emitted YAML should start with the recorded-by header:\n{yaml}"
    );
    let script = Script::from_yaml(&yaml).expect("header-prefixed YAML should parse");
    assert_eq!(script.output_file, "demo.cast");
}

#[test]
fn end_rec_is_not_duplicated() {
    let doc = sample_doc(vec![Action::Text("x".to_string()), Action::End]);
    let yaml = doc.to_yaml_string().unwrap();
    let ends = yaml.matches("END_REC").count();
    assert_eq!(ends, 1, "END_REC should appear exactly once:\n{yaml}");
}

#[test]
fn an_emitted_script_has_all_its_delays() {
    let doc = sample_doc(vec![]);
    let script = Script::from_yaml(&doc.to_yaml_string().unwrap()).unwrap();
    assert_eq!(script.start_delay, (500_000_000, 500_000_000));
    assert_eq!(script.end_delay, (500_000_000, 500_000_000));
    assert_eq!(script.pre_nl_delay, (200_000_000, 200_000_000));
    assert_eq!(script.post_nl_delay, (500_000_000, 500_000_000));
    assert_eq!(script.actions, vec![Action::End]);
    assert_eq!(Script::from_node(&doc.to_node()).unwrap(), script);
}

#[test]
fn a_captured_session_replays() {
    let mut decoder = Decoder::new(500, 500);
    decoder.feed(b"echo \"a: b\" # c\r", 0);
    decoder.feed(b"\x1b[1;5C\x03", 2_100_000_000);
    let actions = decoder.finish();
    let yaml = sample_doc(actions.clone()).to_yaml_string().unwrap();
    let script = Script::from_yaml(&yaml).unwrap();
    assert_eq!(script.actions.len(), actions.len() + 1);
    assert_eq!(&script.actions[..actions.len()], &actions[..]);
    assert!(actions.contains(&Action::Wait { nanos: 2_000_000_000 }));
}

/// What is read of an emitted script that holds `actions`.
fn through(actions: Vec<Action>) -> Vec<Action> {
    let yaml = sample_doc(actions).to_yaml_string().expect("serialize");
    let mut read = Script::from_yaml(&yaml).expect("emitted YAML should parse").actions;
    assert_eq!(read.pop(), Some(Action::End));
    read
}

#[test]
fn texts_that_look_like_something_else_are_read_back() {
    let texts = [
        "", " ", "  two ", "~", "null", "Null", "true", "True", "no", "y", "1", "1.10", "0x10",
        "0o7", "1e3", ".inf", ".nan", "-", "- a", "-a", "? a", ": a", "a: b", "a:", "a #b", "#b",
        "!tag", "&anchor", "*alias", "[a]", "{a: b}", "a, b", "'a'", "\"a\"", "it's", "|", ">",
        "%a", "@a", "`a`", "---", "...", "<<", "=", "2001-01-01", "\t", "a\tb", "a\r", "\u{feff}",
        "\u{85}", "\u{7f}", "\u{1b}[6n", "\u{a0}x\u{a0}", "日本語", "😀", "\\", "\\n", "END_REC",
    ];
    let actions = || -> Vec<Action> {
        let mut all: Vec<Action> = Vec::new();
        for text in texts {
            all.push(Action::Text(text.to_string()));
            all.push(Action::Marker { label: text.to_string() });
            all.push(Action::Comment { comment: text.to_string() });
            all.push(Action::Expect { text: text.to_string(), timeout: 5_000_000_000 });
            all.push(Action::InlineComment { text: text.to_string(), show: 10_000 });
            all.push(Action::Input {
                text: text.to_string(),
                pre_nl_delay: -10_000,
                post_nl_delay: 120_000,
            });
        }
        all
    };
    assert_eq!(through(actions()), actions());
}

#[test]
fn every_character_is_read_back() {
    let mut codes: Vec<u32> = (0..0x3100).collect();
    codes.extend(0xd700..0xe100);
    codes.extend(0xfe00..0x10010);
    codes.extend(0x1f5f0..0x1f610);
    codes.push(0x10ffff);
    let chars: Vec<char> = codes
        .into_iter()
        .filter_map(char::from_u32)
        .collect();
    for part in chars.chunks(4000) {
        let texts: Vec<String> = part
            .iter()
            .flat_map(|&c| [format!("{c}"), format!("a{c}b"), format!("{c}{c} {c}")])
            .collect();
        let read = through(texts.iter().map(|t| Action::Text(t.clone())).collect());
        assert_eq!(read.len(), texts.len());
        for (action, text) in read.iter().zip(&texts) {
            assert_eq!(action, &Action::Text(text.clone()));
        }
    }
}

#[test]
fn a_long_line_is_read_back() {
    let long = "word ".repeat(3000);
    let read = through(vec![Action::Text(long.clone()), Action::Marker { label: long.clone() }]);
    assert_eq!(read[0], Action::Text(long.clone()));
    assert_eq!(read[1], Action::Marker { label: long });
}

#[test]
fn times_are_read_back() {
    let mut times: Vec<i64> = vec![0, 10_000, 20_000, 990_000, 1_000_000, 123_450_000];
    times.extend([1, 2, 10, 99, 500, 1_234, 5_000, 9_990, 9_999, 10_001, 123_456_789]);
    times.extend([999_999_999_999_999, 123_456_789_012_345, 100_000_000_000_001]);
    times.push(i64::MAX / 10_000 * 10_000);
    let mut n: i64 = 1;
    while n < i64::MAX / 70_000 {
        if n < 1_000_000_000_000_000 {
            times.push(n);
            times.push(n / 2 * 2 + 1);
        }
        times.push(n * 10_000);
        times.push((n * 7 - 3) * 10_000);
        n = n * 3 + 1;
    }
    // As far as a floating-point number tells times apart, in steps from one nanosecond on.
    let mut state: u64 = 11;
    for (step, seconds) in [
        (1, 8_388_608),
        (10, 67_108_864),
        (100, 536_870_912),
        (1_000, 8_589_934_592),
        (10_000, 9_223_372_036),
    ] {
        let end: i64 = seconds * 1_000_000_000;
        times.push(end - step);
        times.push(end - 3 * step);
        for _ in 0..2000 {
            state = state.wrapping_mul(6364136223846793005).wrapping_add(1442695040888963407);
            let n = (state >> 1) as i64 % end;
            times.push(n / step * step);
            times.push((end - 1 - n % 1_000_000_000_000_000) / step * step);
        }
    }
    let waits = || -> Vec<Action> {
        times.iter().map(|&nanos| Action::Wait { nanos }).collect()
    };
    assert_eq!(through(waits()), waits());
    let inputs = || -> Vec<Action> {
        times
            .iter()
            .map(|&t| Action::Input { text: "x".to_string(), pre_nl_delay: -t, post_nl_delay: t })
            .collect()
    };
    assert_eq!(through(inputs()), inputs());
}

#[test]
fn an_action_is_read_back_from_its_own_document() {
    let action = Action::Expect { text: "$ ".to_string(), timeout: 1_500_000_000 };
    let yaml = action.to_yaml().unwrap();
    assert_eq!(yaml, "Expect:\n  text: '$ '\n  timeout: 1.5\n");
    assert_eq!(Action::from_yaml(&yaml), Ok(action));
}

#[test]
fn texts_of_several_lines_are_read_back() {
    let parts = [
        "", "a", " ", "  ", "\n", "\n\n", "# c", "- x", "---", "...", "k: v", "\t", "'", "\"", "\u{85}",
        "\u{2028}", "\u{2029}", "\r", "\r\n", "\u{1b}", "\u{feff}", "é", "|", ">", "%",
    ];
    let mut texts: Vec<String> = Vec::new();
    for a in parts {
        for b in parts {
            for c in parts {
                texts.push(format!("{a}{b}{c}"));
                texts.push(format!("{a}{b}{c}z"));
            }
        }
    }
    for part in texts.chunks(3000) {
        let actions = || -> Vec<Action> {
            part.iter()
                .flat_map(|t| {
                    [
                        Action::Text(t.clone()),
                        Action::Marker { label: t.clone() },
                        Action::Expect { text: t.clone(), timeout: 0 },
                    ]
                })
                .collect()
        };
        for (read, want) in through(actions()).iter().zip(actions()) {
            assert_eq!(*read, want);
        }
    }
    for text in &texts {
        for action in [Action::Text(text.clone()), Action::Comment { comment: text.clone() }] {
            let yaml = action.to_yaml().unwrap();
            assert_eq!(Action::from_yaml(&yaml), Ok(action));
        }
    }
}
