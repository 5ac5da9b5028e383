use ascii_rat::keys::{is_control_char, KeyBase, KeyName, KeyPress};

#[test]
fn key_name_parse_and_bytes() {
    // Case-insensitive parsing and aliases.
    assert_eq!(KeyName::parse("Down"), Some(KeyName::Down));
    assert_eq!(KeyName::parse("down"), Some(KeyName::Down));
    assert_eq!(KeyName::parse("ENTER"), Some(KeyName::Enter));
    assert_eq!(KeyName::parse("return"), Some(KeyName::Enter));
    assert_eq!(KeyName::parse("escape"), Some(KeyName::Esc));
    assert_eq!(KeyName::parse("del"), Some(KeyName::Delete));
    assert_eq!(KeyName::parse("bogus"), None);

    assert_eq!(KeyName::Down.bytes(), b"\x1bOB");
    assert_eq!(KeyName::Up.bytes(), b"\x1bOA");
    assert_eq!(KeyName::Left.bytes(), b"\x1bOD");
    assert_eq!(KeyName::Enter.bytes(), b"\r");
    assert_eq!(KeyName::Esc.bytes(), b"\x1b");
    assert_eq!(KeyName::Delete.bytes(), b"\x1b[3~");
}

#[test]
fn key_name_from_bytes_is_inverse_of_bytes() {
    for key in KeyName::ALL {
        assert_eq!(KeyName::from_bytes(key.bytes()), Some(key), "no way back for {:?}", key);
    }
    assert_eq!(KeyName::from_bytes(b""), None);
    assert_eq!(KeyName::from_bytes(b"zzz"), None);
}

#[test]
fn every_alias_names_its_key() {
    for (name, key) in [
        ("CR", KeyName::Enter),
        ("Esc", KeyName::Esc),
        ("BS", KeyName::Backspace),
        ("Backspace", KeyName::Backspace),
        ("PgUp", KeyName::PageUp),
        ("PgDn", KeyName::PageDown),
        ("pgdown", KeyName::PageDown),
        ("Space", KeyName::Space),
        ("tab", KeyName::Tab),
        ("Home", KeyName::Home),
        ("End", KeyName::End),
    ] {
        assert_eq!(KeyName::parse(name), Some(key));
    }
}

fn press(ctrl: bool, alt: bool, shift: bool, base: KeyBase) -> KeyPress {
    KeyPress { ctrl, alt, shift, base }
}

#[test]
fn modifiers_combine_in_any_order_and_case() {
    let wanted = press(true, false, true, KeyBase::Named(KeyName::Right));
    for name in ["Ctrl-Shift-Right", "shift-ctrl-right", "CTRL-SHIFT-RIGHT", "Control-Shift-right"] {
        assert_eq!(KeyPress::parse(name), Some(wanted));
    }
    for name in ["Alt-x", "Meta-x", "option-x"] {
        assert_eq!(KeyPress::parse(name), Some(press(false, true, false, KeyBase::Char('x'))));
    }
    assert_eq!(
        KeyPress::parse("ctrl-c"),
        Some(press(true, false, false, KeyBase::Char('C')))
    );
    assert_eq!(KeyPress::parse("Ctrl--"), Some(press(true, false, false, KeyBase::Char('-'))));
}

#[test]
fn a_bare_character_is_not_a_key() {
    assert_eq!(KeyPress::parse("x"), None);
    assert_eq!(KeyPress::parse(""), None);
    assert_eq!(KeyPress::parse("Ctrl-"), None);
    assert_eq!(KeyPress::parse("Ctrl-Bogus"), None);
    assert_eq!(KeyPress::parse("Ctrl-\u{7}"), None);
    assert_eq!(KeyPress::parse("Down"), Some(KeyName::Down.into()));
}

#[test]
fn combinations_are_encoded() {
    for (name, bytes) in [
        ("Ctrl-C", b"\x03".to_vec()),
        ("Ctrl-U", b"\x15".to_vec()),
        ("Ctrl-a", b"\x01".to_vec()),
        ("Ctrl-Space", b"\x00".to_vec()),
        ("Alt-x", b"\x1bx".to_vec()),
        ("Alt-\u{e9}", b"\x1b\xc3\xa9".to_vec()),
        ("Alt-Enter", b"\x1b\r".to_vec()),
        ("Shift-Tab", b"\x1b[Z".to_vec()),
        ("Shift-x", b"X".to_vec()),
        ("Ctrl-Right", b"\x1b[1;5C".to_vec()),
        ("Ctrl-Shift-Left", b"\x1b[1;6D".to_vec()),
        ("Shift-Up", b"\x1b[1;2A".to_vec()),
        ("Alt-Home", b"\x1b[1;3H".to_vec()),
        ("Ctrl-Alt-Shift-End", b"\x1b[1;8F".to_vec()),
        ("Ctrl-Delete", b"\x1b[3;5~".to_vec()),
        ("Alt-PageUp", b"\x1b[5;3~".to_vec()),
        ("Ctrl-PageDown", b"\x1b[6;5~".to_vec()),
        ("Ctrl-Alt-C", b"\x1b\x03".to_vec()),
        ("Ctrl-Enter", b"\r".to_vec()),
        ("Down", b"\x1bOB".to_vec()),
    ] {
        assert_eq!(KeyPress::parse(name).unwrap().bytes(), bytes, "bytes of {name}");
    }
}

#[test]
fn labels_read_back() {
    let mut bases: Vec<KeyBase> = vec![KeyBase::Char('X'), KeyBase::Char('-'), KeyBase::Char('\u{e9}')];
    for key in KeyName::ALL {
        bases.push(KeyBase::Named(key));
    }
    for base in bases {
        for m in 1..8 {
            let p = press(m & 4 != 0, m & 2 != 0, m & 1 != 0, base);
            assert_eq!(KeyPress::parse(&p.label()), Some(p), "label {}", p.label());
        }
    }
    let p = press(true, true, true, KeyBase::Named(KeyName::Up));
    assert_eq!(p.label(), "Ctrl-Alt-Shift-Up");
}

#[test]
fn recordable_presses_read_back_from_bytes() {
    for key in KeyName::ALL {
        let p: KeyPress = key.into();
        assert_eq!(KeyPress::from_bytes(&p.bytes()), Some(p));
    }
    for name in ["Ctrl-C", "Ctrl-U", "Ctrl-H", "Shift-Tab", "Ctrl-Right", "Alt-Shift-Home",
        "Ctrl-Alt-Shift-PageDown", "Shift-Delete"] {
        let p = KeyPress::parse(name).unwrap();
        assert_eq!(KeyPress::from_bytes(&p.bytes()), Some(p));
    }
    assert_eq!(KeyPress::from_bytes(b"\t"), Some(KeyName::Tab.into()));
    assert_eq!(KeyPress::from_bytes(b"\n"), None);
    assert_eq!(KeyPress::from_bytes(b"\x1bx"), None);
    assert_eq!(KeyPress::from_bytes(b"\x1b[1;9A"), None);
    assert_eq!(KeyPress::from_bytes(b"\x1b[1;5~"), None);
    assert_eq!(KeyPress::from_bytes(b"a"), None);
}

#[test]
fn control_characters_are_those_of_std() {
    for n in 0..=0x10ffffu32 {
        if let Some(c) = char::from_u32(n) {
            assert_eq!(is_control_char(c), c.is_control());
        }
    }
}
