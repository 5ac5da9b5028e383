use ascii_rat::json::Node;
use ascii_rat::terminal::{build_header, is_capable_term, resolve_size, resolve_term};
use ascii_rat::text::is_space_char;

#[test]
fn primitive_terminals_are_rejected() {
    assert!(!is_capable_term(""));
    assert!(!is_capable_term("   "));
    assert!(!is_capable_term("dumb"));
    assert!(!is_capable_term("ansi"));
    assert!(!is_capable_term("ANSI"));
    assert!(!is_capable_term("unknown"));
    assert!(!is_capable_term("vt52"));
}

#[test]
fn capable_terminals_are_accepted() {
    assert!(is_capable_term("xterm-256color"));
    assert!(is_capable_term("xterm"));
    assert!(is_capable_term("screen-256color"));
    assert!(is_capable_term("tmux-256color"));
    assert!(is_capable_term("xterm-ghostty"));
}

#[test]
fn the_ambient_terminal_is_kept_only_if_capable() {
    assert_eq!(resolve_term(&Some("tmux".to_string())), "tmux");
    assert_eq!(resolve_term(&Some(" Dumb ".to_string())), "xterm-256color");
    assert_eq!(resolve_term(&None), "xterm-256color");
}

#[test]
fn sizes_fall_back() {
    assert_eq!(resolve_size(Some(100), Some(40), Some((1, 2))), (100, 40));
    assert_eq!(resolve_size(None, Some(0), Some((120, 50))), (120, 50));
    assert_eq!(resolve_size(None, None, Some((0, 30))), (80, 30));
    assert_eq!(resolve_size(None, None, None), (80, 24));
}

#[test]
fn a_header_tells_of_its_terminal() {
    let header = build_header(100, 40, Some(17), &Some("/bin/sh".to_string()), "xterm");
    assert_eq!(header.version, 2);
    assert_eq!(header.timestamp, Some(17));
    assert_eq!(
        header.env,
        Some(vec![
            ("SHELL".to_string(), "/bin/sh".to_string()),
            ("TERM".to_string(), "xterm".to_string()),
        ])
    );
    let bare = build_header(1, 2, None, &None, "xterm");
    assert_eq!(bare.env, Some(vec![("TERM".to_string(), "xterm".to_string())]));
    assert!(matches!(bare.to_node(), Node::Table(_)));
}

#[test]
fn white_space_is_that_of_std() {
    for n in 0..=0x10ffffu32 {
        if let Some(c) = char::from_u32(n) {
            assert_eq!(is_space_char(c), c.is_whitespace());
        }
    }
}
