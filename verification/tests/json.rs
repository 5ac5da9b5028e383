use ascii_rat::decimal::{
    parse_scaled, parse_whole, show_nat, show_seconds, show_seconds_float, show_whole,
};
use ascii_rat::json::Node;

fn text(s: &str) -> Node {
    Node::Text(s.to_string())
}

#[test]
fn values_read_back() {
    let value = Node::Table(vec![
        (
            "a\"b".to_string(),
            Node::List(vec![
                Node::Null,
                Node::Bool(true),
                Node::Bool(false),
                Node::Number("-1.5e3".to_string()),
                text("x\u{1}\u{2192}\n\\"),
            ]),
        ),
        ("b".to_string(), Node::Table(vec![])),
        ("c".to_string(), Node::List(vec![])),
    ]);
    let written = value.to_text();
    assert_eq!(
        written,
        "{\"a\\\"b\":[null,true,false,-1.5e3,\"x\\u0001\u{2192}\\n\\\\\"],\"b\":{},\"c\":[]}"
    );
    assert_eq!(Node::from_text(&written), Some(value));
}

#[test]
fn members_come_in_order_of_their_names() {
    assert_eq!(
        Node::from_text(" { \"b\" : 1 , \"a\" : [ 2.50 ] } "),
        Some(Node::Table(vec![
            ("a".to_string(), Node::List(vec![Node::Number("2.50".to_string())])),
            ("b".to_string(), Node::Number("1".to_string())),
        ]))
    );
}

#[test]
fn what_is_not_json_is_not_read() {
    for s in ["", "{", "[1,]", "nul", "01", "\"\\x\"", "1 2", "{a:1}", "'a'"] {
        assert_eq!(Node::from_text(s), None, "{s}");
    }
}

#[test]
fn values_are_read_only_so_deep() {
    let nested = |n: usize| format!("{}{}", "[".repeat(n), "]".repeat(n));
    assert!(Node::from_text(&nested(127)).is_some());
    assert_eq!(Node::from_text(&nested(128)), None);
    assert_eq!(Node::from_text(&nested(100_000)), None);
    let as_value = |n: usize| serde_json::from_str::<serde_json::Value>(&nested(n)).is_ok();
    assert!(as_value(127) && !as_value(128));
}

#[test]
fn no_key_is_special() {
    for key in ["$serde_json::private::RawValue", "$serde_json::private::Number"] {
        for value in [Node::Null, text("x"), text("{}"), Node::List(vec![])] {
            let table = Node::Table(vec![(key.to_string(), value)]);
            assert_eq!(Node::from_text(&table.to_text()), Some(table));
        }
    }
}

#[test]
fn numbers_out_of_range_are_not_read() {
    assert_eq!(Node::from_text("1e300"), Some(Node::Number("1e300".to_string())));
    assert_eq!(Node::from_text("1e400"), None);
    assert_eq!(Node::from_text("[0, {\"a\": -1e400}]"), None);
    assert_eq!(Node::from_text("1e-400"), Some(Node::Number("1e-400".to_string())));
    assert_eq!(
        Node::from_text("99999999999999999999"),
        Some(Node::Number("99999999999999999999".to_string()))
    );
}

#[test]
fn escapes_in_texts_are_read() {
    assert_eq!(Node::from_text("\"\\u00e9\\n\\\"\""), Some(text("\u{e9}\n\"")));
}

#[test]
fn seconds_are_shown_and_read() {
    for (nanos, plain, float) in [
        (0, "0", "0.0"),
        (2_000_000_000, "2", "2.0"),
        (1_500_000_000, "1.5", "1.5"),
        (7_052_000, "0.007052", "0.007052"),
        (10_000, "0.00001", "0.00001"),
        (9_999, "0.000009999", "9.999e-6"),
        (5_000, "0.000005", "5e-6"),
        (-1_200, "-0.0000012", "-1.2e-6"),
        (60, "0.00000006", "6e-8"),
        (1, "0.000000001", "1e-9"),
        (-250_000_000, "-0.25", "-0.25"),
        (i64::MAX, "9223372036.854775807", "9223372036.854775807"),
    ] {
        assert_eq!(show_seconds(nanos), plain);
        assert_eq!(show_seconds_float(nanos), float);
        if nanos.abs() < 1_000_000_000_000 {
            let value = nanos as f64 / 1e9;
            assert_eq!(serde_json::to_string(&value).unwrap(), float);
        }
        assert_eq!(parse_scaled(plain, 9), Some(nanos));
        assert_eq!(parse_scaled(float, 9), Some(nanos));
    }
}

#[test]
fn numbers_are_scaled_and_rounded() {
    assert_eq!(parse_scaled("75", 6), Some(75_000_000));
    assert_eq!(parse_scaled("1.5e2", 9), Some(150_000_000_000));
    assert_eq!(parse_scaled("1E-9", 9), Some(1));
    assert_eq!(parse_scaled("5e-10", 9), Some(1));
    assert_eq!(parse_scaled("4e-10", 9), Some(0));
    assert_eq!(parse_scaled("-5e-10", 9), Some(-1));
    assert_eq!(parse_scaled("1e30", 9), None);
    assert_eq!(parse_scaled("-9223372036.854775808", 9), Some(i64::MIN));
    assert_eq!(parse_scaled("9223372036.854775808", 9), None);
    assert_eq!(parse_scaled("0e1000000000", 9), Some(0));
    assert_eq!(parse_scaled("1e-1000000000000000000000000000000000000000", 9), Some(0));
    assert_eq!(parse_scaled("1e1000000000000000000000000000000000000000", 9), None);
    assert_eq!(parse_scaled("0.00e1000000000000000000000000000000000000000", 9), Some(0));
    assert_eq!(parse_scaled("", 9), None);
    assert_eq!(parse_scaled("1.", 9), None);
    assert_eq!(parse_scaled("abc", 9), None);
    assert_eq!(parse_scaled("1e", 9), None);
}

#[test]
fn whole_numbers_are_shown_and_read() {
    assert_eq!(parse_whole("-0"), None);
    for n in [0, 7, -7, 65536, i64::MAX, i64::MIN] {
        assert_eq!(show_whole(n), n.to_string());
        assert_eq!(parse_whole(&show_whole(n)), Some(n));
    }
    assert_eq!(show_nat(u64::MAX), u64::MAX.to_string());
    assert_eq!(parse_whole("1.0"), None);
    assert_eq!(parse_whole("1e2"), None);
    assert_eq!(parse_whole("x"), None);
    assert_eq!(parse_whole(""), None);
    assert_eq!(parse_whole("9223372036854775808"), None);
}
