//! Script actions: what they are, how a script spells them, and how they are shown.

use crate::decimal::{
    below_zero, is_below_zero, is_digit, law_seconds_read_back, law_whole_read_back,
    lemma_nat_digits, lemma_whole_written, nat_digits, parse_scaled, parse_whole, pow10, scaled,
    seconds_float, seconds_text, show_seconds, show_seconds_float, whole, whole_text,
};
use crate::json::{
    find, find_member, found_json, lemma_find_sorted, lemma_list_json, lemma_table_json,
    lemma_texts_read_back, list_json, ordered, ordered_members, push_field, put, table_json,
    text_list, texts_json, Json, Node,
};
use crate::keys::{is_printable, law_press_label_read_back, press_named, KeyBase, KeyPress};
use crate::text::{copy_text, message_of, same_text, views};
use vstd::prelude::*;

verus! {

/// How long an inline comment stays where nothing else is said, in nanoseconds.
pub const DEFAULT_SHOW: i64 = 400_000_000;

/// How long expected output is waited for where nothing else is said, in nanoseconds.
pub const DEFAULT_TIMEOUT: i64 = 30_000_000_000;

/// One step of a script. Times are in nanoseconds.
#[derive(Debug, PartialEq)]
pub enum Action {
    /// Text to type, with the delays of the script. No newline is added.
    Text(String),
    /// Text to type, with its own delays behind it.
    Input { text: String, pre_nl_delay: i64, post_nl_delay: i64 },
    /// A marker at this point of the recording.
    Marker { label: String },
    /// A caption at this point of the recording.
    Comment { comment: String },
    /// A note that is typed, shown and wiped.
    InlineComment { text: String, show: i64 },
    /// Keys to press, in order.
    Key { keys: Vec<KeyPress> },
    /// A pause during which output is captured.
    Wait { nanos: i64 },
    /// Output to wait for.
    Expect { text: String, timeout: i64 },
    /// The end of the recording.
    End,
}

/// An action as mathematics.
#[verifier::ext_equal]
pub enum ActionView {
    Text(Seq<char>),
    Input { text: Seq<char>, pre_nl_delay: i64, post_nl_delay: i64 },
    Marker { label: Seq<char> },
    Comment { comment: Seq<char> },
    InlineComment { text: Seq<char>, show: i64 },
    Key { keys: Seq<KeyPress> },
    Wait { nanos: i64 },
    Expect { text: Seq<char>, timeout: i64 },
    End,
}

impl View for Action {
    type V = ActionView;

    open spec fn view(&self) -> ActionView {
        match self {
            Action::Text(text) => ActionView::Text(text@),
            Action::Input { text, pre_nl_delay, post_nl_delay } => ActionView::Input {
                text: text@,
                pre_nl_delay: *pre_nl_delay,
                post_nl_delay: *post_nl_delay,
            },
            Action::Marker { label } => ActionView::Marker { label: label@ },
            Action::Comment { comment } => ActionView::Comment { comment: comment@ },
            Action::InlineComment { text, show } => ActionView::InlineComment {
                text: text@,
                show: *show,
            },
            Action::Key { keys } => ActionView::Key { keys: keys@ },
            Action::Wait { nanos } => ActionView::Wait { nanos: *nanos },
            Action::Expect { text, timeout } => ActionView::Expect {
                text: text@,
                timeout: *timeout,
            },
            Action::End => ActionView::End,
        }
    }
}

/// The views of a list of actions.
pub open spec fn action_views(actions: Seq<Action>) -> Seq<ActionView> {
    actions.map_values(|a: Action| a@)
}

/// The labels of key presses.
pub open spec fn labels(keys: Seq<KeyPress>) -> Seq<Seq<char>> {
    keys.map_values(|k: KeyPress| k.label_view())
}

/// A mapping with one key.
pub open spec fn tagged(tag: Seq<char>, value: Json) -> Json {
    Json::Table(seq![(tag, value)])
}

/// A time in seconds as a number.
pub open spec fn seconds_json(nanos: i64) -> Json {
    Json::Number(seconds_float(nanos as int))
}

/// How an action is written: a text as it is, anything else as a mapping with one key.
pub open spec fn action_json(a: ActionView) -> Json {
    match a {
        ActionView::Text(text) => Json::Text(text),
        ActionView::Input { text, pre_nl_delay, post_nl_delay } => tagged(
            "Input"@,
            Json::Table(
                seq![
                    ("text"@, Json::Text(text)),
                    ("pre_nl_delay"@, seconds_json(pre_nl_delay)),
                    ("post_nl_delay"@, seconds_json(post_nl_delay)),
                ],
            ),
        ),
        ActionView::Marker { label } => tagged("Marker"@, Json::Text(label)),
        ActionView::Comment { comment } => tagged("Comment"@, Json::Text(comment)),
        ActionView::InlineComment { text, show } => tagged(
            "InlineComment"@,
            Json::Table(seq![("text"@, Json::Text(text)), ("show"@, seconds_json(show))]),
        ),
        ActionView::Key { keys } => tagged("Keys"@, texts_json(labels(keys))),
        ActionView::Wait { nanos } => tagged("Wait"@, seconds_json(nanos)),
        ActionView::Expect { text, timeout } => tagged(
            "Expect"@,
            Json::Table(seq![("text"@, Json::Text(text)), ("timeout"@, seconds_json(timeout))]),
        ),
        ActionView::End => tagged("END_REC"@, Json::Null),
    }
}

/// The text that a scalar is written as; the empty text for no value.
pub open spec fn scalar_text(j: Json) -> Option<Seq<char>> {
    match j {
        Json::Null => Some(Seq::empty()),
        Json::Bool(b) => if b {
            Some("true"@)
        } else {
            Some("false"@)
        },
        Json::Number(t) => Some(t),
        Json::Text(t) => Some(t),
        _ => None,
    }
}

/// The message on a field that is not there.
pub open spec fn missing(field: Seq<char>) -> Seq<char> {
    "missing field `"@ + field + "`"@
}

/// The message on a field with a value of the wrong kind.
pub open spec fn invalid(field: Seq<char>) -> Seq<char> {
    "invalid value for `"@ + field + "`"@
}

/// A text that must be there.
pub open spec fn needed_text(j: Option<Json>, field: Seq<char>) -> Result<Seq<char>, Seq<char>> {
    match j {
        None => Err(missing(field)),
        Some(v) => match scalar_text(v) {
            Some(t) => Ok(t),
            None => Err(invalid(field)),
        },
    }
}

/// A time in seconds that must be there.
pub open spec fn needed_seconds(j: Option<Json>, field: Seq<char>) -> Result<i64, Seq<char>> {
    match j {
        None => Err(missing(field)),
        Some(Json::Number(t)) => match scaled(t, 9) {
            Some(v) => Ok(v as i64),
            None => Err(invalid(field)),
        },
        Some(_) => Err(invalid(field)),
    }
}

/// A time in seconds that is not negative, not even where it rounds to zero.
pub open spec fn duration_of(j: Json, tag: Seq<char>) -> Result<i64, Seq<char>> {
    if j matches Json::Number(t) && below_zero(t) {
        Err(tag + " seconds must be >= 0"@)
    } else {
        needed_seconds(Some(j), tag)
    }
}

/// A text with a time: either the text alone, or a mapping with both.
pub open spec fn timed_text(j: Json, tag: Seq<char>, field: Seq<char>, default: i64) -> Result<
    (Seq<char>, i64),
    Seq<char>,
> {
    match j {
        Json::Table(m) => match needed_text(find(m, "text"@), "text"@) {
            Err(e) => Err(e),
            Ok(text) => match find(m, field) {
                None => Ok((text, default)),
                Some(v) => match duration_of(v, tag) {
                    Err(e) => Err(e),
                    Ok(time) => Ok((text, time)),
                },
            },
        },
        _ => match needed_text(Some(j), tag) {
            Err(e) => Err(e),
            Ok(text) => Ok((text, default)),
        },
    }
}

/// The presses that a list of names stands for, or the first name that is none.
pub open spec fn presses_of(items: Seq<Json>) -> Result<Seq<KeyPress>, Seq<char>>
    decreases items.len(),
{
    if items.len() == 0 {
        Ok(Seq::empty())
    } else {
        match presses_of(items.drop_last()) {
            Err(e) => Err(e),
            Ok(keys) => match scalar_text(items.last()) {
                None => Err(invalid("Keys"@)),
                Some(name) => match press_named(name, false, false, false) {
                    None => Err("Invalid key name "@ + name),
                    Some(key) => Ok(keys.push(key)),
                },
            },
        }
    }
}

/// The action that a `Keys` list stands for.
pub open spec fn keys_action(j: Json) -> Result<ActionView, Seq<char>> {
    match j {
        Json::Null => Err("`Keys` must list at least one key"@),
        Json::List(items) => {
            if items.len() == 0 {
                Err("`Keys` must list at least one key"@)
            } else {
                match presses_of(items) {
                    Err(e) => Err(e),
                    Ok(keys) => Ok(ActionView::Key { keys }),
                }
            }
        },
        _ => Err(invalid("Keys"@)),
    }
}

/// The action that one key with a repeat count stands for. Without a count it is one press.
pub open spec fn repeated_key(tag: Seq<char>, j: Json) -> Result<ActionView, Seq<char>> {
    match press_named(tag, false, false, false) {
        None => Err("Invalid action or key `"@ + tag + "`"@),
        Some(key) => match j {
            Json::Null => Ok(ActionView::Key { keys: seq![key] }),
            Json::Number(t) => match whole(t) {
                Some(n) => {
                    if n == 0 {
                        Err("`"@ + tag + "` count must be >= 1"@)
                    } else if 0 < n <= u32::MAX {
                        Ok(ActionView::Key { keys: Seq::new(n as nat, |i: int| key) })
                    } else {
                        Err(invalid(tag))
                    }
                },
                None => Err(invalid(tag)),
            },
            _ => Err(invalid(tag)),
        },
    }
}

/// The action that an `Input` mapping stands for.
pub open spec fn input_action(j: Json) -> Result<ActionView, Seq<char>> {
    match j {
        Json::Table(m) => match needed_text(find(m, "text"@), "text"@) {
            Err(e) => Err(e),
            Ok(text) => match needed_seconds(find(m, "pre_nl_delay"@), "pre_nl_delay"@) {
                Err(e) => Err(e),
                Ok(pre) => match needed_seconds(find(m, "post_nl_delay"@), "post_nl_delay"@) {
                    Err(e) => Err(e),
                    Ok(post) => Ok(
                        ActionView::Input { text, pre_nl_delay: pre, post_nl_delay: post },
                    ),
                },
            },
        },
        _ => Err(invalid("Input"@)),
    }
}

/// The action that a mapping with one key stands for.
pub open spec fn tagged_action(tag: Seq<char>, j: Json) -> Result<ActionView, Seq<char>> {
    if tag == "Input"@ {
        input_action(j)
    } else if tag == "Marker"@ {
        match needed_text(Some(j), tag) {
            Ok(label) => Ok(ActionView::Marker { label }),
            Err(e) => Err(e),
        }
    } else if tag == "Comment"@ {
        match needed_text(Some(j), tag) {
            Ok(comment) => Ok(ActionView::Comment { comment }),
            Err(e) => Err(e),
        }
    } else if tag == "InlineComment"@ {
        match timed_text(j, tag, "show"@, DEFAULT_SHOW) {
            Ok((text, show)) => Ok(ActionView::InlineComment { text, show }),
            Err(e) => Err(e),
        }
    } else if tag == "Keys"@ {
        keys_action(j)
    } else if tag == "Wait"@ {
        match duration_of(j, tag) {
            Ok(nanos) => Ok(ActionView::Wait { nanos }),
            Err(e) => Err(e),
        }
    } else if tag == "Expect"@ {
        match timed_text(j, tag, "timeout"@, DEFAULT_TIMEOUT) {
            Ok((text, timeout)) => Ok(ActionView::Expect { text, timeout }),
            Err(e) => Err(e),
        }
    } else if tag == "END_REC"@ {
        Ok(ActionView::End)
    } else {
        repeated_key(tag, j)
    }
}

/// The action that a value of a script stands for, or what is wrong with it.
pub open spec fn action_of(j: Json) -> Result<ActionView, Seq<char>> {
    match j {
        Json::Text(text) => Ok(ActionView::Text(text)),
        Json::Table(m) => {
            if m.len() == 0 {
                Err("an action mapping must not be empty"@)
            } else if m.len() > 1 {
                Err("an action mapping must have exactly one key; found extra `"@ + m[1].0 + "`"@)
            } else {
                tagged_action(m[0].0, m[0].1)
            }
        },
        _ => Err("an action must be a text or a mapping"@),
    }
}

/// Whether an action can be written and read back: keys have names, there is at least one, and
/// no duration is negative.
pub open spec fn writable(a: ActionView) -> bool {
    match a {
        ActionView::InlineComment { show, .. } => show >= 0,
        ActionView::Key { keys } => keys.len() > 0 && forall|i: int|
            0 <= i < keys.len() ==> (#[trigger] keys[i]).wf(),
        ActionView::Wait { nanos } => nanos >= 0,
        ActionView::Expect { timeout, .. } => timeout >= 0,
        _ => true,
    }
}

/// The text that a scalar is written as.
pub fn scalar_text_of(node: &Node) -> (r: Option<String>)
    ensures
        match r {
            Some(t) => scalar_text(node@) == Some(t@),
            None => scalar_text(node@) is None,
        },
{
    match node {
        Node::Null => Some(String::new()),
        Node::Bool(b) => if *b {
            Some(copy_text("true"))
        } else {
            Some(copy_text("false"))
        },
        Node::Number(t) => Some(copy_text(t.as_str())),
        Node::Text(t) => Some(copy_text(t.as_str())),
        _ => None,
    }
}

/// Reads a text that must be there.
pub fn needed_text_of(node: Option<&Node>, field: &str) -> (r: Result<String, String>)
    ensures
        match r {
            Ok(t) => needed_text(found_json(node), field@) == Ok::<Seq<char>, Seq<char>>(t@),
            Err(e) => needed_text(found_json(node), field@) == Err::<Seq<char>, Seq<char>>(e@),
        },
{
    match node {
        None => Err(message_of("missing field `", field, "`")),
        Some(v) => match scalar_text_of(v) {
            Some(t) => Ok(t),
            None => Err(message_of("invalid value for `", field, "`")),
        },
    }
}

/// Reads a time in seconds that must be there.
pub fn needed_seconds_of(node: Option<&Node>, field: &str) -> (r: Result<i64, String>)
    ensures
        match r {
            Ok(v) => needed_seconds(found_json(node), field@) == Ok::<i64, Seq<char>>(v),
            Err(e) => needed_seconds(found_json(node), field@) == Err::<i64, Seq<char>>(e@),
        },
{
    match node {
        None => Err(message_of("missing field `", field, "`")),
        Some(Node::Number(t)) => match parse_scaled(t.as_str(), 9) {
            Some(v) => Ok(v),
            None => Err(message_of("invalid value for `", field, "`")),
        },
        Some(_) => Err(message_of("invalid value for `", field, "`")),
    }
}

/// Reads a time in seconds that is not negative.
fn read_duration(node: &Node, tag: &str) -> (r: Result<i64, String>)
    ensures
        match r {
            Ok(v) => duration_of(node@, tag@) == Ok::<i64, Seq<char>>(v),
            Err(e) => duration_of(node@, tag@) == Err::<i64, Seq<char>>(e@),
        },
{
    if let Node::Number(t) = node {
        if is_below_zero(t.as_str()) {
            let e = message_of("", tag, " seconds must be >= 0");
            proof {
                reveal_strlit("");
                assert(e@ =~= tag@ + " seconds must be >= 0"@);
            }
            return Err(e);
        }
    }
    needed_seconds_of(Some(node), tag)
}

/// Reads a text with a time.
fn read_timed_text(node: &Node, tag: &str, field: &str, default: i64) -> (r: Result<
    (String, i64),
    String,
>)
    ensures
        match r {
            Ok((text, time)) => timed_text(node@, tag@, field@, default) == Ok::<
                (Seq<char>, i64),
                Seq<char>,
            >((text@, time)),
            Err(e) => timed_text(node@, tag@, field@, default) == Err::<
                (Seq<char>, i64),
                Seq<char>,
            >(e@),
        },
{
    match node {
        Node::Table(m) => {
            let text = match needed_text_of(find_member(m, "text"), "text") {
                Ok(text) => text,
                Err(e) => {
                    return Err(e);
                },
            };
            match find_member(m, field) {
                None => Ok((text, default)),
                Some(v) => match read_duration(v, tag) {
                    Ok(time) => Ok((text, time)),
                    Err(e) => Err(e),
                },
            }
        },
        _ => match needed_text_of(Some(node), tag) {
            Ok(text) => Ok((text, default)),
            Err(e) => Err(e),
        },
    }
}

proof fn lemma_presses_fail(items: Seq<Json>, i: int)
    requires
        0 <= i <= items.len(),
        presses_of(items.take(i)) is Err,
    ensures
        presses_of(items) == presses_of(items.take(i)),
    decreases items.len() - i,
{
    if i < items.len() {
        assert(items.take(i + 1).drop_last() =~= items.take(i));
        lemma_presses_fail(items, i + 1);
    } else {
        assert(items.take(i) =~= items);
    }
}

/// Reads a list of key names.
fn read_presses(items: &Vec<Node>) -> (r: Result<Vec<KeyPress>, String>)
    ensures
        match r {
            Ok(keys) => presses_of(list_json(items@)) == Ok::<Seq<KeyPress>, Seq<char>>(keys@),
            Err(e) => presses_of(list_json(items@)) == Err::<Seq<KeyPress>, Seq<char>>(e@),
        },
{
    let ghost all = list_json(items@);
    let mut keys: Vec<KeyPress> = Vec::new();
    let mut i: usize = 0;
    proof {
        lemma_list_json(items@);
        assert(all.take(0) =~= Seq::<Json>::empty());
    }
    while i < items.len()
        invariant
            i <= items@.len(),
            all == list_json(items@),
            all.len() == items@.len(),
            forall|k: int| 0 <= k < all.len() ==> #[trigger] all[k] == items@[k]@,
            presses_of(all.take(i as int)) == Ok::<Seq<KeyPress>, Seq<char>>(keys@),
        decreases items@.len() - i,
    {
        proof {
            assert(all.take(i + 1).drop_last() =~= all.take(i as int));
            assert(all.take(i + 1).last() == items@[i as int]@);
        }
        match scalar_text_of(&items[i]) {
            None => {
                proof {
                    lemma_presses_fail(all, i + 1);
                }
                return Err(message_of("invalid value for `", "Keys", "`"));
            },
            Some(name) => match KeyPress::parse(name.as_str()) {
                None => {
                    proof {
                        lemma_presses_fail(all, i + 1);
                        reveal_strlit("");
                    }
                    let e = message_of("Invalid key name ", name.as_str(), "");
                    proof {
                        assert(e@ =~= "Invalid key name "@ + name@);
                    }
                    return Err(e);
                },
                Some(key) => {
                    keys.push(key);
                },
            },
        }
        i += 1;
    }
    proof {
        assert(all.take(i as int) =~= all);
    }
    Ok(keys)
}

/// Reads a `Keys` list.
fn read_keys(node: &Node) -> (r: Result<Action, String>)
    ensures
        match r {
            Ok(a) => keys_action(node@) == Ok::<ActionView, Seq<char>>(a@),
            Err(e) => keys_action(node@) == Err::<ActionView, Seq<char>>(e@),
        },
{
    match node {
        Node::Null => Err(copy_text("`Keys` must list at least one key")),
        Node::List(items) => {
            proof {
                lemma_list_json(items@);
            }
            if items.len() == 0 {
                Err(copy_text("`Keys` must list at least one key"))
            } else {
                match read_presses(items) {
                    Ok(keys) => Ok(Action::Key { keys }),
                    Err(e) => Err(e),
                }
            }
        },
        _ => Err(message_of("invalid value for `", "Keys", "`")),
    }
}

/// `count` presses of one key.
fn repeat_key(key: KeyPress, count: usize) -> (r: Vec<KeyPress>)
    ensures
        r@ == Seq::new(count as nat, |i: int| key),
{
    let mut keys: Vec<KeyPress> = Vec::new();
    let mut i: usize = 0;
    while i < count
        invariant
            i <= count,
            keys@.len() == i,
            forall|k: int| 0 <= k < i ==> #[trigger] keys@[k] == key,
        decreases count - i,
    {
        keys.push(key);
        i += 1;
    }
    proof {
        assert(keys@ =~= Seq::new(count as nat, |i: int| key));
    }
    keys
}

/// Reads one key with a repeat count.
fn read_repeated_key(tag: &str, node: &Node) -> (r: Result<Action, String>)
    ensures
        match r {
            Ok(a) => repeated_key(tag@, node@) == Ok::<ActionView, Seq<char>>(a@),
            Err(e) => repeated_key(tag@, node@) == Err::<ActionView, Seq<char>>(e@),
        },
{
    let key = match KeyPress::parse(tag) {
        Some(key) => key,
        None => {
            return Err(message_of("Invalid action or key `", tag, "`"));
        },
    };
    match node {
        Node::Null => {
            let keys = repeat_key(key, 1);
            proof {
                assert(keys@ =~= seq![key]);
            }
            Ok(Action::Key { keys })
        },
        Node::Number(t) => match parse_whole(t.as_str()) {
            Some(n) => {
                if n == 0 {
                    Err(message_of("`", tag, "` count must be >= 1"))
                } else if 0 < n && n <= 0xffff_ffff {
                    Ok(Action::Key { keys: repeat_key(key, n as usize) })
                } else {
                    Err(message_of("invalid value for `", tag, "`"))
                }
            },
            None => Err(message_of("invalid value for `", tag, "`")),
        },
        _ => Err(message_of("invalid value for `", tag, "`")),
    }
}

/// Reads an `Input` mapping.
fn read_input(node: &Node) -> (r: Result<Action, String>)
    ensures
        match r {
            Ok(a) => input_action(node@) == Ok::<ActionView, Seq<char>>(a@),
            Err(e) => input_action(node@) == Err::<ActionView, Seq<char>>(e@),
        },
{
    let m = match node {
        Node::Table(m) => m,
        _ => {
            return Err(message_of("invalid value for `", "Input", "`"));
        },
    };
    let text = match needed_text_of(find_member(m, "text"), "text") {
        Ok(text) => text,
        Err(e) => {
            return Err(e);
        },
    };
    let pre = match needed_seconds_of(find_member(m, "pre_nl_delay"), "pre_nl_delay") {
        Ok(v) => v,
        Err(e) => {
            return Err(e);
        },
    };
    let post = match needed_seconds_of(find_member(m, "post_nl_delay"), "post_nl_delay") {
        Ok(v) => v,
        Err(e) => {
            return Err(e);
        },
    };
    Ok(Action::Input { text, pre_nl_delay: pre, post_nl_delay: post })
}

/// Makes a mapping with one key.
fn tagged_node(tag: &str, value: Node) -> (r: Node)
    ensures
        r@ == tagged(tag@, value@),
{
    let mut m: Vec<(String, Node)> = Vec::new();
    push_field(&mut m, tag, Some(value));
    proof {
        assert(table_json(m@) =~= seq![(tag@, value@)]);
    }
    Node::Table(m)
}

/// Makes a mapping of a text and a time.
fn timed_node(text: &str, field: &str, nanos: i64) -> (r: Node)
    ensures
        r@ == Json::Table(seq![("text"@, Json::Text(text@)), (field@, seconds_json(nanos))]),
{
    let mut m: Vec<(String, Node)> = Vec::new();
    push_field(&mut m, "text", Some(Node::Text(copy_text(text))));
    push_field(&mut m, field, Some(Node::Number(show_seconds_float(nanos))));
    proof {
        assert(table_json(m@) =~= seq![
            ("text"@, Json::Text(text@)),
            (field@, seconds_json(nanos)),
        ]);
    }
    Node::Table(m)
}

/// The labels of key presses.
fn label_list(keys: &Vec<KeyPress>) -> (r: Vec<String>)
    ensures
        views(r@) == labels(keys@),
{
    let mut out: Vec<String> = Vec::new();
    let mut i: usize = 0;
    while i < keys.len()
        invariant
            i <= keys@.len(),
            out@.len() == i,
            forall|k: int| 0 <= k < i ==> (#[trigger] out@[k])@ == keys@[k].label_view(),
        decreases keys@.len() - i,
    {
        out.push(keys[i].label());
        i += 1;
    }
    proof {
        assert(views(out@) =~= labels(keys@));
    }
    out
}

impl Action {
    /// Reads an action from a value of a script.
    pub fn from_node(node: &Node) -> (r: Result<Action, String>)
        ensures
            match r {
                Ok(a) => action_of(node@) == Ok::<ActionView, Seq<char>>(a@),
                Err(e) => action_of(node@) == Err::<ActionView, Seq<char>>(e@),
            },
    {
        match node {
            Node::Text(text) => Ok(Action::Text(copy_text(text.as_str()))),
            Node::Table(m) => {
                proof {
                    lemma_table_json(m@);
                }
                if m.len() == 0 {
                    Err(copy_text("an action mapping must not be empty"))
                } else if m.len() > 1 {
                    Err(
                        message_of(
                            "an action mapping must have exactly one key; found extra `",
                            m[1].0.as_str(),
                            "`",
                        ),
                    )
                } else {
                    Action::from_tagged(m[0].0.as_str(), &m[0].1)
                }
            },
            _ => Err(copy_text("an action must be a text or a mapping")),
        }
    }

    /// Reads an action from a mapping with one key.
    fn from_tagged(tag: &str, node: &Node) -> (r: Result<Action, String>)
        ensures
            match r {
                Ok(a) => tagged_action(tag@, node@) == Ok::<ActionView, Seq<char>>(a@),
                Err(e) => tagged_action(tag@, node@) == Err::<ActionView, Seq<char>>(e@),
            },
    {
        if same_text(tag, "Input") {
            read_input(node)
        } else if same_text(tag, "Marker") {
            match needed_text_of(Some(node), tag) {
                Ok(label) => Ok(Action::Marker { label }),
                Err(e) => Err(e),
            }
        } else if same_text(tag, "Comment") {
            match needed_text_of(Some(node), tag) {
                Ok(comment) => Ok(Action::Comment { comment }),
                Err(e) => Err(e),
            }
        } else if same_text(tag, "InlineComment") {
            match read_timed_text(node, tag, "show", DEFAULT_SHOW) {
                Ok((text, show)) => Ok(Action::InlineComment { text, show }),
                Err(e) => Err(e),
            }
        } else if same_text(tag, "Keys") {
            read_keys(node)
        } else if same_text(tag, "Wait") {
            match read_duration(node, tag) {
                Ok(nanos) => Ok(Action::Wait { nanos }),
                Err(e) => Err(e),
            }
        } else if same_text(tag, "Expect") {
            match read_timed_text(node, tag, "timeout", DEFAULT_TIMEOUT) {
                Ok((text, timeout)) => Ok(Action::Expect { text, timeout }),
                Err(e) => Err(e),
            }
        } else if same_text(tag, "END_REC") {
            Ok(Action::End)
        } else {
            read_repeated_key(tag, node)
        }
    }

    /// How this action is written in a script.
    pub fn to_node(&self) -> (r: Node)
        ensures
            r@ == action_json(self@),
    {
        match self {
            Action::Text(text) => Node::Text(copy_text(text.as_str())),
            Action::Input { text, pre_nl_delay, post_nl_delay } => {
                let mut m: Vec<(String, Node)> = Vec::new();
                push_field(&mut m, "text", Some(Node::Text(copy_text(text.as_str()))));
                push_field(
                    &mut m,
                    "pre_nl_delay",
                    Some(Node::Number(show_seconds_float(*pre_nl_delay))),
                );
                push_field(
                    &mut m,
                    "post_nl_delay",
                    Some(Node::Number(show_seconds_float(*post_nl_delay))),
                );
                proof {
                    assert(table_json(m@) =~= seq![
                        ("text"@, Json::Text(text@)),
                        ("pre_nl_delay"@, seconds_json(*pre_nl_delay)),
                        ("post_nl_delay"@, seconds_json(*post_nl_delay)),
                    ]);
                }
                tagged_node("Input", Node::Table(m))
            },
            Action::Marker { label } => tagged_node(
                "Marker",
                Node::Text(copy_text(label.as_str())),
            ),
            Action::Comment { comment } => tagged_node(
                "Comment",
                Node::Text(copy_text(comment.as_str())),
            ),
            Action::InlineComment { text, show } => tagged_node(
                "InlineComment",
                timed_node(text.as_str(), "show", *show),
            ),
            Action::Key { keys } => {
                let names = label_list(keys);
                tagged_node("Keys", text_list(&names))
            },
            Action::Wait { nanos } => tagged_node(
                "Wait",
                Node::Number(show_seconds_float(*nanos)),
            ),
            Action::Expect { text, timeout } => tagged_node(
                "Expect",
                timed_node(text.as_str(), "timeout", *timeout),
            ),
            Action::End => tagged_node("END_REC", Node::Null),
        }
    }
}

/// Texts with spaces between them.
pub open spec fn spaced(list: Seq<Seq<char>>) -> Seq<char>
    decreases list.len(),
{
    if list.len() == 0 {
        Seq::empty()
    } else if list.len() == 1 {
        list[0]
    } else {
        spaced(list.drop_last()) + seq![' '] + list.last()
    }
}

/// A text in quotes, as it is shown while recording.
pub uninterp spec fn debug_text(text: Seq<char>) -> Seq<char>;

/// `Debug` for `str` shows a text in quotes, with what cannot be shown escaped.
#[verifier::external_body]
fn show_debug(text: &str) -> (r: String)
    ensures
        r@ == debug_text(text@),
{
    format!("{text:?}")
}

/// The line that is shown for an action while it is recorded, given its text in quotes.
pub open spec fn progress_of(a: ActionView, quoted: Seq<char>) -> Seq<char> {
    match a {
        ActionView::Text(_) => "type "@ + quoted,
        ActionView::Input { .. } => "type "@ + quoted,
        ActionView::Marker { .. } => "marker "@ + quoted,
        ActionView::Comment { .. } => "comment "@ + quoted,
        ActionView::InlineComment { .. } => "note "@ + quoted,
        ActionView::Key { keys } => "key "@ + spaced(labels(keys)),
        ActionView::Wait { nanos } => "wait "@ + seconds_text(nanos as int) + "s"@,
        ActionView::Expect { .. } => "expect "@ + quoted,
        ActionView::End => "end recording"@,
    }
}

/// The text of an action; empty if it has none.
pub open spec fn shown_text(a: ActionView) -> Seq<char> {
    match a {
        ActionView::Text(text) => text,
        ActionView::Input { text, .. } => text,
        ActionView::Marker { label } => label,
        ActionView::Comment { comment } => comment,
        ActionView::InlineComment { text, .. } => text,
        ActionView::Expect { text, .. } => text,
        _ => Seq::empty(),
    }
}

/// Joins texts with spaces.
fn join_spaced(list: &Vec<String>) -> (r: String)
    ensures
        r@ == spaced(views(list@)),
{
    let ghost all = views(list@);
    let mut out = String::new();
    let mut i: usize = 0;
    proof {
        assert(all.take(0) =~= Seq::<Seq<char>>::empty());
        assert(out@ =~= spaced(all.take(0)));
    }
    while i < list.len()
        invariant
            i <= list@.len(),
            all == views(list@),
            out@ == spaced(all.take(i as int)),
        decreases list@.len() - i,
    {
        let ghost before = out@;
        proof {
            assert(all.take(i + 1).drop_last() =~= all.take(i as int));
            assert(all.take(i + 1).last() == list@[i as int]@);
        }
        if i > 0 {
            out.push(' ');
        }
        out.append(list[i].as_str());
        proof {
            assert(out@ =~= spaced(all.take(i + 1)));
        }
        i += 1;
    }
    proof {
        assert(all.take(i as int) =~= all);
    }
    out
}

/// A word and what follows it.
fn two(word: &str, rest: &str) -> (r: String)
    ensures
        r@ == word@ + rest@,
{
    let mut out = copy_text(word);
    out.append(rest);
    out
}

impl Action {
    /// The line that is shown for this action while it is recorded, given its text in quotes.
    pub fn progress_label_with(&self, quoted: &str) -> (r: String)
        ensures
            r@ == progress_of(self@, quoted@),
    {
        match self {
            Action::Text(_) => two("type ", quoted),
            Action::Input { .. } => two("type ", quoted),
            Action::Marker { .. } => two("marker ", quoted),
            Action::Comment { .. } => two("comment ", quoted),
            Action::InlineComment { .. } => two("note ", quoted),
            Action::Key { keys } => {
                let names = label_list(keys);
                two("key ", join_spaced(&names).as_str())
            },
            Action::Wait { nanos } => message_of("wait ", show_seconds(*nanos).as_str(), "s"),
            Action::Expect { .. } => two("expect ", quoted),
            Action::End => copy_text("end recording"),
        }
    }

    /// The line that is shown for this action while it is recorded.
    pub fn progress_label(&self) -> (r: String)
        ensures
            r@ == progress_of(self@, debug_text(shown_text(self@))),
    {
        let quoted = match self {
            Action::Text(text) => show_debug(text.as_str()),
            Action::Input { text, .. } => show_debug(text.as_str()),
            Action::Marker { label } => show_debug(label.as_str()),
            Action::Comment { comment } => show_debug(comment.as_str()),
            Action::InlineComment { text, .. } => show_debug(text.as_str()),
            Action::Expect { text, .. } => show_debug(text.as_str()),
            _ => {
                let e = String::new();
                proof {
                    assert(e@ =~= Seq::<char>::empty());
                }
                show_debug(e.as_str())
            },
        };
        self.progress_label_with(quoted.as_str())
    }
}

impl Clone for Action {
    fn clone(&self) -> (r: Action)
        ensures
            r@ == self@,
    {
        match self {
            Action::Text(text) => Action::Text(copy_text(text.as_str())),
            Action::Input { text, pre_nl_delay, post_nl_delay } => Action::Input {
                text: copy_text(text.as_str()),
                pre_nl_delay: *pre_nl_delay,
                post_nl_delay: *post_nl_delay,
            },
            Action::Marker { label } => Action::Marker { label: copy_text(label.as_str()) },
            Action::Comment { comment } => Action::Comment {
                comment: copy_text(comment.as_str()),
            },
            Action::InlineComment { text, show } => Action::InlineComment {
                text: copy_text(text.as_str()),
                show: *show,
            },
            Action::Key { keys } => {
                let copy = vstd::slice::slice_to_vec(keys.as_slice());
                Action::Key { keys: copy }
            },
            Action::Wait { nanos } => Action::Wait { nanos: *nanos },
            Action::Expect { text, timeout } => Action::Expect {
                text: copy_text(text.as_str()),
                timeout: *timeout,
            },
            Action::End => Action::End,
        }
    }
}

/// Key presses that were written are read back.
proof fn lemma_presses_read_back(keys: Seq<KeyPress>)
    requires
        forall|i: int| 0 <= i < keys.len() ==> (#[trigger] keys[i]).wf(),
    ensures
        presses_of(texts_json(labels(keys))->List_0) == Ok::<Seq<KeyPress>, Seq<char>>(keys),
    decreases keys.len(),
{
    let items = texts_json(labels(keys))->List_0;
    if keys.len() > 0 {
        let front = keys.drop_last();
        assert forall|i: int| 0 <= i < front.len() implies (#[trigger] front[i]).wf() by {
            assert(front[i] == keys[i]);
        }
        lemma_presses_read_back(front);
        assert(items.drop_last() =~= texts_json(labels(front))->List_0);
        assert(keys[keys.len() - 1].wf());
        law_press_label_read_back(keys.last());
        assert(front.push(keys.last()) =~= keys);
    } else {
        assert(keys =~= Seq::<KeyPress>::empty());
    }
}

proof fn lemma_tags_distinct()
    ensures
        "Marker"@ != "Input"@,
        "Comment"@ != "Input"@,
        "Comment"@ != "Marker"@,
        "InlineComment"@ != "Input"@,
        "InlineComment"@ != "Marker"@,
        "InlineComment"@ != "Comment"@,
        "Keys"@ != "Input"@,
        "Keys"@ != "Marker"@,
        "Keys"@ != "Comment"@,
        "Keys"@ != "InlineComment"@,
        "Wait"@ != "Input"@,
        "Wait"@ != "Marker"@,
        "Wait"@ != "Comment"@,
        "Wait"@ != "InlineComment"@,
        "Wait"@ != "Keys"@,
        "Expect"@ != "Input"@,
        "Expect"@ != "Marker"@,
        "Expect"@ != "Comment"@,
        "Expect"@ != "InlineComment"@,
        "Expect"@ != "Keys"@,
        "Expect"@ != "Wait"@,
        "END_REC"@ != "Input"@,
        "END_REC"@ != "Marker"@,
        "END_REC"@ != "Comment"@,
        "END_REC"@ != "InlineComment"@,
        "END_REC"@ != "Keys"@,
        "END_REC"@ != "Wait"@,
        "END_REC"@ != "Expect"@,
        "text"@ != "show"@,
        "text"@ != "timeout"@,
        "text"@ != "pre_nl_delay"@,
        "text"@ != "post_nl_delay"@,
        "pre_nl_delay"@ != "post_nl_delay"@,
{
    reveal_strlit("Input");
    reveal_strlit("Marker");
    reveal_strlit("Comment");
    reveal_strlit("InlineComment");
    reveal_strlit("Keys");
    reveal_strlit("Wait");
    reveal_strlit("Expect");
    reveal_strlit("END_REC");
    reveal_strlit("text");
    reveal_strlit("show");
    reveal_strlit("timeout");
    reveal_strlit("pre_nl_delay");
    reveal_strlit("post_nl_delay");
    assert("Input"@.len() == 5 && "Marker"@.len() == 6 && "Comment"@.len() == 7);
    assert("InlineComment"@.len() == 13 && "Keys"@.len() == 4 && "Wait"@.len() == 4);
    assert("Expect"@.len() == 6 && "END_REC"@.len() == 7 && "text"@.len() == 4);
    assert("timeout"@.len() == 7 && "pre_nl_delay"@.len() == 12 && "post_nl_delay"@.len() == 13);
    assert("Marker"@[0] != "Expect"@[0]);
    assert("Comment"@[0] != "END_REC"@[0]);
    assert("Keys"@[0] != "Wait"@[0]);
    assert("text"@[0] != "show"@[0]);
}

proof fn lemma_tagged(tag: Seq<char>, value: Json)
    ensures
        action_of(tagged(tag, value)) == tagged_action(tag, value),
        ordered(tagged(tag, value)) == tagged(tag, ordered(value)),
{
    let m = seq![(tag, value)];
    assert(m[0] == (tag, value));
    assert(m.drop_last() =~= Seq::<(Seq<char>, Json)>::empty());
    assert(ordered_members(m) == put(ordered_members(m.drop_last()), tag, ordered(value)));
    assert(ordered_members(m) =~= seq![(tag, ordered(value))]);
}

proof fn lemma_input_read_back(text: Seq<char>, pre: i64, post: i64)
    ensures
        ({
            let j = Json::Table(
                seq![
                    ("text"@, Json::Text(text)),
                    ("pre_nl_delay"@, seconds_json(pre)),
                    ("post_nl_delay"@, seconds_json(post)),
                ],
            );
            let a = ActionView::Input { text, pre_nl_delay: pre, post_nl_delay: post };
            &&& input_action(j) == Ok::<ActionView, Seq<char>>(a)
            &&& input_action(ordered(j)) == Ok::<ActionView, Seq<char>>(a)
        }),
{
    lemma_tags_distinct();
    let a = ("text"@, Json::Text(text));
    let b = ("pre_nl_delay"@, seconds_json(pre));
    let c = ("post_nl_delay"@, seconds_json(post));
    let m = seq![a, b, c];
    assert(m.drop_last() =~= seq![a, b]);
    assert(seq![a, b].drop_last() =~= seq![a]);
    assert(find(seq![a], "text"@) == Some(a.1));
    assert(find(seq![a, b], "text"@) == Some(a.1));
    assert(find(seq![a, b], "pre_nl_delay"@) == Some(b.1));
    assert(find(m, "text"@) == Some(a.1));
    assert(find(m, "pre_nl_delay"@) == Some(b.1));
    assert(find(m, "post_nl_delay"@) == Some(c.1));
    lemma_find_sorted(m, "text"@);
    lemma_find_sorted(m, "pre_nl_delay"@);
    lemma_find_sorted(m, "post_nl_delay"@);
    law_seconds_read_back(pre as int);
    law_seconds_read_back(post as int);
}

proof fn lemma_timed_read_back(
    text: Seq<char>,
    tag: Seq<char>,
    field: Seq<char>,
    time: i64,
    default: i64,
)
    requires
        time >= 0,
        field != "text"@,
    ensures
        ({
            let j = Json::Table(seq![("text"@, Json::Text(text)), (field, seconds_json(time))]);
            let both = Ok::<(Seq<char>, i64), Seq<char>>((text, time));
            &&& timed_text(j, tag, field, default) == both
            &&& timed_text(ordered(j), tag, field, default) == both
        }),
{
    let a = ("text"@, Json::Text(text));
    let b = (field, seconds_json(time));
    let m = seq![a, b];
    assert(m.drop_last() =~= seq![a]);
    assert(find(seq![a], "text"@) == Some(a.1));
    assert(find(m, "text"@) == Some(a.1));
    assert(find(m, field) == Some(b.1));
    lemma_find_sorted(m, "text"@);
    lemma_find_sorted(m, field);
    law_seconds_read_back(time as int);
}

/// An action that was written reads back as the same action, whatever the order in which the
/// members of tables are read.
pub proof fn law_action_read_back(a: ActionView)
    requires
        writable(a),
    ensures
        action_of(action_json(a)) == Ok::<ActionView, Seq<char>>(a),
        action_of(ordered(action_json(a))) == Ok::<ActionView, Seq<char>>(a),
{
    lemma_tags_distinct();
    if let Json::Table(m) = action_json(a) {
        lemma_tagged(m[0].0, m[0].1);
        lemma_tagged(m[0].0, ordered(m[0].1));
    }
    match a {
        ActionView::Input { text, pre_nl_delay, post_nl_delay } => {
            lemma_input_read_back(text, pre_nl_delay, post_nl_delay);
        },
        ActionView::InlineComment { text, show } => {
            lemma_timed_read_back(text, "InlineComment"@, "show"@, show, DEFAULT_SHOW);
        },
        ActionView::Expect { text, timeout } => {
            lemma_timed_read_back(text, "Expect"@, "timeout"@, timeout, DEFAULT_TIMEOUT);
        },
        ActionView::Key { keys } => {
            lemma_presses_read_back(keys);
            lemma_texts_read_back(labels(keys));
        },
        ActionView::Wait { nanos } => {
            law_seconds_read_back(nanos as int);
        },
        _ => {},
    }
}

/// A text is typed as it stands. A mapping with one key is told by that key: a marker, a comment,
/// or the end of the recording.
pub proof fn law_texts_and_marks(text: Seq<char>, any: Json)
    ensures
        action_of(Json::Text(text)) == Ok::<ActionView, Seq<char>>(ActionView::Text(text)),
        action_of(Json::Table(seq![("Marker"@, Json::Text(text))])) == Ok::<
            ActionView,
            Seq<char>,
        >(ActionView::Marker { label: text }),
        action_of(Json::Table(seq![("Comment"@, Json::Text(text))])) == Ok::<
            ActionView,
            Seq<char>,
        >(ActionView::Comment { comment: text }),
        action_of(Json::Table(seq![("END_REC"@, any)])) == Ok::<ActionView, Seq<char>>(
            ActionView::End,
        ),
{
    lemma_tags_distinct();
    let a = seq![("Marker"@, Json::Text(text))];
    let b = seq![("Comment"@, Json::Text(text))];
    let c = seq![("END_REC"@, any)];
    assert(a[0].0 == "Marker"@ && b[0].0 == "Comment"@ && c[0].0 == "END_REC"@);
    assert(a[0].1 == Json::Text(text) && b[0].1 == Json::Text(text));
}

/// A mapping with no key or with several is no action, nor is a number, a truth value or a list.
pub proof fn law_one_key_makes_an_action(m: Seq<(Seq<char>, Json)>, j: Json)
    ensures
        m.len() != 1 ==> action_of(Json::Table(m)) is Err,
        !(j is Text) && !(j is Table) ==> action_of(j) is Err,
{
}

/// A wait is read in seconds. It is never negative.
pub proof fn law_wait_is_in_seconds(n: nat, t: Seq<char>, j: Json)
    ensures
        n * 1_000_000_000 <= i64::MAX ==> action_of(
            Json::Table(seq![("Wait"@, Json::Number(whole_text(n as int)))]),
        ) == Ok::<ActionView, Seq<char>>(ActionView::Wait { nanos: (n * 1_000_000_000) as i64 }),
        action_of(Json::Table(seq![("Wait"@, Json::Number(t))])) == (if below_zero(t) {
            Err::<ActionView, Seq<char>>("Wait seconds must be >= 0"@)
        } else {
            match scaled(t, 9) {
                Some(v) => Ok(ActionView::Wait { nanos: v as i64 }),
                None => Err("invalid value for `Wait`"@),
            }
        }),
        !(j is Number) ==> action_of(Json::Table(seq![("Wait"@, j)])) is Err,
{
    lemma_tags_distinct();
    let a = seq![("Wait"@, Json::Number(whole_text(n as int)))];
    let b = seq![("Wait"@, Json::Number(t))];
    let c = seq![("Wait"@, j)];
    assert(a[0] == ("Wait"@, Json::Number(whole_text(n as int))));
    assert(b[0] == ("Wait"@, Json::Number(t)));
    assert(c[0] == ("Wait"@, j));
    lemma_wait_messages();
    if n * 1_000_000_000 <= i64::MAX {
        assert(pow10(9) == 1_000_000_000) by {
            reveal_with_fuel(pow10, 10);
        }
        lemma_whole_written(n, 9);
        lemma_no_minus(n);
    }
}

proof fn lemma_wait_messages()
    ensures
        "Wait"@ + " seconds must be >= 0"@ == "Wait seconds must be >= 0"@,
        invalid("Wait"@) == "invalid value for `Wait`"@,
{
    reveal_strlit("Wait");
    reveal_strlit(" seconds must be >= 0");
    reveal_strlit("Wait seconds must be >= 0");
    reveal_strlit("invalid value for `");
    reveal_strlit("`");
    reveal_strlit("invalid value for `Wait`");
    assert("Wait"@ + " seconds must be >= 0"@ =~= "Wait seconds must be >= 0"@);
    assert(invalid("Wait"@) =~= "invalid value for `Wait`"@);
}

/// A number that is not negative is written without a sign.
proof fn lemma_no_minus(n: nat)
    ensures
        !below_zero(whole_text(n as int)),
{
    lemma_nat_digits(n);
    let text = whole_text(n as int);
    assert(text =~= nat_digits(n));
    assert(is_digit(nat_digits(n)[0]));
    assert(text[0] != '-');
}

/// An inline comment and an expectation have a text and a time. With the text alone, the comment is
/// shown for 0.4 seconds and the text is expected within 30. In a mapping, the time is what a wait
/// with the same number is, and refused where that is.
pub proof fn law_texts_with_a_time(text: Seq<char>, m: Seq<(Seq<char>, Json)>, t: Seq<char>)
    requires
        find(m, "text"@) == Some(Json::Text(text)),
    ensures
        action_of(Json::Table(seq![("InlineComment"@, Json::Text(text))])) == Ok::<
            ActionView,
            Seq<char>,
        >(ActionView::InlineComment { text, show: 400_000_000 }),
        action_of(Json::Table(seq![("Expect"@, Json::Text(text))])) == Ok::<
            ActionView,
            Seq<char>,
        >(ActionView::Expect { text, timeout: 30_000_000_000 }),
        find(m, "show"@) is None ==> action_of(
            Json::Table(seq![("InlineComment"@, Json::Table(m))]),
        ) == Ok::<ActionView, Seq<char>>(ActionView::InlineComment { text, show: 400_000_000 }),
        find(m, "timeout"@) is None ==> action_of(Json::Table(seq![("Expect"@, Json::Table(m))]))
            == Ok::<ActionView, Seq<char>>(ActionView::Expect { text, timeout: 30_000_000_000 }),
        ({
            let wait = action_of(Json::Table(seq![("Wait"@, Json::Number(t))]));
            let shown = action_of(Json::Table(seq![("InlineComment"@, Json::Table(m))]));
            let expected = action_of(Json::Table(seq![("Expect"@, Json::Table(m))]));
            &&& find(m, "show"@) == Some(Json::Number(t)) ==> match wait {
                Ok(w) => shown == Ok::<ActionView, Seq<char>>(
                    ActionView::InlineComment { text, show: w->nanos },
                ),
                Err(_) => shown is Err,
            }
            &&& find(m, "timeout"@) == Some(Json::Number(t)) ==> match wait {
                Ok(w) => expected == Ok::<ActionView, Seq<char>>(
                    ActionView::Expect { text, timeout: w->nanos },
                ),
                Err(_) => expected is Err,
            }
        }),
{
    lemma_tags_distinct();
    let a = seq![("InlineComment"@, Json::Text(text))];
    let b = seq![("Expect"@, Json::Text(text))];
    let c = seq![("InlineComment"@, Json::Table(m))];
    let d = seq![("Expect"@, Json::Table(m))];
    let e = seq![("Wait"@, Json::Number(t))];
    assert(a[0] == ("InlineComment"@, Json::Text(text)));
    assert(b[0] == ("Expect"@, Json::Text(text)));
    assert(c[0] == ("InlineComment"@, Json::Table(m)));
    assert(d[0] == ("Expect"@, Json::Table(m)));
    assert(e[0] == ("Wait"@, Json::Number(t)));
}

/// An input has its text and its two delays from a mapping, each from its own field and in seconds;
/// all three must be there.
pub proof fn law_input_has_three_fields(
    m: Seq<(Seq<char>, Json)>,
    text: Seq<char>,
    pre: Seq<char>,
    post: Seq<char>,
)
    ensures
        ({
            let read = action_of(Json::Table(seq![("Input"@, Json::Table(m))]));
            &&& find(m, "text"@) is None || find(m, "pre_nl_delay"@) is None || find(
                m,
                "post_nl_delay"@,
            ) is None ==> read is Err
            &&& find(m, "text"@) == Some(Json::Text(text)) && find(m, "pre_nl_delay"@) == Some(
                Json::Number(pre),
            ) && find(m, "post_nl_delay"@) == Some(Json::Number(post)) ==> match (
                scaled(pre, 9),
                scaled(post, 9),
            ) {
                (Some(a), Some(b)) => read == Ok::<ActionView, Seq<char>>(
                    ActionView::Input {
                        text,
                        pre_nl_delay: a as i64,
                        post_nl_delay: b as i64,
                    },
                ),
                _ => read is Err,
            }
        }),
{
    let a = seq![("Input"@, Json::Table(m))];
    assert(a[0] == ("Input"@, Json::Table(m)));
}

/// A list of keys is read name by name, all of them and in order. An empty list is refused, and so
/// is one with a name that is none.
pub proof fn law_keys_are_read_one_by_one(names: Seq<Seq<char>>)
    ensures
        ({
            let items = names.map_values(|t: Seq<char>| Json::Text(t));
            match action_of(Json::Table(seq![("Keys"@, Json::List(items))])) {
                Ok(a) => a is Key && names.len() > 0 && a->keys.len() == names.len() && forall|
                    i: int,
                |
                    0 <= i < names.len() ==> press_named(#[trigger] names[i], false, false, false)
                        == Some(a->keys[i]),
                Err(_) => names.len() == 0 || exists|i: int|
                    0 <= i < names.len() && press_named(
                        #[trigger] names[i],
                        false,
                        false,
                        false,
                    ) is None,
            }
        }),
{
    lemma_tags_distinct();
    let items = names.map_values(|t: Seq<char>| Json::Text(t));
    let m = seq![("Keys"@, Json::List(items))];
    assert(m[0] == ("Keys"@, Json::List(items)));
    lemma_named_presses(names);
}

proof fn lemma_named_presses(names: Seq<Seq<char>>)
    ensures
        match presses_of(names.map_values(|t: Seq<char>| Json::Text(t))) {
            Ok(keys) => keys.len() == names.len() && forall|i: int|
                0 <= i < names.len() ==> press_named(#[trigger] names[i], false, false, false)
                    == Some(keys[i]),
            Err(_) => exists|i: int|
                0 <= i < names.len() && press_named(
                    #[trigger] names[i],
                    false,
                    false,
                    false,
                ) is None,
        },
    decreases names.len(),
{
    let items = names.map_values(|t: Seq<char>| Json::Text(t));
    if names.len() > 0 {
        let front = names.drop_last();
        lemma_named_presses(front);
        assert(items.drop_last() =~= front.map_values(|t: Seq<char>| Json::Text(t)));
        assert(items.last() == Json::Text(names.last()));
        match presses_of(items.drop_last()) {
            Err(_) => {
                let i = choose|i: int|
                    0 <= i < front.len() && press_named(
                        #[trigger] front[i],
                        false,
                        false,
                        false,
                    ) is None;
                assert(names[i] == front[i]);
            },
            Ok(some) => {
                if press_named(names.last(), false, false, false) is Some {
                    let keys = presses_of(items)->Ok_0;
                    assert forall|i: int| 0 <= i < names.len() implies press_named(
                        #[trigger] names[i],
                        false,
                        false,
                        false,
                    ) == Some(keys[i]) by {
                        if i < front.len() {
                            assert(front[i] == names[i]);
                        }
                    }
                } else {
                    assert(names[names.len() - 1] == names.last());
                }
            },
        }
    }
}

/// A key with a count is that many presses of it; without a count it is one press, and no press at
/// all is refused. A key that there is not is refused too.
pub proof fn law_key_is_repeated(tag: Seq<char>, n: int, j: Json)
    requires
        tag != "Input"@,
        tag != "Marker"@,
        tag != "Comment"@,
        tag != "InlineComment"@,
        tag != "Keys"@,
        tag != "Wait"@,
        tag != "Expect"@,
        tag != "END_REC"@,
        i64::MIN <= n <= i64::MAX,
    ensures
        ({
            let counted = action_of(
                Json::Table(seq![(tag, Json::Number(whole_text(n)))]),
            );
            let once = action_of(Json::Table(seq![(tag, Json::Null)]));
            match press_named(tag, false, false, false) {
                None => action_of(Json::Table(seq![(tag, j)])) is Err,
                Some(key) => {
                    &&& once is Ok && once->Ok_0 is Key && once->Ok_0->keys == seq![key]
                    &&& n < 1 ==> counted is Err
                    &&& 1 <= n <= u32::MAX ==> {
                        &&& counted is Ok && counted->Ok_0 is Key
                        &&& counted->Ok_0->keys.len() == n
                        &&& forall|i: int|
                            0 <= i < n ==> #[trigger] counted->Ok_0->keys[i] == key
                    }
                },
            }
        }),
{
    let a = seq![(tag, Json::Number(whole_text(n)))];
    let b = seq![(tag, Json::Null)];
    let c = seq![(tag, j)];
    assert(a[0] == (tag, Json::Number(whole_text(n))));
    assert(b[0] == (tag, Json::Null));
    assert(c[0] == (tag, j));
    law_whole_read_back(n);
}

/// How actions are written: under the names that they are read by, times in seconds.
pub proof fn law_actions_are_written_under_their_names(
    text: Seq<char>,
    a: i64,
    b: i64,
    keys: Seq<KeyPress>,
)
    ensures
        action_json(ActionView::Text(text)) == Json::Text(text),
        action_json(ActionView::Marker { label: text }) == Json::Table(
            seq![("Marker"@, Json::Text(text))],
        ),
        action_json(ActionView::Comment { comment: text }) == Json::Table(
            seq![("Comment"@, Json::Text(text))],
        ),
        action_json(ActionView::Wait { nanos: a }) == Json::Table(
            seq![("Wait"@, Json::Number(seconds_float(a as int)))],
        ),
        action_json(ActionView::InlineComment { text, show: a }) == Json::Table(
            seq![
                (
                    "InlineComment"@,
                    Json::Table(
                        seq![
                            ("text"@, Json::Text(text)),
                            ("show"@, Json::Number(seconds_float(a as int))),
                        ],
                    ),
                ),
            ],
        ),
        action_json(ActionView::Expect { text, timeout: a }) == Json::Table(
            seq![
                (
                    "Expect"@,
                    Json::Table(
                        seq![
                            ("text"@, Json::Text(text)),
                            ("timeout"@, Json::Number(seconds_float(a as int))),
                        ],
                    ),
                ),
            ],
        ),
        action_json(ActionView::Input { text, pre_nl_delay: a, post_nl_delay: b }) == Json::Table(
            seq![
                (
                    "Input"@,
                    Json::Table(
                        seq![
                            ("text"@, Json::Text(text)),
                            ("pre_nl_delay"@, Json::Number(seconds_float(a as int))),
                            ("post_nl_delay"@, Json::Number(seconds_float(b as int))),
                        ],
                    ),
                ),
            ],
        ),
        action_json(ActionView::End) == Json::Table(seq![("END_REC"@, Json::Null)]),
        ({
            let j = action_json(ActionView::Key { keys });
            &&& j is Table && j->Table_0.len() == 1 && j->Table_0[0].0 == "Keys"@
            &&& j->Table_0[0].1 is List
            &&& j->Table_0[0].1->List_0.len() == keys.len()
            &&& forall|i: int|
                0 <= i < keys.len() ==> j->Table_0[0].1->List_0[i] == Json::Text(
                    (#[trigger] keys[i]).label_view(),
                )
        }),
{
    assert forall|i: int| 0 <= i < keys.len() implies texts_json(labels(keys))->List_0[i]
        == Json::Text((#[trigger] keys[i]).label_view()) by {
        assert(labels(keys)[i] == keys[i].label_view());
    }
}

/// What is shown of an action while it is recorded: what is done, then its text in quotes, its keys
/// with spaces between them, or its time in seconds.
pub proof fn law_progress_tells_of_the_action(
    text: Seq<char>,
    quoted: Seq<char>,
    a: i64,
    b: i64,
    keys: Seq<KeyPress>,
    key: KeyPress,
)
    ensures
        progress_of(ActionView::Text(text), quoted) == "type "@ + quoted,
        progress_of(ActionView::Input { text, pre_nl_delay: a, post_nl_delay: b }, quoted)
            == "type "@ + quoted,
        progress_of(ActionView::Marker { label: text }, quoted) == "marker "@ + quoted,
        progress_of(ActionView::Comment { comment: text }, quoted) == "comment "@ + quoted,
        progress_of(ActionView::InlineComment { text, show: a }, quoted) == "note "@ + quoted,
        progress_of(ActionView::Expect { text, timeout: a }, quoted) == "expect "@ + quoted,
        progress_of(ActionView::Wait { nanos: a }, quoted) == "wait "@ + seconds_text(a as int)
            + "s"@,
        progress_of(ActionView::End, quoted) == "end recording"@,
        progress_of(ActionView::Key { keys: seq![key] }, quoted) == "key "@ + key.label_view(),
        keys.len() > 0 ==> progress_of(ActionView::Key { keys: keys.push(key) }, quoted)
            == progress_of(ActionView::Key { keys }, quoted) + seq![' '] + key.label_view(),
        shown_text(ActionView::Text(text)) == text,
        shown_text(ActionView::Input { text, pre_nl_delay: a, post_nl_delay: b }) == text,
        shown_text(ActionView::Marker { label: text }) == text,
        shown_text(ActionView::Comment { comment: text }) == text,
        shown_text(ActionView::InlineComment { text, show: a }) == text,
        shown_text(ActionView::Expect { text, timeout: a }) == text,
{
    let one = labels(seq![key]);
    assert(one[0] == key.label_view() && one.len() == 1);
    assert(spaced(one) == key.label_view());
    if keys.len() > 0 {
        let more = labels(keys.push(key));
        assert(more.drop_last() =~= labels(keys));
        assert(more.last() == key.label_view());
        assert(spaced(more) == spaced(labels(keys)) + seq![' '] + key.label_view());
        assert("key "@ + (spaced(labels(keys)) + seq![' '] + key.label_view()) =~= "key "@ + spaced(
            labels(keys),
        ) + seq![' '] + key.label_view());
    }
}

/// A text may be written as any plain value: what it stands for is that value as it is written, and
/// nothing for no value. Where it is missing, or a list or a mapping stands there, the message
/// names the field.
pub proof fn law_plain_values_stand_as_text(t: Seq<char>, j: Json, field: Seq<char>)
    ensures
        needed_text(Some(Json::Text(t)), field) == Ok::<Seq<char>, Seq<char>>(t),
        needed_text(Some(Json::Number(t)), field) == Ok::<Seq<char>, Seq<char>>(t),
        needed_text(Some(Json::Bool(true)), field) == Ok::<Seq<char>, Seq<char>>("true"@),
        needed_text(Some(Json::Bool(false)), field) == Ok::<Seq<char>, Seq<char>>("false"@),
        needed_text(Some(Json::Null), field) == Ok::<Seq<char>, Seq<char>>(Seq::empty()),
        needed_text(None, field) == Err::<Seq<char>, Seq<char>>(
            "missing field `"@ + field + "`"@,
        ),
        j is List || j is Table ==> needed_text(Some(j), field) == Err::<Seq<char>, Seq<char>>(
            "invalid value for `"@ + field + "`"@,
        ),
        needed_seconds(None, field) == Err::<i64, Seq<char>>("missing field `"@ + field + "`"@),
        needed_seconds(Some(Json::Number(t)), field) == (match scaled(t, 9) {
            Some(v) => Ok::<i64, Seq<char>>(v as i64),
            None => Err("invalid value for `"@ + field + "`"@),
        }),
        !(j is Number) ==> needed_seconds(Some(j), field) == Err::<i64, Seq<char>>(
            "invalid value for `"@ + field + "`"@,
        ),
{
}

/// What can be written and read back: every action, but for presses without a name, lists of no
/// presses, and times below zero where a time is how long something lasts.
pub proof fn law_what_can_be_written(a: ActionView)
    ensures
        a is Text || a is Input || a is Marker || a is Comment || a is End ==> writable(a),
        a matches ActionView::Wait { nanos } ==> (nanos >= 0 ==> writable(a)),
        a matches ActionView::InlineComment { show, .. } ==> (show >= 0 ==> writable(a)),
        a matches ActionView::Expect { timeout, .. } ==> (timeout >= 0 ==> writable(a)),
        a matches ActionView::Key { keys } ==> (keys.len() > 0 && (forall|i: int|
            0 <= i < keys.len() ==> match (#[trigger] keys[i]).base {
                KeyBase::Named(_) => true,
                KeyBase::Char(c) => (keys[i].ctrl || keys[i].alt || keys[i].shift) && is_printable(
                    c,
                ) && !(keys[i].ctrl && 'a' <= c <= 'z'),
            }) ==> writable(a)),
{
    if let ActionView::Key { keys } = a {
        if forall|i: int|
            0 <= i < keys.len() ==> match (#[trigger] keys[i]).base {
                KeyBase::Named(_) => true,
                KeyBase::Char(c) => (keys[i].ctrl || keys[i].alt || keys[i].shift) && is_printable(
                    c,
                ) && !(keys[i].ctrl && 'a' <= c <= 'z'),
            } {
            assert forall|i: int| 0 <= i < keys.len() implies (#[trigger] keys[i]).wf() by {}
        }
    }
}

/// What is said of an action that is none: which key was extra, which name is no key, and which
/// key cannot be pressed no times.
pub proof fn law_what_is_said_of_wrong_actions(
    m: Seq<(Seq<char>, Json)>,
    tag: Seq<char>,
    j: Json,
    name: Seq<char>,
)
    requires
        tag != "Input"@,
        tag != "Marker"@,
        tag != "Comment"@,
        tag != "InlineComment"@,
        tag != "Keys"@,
        tag != "Wait"@,
        tag != "Expect"@,
        tag != "END_REC"@,
    ensures
        m.len() > 1 ==> action_of(Json::Table(m)) == Err::<ActionView, Seq<char>>(
            "an action mapping must have exactly one key; found extra `"@ + m[1].0 + "`"@,
        ),
        press_named(tag, false, false, false) is None ==> action_of(Json::Table(seq![(tag, j)]))
            == Err::<ActionView, Seq<char>>("Invalid action or key `"@ + tag + "`"@),
        press_named(tag, false, false, false) is Some ==> action_of(
            Json::Table(seq![(tag, Json::Number(whole_text(0)))]),
        ) == Err::<ActionView, Seq<char>>("`"@ + tag + "` count must be >= 1"@),
        press_named(name, false, false, false) is None ==> action_of(
            Json::Table(seq![("Keys"@, Json::List(seq![Json::Text(name)]))]),
        ) == Err::<ActionView, Seq<char>>("Invalid key name "@ + name),
{
    let a = seq![(tag, j)];
    assert(a[0] == (tag, j));
    let b = seq![(tag, Json::Number(whole_text(0)))];
    assert(b[0] == (tag, Json::Number(whole_text(0))));
    law_whole_read_back(0);
    lemma_tags_distinct();
    let items = seq![Json::Text(name)];
    let c = seq![("Keys"@, Json::List(items))];
    assert(c[0] == ("Keys"@, Json::List(items)));
    assert(items.drop_last() =~= Seq::<Json>::empty());
    assert(items.last() == Json::Text(name));
    assert(presses_of(items.drop_last()) is Ok);
}

/// The label of a marker, the text of a comment, and that of an inline comment or an expectation
/// that stands alone, may be any plain value; a list or a mapping without a text is refused.
pub proof fn law_marks_take_plain_values(j: Json, m: Seq<(Seq<char>, Json)>, t: Seq<char>)
    ensures
        match needed_text(Some(j), "Marker"@) {
            Ok(text) => action_of(Json::Table(seq![("Marker"@, j)])) == Ok::<
                ActionView,
                Seq<char>,
            >(ActionView::Marker { label: text }) && action_of(
                Json::Table(seq![("Comment"@, j)]),
            ) == Ok::<ActionView, Seq<char>>(ActionView::Comment { comment: text }) && action_of(
                Json::Table(seq![("InlineComment"@, j)]),
            ) == Ok::<ActionView, Seq<char>>(
                ActionView::InlineComment { text, show: 400_000_000 },
            ) && action_of(Json::Table(seq![("Expect"@, j)])) == Ok::<ActionView, Seq<char>>(
                ActionView::Expect { text, timeout: 30_000_000_000 },
            ),
            Err(_) => action_of(Json::Table(seq![("Marker"@, j)])) is Err && action_of(
                Json::Table(seq![("Comment"@, j)]),
            ) is Err,
        },
        j is List ==> action_of(Json::Table(seq![("InlineComment"@, j)])) is Err && action_of(
            Json::Table(seq![("Expect"@, j)]),
        ) is Err && action_of(Json::Table(seq![("Input"@, j)])) is Err,
        find(m, "text"@) is None ==> action_of(
            Json::Table(seq![("InlineComment"@, Json::Table(m))]),
        ) is Err && action_of(Json::Table(seq![("Expect"@, Json::Table(m))])) is Err,
        find(m, "show"@) == Some(j) && !(j is Number) ==> action_of(
            Json::Table(seq![("InlineComment"@, Json::Table(m))]),
        ) is Err,
        find(m, "timeout"@) == Some(j) && !(j is Number) ==> action_of(
            Json::Table(seq![("Expect"@, Json::Table(m))]),
        ) is Err,
{
    lemma_tags_distinct();
    let a = seq![("Marker"@, j)];
    let b = seq![("Comment"@, j)];
    let c = seq![("InlineComment"@, j)];
    let d = seq![("Expect"@, j)];
    let e = seq![("InlineComment"@, Json::Table(m))];
    let f = seq![("Expect"@, Json::Table(m))];
    let g = seq![("Input"@, j)];
    assert(a[0] == ("Marker"@, j) && b[0] == ("Comment"@, j) && c[0] == ("InlineComment"@, j));
    assert(d[0] == ("Expect"@, j) && g[0] == ("Input"@, j));
    assert(e[0] == ("InlineComment"@, Json::Table(m)) && f[0] == ("Expect"@, Json::Table(m)));
}

/// A count is a whole number of at most 32 bits; a key with anything else behind it is refused.
pub proof fn law_counts_are_whole(tag: Seq<char>, t: Seq<char>, n: int, j: Json)
    requires
        tag != "Input"@,
        tag != "Marker"@,
        tag != "Comment"@,
        tag != "InlineComment"@,
        tag != "Keys"@,
        tag != "Wait"@,
        tag != "Expect"@,
        tag != "END_REC"@,
        u32::MAX < n <= i64::MAX,
    ensures
        whole(t) is None ==> action_of(Json::Table(seq![(tag, Json::Number(t))])) is Err,
        action_of(Json::Table(seq![(tag, Json::Number(whole_text(n)))])) is Err,
        !(j is Number) && !(j is Null) ==> action_of(Json::Table(seq![(tag, j)])) is Err,
        j is Text || j is Table || j is Number || j is Bool || j is Null ==> action_of(
            Json::Table(seq![("Keys"@, j)]),
        ) is Err,
{
    let a = seq![(tag, Json::Number(t))];
    let b = seq![(tag, Json::Number(whole_text(n)))];
    let c = seq![(tag, j)];
    let d = seq![("Keys"@, j)];
    assert(a[0] == (tag, Json::Number(t)) && b[0] == (tag, Json::Number(whole_text(n))));
    assert(c[0] == (tag, j) && d[0] == ("Keys"@, j));
    law_whole_read_back(n);
    lemma_tags_distinct();
}

} // verus!
