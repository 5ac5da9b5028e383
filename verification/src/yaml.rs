//! YAML documents as values, read and written by way of JSON.
//!
//! A scalar without quotes keeps its value, not the way in which it was written: where a text is
//! wanted, `1.10` is the text `1.1`, `True` is `true`, and `~` is the empty text; where a list is
//! wanted, `~` is the empty one, as no value is. In quotes a text is taken as it is.

use crate::actions::{
    action_json, action_of, labels, law_action_read_back, seconds_json, tagged, writable, Action,
    ActionView,
};
use crate::decimal::{lemma_no_leading_zeros, seconds_float, whole_text};
use crate::emit::{
    doc_json, doc_script, ended, law_session_read_back, lemma_doc_keys_differ, whole_json, DocView,
    END_DELAY_MS, POST_NL_DELAY_MS, PRE_NL_DELAY_MS, START_DELAY_MS,
};
use crate::filters::{Filter, FilterView};
use crate::json::{
    all_readable, depth, json_of, list_depth, members_readable, ordered, readable, render,
    table_depth, texts_json, Json, Node, MAX_DEPTH,
};
use crate::script::{filter_of, script_of, Script, ScriptView};
use crate::text::copy_text;
use vstd::prelude::*;

verus! {

/// The JSON text of the value that a YAML document holds, or why it holds none.
pub uninterp spec fn yaml_json(text: Seq<char>) -> Result<Seq<char>, Seq<char>>;

/// The YAML document of the value that a JSON text holds, or why there is none.
pub uninterp spec fn json_yaml(json: Seq<char>) -> Result<Seq<char>, Seq<char>>;

/// The length of the JSON text of a value up to which its writing is told here. The columns and the
/// lines of a YAML document are counted in 32 bits, and one character can take six columns.
pub const TEXT_LIMIT: usize = 0x1000_0000;

/// The length up to which the writing of a key is told here.
pub const KEY_LIMIT: usize = 32;

/// The depth up to which the writing of a value is told here.
pub const NESTING_LIMIT: usize = 100;

/// Whether a time in seconds can be told from others of its step by a floating-point number of 64
/// bits: the step is wider than the distance between such numbers there.
pub open spec fn told_apart(nanos: int) -> bool {
    ||| -8_388_608_000_000_000 < nanos < 8_388_608_000_000_000
    ||| nanos % 10 == 0 && -67_108_864_000_000_000 < nanos < 67_108_864_000_000_000
    ||| nanos % 100 == 0 && -536_870_912_000_000_000 < nanos < 536_870_912_000_000_000
    ||| nanos % 1_000 == 0 && -8_589_934_592_000_000_000 < nanos < 8_589_934_592_000_000_000
    ||| nanos % 10_000 == 0
}

/// Whether the JSON text of a value is not too long.
pub open spec fn not_too_long(j: Json) -> bool {
    render(j).len() <= TEXT_LIMIT
}

/// Whether a text is the whole number `n`, or `n` nanoseconds in seconds where that can be told.
pub open spec fn number_form(t: Seq<char>, n: int) -> bool {
    &&& i64::MIN <= n <= i64::MAX
    &&& t == whole_text(n) || (t == seconds_float(n) && told_apart(n))
}

/// Whether a number is a whole one, or a time that can be told.
pub open spec fn plain_number(t: Seq<char>) -> bool {
    exists|n: int| number_form(t, n)
}

/// Whether the numbers and the keys of a value are plain, with different keys in each table.
pub open spec fn plain(j: Json) -> bool
    decreases j,
{
    match j {
        Json::Number(t) => plain_number(t),
        Json::List(items) => all_plain(items),
        Json::Table(members) => members_plain(members) && distinct_keys(members),
        _ => true,
    }
}

/// Whether every value of a list is plain.
pub open spec fn all_plain(items: Seq<Json>) -> bool
    decreases items,
{
    items.len() > 0 ==> all_plain(items.drop_last()) && plain(items.last())
}

/// Whether every key and every value of a table is plain.
pub open spec fn members_plain(members: Seq<(Seq<char>, Json)>) -> bool
    decreases members,
{
    members.len() > 0 ==> members_plain(members.drop_last()) && plain_key(members.last().0)
        && plain(members.last().1)
}

/// Whether a key is a short word of printable ASCII.
pub open spec fn plain_key(key: Seq<char>) -> bool {
    0 < key.len() <= KEY_LIMIT && forall|i: int|
        0 <= i < key.len() ==> '!' <= #[trigger] key[i] <= '~'
}

/// Whether no key of a table is there twice.
pub open spec fn distinct_keys(members: Seq<(Seq<char>, Json)>) -> bool {
    forall|i: int, j: int|
        0 <= i < j < members.len() ==> (#[trigger] members[i]).0 != (#[trigger] members[j]).0
}

/// Whether a value is plain, not too deep and not too long: a YAML document can be written of it,
/// and is read back as the same value.
pub open spec fn comes_through(j: Json) -> bool {
    plain(j) && depth(j) <= NESTING_LIMIT && not_too_long(j)
}

/// Whether a text is empty or one line of comment in printable ASCII.
pub open spec fn comment_line(t: Seq<char>) -> bool {
    t.len() > 0 ==> t[0] == '#' && t.last() == '\n' && forall|i: int|
        0 <= i < t.len() - 1 ==> ' ' <= #[trigger] t[i] <= '~'
}

/// Whether a text is what is written of a value, with or without a line of comment before it.
pub open spec fn document_of(text: Seq<char>, j: Json) -> bool {
    json_yaml(render(j)) matches Ok(doc) && exists|head: Seq<char>| #[trigger]
        comment_line(head) && text == head + doc
}

/// `serde_yaml::from_str` reads the one value of a YAML document, here written out as JSON. Of a
/// document that `serde_yaml::to_string` wrote of a plain value it reads that value, whose text is
/// the same as before; a comment in front does not matter. What any other document stands for is
/// left to the name.
#[verifier::external_body]
fn yaml_to_json(text: &str) -> (r: Result<String, String>)
    ensures
        match r {
            Ok(json) => yaml_json(text@) == Ok::<Seq<char>, Seq<char>>(json@),
            Err(e) => yaml_json(text@) == Err::<Seq<char>, Seq<char>>(e@),
        },
        forall|j: Json|
            comes_through(j) && #[trigger] document_of(text@, j) ==> r is Ok && r->Ok_0@ == render(
                j,
            ),
{
    match serde_yaml::from_str::<serde_yaml::Value>(text) {
        Ok(value) => serde_json::to_string(&value).map_err(|e| e.to_string()),
        Err(e) => Err(e.to_string()),
    }
}

/// `serde_yaml::to_string` writes a value, here given as JSON, as a YAML document. Of a plain
/// value it does so without fail. How it lays the document out is left to the name.
#[verifier::external_body]
fn json_to_yaml(json: &str) -> (r: Result<String, String>)
    ensures
        match r {
            Ok(text) => json_yaml(json@) == Ok::<Seq<char>, Seq<char>>(text@),
            Err(e) => json_yaml(json@) == Err::<Seq<char>, Seq<char>>(e@),
        },
        forall|j: Json| comes_through(j) && json@ == #[trigger] render(j) ==> r is Ok,
{
    match serde_json::from_str::<serde_yaml::Value>(json) {
        Ok(value) => serde_yaml::to_string(&value).map_err(|e| e.to_string()),
        Err(e) => Err(e.to_string()),
    }
}

/// A plain value has a JSON text.
proof fn lemma_plain_readable(j: Json)
    requires
        plain(j),
    ensures
        readable(j),
    decreases j,
{
    match j {
        Json::Number(t) => {
            assert(plain_number(t));
            let n = choose|n: int| number_form(t, n);
            lemma_no_leading_zeros(n, t);
        },
        Json::List(items) => {
            lemma_all_plain_readable(items);
        },
        Json::Table(members) => {
            lemma_members_plain_readable(members);
        },
        _ => {},
    }
}

proof fn lemma_all_plain_readable(items: Seq<Json>)
    requires
        all_plain(items),
    ensures
        all_readable(items),
    decreases items,
{
    if items.len() > 0 {
        lemma_all_plain_readable(items.drop_last());
        lemma_plain_readable(items.last());
    }
}

proof fn lemma_members_plain_readable(members: Seq<(Seq<char>, Json)>)
    requires
        members_plain(members),
    ensures
        members_readable(members),
    decreases members,
{
    if members.len() > 0 {
        lemma_members_plain_readable(members.drop_last());
        lemma_plain_readable(members.last().1);
    }
}

/// Whether an action is written as a plain value: its times can be told.
pub open spec fn plain_action(a: ActionView) -> bool {
    writable(a) && match a {
        ActionView::Input { pre_nl_delay, post_nl_delay, .. } => told_apart(pre_nl_delay as int)
            && told_apart(post_nl_delay as int),
        ActionView::InlineComment { show, .. } => told_apart(show as int),
        ActionView::Wait { nanos } => told_apart(nanos as int),
        ActionView::Expect { timeout, .. } => told_apart(timeout as int),
        _ => true,
    }
}

proof fn lemma_plain_list(items: Seq<Json>, deep: nat)
    requires
        forall|i: int|
            0 <= i < items.len() ==> plain(#[trigger] items[i]) && depth(items[i]) <= deep,
    ensures
        all_plain(items),
        list_depth(items) <= deep,
    decreases items.len(),
{
    if items.len() > 0 {
        let front = items.drop_last();
        assert forall|i: int| 0 <= i < front.len() implies plain(#[trigger] front[i]) && depth(
            front[i],
        ) <= deep by {
            assert(front[i] == items[i]);
        }
        lemma_plain_list(front, deep);
        assert(items.last() == items[items.len() - 1]);
    }
}

proof fn lemma_plain_table(members: Seq<(Seq<char>, Json)>, deep: nat)
    requires
        forall|i: int|
            0 <= i < members.len() ==> plain_key((#[trigger] members[i]).0) && plain(members[i].1)
                && depth(members[i].1) <= deep,
    ensures
        members_plain(members),
        table_depth(members) <= deep,
    decreases members.len(),
{
    if members.len() > 0 {
        let front = members.drop_last();
        assert forall|i: int| 0 <= i < front.len() implies plain_key((#[trigger] front[i]).0)
            && plain(front[i].1) && depth(front[i].1) <= deep by {
            assert(front[i] == members[i]);
        }
        lemma_plain_table(front, deep);
        assert(members.last() == members[members.len() - 1]);
    }
}

proof fn lemma_plain_tag(tag: Seq<char>, value: Json, deep: nat)
    requires
        plain_key(tag),
        plain(value),
        depth(value) <= deep,
    ensures
        plain(tagged(tag, value)),
        depth(tagged(tag, value)) <= deep + 1,
{
    lemma_plain_table(seq![(tag, value)], deep);
}

/// The tags of actions are plain keys.
proof fn lemma_plain_tags()
    ensures
        plain_key("Input"@),
        plain_key("Marker"@),
        plain_key("Comment"@),
        plain_key("InlineComment"@),
        plain_key("Keys"@),
        plain_key("Wait"@),
        plain_key("Expect"@),
        plain_key("END_REC"@),
{
    reveal_strlit("Input");
    reveal_strlit("Marker");
    reveal_strlit("Comment");
    reveal_strlit("InlineComment");
    reveal_strlit("Keys");
    reveal_strlit("Wait");
    reveal_strlit("Expect");
    reveal_strlit("END_REC");
}

/// The names of the fields of actions are plain keys.
proof fn lemma_plain_fields()
    ensures
        plain_key("text"@),
        plain_key("pre_nl_delay"@),
        plain_key("post_nl_delay"@),
        plain_key("show"@),
        plain_key("timeout"@),
{
    reveal_strlit("text");
    reveal_strlit("pre_nl_delay");
    reveal_strlit("post_nl_delay");
    reveal_strlit("show");
    reveal_strlit("timeout");
}

/// A time that can be told is a plain number.
proof fn lemma_plain_time(nanos: i64)
    requires
        told_apart(nanos as int),
    ensures
        plain(seconds_json(nanos)),
        depth(seconds_json(nanos)) == 0,
{
    assert(number_form(seconds_float(nanos as int), nanos as int));
}

/// A plain action is written as a plain value.
proof fn lemma_plain_action(a: ActionView)
    requires
        plain_action(a),
    ensures
        plain(action_json(a)),
        depth(action_json(a)) <= 2,
{
    lemma_plain_tags();
    lemma_plain_fields();
    match a {
        ActionView::Text(_) => {},
        ActionView::Input { text, pre_nl_delay, post_nl_delay } => {
            let m = seq![
                ("text"@, Json::Text(text)),
                ("pre_nl_delay"@, seconds_json(pre_nl_delay)),
                ("post_nl_delay"@, seconds_json(post_nl_delay)),
            ];
            lemma_plain_time(pre_nl_delay);
            lemma_plain_time(post_nl_delay);
            lemma_plain_table(m, 0);
            lemma_names_differ();
            lemma_plain_tag("Input"@, Json::Table(m), 1);
        },
        ActionView::Marker { label } => {
            lemma_plain_tag("Marker"@, Json::Text(label), 0);
        },
        ActionView::Comment { comment } => {
            lemma_plain_tag("Comment"@, Json::Text(comment), 0);
        },
        ActionView::InlineComment { text, show } => {
            let m = seq![("text"@, Json::Text(text)), ("show"@, seconds_json(show))];
            lemma_plain_time(show);
            lemma_plain_table(m, 0);
            lemma_names_differ();
            lemma_plain_tag("InlineComment"@, Json::Table(m), 1);
        },
        ActionView::Key { keys } => {
            let items = texts_json(labels(keys))->List_0;
            assert forall|i: int| 0 <= i < items.len() implies plain(#[trigger] items[i]) && depth(
                items[i],
            ) <= 0 by {}
            lemma_plain_list(items, 0);
            lemma_plain_tag("Keys"@, Json::List(items), 1);
        },
        ActionView::Wait { nanos } => {
            lemma_plain_time(nanos);
            lemma_plain_tag("Wait"@, seconds_json(nanos), 0);
        },
        ActionView::Expect { text, timeout } => {
            let m = seq![("text"@, Json::Text(text)), ("timeout"@, seconds_json(timeout))];
            lemma_plain_time(timeout);
            lemma_plain_table(m, 0);
            lemma_names_differ();
            lemma_plain_tag("Expect"@, Json::Table(m), 1);
        },
        ActionView::End => {
            lemma_plain_tag("END_REC"@, Json::Null, 0);
        },
    }
}

/// The fields of an action have different names.
proof fn lemma_names_differ()
    ensures
        "text"@ != "pre_nl_delay"@,
        "text"@ != "post_nl_delay"@,
        "pre_nl_delay"@ != "post_nl_delay"@,
        "text"@ != "show"@,
        "text"@ != "timeout"@,
{
    reveal_strlit("text");
    reveal_strlit("pre_nl_delay");
    reveal_strlit("post_nl_delay");
    reveal_strlit("show");
    reveal_strlit("timeout");
    assert("text"@.len() == 4);
    assert("pre_nl_delay"@.len() == 12);
    assert("post_nl_delay"@.len() == 13);
    assert("timeout"@.len() == 7);
    assert("text"@[0] != "show"@[0]);
}

/// Whether a session is written as a plain value: its actions are plain, and its typing delay is a
/// time.
pub open spec fn plain_doc(d: DocView) -> bool {
    &&& d.typing_delay_ms * 1_000_000 <= i64::MAX
    &&& forall|i: int| 0 <= i < d.actions.len() ==> plain_action(#[trigger] d.actions[i])
}

/// The names of the fields of a written script are plain keys.
proof fn lemma_plain_doc_keys()
    ensures
        plain_key("output_file"@),
        plain_key("cols"@),
        plain_key("rows"@),
        plain_key("start_delay_ms"@),
        plain_key("end_delay_ms"@),
        plain_key("typing_delay_ms"@),
        plain_key("pre_nl_delay_ms"@),
        plain_key("post_nl_delay_ms"@),
        plain_key("actions"@),
{
    reveal_strlit("output_file");
    reveal_strlit("cols");
    reveal_strlit("rows");
    reveal_strlit("start_delay_ms");
    reveal_strlit("end_delay_ms");
    reveal_strlit("typing_delay_ms");
    reveal_strlit("pre_nl_delay_ms");
    reveal_strlit("post_nl_delay_ms");
    reveal_strlit("actions");
}

proof fn lemma_plain_whole(n: u64)
    requires
        n <= i64::MAX,
    ensures
        plain(whole_json(n)),
        depth(whole_json(n)) == 0,
{
    assert(number_form(whole_text(n as int), n as int));
}

/// A plain session is written as a plain value.
pub proof fn lemma_plain_doc(d: DocView)
    requires
        plain_doc(d),
    ensures
        plain(doc_json(d)),
        depth(doc_json(d)) <= NESTING_LIMIT,
{
    let all = ended(d.actions);
    let items = all.map_values(|a: ActionView| action_json(a));
    assert forall|i: int| 0 <= i < items.len() implies plain(#[trigger] items[i]) && depth(items[i])
        <= 2 by {
        assert(plain_action(all[i])) by {
            if i < d.actions.len() {
                assert(all[i] == d.actions[i]);
            }
        }
        lemma_plain_action(all[i]);
    }
    lemma_plain_list(items, 2);
    lemma_plain_whole(d.cols as u64);
    lemma_plain_whole(d.rows as u64);
    lemma_plain_whole(START_DELAY_MS);
    lemma_plain_whole(END_DELAY_MS);
    lemma_plain_whole(d.typing_delay_ms);
    lemma_plain_whole(PRE_NL_DELAY_MS);
    lemma_plain_whole(POST_NL_DELAY_MS);
    lemma_plain_doc_keys();
    let m = doc_json(d)->Table_0;
    assert(depth(Json::List(items)) <= 3);
    assert(plain(Json::List(items)));
    assert forall|i: int| 0 <= i < m.len() implies plain_key((#[trigger] m[i]).0) && plain(m[i].1)
        && depth(m[i].1) <= 3 by {}
    lemma_plain_table(m, 3);
    lemma_doc_keys_differ(m);
}

/// The value that a YAML document holds, or why it holds none.
pub open spec fn yaml_value(text: Seq<char>) -> Result<Json, Seq<char>> {
    match yaml_json(text) {
        Err(e) => Err(e),
        Ok(json) => match json_of(json) {
            Some(j) => Ok(j),
            None => Err("not a value"@),
        },
    }
}

impl Node {
    /// Reads the value of a YAML document. What was written of a plain value is read as that
    /// value, with the members of tables in order.
    pub fn from_yaml(text: &str) -> (r: Result<Node, String>)
        ensures
            match r {
                Ok(node) => yaml_value(text@) == Ok::<Json, Seq<char>>(node@),
                Err(e) => yaml_value(text@) == Err::<Json, Seq<char>>(e@),
            },
            forall|j: Json|
                comes_through(j) && #[trigger] document_of(text@, j) ==> r is Ok && r->Ok_0@
                    == ordered(j),
    {
        proof {
            assert forall|j: Json| comes_through(j) && #[trigger] document_of(text@, j) implies (
            readable(j) && depth(j) <= MAX_DEPTH) by {
                lemma_plain_readable(j);
            }
        }
        match yaml_to_json(text) {
            Err(e) => Err(e),
            Ok(json) => match Node::from_text(json.as_str()) {
                Some(node) => Ok(node),
                None => Err(copy_text("not a value")),
            },
        }
    }

    /// Writes this value as a YAML document. A plain value can always be written.
    pub fn to_yaml(&self) -> (r: Result<String, String>)
        ensures
            match r {
                Ok(text) => json_yaml(render(self@)) == Ok::<Seq<char>, Seq<char>>(text@),
                Err(e) => json_yaml(render(self@)) == Err::<Seq<char>, Seq<char>>(e@),
            },
            r matches Ok(text) ==> document_of(text@, self@),
            comes_through(self@) ==> r is Ok,
    {
        let json = self.to_text();
        let r = json_to_yaml(json.as_str());
        proof {
            if r is Ok {
                let none = Seq::<char>::empty();
                assert(comment_line(none));
                assert(none + r->Ok_0@ =~= r->Ok_0@);
            }
        }
        r
    }
}

impl Action {
    /// Reads an action from a YAML document. What was written of a plain action is read as that
    /// action.
    pub fn from_yaml(text: &str) -> (r: Result<Action, String>)
        ensures
            match r {
                Ok(a) => yaml_value(text@) matches Ok(j) && action_of(j) == Ok::<
                    ActionView,
                    Seq<char>,
                >(a@),
                Err(e) => match yaml_value(text@) {
                    Ok(j) => action_of(j) == Err::<ActionView, Seq<char>>(e@),
                    Err(why) => why == e@,
                },
            },
            forall|a: ActionView|
                plain_action(a) && not_too_long(action_json(a)) && #[trigger] document_of(
                    text@,
                    action_json(a),
                ) ==> r is Ok && r->Ok_0@ == a,
    {
        proof {
            assert forall|a: ActionView|
                plain_action(a) && not_too_long(action_json(a)) && #[trigger] document_of(
                    text@,
                    action_json(a),
                ) implies (comes_through(action_json(a)) && action_of(ordered(action_json(a)))
                == Ok::<ActionView, Seq<char>>(a)) by {
                lemma_plain_action(a);
                law_action_read_back(a);
            }
        }
        match Node::from_yaml(text) {
            Err(e) => Err(e),
            Ok(node) => Action::from_node(&node),
        }
    }

    /// Writes this action as a YAML document. A plain action can always be written.
    pub fn to_yaml(&self) -> (r: Result<String, String>)
        ensures
            match r {
                Ok(text) => json_yaml(render(action_json(self@))) == Ok::<Seq<char>, Seq<char>>(
                    text@,
                ),
                Err(e) => json_yaml(render(action_json(self@))) == Err::<Seq<char>, Seq<char>>(e@),
            },
            r matches Ok(text) ==> document_of(text@, action_json(self@)),
            plain_action(self@) && not_too_long(action_json(self@)) ==> r is Ok,
    {
        proof {
            if plain_action(self@) {
                lemma_plain_action(self@);
            }
        }
        self.to_node().to_yaml()
    }
}

impl Filter {
    /// Reads a filter from a YAML document.
    pub fn from_yaml(text: &str) -> (r: Result<Filter, String>)
        ensures
            match r {
                Ok(f) => yaml_value(text@) matches Ok(j) && filter_of(j) == Ok::<
                    FilterView,
                    Seq<char>,
                >(f@),
                Err(e) => match yaml_value(text@) {
                    Ok(j) => filter_of(j) == Err::<FilterView, Seq<char>>(e@),
                    Err(why) => why == e@,
                },
            },
    {
        match Node::from_yaml(text) {
            Err(e) => Err(e),
            Ok(node) => Filter::from_node(&node),
        }
    }
}

impl Script {
    /// Reads a script from the contents of a YAML file. What was written of a plain session is
    /// read as the script of that session.
    pub fn from_yaml(contents: &str) -> (r: Result<Script, String>)
        ensures
            match r {
                Ok(s) => yaml_value(contents@) matches Ok(j) && script_of(j) == Ok::<
                    ScriptView,
                    Seq<char>,
                >(s@),
                Err(e) => match yaml_value(contents@) {
                    Ok(j) => script_of(j) == Err::<ScriptView, Seq<char>>(e@),
                    Err(why) => why == e@,
                },
            },
            forall|d: DocView|
                plain_doc(d) && not_too_long(doc_json(d)) && #[trigger] document_of(
                    contents@,
                    doc_json(d),
                ) ==> r is Ok && r->Ok_0@ == doc_script(d),
    {
        proof {
            assert forall|d: DocView|
                plain_doc(d) && not_too_long(doc_json(d)) && #[trigger] document_of(
                    contents@,
                    doc_json(d),
                ) implies (comes_through(doc_json(d)) && script_of(ordered(doc_json(d))) == Ok::<
                ScriptView,
                Seq<char>,
            >(doc_script(d))) by {
                lemma_plain_doc(d);
                assert forall|i: int| 0 <= i < d.actions.len() implies writable(
                    #[trigger] d.actions[i],
                ) by {
                    assert(plain_action(d.actions[i]));
                }
                law_session_read_back(d);
            }
        }
        match Node::from_yaml(contents) {
            Err(e) => Err(e),
            Ok(node) => Script::from_node(&node),
        }
    }
}

/// Which times are told apart where a script is written: every one shorter than eight million
/// seconds, and every one that is a multiple of ten microseconds.
pub proof fn law_common_times_are_told_apart(nanos: int)
    ensures
        -8_000_000_000_000_000 < nanos < 8_000_000_000_000_000 ==> told_apart(nanos),
        nanos % 10_000 == 0 ==> told_apart(nanos),
{
}

/// Which actions are read back from the document that is written of them: all that can be written
/// and whose times are told apart.
pub proof fn law_which_actions_are_plain(a: ActionView)
    requires
        writable(a),
    ensures
        a is Text || a is Marker || a is Comment || a is Key || a is End ==> plain_action(a),
        a matches ActionView::Wait { nanos } ==> (told_apart(nanos as int) ==> plain_action(a)),
        a matches ActionView::InlineComment { show, .. } ==> (told_apart(show as int)
            ==> plain_action(a)),
        a matches ActionView::Expect { timeout, .. } ==> (told_apart(timeout as int)
            ==> plain_action(a)),
        a matches ActionView::Input { pre_nl_delay, post_nl_delay, .. } ==> (told_apart(
            pre_nl_delay as int,
        ) && told_apart(post_nl_delay as int) ==> plain_action(a)),
{
}

/// Which sessions are read back from the script that is written of them: those whose actions all
/// are and whose typing delay is a time, as long as the document is not too long: 2^28 characters
/// are not.
pub proof fn law_which_sessions_are_plain(d: DocView, j: Json)
    requires
        d.typing_delay_ms <= 9_000_000_000_000,
        forall|i: int| 0 <= i < d.actions.len() ==> plain_action(#[trigger] d.actions[i]),
    ensures
        plain_doc(d),
        render(j).len() <= 268_435_456 ==> not_too_long(j),
{
}

/// A document stands for the value that it holds, and for none where it cannot be read.
pub proof fn law_document_stands_for_its_value(text: Seq<char>, json: Seq<char>, e: Seq<char>)
    ensures
        yaml_json(text) == Err::<Seq<char>, Seq<char>>(e) ==> yaml_value(text) == Err::<
            Json,
            Seq<char>,
        >(e),
        yaml_json(text) == Ok::<Seq<char>, Seq<char>>(json) ==> match json_of(json) {
            Some(j) => yaml_value(text) == Ok::<Json, Seq<char>>(j),
            None => yaml_value(text) is Err,
        },
{
}

} // verus!
