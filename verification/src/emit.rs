//! Writing a recorded session as a script.

use crate::actions::{
    action_json, action_views, law_action_read_back, needed_text, writable, Action, ActionView,
};
use crate::decimal::{law_whole_read_back, lemma_whole_written, pow10, show_nat, whole_text};
use crate::filters::FilterView;
use crate::json::{
    find, lemma_find_sorted, lemma_list_json, list_json, ordered, ordered_list, ordered_members,
    push_field, render, table_json, Json, Node,
};
use crate::script::{
    actions_of, delay_field, script_actions, script_delay, script_delays, script_filters,
    script_of, script_size, script_sudo, script_switch, Delays, ScriptView, DEFAULT_KEY_DELAY,
};
use crate::text::copy_text;
use crate::yaml::{
    comment_line, distinct_keys, document_of, json_yaml, lemma_plain_doc, not_too_long,
    plain_doc,
};
use vstd::prelude::*;

verus! {

/// A recorded session, to be written as a script.
#[derive(Debug, PartialEq)]
pub struct ScriptDoc {
    /// The recording that the script will make.
    pub output_file: String,
    pub cols: u16,
    pub rows: u16,
    /// The delay between typed characters, in milliseconds.
    pub typing_delay_ms: u64,
    pub actions: Vec<Action>,
}

/// A recorded session as mathematics.
#[verifier::ext_equal]
pub struct DocView {
    pub output_file: Seq<char>,
    pub cols: u16,
    pub rows: u16,
    pub typing_delay_ms: u64,
    pub actions: Seq<ActionView>,
}

impl View for ScriptDoc {
    type V = DocView;

    open spec fn view(&self) -> DocView {
        DocView {
            output_file: self.output_file@,
            cols: self.cols,
            rows: self.rows,
            typing_delay_ms: self.typing_delay_ms,
            actions: action_views(self.actions@),
        }
    }
}

/// The delay before the first action of a written script, in milliseconds.
pub const START_DELAY_MS: u64 = 500;

/// The delay after the last action of a written script, in milliseconds.
pub const END_DELAY_MS: u64 = 500;

/// The first delay after typed text in a written script, in milliseconds.
pub const PRE_NL_DELAY_MS: u64 = 200;

/// The second delay after typed text in a written script, in milliseconds.
pub const POST_NL_DELAY_MS: u64 = 500;

/// Actions with an end behind them, unless they have one.
pub open spec fn ended(actions: Seq<ActionView>) -> Seq<ActionView> {
    if actions.len() > 0 && actions.last() == ActionView::End {
        actions
    } else {
        actions.push(ActionView::End)
    }
}

/// A whole number as a JSON number.
pub open spec fn whole_json(n: u64) -> Json {
    Json::Number(whole_text(n as int))
}

/// A recorded session as the value of a script.
pub open spec fn doc_json(d: DocView) -> Json {
    Json::Table(
        seq![
            ("output_file"@, Json::Text(d.output_file)),
            ("cols"@, whole_json(d.cols as u64)),
            ("rows"@, whole_json(d.rows as u64)),
            ("start_delay_ms"@, whole_json(START_DELAY_MS)),
            ("end_delay_ms"@, whole_json(END_DELAY_MS)),
            ("typing_delay_ms"@, whole_json(d.typing_delay_ms)),
            ("pre_nl_delay_ms"@, whole_json(PRE_NL_DELAY_MS)),
            ("post_nl_delay_ms"@, whole_json(POST_NL_DELAY_MS)),
            (
                "actions"@,
                Json::List(ended(d.actions).map_values(|a: ActionView| action_json(a))),
            ),
        ],
    )
}

/// The comment at the head of a written script.
pub open spec fn head() -> Seq<char> {
    "# recorded by ascii-rat-scribe\n"@
}

impl ScriptDoc {
    /// The actions as values, with an end behind them.
    fn action_nodes(&self) -> (r: Vec<Node>)
        ensures
            list_json(r@) == ended(self@.actions).map_values(|a: ActionView| action_json(a)),
    {
        let ghost all = action_views(self.actions@);
        let ghost want = ended(all).map_values(|a: ActionView| action_json(a));
        let mut nodes: Vec<Node> = Vec::new();
        let mut has_end = false;
        let mut i: usize = 0;
        while i < self.actions.len()
            invariant
                i <= self.actions@.len(),
                all == action_views(self.actions@),
                nodes@.len() == i,
                forall|k: int| 0 <= k < i ==> (#[trigger] nodes@[k])@ == action_json(all[k]),
                has_end == (i > 0 && all[i - 1] == ActionView::End),
            decreases self.actions@.len() - i,
        {
            proof {
                assert(all[i as int] == self.actions@[i as int]@);
            }
            nodes.push(self.actions[i].to_node());
            has_end = matches!(self.actions[i], Action::End);
            i += 1;
        }
        if !has_end {
            nodes.push(Action::End.to_node());
        }
        proof {
            lemma_list_json(nodes@);
            assert(list_json(nodes@) =~= want);
        }
        nodes
    }

    /// The session as the value of a script.
    pub fn to_node(&self) -> (r: Node)
        ensures
            r@ == doc_json(self@),
    {
        let mut m: Vec<(String, Node)> = Vec::new();
        push_field(&mut m, "output_file", Some(Node::Text(copy_text(self.output_file.as_str()))));
        push_field(&mut m, "cols", Some(Node::Number(show_nat(self.cols as u64))));
        push_field(&mut m, "rows", Some(Node::Number(show_nat(self.rows as u64))));
        push_field(&mut m, "start_delay_ms", Some(Node::Number(show_nat(START_DELAY_MS))));
        push_field(&mut m, "end_delay_ms", Some(Node::Number(show_nat(END_DELAY_MS))));
        push_field(&mut m, "typing_delay_ms", Some(Node::Number(show_nat(self.typing_delay_ms))));
        push_field(&mut m, "pre_nl_delay_ms", Some(Node::Number(show_nat(PRE_NL_DELAY_MS))));
        push_field(&mut m, "post_nl_delay_ms", Some(Node::Number(show_nat(POST_NL_DELAY_MS))));
        let nodes = self.action_nodes();
        push_field(&mut m, "actions", Some(Node::List(nodes)));
        proof {
            assert(table_json(m@) =~= doc_json(self@)->Table_0);
        }
        Node::Table(m)
    }

    /// The session as the text of a script, with a comment at its head. A plain session can
    /// always be written.
    pub fn to_yaml_string(&self) -> (r: Result<String, String>)
        ensures
            match r {
                Ok(text) => json_yaml(render(doc_json(self@))) matches Ok(body) && text@ == head()
                    + body,
                Err(e) => json_yaml(render(doc_json(self@))) == Err::<Seq<char>, Seq<char>>(e@),
            },
            r matches Ok(text) ==> document_of(text@, doc_json(self@)),
            plain_doc(self@) && not_too_long(doc_json(self@)) ==> r is Ok,
    {
        proof {
            if plain_doc(self@) {
                lemma_plain_doc(self@);
            }
            lemma_head();
        }
        match self.to_node().to_yaml() {
            Err(e) => Err(e),
            Ok(body) => {
                let mut text = copy_text("# recorded by ascii-rat-scribe\n");
                text.append(body.as_str());
                Ok(text)
            },
        }
    }
}

proof fn lemma_head()
    ensures
        comment_line(head()),
{
    reveal_strlit("# recorded by ascii-rat-scribe\n");
}

proof fn lemma_find_at(m: Seq<(Seq<char>, Json)>, i: int)
    requires
        0 <= i < m.len(),
        forall|j: int| i < j < m.len() ==> (#[trigger] m[j]).0 != m[i].0,
    ensures
        find(m, m[i].0) == Some(m[i].1),
    decreases m.len() - i,
{
    if i < m.len() - 1 {
        let front = m.drop_last();
        assert(m[m.len() - 1].0 != m[i].0);
        assert forall|j: int| i < j < front.len() implies (#[trigger] front[j]).0 != front[i].0 by {
            assert(front[j] == m[j]);
        }
        lemma_find_shorter(m, i);
    }
}

proof fn lemma_find_shorter(m: Seq<(Seq<char>, Json)>, i: int)
    requires
        0 <= i < m.len() - 1,
        forall|j: int| i < j < m.len() ==> (#[trigger] m[j]).0 != m[i].0,
    ensures
        find(m, m[i].0) == Some(m[i].1),
    decreases m.len(),
{
    let front = m.drop_last();
    assert(m[m.len() - 1].0 != m[i].0);
    assert forall|j: int| i < j < front.len() implies (#[trigger] front[j]).0 != front[i].0 by {
        assert(front[j] == m[j]);
    }
    if i < front.len() - 1 {
        lemma_find_shorter(front, i);
    }
}

proof fn lemma_find_none(m: Seq<(Seq<char>, Json)>, key: Seq<char>)
    requires
        forall|j: int| 0 <= j < m.len() ==> (#[trigger] m[j]).0 != key,
    ensures
        find(m, key) is None,
    decreases m.len(),
{
    if m.len() > 0 {
        let front = m.drop_last();
        assert forall|j: int| 0 <= j < front.len() implies (#[trigger] front[j]).0 != key by {
            assert(front[j] == m[j]);
        }
        assert(m[m.len() - 1].0 != key);
        lemma_find_none(front, key);
    }
}

/// The fields of a written script are found under their names, and no others.
proof fn lemma_doc_fields(m: Seq<(Seq<char>, Json)>)
    requires
        m.len() == 9,
        m[0].0 == "output_file"@,
        m[1].0 == "cols"@,
        m[2].0 == "rows"@,
        m[3].0 == "start_delay_ms"@,
        m[4].0 == "end_delay_ms"@,
        m[5].0 == "typing_delay_ms"@,
        m[6].0 == "pre_nl_delay_ms"@,
        m[7].0 == "post_nl_delay_ms"@,
        m[8].0 == "actions"@,
    ensures
        find(m, "output_file"@) == Some(m[0].1),
        find(m, "cols"@) == Some(m[1].1),
        find(m, "rows"@) == Some(m[2].1),
        find(m, "start_delay_ms"@) == Some(m[3].1),
        find(m, "end_delay_ms"@) == Some(m[4].1),
        find(m, "typing_delay_ms"@) == Some(m[5].1),
        find(m, "pre_nl_delay_ms"@) == Some(m[6].1),
        find(m, "post_nl_delay_ms"@) == Some(m[7].1),
        find(m, "actions"@) == Some(m[8].1),
        find(m, "start_delay"@) is None,
        find(m, "end_delay"@) is None,
        find(m, "typing_delay"@) is None,
        find(m, "pre_nl_delay"@) is None,
        find(m, "post_nl_delay"@) is None,
        find(m, "key_delay"@) is None,
        find(m, "key_delay_ms"@) is None,
        find(m, "with_comments"@) is None,
        find(m, "comments_at_top"@) is None,
        find(m, "filters"@) is None,
        find(m, "sudo"@) is None,
{
    reveal_strlit("output_file");
    reveal_strlit("cols");
    reveal_strlit("rows");
    reveal_strlit("start_delay_ms");
    reveal_strlit("end_delay_ms");
    reveal_strlit("typing_delay_ms");
    reveal_strlit("pre_nl_delay_ms");
    reveal_strlit("post_nl_delay_ms");
    reveal_strlit("actions");
    reveal_strlit("start_delay");
    reveal_strlit("end_delay");
    reveal_strlit("typing_delay");
    reveal_strlit("pre_nl_delay");
    reveal_strlit("post_nl_delay");
    reveal_strlit("key_delay");
    reveal_strlit("key_delay_ms");
    reveal_strlit("with_comments");
    reveal_strlit("comments_at_top");
    reveal_strlit("filters");
    reveal_strlit("sudo");
    assert("output_file"@.len() == 11);
    assert("cols"@.len() == 4);
    assert("rows"@.len() == 4);
    assert("start_delay_ms"@.len() == 14);
    assert("end_delay_ms"@.len() == 12);
    assert("typing_delay_ms"@.len() == 15);
    assert("pre_nl_delay_ms"@.len() == 15);
    assert("post_nl_delay_ms"@.len() == 16);
    assert("actions"@.len() == 7);
    assert("start_delay"@.len() == 11);
    assert("end_delay"@.len() == 9);
    assert("typing_delay"@.len() == 12);
    assert("pre_nl_delay"@.len() == 12);
    assert("post_nl_delay"@.len() == 13);
    assert("key_delay"@.len() == 9);
    assert("key_delay_ms"@.len() == 12);
    assert("with_comments"@.len() == 13);
    assert("comments_at_top"@.len() == 15);
    assert("filters"@.len() == 7);
    assert("sudo"@.len() == 4);
    assert("cols"@[0] != "rows"@[0]);
    assert("typing_delay_ms"@[0] != "pre_nl_delay_ms"@[0]);
    assert("start_delay"@[0] != "output_file"@[0]);
    assert("typing_delay"@[0] != "end_delay_ms"@[0]);
    assert("pre_nl_delay"@[0] != "end_delay_ms"@[0]);
    assert("key_delay_ms"@[0] != "end_delay_ms"@[0]);
    assert("comments_at_top"@[0] != "typing_delay_ms"@[0]);
    assert("comments_at_top"@[0] != "pre_nl_delay_ms"@[0]);
    assert("filters"@[0] != "actions"@[0]);
    assert("sudo"@[0] != "cols"@[0]);
    assert("sudo"@[0] != "rows"@[0]);
    lemma_find_at(m, 0);
    lemma_find_at(m, 1);
    lemma_find_at(m, 2);
    lemma_find_at(m, 3);
    lemma_find_at(m, 4);
    lemma_find_at(m, 5);
    lemma_find_at(m, 6);
    lemma_find_at(m, 7);
    lemma_find_at(m, 8);
    lemma_find_none(m, "start_delay"@);
    lemma_find_none(m, "end_delay"@);
    lemma_find_none(m, "typing_delay"@);
    lemma_find_none(m, "pre_nl_delay"@);
    lemma_find_none(m, "post_nl_delay"@);
    lemma_find_none(m, "key_delay"@);
    lemma_find_none(m, "key_delay_ms"@);
    lemma_find_none(m, "with_comments"@);
    lemma_find_none(m, "comments_at_top"@);
    lemma_find_none(m, "filters"@);
    lemma_find_none(m, "sudo"@);
}

/// The names of delays in milliseconds.
proof fn lemma_twins()
    ensures
        "start_delay"@ + "_ms"@ == "start_delay_ms"@,
        "end_delay"@ + "_ms"@ == "end_delay_ms"@,
        "typing_delay"@ + "_ms"@ == "typing_delay_ms"@,
        "pre_nl_delay"@ + "_ms"@ == "pre_nl_delay_ms"@,
        "post_nl_delay"@ + "_ms"@ == "post_nl_delay_ms"@,
        "key_delay"@ + "_ms"@ == "key_delay_ms"@,
{
    reveal_strlit("_ms");
    reveal_strlit("start_delay");
    reveal_strlit("start_delay_ms");
    reveal_strlit("end_delay");
    reveal_strlit("end_delay_ms");
    reveal_strlit("typing_delay");
    reveal_strlit("typing_delay_ms");
    reveal_strlit("pre_nl_delay");
    reveal_strlit("pre_nl_delay_ms");
    reveal_strlit("post_nl_delay");
    reveal_strlit("post_nl_delay_ms");
    reveal_strlit("key_delay");
    reveal_strlit("key_delay_ms");
    assert("start_delay"@ + "_ms"@ =~= "start_delay_ms"@);
    assert("end_delay"@ + "_ms"@ =~= "end_delay_ms"@);
    assert("typing_delay"@ + "_ms"@ =~= "typing_delay_ms"@);
    assert("pre_nl_delay"@ + "_ms"@ =~= "pre_nl_delay_ms"@);
    assert("post_nl_delay"@ + "_ms"@ =~= "post_nl_delay_ms"@);
    assert("key_delay"@ + "_ms"@ =~= "key_delay_ms"@);
}

/// Actions that were written are read back.
proof fn lemma_actions_read_back(actions: Seq<ActionView>)
    requires
        forall|i: int| 0 <= i < actions.len() ==> writable(#[trigger] actions[i]),
    ensures
        ({
            let items = actions.map_values(|a: ActionView| action_json(a));
            &&& actions_of(items) == Ok::<Seq<ActionView>, Seq<char>>(actions)
            &&& actions_of(ordered_list(items)) == Ok::<Seq<ActionView>, Seq<char>>(actions)
        }),
    decreases actions.len(),
{
    let items = actions.map_values(|a: ActionView| action_json(a));
    if actions.len() > 0 {
        let front = actions.drop_last();
        assert forall|i: int| 0 <= i < front.len() implies writable(#[trigger] front[i]) by {
            assert(front[i] == actions[i]);
        }
        lemma_actions_read_back(front);
        assert(items.drop_last() =~= front.map_values(|a: ActionView| action_json(a)));
        assert(writable(actions[actions.len() - 1]));
        law_action_read_back(actions.last());
        assert(ordered_list(items).drop_last() =~= ordered_list(items.drop_last()));
        assert(ordered_list(items).last() == ordered(items.last()));
        assert(front.push(actions.last()) =~= actions);
    } else {
        assert(actions =~= Seq::<ActionView>::empty());
    }
}

/// A delay in milliseconds as a range of nanoseconds.
pub open spec fn millis_range(ms: u64) -> (i64, i64) {
    ((ms * 1_000_000) as i64, (ms * 1_000_000) as i64)
}

proof fn lemma_millis(ms: u64)
    requires
        ms * 1_000_000 <= i64::MAX,
    ensures
        delay_field(Some(whole_json(ms)), 6) == Ok::<Option<(i64, i64)>, Seq<char>>(
            Some(millis_range(ms)),
        ),
{
    reveal_with_fuel(pow10, 7);
    lemma_whole_written(ms as nat, 6);
}

proof fn lemma_written_delay(
    m: Seq<(Seq<char>, Json)>,
    field: Seq<char>,
    twin: Seq<char>,
    ms: u64,
    default: (i64, i64),
)
    requires
        twin == field + "_ms"@,
        find(m, field) is None,
        find(m, twin) == Some(whole_json(ms)),
        ms * 1_000_000 <= i64::MAX,
    ensures
        script_delay(m, field, default) == Ok::<(i64, i64), Seq<char>>(millis_range(ms)),
{
    lemma_millis(ms);
}

proof fn lemma_absent_delay(
    m: Seq<(Seq<char>, Json)>,
    field: Seq<char>,
    twin: Seq<char>,
    default: (i64, i64),
)
    requires
        twin == field + "_ms"@,
        find(m, field) is None,
        find(m, twin) is None,
    ensures
        script_delay(m, field, default) == Ok::<(i64, i64), Seq<char>>(default),
{
}

/// Whether the members of a table say what a written script says.
spec fn tells(m: Seq<(Seq<char>, Json)>, d: DocView) -> bool {
    &&& find(m, "output_file"@) == Some(Json::Text(d.output_file))
    &&& find(m, "cols"@) == Some(whole_json(d.cols as u64))
    &&& find(m, "rows"@) == Some(whole_json(d.rows as u64))
    &&& find(m, "start_delay_ms"@) == Some(whole_json(START_DELAY_MS))
    &&& find(m, "end_delay_ms"@) == Some(whole_json(END_DELAY_MS))
    &&& find(m, "typing_delay_ms"@) == Some(whole_json(d.typing_delay_ms))
    &&& find(m, "pre_nl_delay_ms"@) == Some(whole_json(PRE_NL_DELAY_MS))
    &&& find(m, "post_nl_delay_ms"@) == Some(whole_json(POST_NL_DELAY_MS))
    &&& find(m, "actions"@) matches Some(Json::List(items)) && actions_of(items) == Ok::<
        Seq<ActionView>,
        Seq<char>,
    >(ended(d.actions))
    &&& find(m, "start_delay"@) is None
    &&& find(m, "end_delay"@) is None
    &&& find(m, "typing_delay"@) is None
    &&& find(m, "pre_nl_delay"@) is None
    &&& find(m, "post_nl_delay"@) is None
    &&& find(m, "key_delay"@) is None
    &&& find(m, "key_delay_ms"@) is None
    &&& find(m, "with_comments"@) is None
    &&& find(m, "comments_at_top"@) is None
    &&& find(m, "filters"@) is None
    &&& find(m, "sudo"@) is None
}

/// A written script says what it says, whatever the order of its members.
proof fn lemma_tells(d: DocView)
    requires
        forall|i: int| 0 <= i < d.actions.len() ==> writable(#[trigger] d.actions[i]),
    ensures
        tells(doc_json(d)->Table_0, d),
        tells(ordered_members(doc_json(d)->Table_0), d),
{
    let m = doc_json(d)->Table_0;
    lemma_doc_fields(m);
    let all = ended(d.actions);
    assert forall|i: int| 0 <= i < all.len() implies writable(#[trigger] all[i]) by {
        if i < d.actions.len() {
            assert(all[i] == d.actions[i]);
        }
    }
    lemma_actions_read_back(all);
    lemma_find_sorted(m, "output_file"@);
    lemma_find_sorted(m, "cols"@);
    lemma_find_sorted(m, "rows"@);
    lemma_find_sorted(m, "start_delay_ms"@);
    lemma_find_sorted(m, "end_delay_ms"@);
    lemma_find_sorted(m, "typing_delay_ms"@);
    lemma_find_sorted(m, "pre_nl_delay_ms"@);
    lemma_find_sorted(m, "post_nl_delay_ms"@);
    lemma_find_sorted(m, "actions"@);
    lemma_find_sorted(m, "start_delay"@);
    lemma_find_sorted(m, "end_delay"@);
    lemma_find_sorted(m, "typing_delay"@);
    lemma_find_sorted(m, "pre_nl_delay"@);
    lemma_find_sorted(m, "post_nl_delay"@);
    lemma_find_sorted(m, "key_delay"@);
    lemma_find_sorted(m, "key_delay_ms"@);
    lemma_find_sorted(m, "with_comments"@);
    lemma_find_sorted(m, "comments_at_top"@);
    lemma_find_sorted(m, "filters"@);
    lemma_find_sorted(m, "sudo"@);
}

/// No field of a written script is there twice.
pub proof fn lemma_doc_keys_differ(m: Seq<(Seq<char>, Json)>)
    requires
        m.len() == 9,
        m[0].0 == "output_file"@,
        m[1].0 == "cols"@,
        m[2].0 == "rows"@,
        m[3].0 == "start_delay_ms"@,
        m[4].0 == "end_delay_ms"@,
        m[5].0 == "typing_delay_ms"@,
        m[6].0 == "pre_nl_delay_ms"@,
        m[7].0 == "post_nl_delay_ms"@,
        m[8].0 == "actions"@,
    ensures
        distinct_keys(m),
{
    reveal_strlit("output_file");
    reveal_strlit("cols");
    reveal_strlit("rows");
    reveal_strlit("start_delay_ms");
    reveal_strlit("end_delay_ms");
    reveal_strlit("typing_delay_ms");
    reveal_strlit("pre_nl_delay_ms");
    reveal_strlit("post_nl_delay_ms");
    reveal_strlit("actions");
    assert("cols"@[0] != "rows"@[0]);
    assert("typing_delay_ms"@[0] != "pre_nl_delay_ms"@[0]);
    assert(m[0].0.len() == 11);
    assert(m[1].0.len() == 4);
    assert(m[2].0.len() == 4);
    assert(m[3].0.len() == 14);
    assert(m[4].0.len() == 12);
    assert(m[5].0.len() == 15);
    assert(m[6].0.len() == 15);
    assert(m[7].0.len() == 16);
    assert(m[8].0.len() == 7);
}

/// The delays of a written script.
proof fn lemma_written_delays(m: Seq<(Seq<char>, Json)>, d: DocView)
    requires
        tells(m, d),
        d.typing_delay_ms * 1_000_000 <= i64::MAX,
    ensures
        script_delays(m) == Ok::<Delays, Seq<char>>(
            Delays {
                start: millis_range(START_DELAY_MS),
                end: millis_range(END_DELAY_MS),
                typing: millis_range(d.typing_delay_ms),
                pre_nl: millis_range(PRE_NL_DELAY_MS),
                post_nl: millis_range(POST_NL_DELAY_MS),
                key: DEFAULT_KEY_DELAY,
            },
        ),
{
    lemma_twins();
    lemma_written_delay(m, "start_delay"@, "start_delay_ms"@, START_DELAY_MS, (0, 0));
    lemma_written_delay(m, "end_delay"@, "end_delay_ms"@, END_DELAY_MS, (0, 0));
    lemma_written_delay(m, "typing_delay"@, "typing_delay_ms"@, d.typing_delay_ms, (0, 0));
    lemma_written_delay(m, "pre_nl_delay"@, "pre_nl_delay_ms"@, PRE_NL_DELAY_MS, (0, 0));
    lemma_written_delay(m, "post_nl_delay"@, "post_nl_delay_ms"@, POST_NL_DELAY_MS, (0, 0));
    lemma_absent_delay(m, "key_delay"@, "key_delay_ms"@, DEFAULT_KEY_DELAY);
}

/// The script that a session is written as: its actions, ended, with its size and delays.
pub open spec fn doc_script(d: DocView) -> ScriptView {
    ScriptView {
        output_file: d.output_file,
        start_delay: millis_range(START_DELAY_MS),
        end_delay: millis_range(END_DELAY_MS),
        typing_delay: millis_range(d.typing_delay_ms),
        pre_nl_delay: millis_range(PRE_NL_DELAY_MS),
        post_nl_delay: millis_range(POST_NL_DELAY_MS),
        key_delay: DEFAULT_KEY_DELAY,
        with_comments: false,
        comments_at_top: false,
        actions: ended(d.actions),
        filters: Seq::empty(),
        cols: Some(d.cols),
        rows: Some(d.rows),
        sudo: None,
    }
}

proof fn lemma_told_script(m: Seq<(Seq<char>, Json)>, d: DocView)
    requires
        tells(m, d),
        d.typing_delay_ms * 1_000_000 <= i64::MAX,
    ensures
        script_of(Json::Table(m)) == Ok::<ScriptView, Seq<char>>(doc_script(d)),
{
    lemma_written_delays(m, d);
    law_whole_read_back(d.cols as int);
    law_whole_read_back(d.rows as int);
    assert(needed_text(find(m, "output_file"@), "output_file"@) == Ok::<Seq<char>, Seq<char>>(
        d.output_file,
    ));
    assert(script_size(find(m, "cols"@), "cols"@) == Ok::<Option<u16>, Seq<char>>(Some(d.cols)));
    assert(script_size(find(m, "rows"@), "rows"@) == Ok::<Option<u16>, Seq<char>>(Some(d.rows)));
    assert(script_actions(find(m, "actions"@)) == Ok::<Seq<ActionView>, Seq<char>>(
        ended(d.actions),
    ));
    assert(script_filters(find(m, "filters"@)) == Ok::<Seq<FilterView>, Seq<char>>(Seq::empty()));
    assert(script_sudo(find(m, "sudo"@)) == Ok::<Option<Seq<Seq<char>>>, Seq<char>>(None));
    assert(script_switch(find(m, "with_comments"@), "with_comments"@) == Ok::<bool, Seq<char>>(
        false,
    ));
    assert(script_switch(find(m, "comments_at_top"@), "comments_at_top"@) == Ok::<
        bool,
        Seq<char>,
    >(false));
}

/// A session that was written reads back as the script that it was written as, whatever the order
/// in which the members of tables are read.
pub proof fn law_session_read_back(d: DocView)
    requires
        forall|i: int| 0 <= i < d.actions.len() ==> writable(#[trigger] d.actions[i]),
        d.typing_delay_ms * 1_000_000 <= i64::MAX,
    ensures
        script_of(doc_json(d)) == Ok::<ScriptView, Seq<char>>(doc_script(d)),
        script_of(ordered(doc_json(d))) == Ok::<ScriptView, Seq<char>>(doc_script(d)),
{
    lemma_tells(d);
    lemma_told_script(doc_json(d)->Table_0, d);
    lemma_told_script(ordered_members(doc_json(d)->Table_0), d);
}

/// The script that is written of a session makes the recording that was asked for, in the size of
/// the session, with its typing delay and its actions, all of them and in order, and one end behind
/// them unless they end with one. The other delays are half a second before the first action,
/// behind the last and behind a line, and a fifth of a second before its end.
pub proof fn law_session_is_told_by_its_script(d: DocView)
    requires
        forall|i: int| 0 <= i < d.actions.len() ==> writable(#[trigger] d.actions[i]),
        d.typing_delay_ms * 1_000_000 <= i64::MAX,
    ensures
        script_of(doc_json(d)) matches Ok(s) && {
            &&& s.output_file == d.output_file
            &&& s.cols == Some(d.cols)
            &&& s.rows == Some(d.rows)
            &&& s.typing_delay == (
                (d.typing_delay_ms * 1_000_000) as i64,
                (d.typing_delay_ms * 1_000_000) as i64,
            )
            &&& s.start_delay == (500_000_000i64, 500_000_000i64)
            &&& s.end_delay == (500_000_000i64, 500_000_000i64)
            &&& s.pre_nl_delay == (200_000_000i64, 200_000_000i64)
            &&& s.post_nl_delay == (500_000_000i64, 500_000_000i64)
            &&& s.key_delay == (80_000_000i64, 120_000_000i64)
            &&& d.actions.len() > 0 && d.actions.last() == ActionView::End ==> s.actions
                == d.actions
            &&& d.actions.len() == 0 || d.actions.last() != ActionView::End ==> s.actions
                == d.actions + seq![ActionView::End]
            &&& !s.with_comments
            &&& !s.comments_at_top
            &&& s.filters.len() == 0
            &&& s.sudo is None
        },
        head() == "# recorded by ascii-rat-scribe\n"@,
{
    law_session_read_back(d);
    assert(d.actions + seq![ActionView::End] =~= d.actions.push(ActionView::End));
}

} // verus!
