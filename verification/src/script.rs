//! Scripts: their header fields, and reading them from YAML.

use crate::actions::{
    action_of, action_views, invalid, missing, needed_text, needed_text_of, Action, ActionView,
};
use crate::cast::copy_texts;
use crate::decimal::{
    law_whole_read_back, lemma_whole_written, parse_scaled, parse_whole, pow10, scaled, whole,
    whole_text,
};
use crate::filters::{filter_views, Filter, FilterView};
use crate::json::{
    find, find_member, found_json, law_texts_are_read, lemma_list_json, lemma_table_json,
    list_json, read_texts, table_json, texts_of, Json, Node,
};
use crate::text::{copy_text, message_of, same_text, views};
use vstd::prelude::*;

verus! {

/// The delay after a key press where a script sets none, in nanoseconds.
pub const DEFAULT_KEY_DELAY: (i64, i64) = (80_000_000, 120_000_000);

/// Password prompts to answer.
#[derive(Debug, PartialEq)]
pub struct SudoConfig {
    pub prompts: Vec<String>,
}

/// A script: what to record and how. A delay is a range of nanoseconds to pick from.
#[derive(Debug, PartialEq)]
pub struct Script {
    pub output_file: String,
    pub start_delay: (i64, i64),
    pub end_delay: (i64, i64),
    pub typing_delay: (i64, i64),
    pub pre_nl_delay: (i64, i64),
    pub post_nl_delay: (i64, i64),
    pub key_delay: (i64, i64),
    pub with_comments: bool,
    pub comments_at_top: bool,
    pub actions: Vec<Action>,
    pub filters: Vec<Filter>,
    pub cols: Option<u16>,
    pub rows: Option<u16>,
    pub sudo: Option<SudoConfig>,
}

/// A script as mathematics.
#[verifier::ext_equal]
pub struct ScriptView {
    pub output_file: Seq<char>,
    pub start_delay: (i64, i64),
    pub end_delay: (i64, i64),
    pub typing_delay: (i64, i64),
    pub pre_nl_delay: (i64, i64),
    pub post_nl_delay: (i64, i64),
    pub key_delay: (i64, i64),
    pub with_comments: bool,
    pub comments_at_top: bool,
    pub actions: Seq<ActionView>,
    pub filters: Seq<FilterView>,
    pub cols: Option<u16>,
    pub rows: Option<u16>,
    pub sudo: Option<Seq<Seq<char>>>,
}

impl View for Script {
    type V = ScriptView;

    open spec fn view(&self) -> ScriptView {
        ScriptView {
            output_file: self.output_file@,
            start_delay: self.start_delay,
            end_delay: self.end_delay,
            typing_delay: self.typing_delay,
            pre_nl_delay: self.pre_nl_delay,
            post_nl_delay: self.post_nl_delay,
            key_delay: self.key_delay,
            with_comments: self.with_comments,
            comments_at_top: self.comments_at_top,
            actions: action_views(self.actions@),
            filters: filter_views(self.filters@),
            cols: self.cols,
            rows: self.rows,
            sudo: match self.sudo {
                Some(config) => Some(views(config.prompts@)),
                None => None,
            },
        }
    }
}

/// The prompts that are answered where a script names none.
pub open spec fn default_prompts() -> Seq<Seq<char>> {
    seq!["assword"@, "[sudo]"@]
}

/// A list of two numbers or one number as a range, in units of ten to the power of `-places`.
pub open spec fn delay_range(j: Json, places: nat) -> Result<(i64, i64), Seq<char>> {
    match j {
        Json::Number(t) => match scaled(t, places) {
            Some(v) => Ok((v as i64, v as i64)),
            None => Err(invalid("delay"@)),
        },
        Json::List(items) => {
            if items.len() == 0 {
                Err("delay range needs a low value"@)
            } else {
                match delay_range_end(items[0], places) {
                    Err(e) => Err(e),
                    Ok(low) => {
                        if items.len() == 1 {
                            Err("delay range needs a high value"@)
                        } else {
                            match delay_range_end(items[1], places) {
                                Err(e) => Err(e),
                                Ok(high) => {
                                    if items.len() > 2 {
                                        Err(
                                            "delay range must have exactly two values [low, high]"@,
                                        )
                                    } else {
                                        Ok((low, high))
                                    }
                                },
                            }
                        }
                    },
                }
            }
        },
        _ => Err("a delay must be a number or a [low, high] two-element list"@),
    }
}

/// One end of a range.
pub open spec fn delay_range_end(j: Json, places: nat) -> Result<i64, Seq<char>> {
    match j {
        Json::Number(t) => match scaled(t, places) {
            Some(v) => Ok(v as i64),
            None => Err(invalid("delay"@)),
        },
        _ => Err(invalid("delay"@)),
    }
}

/// A delay field that may be absent.
pub open spec fn delay_field(j: Option<Json>, places: nat) -> Result<
    Option<(i64, i64)>,
    Seq<char>,
> {
    match j {
        None => Ok(None),
        Some(Json::Null) => Ok(None),
        Some(v) => match delay_range(v, places) {
            Ok(range) => Ok(Some(range)),
            Err(e) => Err(e),
        },
    }
}

/// A delay that may be spelled in seconds or in milliseconds, but not in both.
pub open spec fn resolved(
    seconds: Option<(i64, i64)>,
    millis: Option<(i64, i64)>,
    field: Seq<char>,
    default: Option<(i64, i64)>,
) -> Result<(i64, i64), Seq<char>> {
    match (seconds, millis) {
        (Some(_), Some(_)) => Err(
            "use either `"@ + field + "` (seconds) or `"@ + field
                + "_ms` (milliseconds), not both"@,
        ),
        (Some(range), None) => Ok(range),
        (None, Some(range)) => Ok(range),
        (None, None) => match default {
            Some(range) => Ok(range),
            None => Err("missing field `"@ + field + "` (or `"@ + field + "_ms`)"@),
        },
    }
}

/// The delay that a script sets under a name, or the default.
pub open spec fn script_delay(
    m: Seq<(Seq<char>, Json)>,
    field: Seq<char>,
    default: (i64, i64),
) -> Result<(i64, i64), Seq<char>> {
    match delay_field(find(m, field), 9) {
        Err(e) => Err(e),
        Ok(seconds) => match delay_field(find(m, field + "_ms"@), 6) {
            Err(e) => Err(e),
            Ok(millis) => resolved(seconds, millis, field, Some(default)),
        },
    }
}

/// A switch that is off where it is absent.
pub open spec fn script_switch(j: Option<Json>, field: Seq<char>) -> Result<bool, Seq<char>> {
    match j {
        None => Ok(false),
        Some(Json::Bool(b)) => Ok(b),
        Some(_) => Err(invalid(field)),
    }
}

/// A number of columns or rows that may be absent.
pub open spec fn script_size(j: Option<Json>, field: Seq<char>) -> Result<Option<u16>, Seq<char>> {
    match j {
        None => Ok(None),
        Some(Json::Null) => Ok(None),
        Some(Json::Number(t)) => match whole(t) {
            Some(n) => if 0 <= n <= u16::MAX {
                Ok(Some(n as u16))
            } else {
                Err(invalid(field))
            },
            None => Err(invalid(field)),
        },
        Some(_) => Err(invalid(field)),
    }
}

/// The prompts to answer: none, the default ones, or those of a list.
pub open spec fn script_sudo(j: Option<Json>) -> Result<Option<Seq<Seq<char>>>, Seq<char>> {
    match j {
        None => Ok(None),
        Some(Json::Null) => Ok(None),
        Some(Json::Bool(b)) => if b {
            Ok(Some(default_prompts()))
        } else {
            Ok(None)
        },
        Some(Json::Table(m)) => match find(m, "prompts"@) {
            None => Ok(Some(default_prompts())),
            Some(Json::List(items)) => match read_texts(items) {
                Some(list) => Ok(Some(list)),
                None => Err(invalid("sudo"@)),
            },
            Some(_) => Err(invalid("sudo"@)),
        },
        Some(_) => Err(invalid("sudo"@)),
    }
}

/// The actions that a list of values stands for, or the first fault.
pub open spec fn actions_of(items: Seq<Json>) -> Result<Seq<ActionView>, Seq<char>>
    decreases items.len(),
{
    if items.len() == 0 {
        Ok(Seq::empty())
    } else {
        match actions_of(items.drop_last()) {
            Err(e) => Err(e),
            Ok(list) => match action_of(items.last()) {
                Err(e) => Err(e),
                Ok(a) => Ok(list.push(a)),
            },
        }
    }
}

/// The actions of a script. They must be there.
pub open spec fn script_actions(j: Option<Json>) -> Result<Seq<ActionView>, Seq<char>> {
    match j {
        None => Err(missing("actions"@)),
        Some(Json::Null) => Ok(Seq::empty()),
        Some(Json::List(items)) => actions_of(items),
        Some(_) => Err(invalid("actions"@)),
    }
}

/// Whether a filter has a field of that name.
pub open spec fn is_filter_field(key: Seq<char>) -> bool {
    key == "filter_id"@ || key == "regex"@ || key == "replacement"@ || key == "start_label"@ || key
        == "end_label"@
}

/// The first field that no filter has.
pub open spec fn unknown_field(m: Seq<(Seq<char>, Json)>) -> Option<Seq<char>>
    decreases m.len(),
{
    if m.len() == 0 {
        None
    } else {
        match unknown_field(m.drop_last()) {
            Some(key) => Some(key),
            None => if is_filter_field(m.last().0) {
                None
            } else {
                Some(m.last().0)
            },
        }
    }
}

/// The filter that a mapping stands for, or what is wrong with it.
pub open spec fn filter_of(j: Json) -> Result<FilterView, Seq<char>> {
    match j {
        Json::Table(m) => match unknown_field(m) {
            Some(key) => Err("unknown field `"@ + key + "`"@),
            None => match needed_text(find(m, "filter_id"@), "filter_id"@) {
                Err(e) => Err(e),
                Ok(id) => {
                    if id == "RegexReplacementFilter"@ {
                        match needed_text(find(m, "regex"@), "regex"@) {
                            Err(e) => Err(e),
                            Ok(regex) => match needed_text(
                                find(m, "replacement"@),
                                "replacement"@,
                            ) {
                                Err(e) => Err(e),
                                Ok(replacement) => Ok(
                                    FilterView::RegexReplacement { regex, replacement },
                                ),
                            },
                        }
                    } else if id == "StartMarkerFilter"@ {
                        match needed_text(find(m, "start_label"@), "start_label"@) {
                            Err(e) => Err(e),
                            Ok(start_label) => Ok(FilterView::StartMarker { start_label }),
                        }
                    } else if id == "EndMarkerFilter"@ {
                        match needed_text(find(m, "end_label"@), "end_label"@) {
                            Err(e) => Err(e),
                            Ok(end_label) => Ok(FilterView::EndMarker { end_label }),
                        }
                    } else if id == "CommentFilter"@ {
                        Ok(FilterView::Comment)
                    } else {
                        Err("Invalid filter "@ + id)
                    }
                },
            },
        },
        _ => Err("a filter must be a mapping with a `filter_id` field"@),
    }
}

/// The filters that a list of values stands for, or the first fault.
pub open spec fn filters_of(items: Seq<Json>) -> Result<Seq<FilterView>, Seq<char>>
    decreases items.len(),
{
    if items.len() == 0 {
        Ok(Seq::empty())
    } else {
        match filters_of(items.drop_last()) {
            Err(e) => Err(e),
            Ok(list) => match filter_of(items.last()) {
                Err(e) => Err(e),
                Ok(f) => Ok(list.push(f)),
            },
        }
    }
}

/// The filters of a script; none where they are absent.
pub open spec fn script_filters(j: Option<Json>) -> Result<Seq<FilterView>, Seq<char>> {
    match j {
        None => Ok(Seq::empty()),
        Some(Json::Null) => Ok(Seq::empty()),
        Some(Json::List(items)) => filters_of(items),
        Some(_) => Err(invalid("filters"@)),
    }
}

/// The delays of a script, in the order of its fields.
pub struct Delays {
    pub start: (i64, i64),
    pub end: (i64, i64),
    pub typing: (i64, i64),
    pub pre_nl: (i64, i64),
    pub post_nl: (i64, i64),
    pub key: (i64, i64),
}

/// The delays that a script sets, or the first fault. All but the delay after a key press are
/// zero where they are absent.
pub open spec fn script_delays(m: Seq<(Seq<char>, Json)>) -> Result<Delays, Seq<char>> {
    match script_delay(m, "start_delay"@, (0, 0)) {
        Err(e) => Err(e),
        Ok(start) => match script_delay(m, "end_delay"@, (0, 0)) {
            Err(e) => Err(e),
            Ok(end) => match script_delay(m, "typing_delay"@, (0, 0)) {
                Err(e) => Err(e),
                Ok(typing) => match script_delay(m, "pre_nl_delay"@, (0, 0)) {
                    Err(e) => Err(e),
                    Ok(pre_nl) => match script_delay(m, "post_nl_delay"@, (0, 0)) {
                        Err(e) => Err(e),
                        Ok(post_nl) => match script_delay(m, "key_delay"@, DEFAULT_KEY_DELAY) {
                            Err(e) => Err(e),
                            Ok(key) => Ok(Delays { start, end, typing, pre_nl, post_nl, key }),
                        },
                    },
                },
            },
        },
    }
}

/// The script that the members of a mapping stand for, or the first fault. Other members are
/// left aside.
pub open spec fn script_of_members(m: Seq<(Seq<char>, Json)>) -> Result<ScriptView, Seq<char>> {
    match needed_text(find(m, "output_file"@), "output_file"@) {
        Err(e) => Err(e),
        Ok(output_file) => match script_delays(m) {
            Err(e) => Err(e),
            Ok(delays) => match script_switch(find(m, "with_comments"@), "with_comments"@) {
                Err(e) => Err(e),
                Ok(with_comments) => match script_switch(
                    find(m, "comments_at_top"@),
                    "comments_at_top"@,
                ) {
                    Err(e) => Err(e),
                    Ok(comments_at_top) => match script_actions(find(m, "actions"@)) {
                        Err(e) => Err(e),
                        Ok(actions) => match script_filters(find(m, "filters"@)) {
                            Err(e) => Err(e),
                            Ok(filters) => match script_size(find(m, "cols"@), "cols"@) {
                                Err(e) => Err(e),
                                Ok(cols) => match script_size(find(m, "rows"@), "rows"@) {
                                    Err(e) => Err(e),
                                    Ok(rows) => match script_sudo(find(m, "sudo"@)) {
                                        Err(e) => Err(e),
                                        Ok(sudo) => Ok(
                                            ScriptView {
                                                output_file,
                                                start_delay: delays.start,
                                                end_delay: delays.end,
                                                typing_delay: delays.typing,
                                                pre_nl_delay: delays.pre_nl,
                                                post_nl_delay: delays.post_nl,
                                                key_delay: delays.key,
                                                with_comments,
                                                comments_at_top,
                                                actions,
                                                filters,
                                                cols,
                                                rows,
                                                sudo,
                                            },
                                        ),
                                    },
                                },
                            },
                        },
                    },
                },
            },
        },
    }
}

/// The script that a value stands for, or what is wrong with it.
pub open spec fn script_of(j: Json) -> Result<ScriptView, Seq<char>> {
    match j {
        Json::Table(m) => script_of_members(m),
        _ => Err("a script must be a mapping"@),
    }
}

impl Default for SudoConfig {
    fn default() -> (r: SudoConfig)
        ensures
            views(r.prompts@) == default_prompts(),
    {
        let mut prompts: Vec<String> = Vec::new();
        prompts.push(copy_text("assword"));
        prompts.push(copy_text("[sudo]"));
        proof {
            assert(views(prompts@) =~= default_prompts());
        }
        SudoConfig { prompts }
    }
}

impl Clone for SudoConfig {
    fn clone(&self) -> (r: SudoConfig)
        ensures
            views(r.prompts@) == views(self.prompts@),
    {
        SudoConfig { prompts: copy_texts(&self.prompts) }
    }
}

/// Reads one end of a range.
fn read_range_end(node: &Node, places: u32) -> (r: Result<i64, String>)
    ensures
        match r {
            Ok(v) => delay_range_end(node@, places as nat) == Ok::<i64, Seq<char>>(v),
            Err(e) => delay_range_end(node@, places as nat) == Err::<i64, Seq<char>>(e@),
        },
{
    match node {
        Node::Number(t) => match parse_scaled(t.as_str(), places) {
            Some(v) => Ok(v),
            None => Err(message_of("invalid value for `", "delay", "`")),
        },
        _ => Err(message_of("invalid value for `", "delay", "`")),
    }
}

/// Reads a range: one number, or a list of two.
fn read_range(node: &Node, places: u32) -> (r: Result<(i64, i64), String>)
    ensures
        match r {
            Ok(v) => delay_range(node@, places as nat) == Ok::<(i64, i64), Seq<char>>(v),
            Err(e) => delay_range(node@, places as nat) == Err::<(i64, i64), Seq<char>>(e@),
        },
{
    match node {
        Node::Number(t) => match parse_scaled(t.as_str(), places) {
            Some(v) => Ok((v, v)),
            None => Err(message_of("invalid value for `", "delay", "`")),
        },
        Node::List(items) => {
            proof {
                lemma_list_json(items@);
            }
            if items.len() == 0 {
                return Err(copy_text("delay range needs a low value"));
            }
            let low = match read_range_end(&items[0], places) {
                Ok(v) => v,
                Err(e) => {
                    return Err(e);
                },
            };
            if items.len() == 1 {
                return Err(copy_text("delay range needs a high value"));
            }
            let high = match read_range_end(&items[1], places) {
                Ok(v) => v,
                Err(e) => {
                    return Err(e);
                },
            };
            if items.len() > 2 {
                return Err(copy_text("delay range must have exactly two values [low, high]"));
            }
            Ok((low, high))
        },
        _ => Err(copy_text("a delay must be a number or a [low, high] two-element list")),
    }
}

/// Reads a delay field that may be absent.
fn read_delay_field(node: Option<&Node>, places: u32) -> (r: Result<Option<(i64, i64)>, String>)
    ensures
        match r {
            Ok(v) => delay_field(found_json(node), places as nat) == Ok::<
                Option<(i64, i64)>,
                Seq<char>,
            >(v),
            Err(e) => delay_field(found_json(node), places as nat) == Err::<
                Option<(i64, i64)>,
                Seq<char>,
            >(e@),
        },
{
    match node {
        None => Ok(None),
        Some(Node::Null) => Ok(None),
        Some(v) => match read_range(v, places) {
            Ok(range) => Ok(Some(range)),
            Err(e) => Err(e),
        },
    }
}

/// Picks the delay that is set, in seconds or in milliseconds but not in both.
pub fn resolve_delay(
    seconds: Option<(i64, i64)>,
    millis: Option<(i64, i64)>,
    field: &str,
    default: Option<(i64, i64)>,
) -> (r: Result<(i64, i64), String>)
    ensures
        match r {
            Ok(v) => resolved(seconds, millis, field@, default) == Ok::<(i64, i64), Seq<char>>(v),
            Err(e) => resolved(seconds, millis, field@, default) == Err::<(i64, i64), Seq<char>>(
                e@,
            ),
        },
{
    match (seconds, millis) {
        (Some(_), Some(_)) => {
            let mut e = message_of("use either `", field, "` (seconds) or `");
            e.append(field);
            e.append("_ms` (milliseconds), not both");
            Err(e)
        },
        (Some(range), None) => Ok(range),
        (None, Some(range)) => Ok(range),
        (None, None) => match default {
            Some(range) => Ok(range),
            None => {
                let mut e = message_of("missing field `", field, "` (or `");
                e.append(field);
                e.append("_ms`)");
                Err(e)
            },
        },
    }
}

/// Reads a delay of a script.
fn read_delay(m: &Vec<(String, Node)>, field: &str, default: (i64, i64)) -> (r: Result<
    (i64, i64),
    String,
>)
    ensures
        match r {
            Ok(v) => script_delay(table_json(m@), field@, default) == Ok::<(i64, i64), Seq<char>>(
                v,
            ),
            Err(e) => script_delay(table_json(m@), field@, default) == Err::<
                (i64, i64),
                Seq<char>,
            >(e@),
        },
{
    let seconds = match read_delay_field(find_member(m, field), 9) {
        Ok(v) => v,
        Err(e) => {
            return Err(e);
        },
    };
    let mut twin = copy_text(field);
    twin.append("_ms");
    let millis = match read_delay_field(find_member(m, twin.as_str()), 6) {
        Ok(v) => v,
        Err(e) => {
            return Err(e);
        },
    };
    resolve_delay(seconds, millis, field, Some(default))
}

/// Reads the delays of a script.
fn read_delays(m: &Vec<(String, Node)>) -> (r: Result<Delays, String>)
    ensures
        match r {
            Ok(v) => script_delays(table_json(m@)) == Ok::<Delays, Seq<char>>(v),
            Err(e) => script_delays(table_json(m@)) == Err::<Delays, Seq<char>>(e@),
        },
{
    let start = match read_delay(m, "start_delay", (0, 0)) {
        Ok(v) => v,
        Err(e) => {
            return Err(e);
        },
    };
    let end = match read_delay(m, "end_delay", (0, 0)) {
        Ok(v) => v,
        Err(e) => {
            return Err(e);
        },
    };
    let typing = match read_delay(m, "typing_delay", (0, 0)) {
        Ok(v) => v,
        Err(e) => {
            return Err(e);
        },
    };
    let pre_nl = match read_delay(m, "pre_nl_delay", (0, 0)) {
        Ok(v) => v,
        Err(e) => {
            return Err(e);
        },
    };
    let post_nl = match read_delay(m, "post_nl_delay", (0, 0)) {
        Ok(v) => v,
        Err(e) => {
            return Err(e);
        },
    };
    let key = match read_delay(m, "key_delay", DEFAULT_KEY_DELAY) {
        Ok(v) => v,
        Err(e) => {
            return Err(e);
        },
    };
    Ok(Delays { start, end, typing, pre_nl, post_nl, key })
}

/// Reads a switch.
fn read_switch(node: Option<&Node>, field: &str) -> (r: Result<bool, String>)
    ensures
        match r {
            Ok(v) => script_switch(found_json(node), field@) == Ok::<bool, Seq<char>>(v),
            Err(e) => script_switch(found_json(node), field@) == Err::<bool, Seq<char>>(e@),
        },
{
    match node {
        None => Ok(false),
        Some(Node::Bool(b)) => Ok(*b),
        Some(_) => Err(message_of("invalid value for `", field, "`")),
    }
}

/// Reads a number of columns or rows.
fn read_script_size(node: Option<&Node>, field: &str) -> (r: Result<Option<u16>, String>)
    ensures
        match r {
            Ok(v) => script_size(found_json(node), field@) == Ok::<Option<u16>, Seq<char>>(v),
            Err(e) => script_size(found_json(node), field@) == Err::<Option<u16>, Seq<char>>(e@),
        },
{
    match node {
        None => Ok(None),
        Some(Node::Null) => Ok(None),
        Some(Node::Number(t)) => match parse_whole(t.as_str()) {
            Some(n) => if 0 <= n && n <= 0xffff {
                Ok(Some(n as u16))
            } else {
                Err(message_of("invalid value for `", field, "`"))
            },
            None => Err(message_of("invalid value for `", field, "`")),
        },
        Some(_) => Err(message_of("invalid value for `", field, "`")),
    }
}

/// The view of optional prompts.
pub open spec fn sudo_view(config: Option<SudoConfig>) -> Option<Seq<Seq<char>>> {
    match config {
        Some(c) => Some(views(c.prompts@)),
        None => None,
    }
}

/// Reads the prompts to answer.
fn read_sudo(node: Option<&Node>) -> (r: Result<Option<SudoConfig>, String>)
    ensures
        match r {
            Ok(v) => script_sudo(found_json(node)) == Ok::<Option<Seq<Seq<char>>>, Seq<char>>(
                sudo_view(v),
            ),
            Err(e) => script_sudo(found_json(node)) == Err::<Option<Seq<Seq<char>>>, Seq<char>>(e@),
        },
{
    match node {
        None => Ok(None),
        Some(Node::Null) => Ok(None),
        Some(Node::Bool(b)) => if *b {
            Ok(Some(SudoConfig::default()))
        } else {
            Ok(None)
        },
        Some(Node::Table(m)) => match find_member(m, "prompts") {
            None => Ok(Some(SudoConfig::default())),
            Some(Node::List(items)) => match texts_of(items) {
                Some(prompts) => Ok(Some(SudoConfig { prompts })),
                None => Err(message_of("invalid value for `", "sudo", "`")),
            },
            Some(_) => Err(message_of("invalid value for `", "sudo", "`")),
        },
        Some(_) => Err(message_of("invalid value for `", "sudo", "`")),
    }
}

proof fn lemma_actions_fail(items: Seq<Json>, i: int)
    requires
        0 <= i <= items.len(),
        actions_of(items.take(i)) is Err,
    ensures
        actions_of(items) == actions_of(items.take(i)),
    decreases items.len() - i,
{
    if i < items.len() {
        assert(items.take(i + 1).drop_last() =~= items.take(i));
        lemma_actions_fail(items, i + 1);
    } else {
        assert(items.take(i) =~= items);
    }
}

/// Reads the actions of a script.
fn read_actions(node: Option<&Node>) -> (r: Result<Vec<Action>, String>)
    ensures
        match r {
            Ok(v) => script_actions(found_json(node)) == Ok::<Seq<ActionView>, Seq<char>>(
                action_views(v@),
            ),
            Err(e) => script_actions(found_json(node)) == Err::<Seq<ActionView>, Seq<char>>(e@),
        },
{
    let mut out: Vec<Action> = Vec::new();
    proof {
        assert(action_views(out@) =~= Seq::<ActionView>::empty());
    }
    let items = match node {
        None => {
            return Err(message_of("missing field `", "actions", "`"));
        },
        Some(Node::Null) => {
            return Ok(out);
        },
        Some(Node::List(items)) => items,
        Some(_) => {
            return Err(message_of("invalid value for `", "actions", "`"));
        },
    };
    let ghost all = list_json(items@);
    let mut i: usize = 0;
    proof {
        lemma_list_json(items@);
        assert(all.take(0) =~= Seq::<Json>::empty());
    }
    while i < items.len()
        invariant
            i <= items@.len(),
            all == list_json(items@),
            found_json(node) == Some(Json::List(all)),
            all.len() == items@.len(),
            forall|k: int| 0 <= k < all.len() ==> #[trigger] all[k] == items@[k]@,
            actions_of(all.take(i as int)) == Ok::<Seq<ActionView>, Seq<char>>(action_views(out@)),
        decreases items@.len() - i,
    {
        let ghost before = action_views(out@);
        proof {
            assert(all.take(i + 1).drop_last() =~= all.take(i as int));
            assert(all.take(i + 1).last() == items@[i as int]@);
        }
        match Action::from_node(&items[i]) {
            Err(e) => {
                proof {
                    lemma_actions_fail(all, i + 1);
                }
                return Err(e);
            },
            Ok(a) => {
                out.push(a);
                proof {
                    assert(action_views(out@) =~= before.push(a@));
                }
            },
        }
        i += 1;
    }
    proof {
        assert(all.take(i as int) =~= all);
    }
    Ok(out)
}

/// Finds the first field that no filter has.
fn find_unknown(m: &Vec<(String, Node)>) -> (r: Option<String>)
    ensures
        match r {
            Some(key) => unknown_field(table_json(m@)) == Some(key@),
            None => unknown_field(table_json(m@)) is None,
        },
{
    let ghost all = table_json(m@);
    let mut i: usize = 0;
    proof {
        lemma_table_json(m@);
        assert(all.take(0) =~= Seq::<(Seq<char>, Json)>::empty());
    }
    while i < m.len()
        invariant
            i <= m@.len(),
            all == table_json(m@),
            all.len() == m@.len(),
            forall|k: int| 0 <= k < all.len() ==> #[trigger] all[k] == (m@[k].0@, m@[k].1@),
            unknown_field(all.take(i as int)) is None,
        decreases m@.len() - i,
    {
        let key = m[i].0.as_str();
        proof {
            assert(all.take(i + 1).drop_last() =~= all.take(i as int));
            assert(all.take(i + 1).last() == all[i as int]);
        }
        if !(same_text(key, "filter_id") || same_text(key, "regex") || same_text(key, "replacement")
            || same_text(key, "start_label") || same_text(key, "end_label")) {
            proof {
                lemma_unknown_found(all, i + 1);
            }
            return Some(copy_text(key));
        }
        i += 1;
    }
    proof {
        assert(all.take(i as int) =~= all);
    }
    None
}

proof fn lemma_unknown_found(m: Seq<(Seq<char>, Json)>, i: int)
    requires
        0 <= i <= m.len(),
        unknown_field(m.take(i)) is Some,
    ensures
        unknown_field(m) == unknown_field(m.take(i)),
    decreases m.len() - i,
{
    if i < m.len() {
        assert(m.take(i + 1).drop_last() =~= m.take(i));
        lemma_unknown_found(m, i + 1);
    } else {
        assert(m.take(i) =~= m);
    }
}

impl Filter {
    /// Reads a filter from a value of a script.
    pub fn from_node(node: &Node) -> (r: Result<Filter, String>)
        ensures
            match r {
                Ok(f) => filter_of(node@) == Ok::<FilterView, Seq<char>>(f@),
                Err(e) => filter_of(node@) == Err::<FilterView, Seq<char>>(e@),
            },
    {
        let m = match node {
            Node::Table(m) => m,
            _ => {
                return Err(copy_text("a filter must be a mapping with a `filter_id` field"));
            },
        };
        if let Some(key) = find_unknown(m) {
            return Err(message_of("unknown field `", key.as_str(), "`"));
        }
        let id = match needed_text_of(find_member(m, "filter_id"), "filter_id") {
            Ok(id) => id,
            Err(e) => {
                return Err(e);
            },
        };
        if same_text(id.as_str(), "RegexReplacementFilter") {
            let regex = match needed_text_of(find_member(m, "regex"), "regex") {
                Ok(t) => t,
                Err(e) => {
                    return Err(e);
                },
            };
            match needed_text_of(find_member(m, "replacement"), "replacement") {
                Ok(replacement) => Ok(Filter::RegexReplacement { regex, replacement }),
                Err(e) => Err(e),
            }
        } else if same_text(id.as_str(), "StartMarkerFilter") {
            match needed_text_of(find_member(m, "start_label"), "start_label") {
                Ok(start_label) => Ok(Filter::StartMarker { start_label }),
                Err(e) => Err(e),
            }
        } else if same_text(id.as_str(), "EndMarkerFilter") {
            match needed_text_of(find_member(m, "end_label"), "end_label") {
                Ok(end_label) => Ok(Filter::EndMarker { end_label }),
                Err(e) => Err(e),
            }
        } else if same_text(id.as_str(), "CommentFilter") {
            Ok(Filter::Comment)
        } else {
            let mut e = copy_text("Invalid filter ");
            e.append(id.as_str());
            Err(e)
        }
    }
}

proof fn lemma_filters_fail(items: Seq<Json>, i: int)
    requires
        0 <= i <= items.len(),
        filters_of(items.take(i)) is Err,
    ensures
        filters_of(items) == filters_of(items.take(i)),
    decreases items.len() - i,
{
    if i < items.len() {
        assert(items.take(i + 1).drop_last() =~= items.take(i));
        lemma_filters_fail(items, i + 1);
    } else {
        assert(items.take(i) =~= items);
    }
}

/// Reads the filters of a script.
fn read_filters(node: Option<&Node>) -> (r: Result<Vec<Filter>, String>)
    ensures
        match r {
            Ok(v) => script_filters(found_json(node)) == Ok::<Seq<FilterView>, Seq<char>>(
                filter_views(v@),
            ),
            Err(e) => script_filters(found_json(node)) == Err::<Seq<FilterView>, Seq<char>>(e@),
        },
{
    let mut out: Vec<Filter> = Vec::new();
    proof {
        assert(filter_views(out@) =~= Seq::<FilterView>::empty());
    }
    let items = match node {
        None => {
            return Ok(out);
        },
        Some(Node::Null) => {
            return Ok(out);
        },
        Some(Node::List(items)) => items,
        Some(_) => {
            return Err(message_of("invalid value for `", "filters", "`"));
        },
    };
    let ghost all = list_json(items@);
    let mut i: usize = 0;
    proof {
        lemma_list_json(items@);
        assert(all.take(0) =~= Seq::<Json>::empty());
    }
    while i < items.len()
        invariant
            i <= items@.len(),
            all == list_json(items@),
            found_json(node) == Some(Json::List(all)),
            all.len() == items@.len(),
            forall|k: int| 0 <= k < all.len() ==> #[trigger] all[k] == items@[k]@,
            filters_of(all.take(i as int)) == Ok::<Seq<FilterView>, Seq<char>>(filter_views(out@)),
        decreases items@.len() - i,
    {
        let ghost before = filter_views(out@);
        proof {
            assert(all.take(i + 1).drop_last() =~= all.take(i as int));
            assert(all.take(i + 1).last() == items@[i as int]@);
        }
        match Filter::from_node(&items[i]) {
            Err(e) => {
                proof {
                    lemma_filters_fail(all, i + 1);
                }
                return Err(e);
            },
            Ok(f) => {
                out.push(f);
                proof {
                    assert(filter_views(out@) =~= before.push(f@));
                }
            },
        }
        i += 1;
    }
    proof {
        assert(all.take(i as int) =~= all);
    }
    Ok(out)
}

impl Script {
    /// Reads a script from the members of a mapping.
    fn from_members(m: &Vec<(String, Node)>) -> (r: Result<Script, String>)
        ensures
            match r {
                Ok(s) => script_of_members(table_json(m@)) == Ok::<ScriptView, Seq<char>>(s@),
                Err(e) => script_of_members(table_json(m@)) == Err::<ScriptView, Seq<char>>(e@),
            },
    {
        let output_file = match needed_text_of(find_member(m, "output_file"), "output_file") {
            Ok(v) => v,
            Err(e) => {
                return Err(e);
            },
        };
        let delays = match read_delays(m) {
            Ok(v) => v,
            Err(e) => {
                return Err(e);
            },
        };
        let with_comments = match read_switch(find_member(m, "with_comments"), "with_comments") {
            Ok(v) => v,
            Err(e) => {
                return Err(e);
            },
        };
        let comments_at_top = match read_switch(
            find_member(m, "comments_at_top"),
            "comments_at_top",
        ) {
            Ok(v) => v,
            Err(e) => {
                return Err(e);
            },
        };
        let actions = match read_actions(find_member(m, "actions")) {
            Ok(v) => v,
            Err(e) => {
                return Err(e);
            },
        };
        let filters = match read_filters(find_member(m, "filters")) {
            Ok(v) => v,
            Err(e) => {
                return Err(e);
            },
        };
        let cols = match read_script_size(find_member(m, "cols"), "cols") {
            Ok(v) => v,
            Err(e) => {
                return Err(e);
            },
        };
        let rows = match read_script_size(find_member(m, "rows"), "rows") {
            Ok(v) => v,
            Err(e) => {
                return Err(e);
            },
        };
        let sudo = match read_sudo(find_member(m, "sudo")) {
            Ok(v) => v,
            Err(e) => {
                return Err(e);
            },
        };
        Ok(
            Script {
                output_file,
                start_delay: delays.start,
                end_delay: delays.end,
                typing_delay: delays.typing,
                pre_nl_delay: delays.pre_nl,
                post_nl_delay: delays.post_nl,
                key_delay: delays.key,
                with_comments,
                comments_at_top,
                actions,
                filters,
                cols,
                rows,
                sudo,
            },
        )
    }

    /// Reads a script from a value.
    pub fn from_node(node: &Node) -> (r: Result<Script, String>)
        ensures
            match r {
                Ok(s) => script_of(node@) == Ok::<ScriptView, Seq<char>>(s@),
                Err(e) => script_of(node@) == Err::<ScriptView, Seq<char>>(e@),
            },
    {
        match node {
            Node::Table(m) => Script::from_members(m),
            _ => Err(copy_text("a script must be a mapping")),
        }
    }

    /// Whether the script answers password prompts, so that a password is needed.
    pub fn sudo_enabled(&self) -> (r: bool)
        ensures
            r == (self@.sudo is Some),
    {
        self.sudo.is_some()
    }
}

/// A range is read end by end: it is what the two numbers are, each read alone; and it cannot be
/// read where either number cannot.
pub proof fn law_range_is_read_end_by_end(low: Seq<char>, high: Seq<char>, places: nat)
    ensures
        ({
            let range = delay_range(
                Json::List(seq![Json::Number(low), Json::Number(high)]),
                places,
            );
            match (
                delay_range(Json::Number(low), places),
                delay_range(Json::Number(high), places),
            ) {
                (Ok(a), Ok(b)) => a.0 == a.1 && b.0 == b.1 && range == Ok::<
                    (i64, i64),
                    Seq<char>,
                >((a.0, b.0)),
                (Err(e), _) => range == Err::<(i64, i64), Seq<char>>(e),
                (_, Err(e)) => range == Err::<(i64, i64), Seq<char>>(e),
            }
        }),
{
    let items = seq![Json::Number(low), Json::Number(high)];
    assert(items[0] == Json::Number(low) && items[1] == Json::Number(high));
}

/// A delay is read in the unit of its field, whether it is one number or the two ends of a range:
/// under its name in seconds, and in milliseconds under its name with `_ms`. Where neither is set,
/// or only to null, it is the default.
pub proof fn law_delays_are_read_in_their_unit(
    m: Seq<(Seq<char>, Json)>,
    field: Seq<char>,
    default: (i64, i64),
    low: nat,
    high: nat,
)
    requires
        low * 1_000_000_000 <= i64::MAX,
        high * 1_000_000_000 <= i64::MAX,
    ensures
        ({
            let one = Json::Number(whole_text(low as int));
            let two = Json::List(
                seq![Json::Number(whole_text(low as int)), Json::Number(whole_text(high as int))],
            );
            let seconds = find(m, field);
            let millis = find(m, field + "_ms"@);
            let no_seconds = seconds is None || seconds == Some(Json::Null);
            let no_millis = millis is None || millis == Some(Json::Null);
            let read = script_delay(m, field, default);
            &&& seconds == Some(one) && no_millis ==> read == Ok::<(i64, i64), Seq<char>>(
                ((low * 1_000_000_000) as i64, (low * 1_000_000_000) as i64),
            )
            &&& seconds == Some(two) && no_millis ==> read == Ok::<(i64, i64), Seq<char>>(
                ((low * 1_000_000_000) as i64, (high * 1_000_000_000) as i64),
            )
            &&& no_seconds && millis == Some(one) ==> read == Ok::<(i64, i64), Seq<char>>(
                ((low * 1_000_000) as i64, (low * 1_000_000) as i64),
            )
            &&& no_seconds && millis == Some(two) ==> read == Ok::<(i64, i64), Seq<char>>(
                ((low * 1_000_000) as i64, (high * 1_000_000) as i64),
            )
            &&& no_seconds && no_millis ==> read == Ok::<(i64, i64), Seq<char>>(default)
        }),
{
    lemma_whole_in_unit(low);
    lemma_whole_in_unit(high);
    law_range_is_read_end_by_end(whole_text(low as int), whole_text(high as int), 9);
    law_range_is_read_end_by_end(whole_text(low as int), whole_text(high as int), 6);
}

proof fn lemma_whole_in_unit(n: nat)
    requires
        n * 1_000_000_000 <= i64::MAX,
    ensures
        delay_range(Json::Number(whole_text(n as int)), 9) == Ok::<(i64, i64), Seq<char>>(
            ((n * 1_000_000_000) as i64, (n * 1_000_000_000) as i64),
        ),
        delay_range(Json::Number(whole_text(n as int)), 6) == Ok::<(i64, i64), Seq<char>>(
            ((n * 1_000_000) as i64, (n * 1_000_000) as i64),
        ),
{
    assert(pow10(9) == 1_000_000_000 && pow10(6) == 1_000_000) by {
        reveal_with_fuel(pow10, 10);
    }
    lemma_whole_written(n, 9);
    lemma_whole_written(n, 6);
}

/// Whatever numbers a delay is written with, a range under one of its two names is what each of its
/// ends is when it is set alone under that name.
pub proof fn law_range_matches_its_ends(
    both: Seq<(Seq<char>, Json)>,
    first: Seq<(Seq<char>, Json)>,
    second: Seq<(Seq<char>, Json)>,
    field: Seq<char>,
    low: Seq<char>,
    high: Seq<char>,
    default: (i64, i64),
    millis: bool,
)
    requires
        ({
            let set = if millis {
                field + "_ms"@
            } else {
                field
            };
            let unset = if millis {
                field
            } else {
                field + "_ms"@
            };
            &&& find(both, set) == Some(Json::List(seq![Json::Number(low), Json::Number(high)]))
            &&& find(first, set) == Some(Json::Number(low))
            &&& find(second, set) == Some(Json::Number(high))
            &&& find(both, unset) is None
            &&& find(first, unset) is None
            &&& find(second, unset) is None
        }),
    ensures
        match (script_delay(first, field, default), script_delay(second, field, default)) {
            (Ok(a), Ok(b)) => a.0 == a.1 && b.0 == b.1 && script_delay(both, field, default)
                == Ok::<(i64, i64), Seq<char>>((a.0, b.0)),
            _ => script_delay(both, field, default) is Err,
        },
{
    law_range_is_read_end_by_end(low, high, 9);
    law_range_is_read_end_by_end(low, high, 6);
}

/// A delay that is set in both units is refused, and so is a range that has not just two ends.
pub proof fn law_delays_are_refused(
    m: Seq<(Seq<char>, Json)>,
    field: Seq<char>,
    default: (i64, i64),
    items: Seq<Json>,
)
    ensures
        ({
            let seconds = find(m, field);
            let millis = find(m, field + "_ms"@);
            &&& seconds is Some && millis is Some && seconds != Some(Json::Null) && millis != Some(
                Json::Null,
            ) ==> script_delay(m, field, default) is Err
            &&& (seconds == Some(Json::List(items)) || millis == Some(Json::List(items)))
                && items.len() != 2 ==> script_delay(m, field, default) is Err
            &&& forall|t: Seq<char>|
                seconds == Some(Json::Text(t)) || millis == Some(Json::Text(t)) ==> script_delay(
                    m,
                    field,
                    default,
                ) is Err
        }),
{
}

/// A script is read field by field, each delay, switch, size and list from its own name. Where a
/// field is absent, a delay is none, but for the one behind a key press, which is from 80 to 120
/// milliseconds; a switch is off; there are no filters.
pub proof fn law_script_is_read_by_its_fields(m: Seq<(Seq<char>, Json)>)
    ensures
        match script_of(Json::Table(m)) {
            Ok(s) => {
                &&& needed_text(find(m, "output_file"@), "output_file"@) == Ok::<
                    Seq<char>,
                    Seq<char>,
                >(s.output_file)
                &&& script_delay(m, "start_delay"@, (0, 0)) == Ok::<(i64, i64), Seq<char>>(
                    s.start_delay,
                )
                &&& script_delay(m, "end_delay"@, (0, 0)) == Ok::<(i64, i64), Seq<char>>(
                    s.end_delay,
                )
                &&& script_delay(m, "typing_delay"@, (0, 0)) == Ok::<(i64, i64), Seq<char>>(
                    s.typing_delay,
                )
                &&& script_delay(m, "pre_nl_delay"@, (0, 0)) == Ok::<(i64, i64), Seq<char>>(
                    s.pre_nl_delay,
                )
                &&& script_delay(m, "post_nl_delay"@, (0, 0)) == Ok::<(i64, i64), Seq<char>>(
                    s.post_nl_delay,
                )
                &&& script_delay(m, "key_delay"@, (80_000_000, 120_000_000)) == Ok::<
                    (i64, i64),
                    Seq<char>,
                >(s.key_delay)
                &&& script_switch(find(m, "with_comments"@), "with_comments"@) == Ok::<
                    bool,
                    Seq<char>,
                >(s.with_comments)
                &&& script_switch(find(m, "comments_at_top"@), "comments_at_top"@) == Ok::<
                    bool,
                    Seq<char>,
                >(s.comments_at_top)
                &&& script_actions(find(m, "actions"@)) == Ok::<Seq<ActionView>, Seq<char>>(
                    s.actions,
                )
                &&& script_filters(find(m, "filters"@)) == Ok::<Seq<FilterView>, Seq<char>>(
                    s.filters,
                )
                &&& script_size(find(m, "cols"@), "cols"@) == Ok::<Option<u16>, Seq<char>>(s.cols)
                &&& script_size(find(m, "rows"@), "rows"@) == Ok::<Option<u16>, Seq<char>>(s.rows)
                &&& script_sudo(find(m, "sudo"@)) == Ok::<Option<Seq<Seq<char>>>, Seq<char>>(
                    s.sudo,
                )
            },
            Err(_) => {
                ||| needed_text(find(m, "output_file"@), "output_file"@) is Err
                ||| script_delay(m, "start_delay"@, (0, 0)) is Err
                ||| script_delay(m, "end_delay"@, (0, 0)) is Err
                ||| script_delay(m, "typing_delay"@, (0, 0)) is Err
                ||| script_delay(m, "pre_nl_delay"@, (0, 0)) is Err
                ||| script_delay(m, "post_nl_delay"@, (0, 0)) is Err
                ||| script_delay(m, "key_delay"@, (80_000_000, 120_000_000)) is Err
                ||| script_switch(find(m, "with_comments"@), "with_comments"@) is Err
                ||| script_switch(find(m, "comments_at_top"@), "comments_at_top"@) is Err
                ||| script_actions(find(m, "actions"@)) is Err
                ||| script_filters(find(m, "filters"@)) is Err
                ||| script_size(find(m, "cols"@), "cols"@) is Err
                ||| script_size(find(m, "rows"@), "rows"@) is Err
                ||| script_sudo(find(m, "sudo"@)) is Err
            },
        },
{
}

/// A switch is what it is set to, and off where it is absent; nothing but a truth value sets it.
/// A size is the whole number that it is set to, if that has at most 16 bits; where it is absent,
/// there is none.
pub proof fn law_switches_and_sizes(b: bool, n: int, j: Json, field: Seq<char>)
    requires
        i64::MIN <= n <= i64::MAX,
    ensures
        script_switch(None, field) == Ok::<bool, Seq<char>>(false),
        script_switch(Some(Json::Bool(b)), field) == Ok::<bool, Seq<char>>(b),
        !(j is Bool) ==> script_switch(Some(j), field) is Err,
        script_size(None, field) == Ok::<Option<u16>, Seq<char>>(None),
        0 <= n <= 65535 ==> script_size(Some(Json::Number(whole_text(n))), field) == Ok::<
            Option<u16>,
            Seq<char>,
        >(Some(n as u16)),
        n < 0 || n > 65535 ==> script_size(Some(Json::Number(whole_text(n))), field) is Err,
        !(j is Number) && !(j is Null) ==> script_size(Some(j), field) is Err,
{
    law_whole_read_back(n);
}

/// Password prompts are answered where `sudo` is set: to `true` or to a mapping without prompts,
/// for the default prompts `assword` and `[sudo]`; to a mapping with a list of prompts, for those,
/// all of them and in order. Else there are none.
pub proof fn law_sudo_settings(
    m: Seq<(Seq<char>, Json)>,
    items: Seq<Json>,
    prompts: Seq<Seq<char>>,
)
    requires
        items.len() == prompts.len(),
        forall|i: int| 0 <= i < items.len() ==> #[trigger] items[i] == Json::Text(prompts[i]),
    ensures
        ({
            let usual = Ok::<Option<Seq<Seq<char>>>, Seq<char>>(Some(seq!["assword"@, "[sudo]"@]));
            &&& script_sudo(None) == Ok::<Option<Seq<Seq<char>>>, Seq<char>>(None)
            &&& script_sudo(Some(Json::Bool(false))) == Ok::<Option<Seq<Seq<char>>>, Seq<char>>(
                None,
            )
            &&& script_sudo(Some(Json::Bool(true))) == usual
            &&& find(m, "prompts"@) is None ==> script_sudo(Some(Json::Table(m))) == usual
            &&& find(m, "prompts"@) == Some(Json::List(items)) ==> script_sudo(
                Some(Json::Table(m)),
            ) == Ok::<Option<Seq<Seq<char>>>, Seq<char>>(Some(prompts))
        }),
{
    law_texts_are_read(items);
    if read_texts(items) is Some {
        let list = read_texts(items)->0;
        assert forall|i: int| 0 <= i < list.len() implies list[i] == prompts[i] by {
            assert(items[i] == Json::Text(list[i]));
        }
        assert(list =~= prompts);
    } else {
        let i = choose|i: int| 0 <= i < items.len() && !(#[trigger] items[i] is Text);
        assert(items[i] == Json::Text(prompts[i]));
    }
}

/// Each value of an action list is an action of the script, in order; where one cannot be read, the
/// script cannot, and the first such one says why.
pub proof fn law_actions_are_read_one_by_one(items: Seq<Json>) -> (k: int)
    ensures
        match script_actions(Some(Json::List(items))) {
            Ok(list) => list.len() == items.len() && forall|i: int|
                0 <= i < items.len() ==> action_of(#[trigger] items[i]) == Ok::<
                    ActionView,
                    Seq<char>,
                >(list[i]),
            Err(e) => 0 <= k < items.len() && action_of(items[k]) == Err::<ActionView, Seq<char>>(e)
                && forall|i: int| 0 <= i < k ==> action_of(#[trigger] items[i]) is Ok,
        },
    decreases items.len(),
{
    if items.len() == 0 {
        0
    } else {
        let front = items.drop_last();
        let k = law_actions_are_read_one_by_one(front);
        assert forall|i: int| 0 <= i < front.len() implies front[i] == items[i] by {}
        match actions_of(front) {
            Ok(some) => {
                assert forall|i: int| 0 <= i < front.len() implies action_of(#[trigger] items[i])
                    == Ok::<ActionView, Seq<char>>(some[i]) by {
                    assert(action_of(front[i]) == Ok::<ActionView, Seq<char>>(some[i]));
                }
                items.len() - 1
            },
            Err(e) => {
                assert forall|i: int| 0 <= i < k implies action_of(#[trigger] items[i]) is Ok by {
                    assert(action_of(front[i]) is Ok);
                }
                k
            },
        }
    }
}

/// Each value of a filter list is a filter of the script, in order; where one cannot be read, the
/// script cannot, and the first such one says why.
pub proof fn law_filters_are_read_one_by_one(items: Seq<Json>) -> (k: int)
    ensures
        match script_filters(Some(Json::List(items))) {
            Ok(list) => list.len() == items.len() && forall|i: int|
                0 <= i < items.len() ==> filter_of(#[trigger] items[i]) == Ok::<
                    FilterView,
                    Seq<char>,
                >(list[i]),
            Err(e) => 0 <= k < items.len() && filter_of(items[k]) == Err::<FilterView, Seq<char>>(e)
                && forall|i: int| 0 <= i < k ==> filter_of(#[trigger] items[i]) is Ok,
        },
    decreases items.len(),
{
    if items.len() == 0 {
        0
    } else {
        let front = items.drop_last();
        let k = law_filters_are_read_one_by_one(front);
        assert forall|i: int| 0 <= i < front.len() implies front[i] == items[i] by {}
        match filters_of(front) {
            Ok(some) => {
                assert forall|i: int| 0 <= i < front.len() implies filter_of(#[trigger] items[i])
                    == Ok::<FilterView, Seq<char>>(some[i]) by {
                    assert(filter_of(front[i]) == Ok::<FilterView, Seq<char>>(some[i]));
                }
                items.len() - 1
            },
            Err(e) => {
                assert forall|i: int| 0 <= i < k implies filter_of(#[trigger] items[i]) is Ok by {
                    assert(filter_of(front[i]) is Ok);
                }
                k
            },
        }
    }
}

/// A script has its actions from a list that must be there; its filters are a list that may be
/// absent.
pub proof fn law_lists_of_a_script(j: Json)
    ensures
        script_actions(None) is Err,
        script_actions(Some(Json::Null)) matches Ok(list) && list.len() == 0,
        !(j is Null) && !(j is List) ==> script_actions(Some(j)) is Err,
        script_filters(None) matches Ok(list) && list.len() == 0,
        script_filters(Some(Json::Null)) matches Ok(list) && list.len() == 0,
        !(j is Null) && !(j is List) ==> script_filters(Some(j)) is Err,
{
}

proof fn lemma_unknown(m: Seq<(Seq<char>, Json)>)
    ensures
        unknown_field(m) is None <==> (forall|i: int|
            0 <= i < m.len() ==> is_filter_field((#[trigger] m[i]).0)),
    decreases m.len(),
{
    if m.len() > 0 {
        let front = m.drop_last();
        lemma_unknown(front);
        if unknown_field(front) is None {
            if is_filter_field(m.last().0) {
                assert forall|i: int| 0 <= i < m.len() implies is_filter_field(
                    (#[trigger] m[i]).0,
                ) by {
                    if i < front.len() {
                        assert(is_filter_field(front[i].0));
                    }
                }
            } else {
                assert(!is_filter_field(m[m.len() - 1].0));
            }
        } else {
            let i = choose|i: int|
                0 <= i < front.len() && !is_filter_field((#[trigger] front[i]).0);
            assert(m[i] == front[i]);
        }
    }
}

/// Which filter a mapping stands for says its `filter_id`: one of four names, each with the fields
/// of that filter. A field that no filter has is refused, and so is any other name.
pub proof fn law_filters_by_name(
    m: Seq<(Seq<char>, Json)>,
    id: Seq<char>,
    a: Seq<char>,
    b: Seq<char>,
)
    requires
        find(m, "filter_id"@) == Some(Json::Text(id)),
    ensures
        ({
            let known = forall|i: int|
                0 <= i < m.len() ==> {
                    let key = (#[trigger] m[i]).0;
                    key == "filter_id"@ || key == "regex"@ || key == "replacement"@ || key
                        == "start_label"@ || key == "end_label"@
                };
            let read = filter_of(Json::Table(m));
            &&& !known ==> read is Err
            &&& known && id == "RegexReplacementFilter"@ && find(m, "regex"@) == Some(Json::Text(a))
                && find(m, "replacement"@) == Some(Json::Text(b)) ==> read == Ok::<
                FilterView,
                Seq<char>,
            >(FilterView::RegexReplacement { regex: a, replacement: b })
            &&& known && id == "StartMarkerFilter"@ && find(m, "start_label"@) == Some(
                Json::Text(a),
            ) ==> read == Ok::<FilterView, Seq<char>>(FilterView::StartMarker { start_label: a })
            &&& known && id == "EndMarkerFilter"@ && find(m, "end_label"@) == Some(Json::Text(a))
                ==> read == Ok::<FilterView, Seq<char>>(FilterView::EndMarker { end_label: a })
            &&& known && id == "CommentFilter"@ ==> read == Ok::<FilterView, Seq<char>>(
                FilterView::Comment,
            )
            &&& id != "RegexReplacementFilter"@ && id != "StartMarkerFilter"@ && id
                != "EndMarkerFilter"@ && id != "CommentFilter"@ ==> read is Err
            &&& id == "RegexReplacementFilter"@ && (find(m, "regex"@) is None || find(
                m,
                "replacement"@,
            ) is None) ==> read is Err
            &&& id == "StartMarkerFilter"@ && find(m, "start_label"@) is None ==> read is Err
            &&& id == "EndMarkerFilter"@ && find(m, "end_label"@) is None ==> read is Err
        }),
{
    lemma_unknown(m);
    lemma_filter_names();
    if unknown_field(m) is None {
        assert forall|i: int| 0 <= i < m.len() implies {
            let key = (#[trigger] m[i]).0;
            key == "filter_id"@ || key == "regex"@ || key == "replacement"@ || key
                == "start_label"@ || key == "end_label"@
        } by {
            assert(is_filter_field(m[i].0));
        }
    } else {
        let i = choose|i: int| 0 <= i < m.len() && !is_filter_field((#[trigger] m[i]).0);
        assert(!is_filter_field(m[i].0));
    }
}

proof fn lemma_filter_names()
    ensures
        "RegexReplacementFilter"@ != "StartMarkerFilter"@,
        "RegexReplacementFilter"@ != "EndMarkerFilter"@,
        "RegexReplacementFilter"@ != "CommentFilter"@,
        "StartMarkerFilter"@ != "EndMarkerFilter"@,
        "StartMarkerFilter"@ != "CommentFilter"@,
        "EndMarkerFilter"@ != "CommentFilter"@,
{
    reveal_strlit("RegexReplacementFilter");
    reveal_strlit("StartMarkerFilter");
    reveal_strlit("EndMarkerFilter");
    reveal_strlit("CommentFilter");
    assert("RegexReplacementFilter"@[0] == 'R' && "StartMarkerFilter"@[0] == 'S'
        && "EndMarkerFilter"@[0] == 'E' && "CommentFilter"@[0] == 'C');
}

/// A delay is taken in whichever unit it is set, and from the default where it is set in none; set
/// in both it is refused, and so it is where there is no default. Both messages name the field.
pub proof fn law_delay_is_set_once(
    a: (i64, i64),
    b: (i64, i64),
    field: Seq<char>,
    default: Option<(i64, i64)>,
)
    ensures
        resolved(Some(a), None, field, default) == Ok::<(i64, i64), Seq<char>>(a),
        resolved(None, Some(a), field, default) == Ok::<(i64, i64), Seq<char>>(a),
        resolved(None, None, field, Some(a)) == Ok::<(i64, i64), Seq<char>>(a),
        resolved(Some(a), Some(b), field, default) == Err::<(i64, i64), Seq<char>>(
            "use either `"@ + field + "` (seconds) or `"@ + field
                + "_ms` (milliseconds), not both"@,
        ),
        resolved(None, None, field, None) == Err::<(i64, i64), Seq<char>>(
            "missing field `"@ + field + "` (or `"@ + field + "_ms`)"@,
        ),
{
}

/// A number that is set as a delay is read to the nearest nanosecond, in seconds or milliseconds as
/// its field says, and is both ends of its range. What cannot be read is refused.
pub proof fn law_delay_numbers(
    m: Seq<(Seq<char>, Json)>,
    field: Seq<char>,
    default: (i64, i64),
    t: Seq<char>,
)
    ensures
        find(m, field) == Some(Json::Number(t)) && find(m, field + "_ms"@) is None
            ==> match scaled(t, 9) {
            Some(v) => script_delay(m, field, default) == Ok::<(i64, i64), Seq<char>>(
                (v as i64, v as i64),
            ),
            None => script_delay(m, field, default) is Err,
        },
        find(m, field) is None && find(m, field + "_ms"@) == Some(Json::Number(t))
            ==> match scaled(t, 6) {
            Some(v) => script_delay(m, field, default) == Ok::<(i64, i64), Seq<char>>(
                (v as i64, v as i64),
            ),
            None => script_delay(m, field, default) is Err,
        },
{
}

/// Null is as good as absent for a size and for prompts. Prompts that are no list of texts are
/// refused, and so is any other setting of `sudo`; a number that is not whole is no size.
pub proof fn law_null_and_wrong_settings(
    m: Seq<(Seq<char>, Json)>,
    j: Json,
    items: Seq<Json>,
    i: int,
    t: Seq<char>,
    field: Seq<char>,
)
    ensures
        script_size(Some(Json::Null), field) == Ok::<Option<u16>, Seq<char>>(None),
        whole(t) is None ==> script_size(Some(Json::Number(t)), field) is Err,
        script_sudo(Some(Json::Null)) == Ok::<Option<Seq<Seq<char>>>, Seq<char>>(None),
        j is Number || j is Text || j is List ==> script_sudo(Some(j)) is Err,
        find(m, "prompts"@) == Some(j) && !(j is List) ==> script_sudo(Some(Json::Table(m))) is Err,
        find(m, "prompts"@) == Some(Json::List(items)) && 0 <= i < items.len()
            && !(items[i] is Text) ==> script_sudo(Some(Json::Table(m))) is Err,
{
    law_texts_are_read(items);
    if 0 <= i < items.len() && !(items[i] is Text) && read_texts(items) is Some {
        let list = read_texts(items)->0;
        assert(items[i] == Json::Text(list[i]));
    }
}

} // verus!
