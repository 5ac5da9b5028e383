//! The asciicast file format, version 2: a JSON object on the first line, and one JSON array of
//! time, code and data on each line after it.

use crate::cast::{
    event_views, AsciiCast, CastError, CastView, Event, EventView, Header, HeaderView, Theme,
    ThemeView,
};
use crate::decimal::{
    all_digits, digits_value, is_digit, is_digit_char, law_seconds_read_back, law_whole_read_back,
    lemma_nat_digits, lemma_no_leading_zeros, nat_digits, parse_scaled, parse_whole, scaled,
    seconds_float, show_seconds_float, show_whole, value_of, whole, whole_text,
};
use crate::json::{
    all_readable, ascending, chained, depth, find, find_member, found_json, json_of,
    lemma_first_char, lemma_flat_list, lemma_flat_table, lemma_in_order, lemma_list_in_order,
    lemma_list_json, lemma_pairs_read_back, lemma_present, lemma_present_in_order,
    lemma_present_readable, lemma_present_step, lemma_render_one_line, lemma_texts_read_back,
    list_json, members_readable, one_line, optional_json, optional_view, ordered, pair_table,
    pair_views, pairs_json, pairs_of, present, push_field, read_pairs, read_texts, readable,
    render, table_depth, table_json, text_before, text_list, texts_json, texts_of, Json, Node,
    MAX_DEPTH,
};
use crate::text::{chars_of, copy_text, is_space, is_space_char, same_text, string_of, views};
use vstd::prelude::*;

verus! {

/// Why a recording cannot be read or written, as mathematics.
#[verifier::ext_equal]
pub enum CastFault {
    Unsorted,
    CommentEvent,
    InvalidJson(Seq<char>),
    MissingHeader,
    InvalidHeader,
    UnsupportedVersion(u32),
    InvalidEvent(usize),
    InvalidTime(usize),
    InvalidCode(usize),
    InvalidData(usize),
    InvalidResize(Seq<char>, usize),
    UnknownCode(Seq<char>, usize),
}

impl View for CastError {
    type V = CastFault;

    open spec fn view(&self) -> CastFault {
        match self {
            CastError::Unsorted => CastFault::Unsorted,
            CastError::CommentEvent => CastFault::CommentEvent,
            CastError::InvalidJson(line) => CastFault::InvalidJson(line@),
            CastError::MissingHeader => CastFault::MissingHeader,
            CastError::InvalidHeader => CastFault::InvalidHeader,
            CastError::UnsupportedVersion(v) => CastFault::UnsupportedVersion(*v),
            CastError::InvalidEvent(n) => CastFault::InvalidEvent(*n),
            CastError::InvalidTime(n) => CastFault::InvalidTime(*n),
            CastError::InvalidCode(n) => CastFault::InvalidCode(*n),
            CastError::InvalidData(n) => CastFault::InvalidData(*n),
            CastError::InvalidResize(data, n) => CastFault::InvalidResize(data@, *n),
            CastError::UnknownCode(code, n) => CastFault::UnknownCode(code@, *n),
        }
    }
}

/// A theme as a JSON object.
pub open spec fn theme_json(theme: ThemeView) -> Json {
    Json::Table(
        seq![
            ("bg"@, Json::Text(theme.bg)),
            ("fg"@, Json::Text(theme.fg)),
            ("palette"@, texts_json(theme.palette)),
        ],
    )
}

/// A whole number that may be absent.
pub open spec fn whole_field(n: Option<i64>) -> Option<Json> {
    match n {
        Some(v) => Some(Json::Number(whole_text(v as int))),
        None => None,
    }
}

/// A time in seconds that may be absent.
pub open spec fn seconds_field(n: Option<i64>) -> Option<Json> {
    match n {
        Some(v) => Some(Json::Number(seconds_float(v as int))),
        None => None,
    }
}

/// A text that may be absent.
pub open spec fn text_field(t: Option<Seq<char>>) -> Option<Json> {
    match t {
        Some(s) => Some(Json::Text(s)),
        None => None,
    }
}

/// The fields of a header, in the order in which they are written.
pub open spec fn header_fields(h: HeaderView) -> Seq<(Seq<char>, Option<Json>)> {
    seq![
        ("command"@, text_field(h.command)),
        ("duration"@, seconds_field(h.duration)),
        (
            "env"@,
            match h.env {
                Some(list) => Some(pairs_json(list)),
                None => None,
            },
        ),
        ("height"@, Some(Json::Number(whole_text(h.height as int)))),
        ("idle_time_limit"@, seconds_field(h.idle_time_limit)),
        (
            "theme"@,
            match h.theme {
                Some(theme) => Some(theme_json(theme)),
                None => None,
            },
        ),
        ("timestamp"@, whole_field(h.timestamp)),
        ("title"@, text_field(h.title)),
        ("version"@, Some(Json::Number(whole_text(h.version as int)))),
        ("width"@, Some(Json::Number(whole_text(h.width as int)))),
    ]
}

/// A header as a JSON object. What is absent is left out.
pub open spec fn header_json(h: HeaderView) -> Json {
    Json::Table(present(header_fields(h)))
}

/// A terminal size as the data of a resize event.
pub open spec fn size_text(columns: u16, rows: u16) -> Seq<char> {
    nat_digits(columns as nat) + seq!['x'] + nat_digits(rows as nat)
}

/// Time, code and data as a JSON array.
pub open spec fn event_line(time: i64, code: Seq<char>, data: Seq<char>) -> Json {
    Json::List(seq![Json::Number(seconds_float(time as int)), Json::Text(code), Json::Text(data)])
}

/// An event as a JSON array. A comment has none.
pub open spec fn event_json(e: EventView) -> Option<Json> {
    match e {
        EventView::Output { time, data } => Some(event_line(time, "o"@, data)),
        EventView::Input { time, data } => Some(event_line(time, "i"@, data)),
        EventView::Marker { time, label } => Some(event_line(time, "m"@, label)),
        EventView::Resize { time, columns, rows } => Some(
            event_line(time, "r"@, size_text(columns, rows)),
        ),
        EventView::Comment { .. } => None,
    }
}

/// Whether any event is a comment.
pub open spec fn has_comment(events: Seq<EventView>) -> bool {
    exists|i: int| 0 <= i < events.len() && #[trigger] events[i] is Comment
}

/// The JSON values of the events of a recording without comments.
pub open spec fn event_values(events: Seq<EventView>) -> Seq<Json> {
    events.map_values(|e: EventView| event_json(e)->0)
}

/// The JSON values of a recording without comments: the header, then the events.
pub open spec fn cast_values(c: CastView) -> Seq<Json> {
    seq![header_json(c.header)] + event_values(c.events)
}

/// The lines of a recording without comments.
pub open spec fn cast_lines(c: CastView) -> Seq<Seq<char>> {
    cast_values(c).map_values(|j: Json| render(j))
}

/// Lines, each with a line feed behind it.
pub open spec fn ended_lines(lines: Seq<Seq<char>>) -> Seq<char>
    decreases lines.len(),
{
    if lines.len() == 0 {
        Seq::empty()
    } else {
        ended_lines(lines.drop_last()) + lines.last() + seq!['\n']
    }
}

/// The text of a recording without comments.
pub open spec fn cast_text(c: CastView) -> Seq<char> {
    ended_lines(cast_lines(c))
}

/// A text that may be absent or null; nothing for another value.
pub open spec fn read_text(j: Option<Json>) -> Option<Option<Seq<char>>> {
    match j {
        None => Some(None),
        Some(Json::Null) => Some(None),
        Some(Json::Text(t)) => Some(Some(t)),
        _ => None,
    }
}

/// A whole number that may be absent or null; nothing for another value.
pub open spec fn read_whole(j: Option<Json>) -> Option<Option<i64>> {
    match j {
        None => Some(None),
        Some(Json::Null) => Some(None),
        Some(Json::Number(t)) => match whole(t) {
            Some(v) => Some(Some(v as i64)),
            None => None,
        },
        _ => None,
    }
}

/// A time in seconds that may be absent or null; nothing for another value.
pub open spec fn read_seconds(j: Option<Json>) -> Option<Option<i64>> {
    match j {
        None => Some(None),
        Some(Json::Null) => Some(None),
        Some(Json::Number(t)) => match scaled(t, 9) {
            Some(v) => Some(Some(v as i64)),
            None => None,
        },
        _ => None,
    }
}

/// A whole number from zero to `limit`.
pub open spec fn read_size(j: Option<Json>, limit: int) -> Option<int> {
    match j {
        Some(Json::Number(t)) => match whole(t) {
            Some(v) => if 0 <= v <= limit {
                Some(v)
            } else {
                None
            },
            None => None,
        },
        _ => None,
    }
}

/// An environment that may be absent or null; nothing for another value.
pub open spec fn read_env(j: Option<Json>) -> Option<Option<Seq<(Seq<char>, Seq<char>)>>> {
    match j {
        None => Some(None),
        Some(Json::Null) => Some(None),
        Some(Json::Table(members)) => match read_pairs(members) {
            Some(list) => Some(Some(list)),
            None => None,
        },
        _ => None,
    }
}

/// The theme that three values make.
pub open spec fn theme_of(fg: Option<Json>, bg: Option<Json>, palette: Option<Json>) -> Option<
    ThemeView,
> {
    match (fg, bg, palette) {
        (Some(Json::Text(fg)), Some(Json::Text(bg)), Some(Json::List(items))) => {
            match read_texts(items) {
                Some(palette) => Some(ThemeView { fg, bg, palette }),
                None => None,
            }
        },
        _ => None,
    }
}

/// A theme that may be absent or null: a table, or a list of its three values; nothing for another
/// value.
pub open spec fn read_theme(j: Option<Json>) -> Option<Option<ThemeView>> {
    match j {
        None => Some(None),
        Some(Json::Null) => Some(None),
        Some(Json::Table(members)) => match theme_of(
            find(members, "fg"@),
            find(members, "bg"@),
            find(members, "palette"@),
        ) {
            Some(theme) => Some(Some(theme)),
            None => None,
        },
        Some(Json::List(items)) => if items.len() == 3 {
            match theme_of(Some(items[0]), Some(items[1]), Some(items[2])) {
                Some(theme) => Some(Some(theme)),
                None => None,
            }
        } else {
            None
        },
        _ => None,
    }
}

/// The header that the members of a table make. Other members are left aside.
pub open spec fn read_header(m: Seq<(Seq<char>, Json)>) -> Option<HeaderView> {
    match (
        read_size(find(m, "version"@), u32::MAX as int),
        read_size(find(m, "width"@), u16::MAX as int),
        read_size(find(m, "height"@), u16::MAX as int),
        read_whole(find(m, "timestamp"@)),
        read_seconds(find(m, "duration"@)),
        read_seconds(find(m, "idle_time_limit"@)),
        read_text(find(m, "command"@)),
        read_text(find(m, "title"@)),
        read_env(find(m, "env"@)),
        read_theme(find(m, "theme"@)),
    ) {
        (
            Some(version),
            Some(width),
            Some(height),
            Some(timestamp),
            Some(duration),
            Some(idle_time_limit),
            Some(command),
            Some(title),
            Some(env),
            Some(theme),
        ) => Some(
            HeaderView {
                version: version as u32,
                width: width as u16,
                height: height as u16,
                timestamp,
                duration,
                idle_time_limit,
                command,
                title,
                env,
                theme,
            },
        ),
        _ => None,
    }
}

/// A number up to 65535 in decimal, with an optional plus sign.
pub open spec fn read_u16(s: Seq<char>) -> Option<u16> {
    let digits = if s.len() > 0 && s[0] == '+' {
        s.skip(1)
    } else {
        s
    };
    if digits.len() > 0 && all_digits(digits) && digits_value(digits) <= u16::MAX {
        Some(digits_value(digits) as u16)
    } else {
        None
    }
}

/// Where the first `x` stands, if any.
pub open spec fn first_x(s: Seq<char>) -> int
    decreases s.len(),
{
    if s.len() == 0 || s[0] == 'x' {
        0
    } else {
        1 + first_x(s.skip(1))
    }
}

/// The size that the data of a resize event stands for.
pub open spec fn read_resize(s: Seq<char>) -> Option<(u16, u16)> {
    let i = first_x(s);
    if i >= s.len() {
        None
    } else {
        match (read_u16(s.take(i)), read_u16(s.skip(i + 1))) {
            (Some(columns), Some(rows)) => Some((columns, rows)),
            _ => None,
        }
    }
}

/// The event that a JSON value on a line stands for, or what is wrong with it.
pub open spec fn read_event(j: Json, line: usize) -> Result<EventView, CastFault> {
    match j {
        Json::List(items) => {
            if items.len() != 3 {
                Err(CastFault::InvalidEvent(line))
            } else {
                match (items[0], items[1], items[2]) {
                    (Json::Number(t), code, data) => match (scaled(t, 9), code, data) {
                        (None, _, _) => Err(CastFault::InvalidTime(line)),
                        (Some(v), Json::Text(code), Json::Text(data)) => {
                            let time = v as i64;
                            if code == "o"@ {
                                Ok(EventView::Output { time, data })
                            } else if code == "i"@ {
                                Ok(EventView::Input { time, data })
                            } else if code == "m"@ {
                                Ok(EventView::Marker { time, label: data })
                            } else if code == "r"@ {
                                match read_resize(data) {
                                    Some((columns, rows)) => Ok(
                                        EventView::Resize { time, columns, rows },
                                    ),
                                    None => Err(CastFault::InvalidResize(data, line)),
                                }
                            } else {
                                Err(CastFault::UnknownCode(code, line))
                            }
                        },
                        (Some(_), Json::Text(_), _) => Err(CastFault::InvalidData(line)),
                        _ => Err(CastFault::InvalidCode(line)),
                    },
                    _ => Err(CastFault::InvalidTime(line)),
                }
            }
        },
        _ => Err(CastFault::InvalidEvent(line)),
    }
}

/// The events that JSON values on consecutive lines stand for, or the first fault.
pub open spec fn read_events(list: Seq<Json>) -> Result<Seq<EventView>, CastFault>
    decreases list.len(),
{
    if list.len() == 0 {
        Ok(Seq::empty())
    } else {
        match read_events(list.drop_last()) {
            Err(f) => Err(f),
            Ok(events) => match read_event(list.last(), list.len() as usize) {
                Err(f) => Err(f),
                Ok(e) => Ok(events.push(e)),
            },
        }
    }
}

/// The recording that JSON values stand for, or what is wrong with them.
pub open spec fn read_cast(values: Seq<Json>) -> Result<CastView, CastFault> {
    if values.len() == 0 {
        Err(CastFault::MissingHeader)
    } else {
        match values[0] {
            Json::Table(members) => match read_header(members) {
                None => Err(CastFault::InvalidHeader),
                Some(header) => {
                    if header.version != 2 {
                        Err(CastFault::UnsupportedVersion(header.version))
                    } else {
                        match read_events(values.skip(1)) {
                            Err(f) => Err(f),
                            Ok(events) => Ok(CastView { header, events }),
                        }
                    }
                },
            },
            _ => Err(CastFault::MissingHeader),
        }
    }
}

/// Makes the field of a whole number that may be absent.
fn whole_node(n: Option<i64>) -> (r: Option<Node>)
    ensures
        optional_json(r) == whole_field(n),
{
    match n {
        Some(v) => Some(Node::Number(show_whole(v))),
        None => None,
    }
}

/// Makes the field of a time that may be absent.
fn seconds_node(n: Option<i64>) -> (r: Option<Node>)
    ensures
        optional_json(r) == seconds_field(n),
{
    match n {
        Some(v) => Some(Node::Number(show_seconds_float(v))),
        None => None,
    }
}

/// Makes the field of a text that may be absent.
fn text_node(t: &Option<String>) -> (r: Option<Node>)
    ensures
        optional_json(r) == text_field(optional_view(*t)),
{
    match t {
        Some(s) => Some(Node::Text(copy_text(s.as_str()))),
        None => None,
    }
}

impl Theme {
    /// This theme as a JSON object.
    fn to_node(&self) -> (r: Node)
        ensures
            r@ == theme_json(self@),
    {
        let mut members: Vec<(String, Node)> = Vec::new();
        push_field(&mut members, "bg", Some(Node::Text(copy_text(self.bg.as_str()))));
        push_field(&mut members, "fg", Some(Node::Text(copy_text(self.fg.as_str()))));
        push_field(&mut members, "palette", Some(text_list(&self.palette)));
        proof {
            assert(table_json(members@) =~= theme_json(self@)->Table_0);
        }
        Node::Table(members)
    }
}

impl Header {
    /// This header as a JSON object.
    pub fn to_node(&self) -> (r: Node)
        ensures
            r@ == header_json(self@),
    {
        let ghost f = header_fields(self@);
        let mut m: Vec<(String, Node)> = Vec::new();
        proof {
            assert(present(f.take(0)) =~= table_json(m@));
            lemma_present_step(f, 0);
            lemma_present_step(f, 1);
            lemma_present_step(f, 2);
            lemma_present_step(f, 3);
            lemma_present_step(f, 4);
            lemma_present_step(f, 5);
            lemma_present_step(f, 6);
            lemma_present_step(f, 7);
            lemma_present_step(f, 8);
            lemma_present_step(f, 9);
            assert(f.take(10) =~= f);
        }
        push_field(&mut m, "command", text_node(&self.command));
        push_field(&mut m, "duration", seconds_node(self.duration));
        push_field(
            &mut m,
            "env",
            match &self.env {
                Some(list) => Some(pair_table(list)),
                None => None,
            },
        );
        push_field(&mut m, "height", whole_node(Some(self.height as i64)));
        push_field(&mut m, "idle_time_limit", seconds_node(self.idle_time_limit));
        push_field(
            &mut m,
            "theme",
            match &self.theme {
                Some(theme) => Some(theme.to_node()),
                None => None,
            },
        );
        push_field(&mut m, "timestamp", whole_node(self.timestamp));
        push_field(&mut m, "title", text_node(&self.title));
        push_field(&mut m, "version", whole_node(Some(self.version as i64)));
        push_field(&mut m, "width", whole_node(Some(self.width as i64)));
        Node::Table(m)
    }
}

/// Makes a list of time, code and data.
fn event_node(time: i64, code: &str, data: &str) -> (r: Node)
    ensures
        r@ == event_line(time, code@, data@),
{
    let mut items: Vec<Node> = Vec::new();
    items.push(Node::Number(show_seconds_float(time)));
    items.push(Node::Text(copy_text(code)));
    items.push(Node::Text(copy_text(data)));
    proof {
        lemma_list_json(items@);
        assert(list_json(items@) =~= event_line(time, code@, data@)->List_0);
    }
    Node::List(items)
}

impl Event {
    /// This event as a JSON array of time, code and data. A comment has none.
    pub fn as_data(&self) -> (r: Result<Node, CastError>)
        ensures
            match r {
                Ok(node) => event_json(self@) == Some(node@),
                Err(e) => self@ is Comment && e@ == CastFault::CommentEvent,
            },
    {
        match self {
            Event::Output { time, data } => Ok(event_node(*time, "o", data.as_str())),
            Event::Input { time, data } => Ok(event_node(*time, "i", data.as_str())),
            Event::Marker { time, label } => Ok(event_node(*time, "m", label.as_str())),
            Event::Resize { time, columns, rows } => {
                let mut size = show_whole(*columns as i64);
                size.push('x');
                let more = show_whole(*rows as i64);
                size.append(more.as_str());
                proof {
                    assert(size@ =~= size_text(*columns, *rows));
                }
                Ok(event_node(*time, "r", size.as_str()))
            },
            Event::Comment { .. } => Err(CastError::CommentEvent),
        }
    }
}

impl AsciiCast {
    /// The lines of the recording: the header, then the events. A recording with a comment cannot
    /// be written.
    pub fn to_lines(&self) -> (r: Result<Vec<String>, CastError>)
        ensures
            match r {
                Ok(lines) => !has_comment(self@.events) && views(lines@) == cast_lines(self@),
                Err(e) => has_comment(self@.events) && e@ == CastFault::CommentEvent,
            },
    {
        let mut lines: Vec<String> = Vec::new();
        let head = self.header.to_node();
        lines.push(head.to_text());
        let ghost all = cast_lines(self@);
        let mut i: usize = 0;
        proof {
            assert(views(lines@) =~= all.take(1));
        }
        while i < self.events.len()
            invariant
                i <= self.events@.len(),
                all == cast_lines(self@),
                views(lines@) == all.take(i + 1),
                forall|k: int| 0 <= k < i ==> !(#[trigger] self@.events[k] is Comment),
            decreases self.events@.len() - i,
        {
            let ghost before = views(lines@);
            let ghost e = self@.events[i as int];
            proof {
                assert(e == self.events@[i as int]@);
            }
            match self.events[i].as_data() {
                Err(e) => {
                    return Err(e);
                },
                Ok(node) => {
                    lines.push(node.to_text());
                    proof {
                        assert(cast_values(self@)[i + 1] == event_json(e)->0);
                        assert(views(lines@) =~= before.push(render(node@)));
                        assert(all.take(i + 2) =~= all.take(i + 1).push(all[i + 1]));
                    }
                },
            }
            i += 1;
        }
        proof {
            assert(all.take(i + 1) =~= all);
        }
        Ok(lines)
    }

    /// The text of the recording, with a line feed behind each line.
    pub fn to_text(&self) -> (r: Result<String, CastError>)
        ensures
            match r {
                Ok(text) => !has_comment(self@.events) && text@ == cast_text(self@),
                Err(e) => has_comment(self@.events) && e@ == CastFault::CommentEvent,
            },
    {
        let lines = match self.to_lines() {
            Ok(lines) => lines,
            Err(e) => {
                return Err(e);
            },
        };
        let ghost all = views(lines@);
        let mut text = String::new();
        let mut i: usize = 0;
        proof {
            assert(all.take(0) =~= Seq::<Seq<char>>::empty());
            assert(text@ =~= ended_lines(all.take(0)));
        }
        while i < lines.len()
            invariant
                i <= lines@.len(),
                all == views(lines@),
                text@ == ended_lines(all.take(i as int)),
            decreases lines@.len() - i,
        {
            let ghost before = text@;
            text.append(lines[i].as_str());
            text.push('\n');
            proof {
                assert(all.take(i + 1).drop_last() =~= all.take(i as int));
                assert(text@ =~= before + all[i as int] + seq!['\n']);
            }
            i += 1;
        }
        proof {
            assert(all.take(i as int) =~= all);
        }
        Ok(text)
    }
}

/// Reads a text that may be absent or null.
fn text_from(j: Option<&Node>) -> (r: Option<Option<String>>)
    ensures
        match r {
            Some(t) => read_text(found_json(j)) == Some(optional_view(t)),
            None => read_text(found_json(j)) is None,
        },
{
    match j {
        None => Some(None),
        Some(Node::Null) => Some(None),
        Some(Node::Text(t)) => Some(Some(copy_text(t.as_str()))),
        _ => None,
    }
}

/// Reads a whole number that may be absent or null.
fn whole_from(j: Option<&Node>) -> (r: Option<Option<i64>>)
    ensures
        r == read_whole(found_json(j)),
{
    match j {
        None => Some(None),
        Some(Node::Null) => Some(None),
        Some(Node::Number(t)) => match parse_whole(t.as_str()) {
            Some(v) => Some(Some(v)),
            None => None,
        },
        _ => None,
    }
}

/// Reads a time that may be absent or null.
fn seconds_from(j: Option<&Node>) -> (r: Option<Option<i64>>)
    ensures
        r == read_seconds(found_json(j)),
{
    match j {
        None => Some(None),
        Some(Node::Null) => Some(None),
        Some(Node::Number(t)) => match parse_scaled(t.as_str(), 9) {
            Some(v) => Some(Some(v)),
            None => None,
        },
        _ => None,
    }
}

/// Reads a whole number from zero to `limit`.
fn size_from(j: Option<&Node>, limit: i64) -> (r: Option<i64>)
    ensures
        match r {
            Some(v) => read_size(found_json(j), limit as int) == Some(v as int) && 0 <= v <= limit,
            None => read_size(found_json(j), limit as int) is None,
        },
{
    match j {
        Some(Node::Number(t)) => match parse_whole(t.as_str()) {
            Some(v) => if 0 <= v && v <= limit {
                Some(v)
            } else {
                None
            },
            None => None,
        },
        _ => None,
    }
}

/// Reads an environment that may be absent or null.
fn env_from(j: Option<&Node>) -> (r: Option<Option<Vec<(String, String)>>>)
    ensures
        match r {
            Some(Some(list)) => read_env(found_json(j)) == Some(Some(pair_views(list@))),
            Some(None) => read_env(found_json(j)) == Some(
                None::<Seq<(Seq<char>, Seq<char>)>>,
            ),
            None => read_env(found_json(j)) is None,
        },
{
    match j {
        None => Some(None),
        Some(Node::Null) => Some(None),
        Some(Node::Table(members)) => match pairs_of(members) {
            Some(list) => Some(Some(list)),
            None => None,
        },
        _ => None,
    }
}

/// Makes a theme of its three values.
fn theme_from_parts(fg: Option<&Node>, bg: Option<&Node>, palette: Option<&Node>) -> (r: Option<
    Theme,
>)
    ensures
        match r {
            Some(theme) => theme_of(found_json(fg), found_json(bg), found_json(palette)) == Some(
                theme@,
            ),
            None => theme_of(found_json(fg), found_json(bg), found_json(palette)) is None,
        },
{
    match (fg, bg, palette) {
        (Some(Node::Text(fg)), Some(Node::Text(bg)), Some(Node::List(items))) => {
            match texts_of(items) {
                Some(palette) => Some(
                    Theme { fg: copy_text(fg.as_str()), bg: copy_text(bg.as_str()), palette },
                ),
                None => None,
            }
        },
        _ => None,
    }
}

/// Reads a theme that may be absent or null.
fn theme_from(j: Option<&Node>) -> (r: Option<Option<Theme>>)
    ensures
        match r {
            Some(Some(theme)) => read_theme(found_json(j)) == Some(Some(theme@)),
            Some(None) => read_theme(found_json(j)) == Some(None::<ThemeView>),
            None => read_theme(found_json(j)) is None,
        },
{
    match j {
        None => Some(None),
        Some(Node::Null) => Some(None),
        Some(Node::Table(members)) => {
            match theme_from_parts(
                find_member(members, "fg"),
                find_member(members, "bg"),
                find_member(members, "palette"),
            ) {
                Some(theme) => Some(Some(theme)),
                None => None,
            }
        },
        Some(Node::List(items)) => {
            proof {
                lemma_list_json(items@);
            }
            if items.len() != 3 {
                return None;
            }
            match theme_from_parts(Some(&items[0]), Some(&items[1]), Some(&items[2])) {
                Some(theme) => Some(Some(theme)),
                None => None,
            }
        },
        _ => None,
    }
}

impl Header {
    /// Reads a header from the members of a JSON object.
    fn from_members(m: &Vec<(String, Node)>) -> (r: Option<Header>)
        ensures
            match r {
                Some(h) => read_header(table_json(m@)) == Some(h@),
                None => read_header(table_json(m@)) is None,
            },
    {
        let version = size_from(find_member(m, "version"), 0xffff_ffff);
        let width = size_from(find_member(m, "width"), 0xffff);
        let height = size_from(find_member(m, "height"), 0xffff);
        let timestamp = whole_from(find_member(m, "timestamp"));
        let duration = seconds_from(find_member(m, "duration"));
        let idle_time_limit = seconds_from(find_member(m, "idle_time_limit"));
        let command = text_from(find_member(m, "command"));
        let title = text_from(find_member(m, "title"));
        let env = env_from(find_member(m, "env"));
        let theme = theme_from(find_member(m, "theme"));
        match (
            version,
            width,
            height,
            timestamp,
            duration,
            idle_time_limit,
            command,
            title,
            env,
            theme,
        ) {
            (
                Some(version),
                Some(width),
                Some(height),
                Some(timestamp),
                Some(duration),
                Some(idle_time_limit),
                Some(command),
                Some(title),
                Some(env),
                Some(theme),
            ) => Some(
                Header {
                    version: version as u32,
                    width: width as u16,
                    height: height as u16,
                    timestamp,
                    duration,
                    idle_time_limit,
                    command,
                    title,
                    env,
                    theme,
                },
            ),
            _ => None,
        }
    }
}

/// Reads a number up to 65535.
fn u16_from(s: &[char]) -> (r: Option<u16>)
    ensures
        r == read_u16(s@),
{
    let from: usize = if s.len() > 0 && s[0] == '+' {
        1
    } else {
        0
    };
    let digits = vstd::slice::slice_subrange(s, from, s.len());
    proof {
        assert(digits@ =~= s@.skip(from as int));
        assert(s@.skip(0) =~= s@);
    }
    if digits.len() == 0 {
        return None;
    }
    let mut i: usize = 0;
    while i < digits.len()
        invariant
            i <= digits@.len(),
            digits@ == (if s@.len() > 0 && s@[0] == '+' {
                s@.skip(1)
            } else {
                s@
            }),
            forall|k: int| 0 <= k < i ==> is_digit(#[trigger] digits@[k]),
        decreases digits@.len() - i,
    {
        if !is_digit_char(digits[i]) {
            proof {
                assert(!is_digit(digits@[i as int]));
            }
            return None;
        }
        i += 1;
    }
    match value_of(digits) {
        Some(v) => if v <= 0xffff {
            Some(v as u16)
        } else {
            None
        },
        None => None,
    }
}

/// Reads the data of a resize event: columns, an `x`, rows.
pub fn parse_resize(data: &str) -> (r: Option<(u16, u16)>)
    ensures
        r == read_resize(data@),
{
    let chars = chars_of(data);
    let mut i: usize = 0;
    proof {
        assert(chars@.skip(0) =~= chars@);
    }
    while i < chars.len() && chars[i] != 'x'
        invariant
            i <= chars@.len(),
            first_x(chars@) == i + first_x(chars@.skip(i as int)),
        decreases chars@.len() - i,
    {
        proof {
            assert(chars@.skip(i as int).skip(1) =~= chars@.skip(i + 1));
        }
        i += 1;
    }
    if i == chars.len() {
        return None;
    }
    let front = vstd::slice::slice_subrange(chars.as_slice(), 0, i);
    let back = vstd::slice::slice_subrange(chars.as_slice(), i + 1, chars.len());
    proof {
        assert(front@ =~= chars@.take(i as int));
        assert(back@ =~= chars@.skip(i + 1));
    }
    match (u16_from(front), u16_from(back)) {
        (Some(columns), Some(rows)) => Some((columns, rows)),
        _ => None,
    }
}

/// Reads the event on a line.
fn event_from(node: &Node, line: usize) -> (r: Result<Event, CastError>)
    ensures
        match r {
            Ok(e) => read_event(node@, line) == Ok::<EventView, CastFault>(e@),
            Err(f) => read_event(node@, line) == Err::<EventView, CastFault>(f@),
        },
{
    let items = match node {
        Node::List(items) => items,
        _ => {
            return Err(CastError::InvalidEvent(line));
        },
    };
    proof {
        lemma_list_json(items@);
    }
    if items.len() != 3 {
        return Err(CastError::InvalidEvent(line));
    }
    let time = match &items[0] {
        Node::Number(t) => match parse_scaled(t.as_str(), 9) {
            Some(v) => v,
            None => {
                return Err(CastError::InvalidTime(line));
            },
        },
        _ => {
            return Err(CastError::InvalidTime(line));
        },
    };
    let code = match &items[1] {
        Node::Text(code) => code.as_str(),
        _ => {
            return Err(CastError::InvalidCode(line));
        },
    };
    let data = match &items[2] {
        Node::Text(data) => copy_text(data.as_str()),
        _ => {
            return Err(CastError::InvalidData(line));
        },
    };
    if same_text(code, "o") {
        Ok(Event::Output { time, data })
    } else if same_text(code, "i") {
        Ok(Event::Input { time, data })
    } else if same_text(code, "m") {
        Ok(Event::Marker { time, label: data })
    } else if same_text(code, "r") {
        match parse_resize(data.as_str()) {
            Some((columns, rows)) => Ok(Event::Resize { time, columns, rows }),
            None => Err(CastError::InvalidResize(data, line)),
        }
    } else {
        Err(CastError::UnknownCode(copy_text(code), line))
    }
}

proof fn lemma_read_events_fail(list: Seq<Json>, i: int)
    requires
        0 <= i <= list.len(),
        read_events(list.take(i)) is Err,
    ensures
        read_events(list) == read_events(list.take(i)),
    decreases list.len() - i,
{
    if i < list.len() {
        assert(list.take(i + 1).drop_last() =~= list.take(i));
        lemma_read_events_fail(list, i + 1);
    } else {
        assert(list.take(i) =~= list);
    }
}

/// Reads a recording from JSON values: the header, then the events.
pub fn parse_cast(values: &Vec<Node>) -> (r: Result<AsciiCast, CastError>)
    ensures
        match r {
            Ok(cast) => read_cast(list_json(values@)) == Ok::<CastView, CastFault>(cast@),
            Err(f) => read_cast(list_json(values@)) == Err::<CastView, CastFault>(f@),
        },
{
    let ghost all = list_json(values@);
    proof {
        lemma_list_json(values@);
    }
    if values.len() == 0 {
        return Err(CastError::MissingHeader);
    }
    let members = match &values[0] {
        Node::Table(members) => members,
        _ => {
            return Err(CastError::MissingHeader);
        },
    };
    let header = match Header::from_members(members) {
        Some(header) => header,
        None => {
            return Err(CastError::InvalidHeader);
        },
    };
    if header.version != 2 {
        return Err(CastError::UnsupportedVersion(header.version));
    }
    let ghost rest = all.skip(1);
    let mut events: Vec<Event> = Vec::new();
    let mut i: usize = 1;
    proof {
        assert(rest.take(0) =~= Seq::<Json>::empty());
        assert(event_views(events@) =~= Seq::<EventView>::empty());
    }
    while i < values.len()
        invariant
            1 <= i <= values@.len(),
            all == list_json(values@),
            all.len() == values@.len(),
            forall|k: int| 0 <= k < all.len() ==> #[trigger] all[k] == values@[k]@,
            rest == all.skip(1),
            header@.version == 2,
            all[0] is Table,
            read_header(all[0]->Table_0) == Some(header@),
            read_events(rest.take(i - 1)) == Ok::<Seq<EventView>, CastFault>(event_views(events@)),
        decreases values@.len() - i,
    {
        let ghost before = event_views(events@);
        proof {
            assert(rest.take(i as int).drop_last() =~= rest.take(i - 1));
            assert(rest.take(i as int).last() == values@[i as int]@);
        }
        match event_from(&values[i], i) {
            Err(f) => {
                proof {
                    lemma_read_events_fail(rest, i as int);
                }
                return Err(f);
            },
            Ok(e) => {
                events.push(e);
                proof {
                    assert(event_views(events@) =~= before.push(e@));
                }
            },
        }
        i += 1;
    }
    proof {
        assert(rest.take(i - 1) =~= rest);
    }
    Ok(AsciiCast { header, events })
}

/// Whether a line holds nothing but white space.
pub open spec fn blank(line: Seq<char>) -> bool {
    forall|i: int| 0 <= i < line.len() ==> is_space(#[trigger] line[i])
}

/// A line without the carriage return at its end, if there is one.
pub open spec fn without_return(line: Seq<char>) -> Seq<char> {
    if line.len() > 0 && line.last() == '\r' {
        line.drop_last()
    } else {
        line
    }
}

/// The lines of a text: what stands before, between and behind its line feeds. A carriage return
/// before a line feed belongs to it.
pub open spec fn lines_of(text: Seq<char>) -> Seq<Seq<char>>
    decreases text.len(),
{
    if text.len() == 0 {
        seq![Seq::empty()]
    } else {
        let front = lines_of(text.drop_last());
        if text.last() == '\n' {
            front.drop_last().push(without_return(front.last())).push(Seq::empty())
        } else {
            front.drop_last().push(front.last().push(text.last()))
        }
    }
}

/// The JSON values on the lines that are not blank, or the first line that holds none.
pub open spec fn read_values(lines: Seq<Seq<char>>) -> Result<Seq<Json>, CastFault>
    decreases lines.len(),
{
    if lines.len() == 0 {
        Ok(Seq::empty())
    } else {
        match read_values(lines.drop_last()) {
            Err(f) => Err(f),
            Ok(values) => {
                if blank(lines.last()) {
                    Ok(values)
                } else {
                    match json_of(lines.last()) {
                        Some(j) => Ok(values.push(j)),
                        None => Err(CastFault::InvalidJson(lines.last())),
                    }
                }
            },
        }
    }
}

/// The recording that a text holds, or what is wrong with it.
pub open spec fn read_file(text: Seq<char>) -> Result<CastView, CastFault> {
    match read_values(lines_of(text)) {
        Err(f) => Err(f),
        Ok(values) => read_cast(values),
    }
}

/// Whether a recording can be written and read back: it holds no comments, its version is that of
/// the format, and its environment is in order.
pub open spec fn savable(c: CastView) -> bool {
    &&& c.header.version == 2
    &&& c.header.env matches Some(list) ==> ascending(list)
    &&& !has_comment(c.events)
}

/// The fields of a header stand in order.
proof fn lemma_header_fields(h: HeaderView)
    ensures
        chained(header_fields(h)),
{
    reveal_strlit("command");
    reveal_strlit("duration");
    reveal_strlit("env");
    reveal_strlit("height");
    reveal_strlit("idle_time_limit");
    reveal_strlit("theme");
    reveal_strlit("timestamp");
    reveal_strlit("title");
    reveal_strlit("version");
    reveal_strlit("width");
    let f = header_fields(h);
    assert("command"@[0] == 'c' && "duration"@[0] == 'd' && "env"@[0] == 'e' && "height"@[0] == 'h'
        && "idle_time_limit"@[0] == 'i' && "theme"@[0] == 't' && "version"@[0] == 'v' && "width"@[0]
        == 'w');
    assert(text_before(f[0].0, f[1].0));
    assert(text_before(f[1].0, f[2].0));
    assert(text_before(f[2].0, f[3].0));
    assert(text_before(f[3].0, f[4].0));
    assert(text_before(f[4].0, f[5].0));
    assert(text_before(f[5].0, f[6].0)) by {
        assert("theme"@.skip(1)[0] == 'h' && "timestamp"@.skip(1)[0] == 'i');
        reveal_with_fuel(text_before, 2);
    }
    assert(text_before(f[6].0, f[7].0)) by {
        assert("timestamp"@.skip(1)[0] == 'i' && "title"@.skip(1)[0] == 'i');
        assert("timestamp"@.skip(1).skip(1)[0] == 'm' && "title"@.skip(1).skip(1)[0] == 't');
        reveal_with_fuel(text_before, 3);
    }
    assert(text_before(f[7].0, f[8].0));
    assert(text_before(f[8].0, f[9].0));
}

/// A theme that was written reads back as the same theme.
proof fn lemma_theme_read_back(theme: ThemeView)
    ensures
        read_theme(Some(theme_json(theme))) == Some(Some(theme)),
        readable(theme_json(theme)),
        depth(theme_json(theme)) == 2,
        ordered(theme_json(theme)) == theme_json(theme),
{
    reveal_strlit("bg");
    reveal_strlit("fg");
    reveal_strlit("palette");
    let m = theme_json(theme)->Table_0;
    let a = m.drop_last();
    let b = a.drop_last();
    assert("bg"@[0] == 'b' && "fg"@[0] == 'f' && "palette"@[0] == 'p');
    lemma_texts_read_back(theme.palette);
    assert(a =~= seq![("bg"@, Json::Text(theme.bg)), ("fg"@, Json::Text(theme.fg))]);
    assert(b =~= seq![("bg"@, Json::Text(theme.bg))]);
    assert(find(b, "bg"@) == Some(Json::Text(theme.bg)));
    assert(find(a, "bg"@) == Some(Json::Text(theme.bg)));
    assert(find(a, "fg"@) == Some(Json::Text(theme.fg)));
    assert(find(m, "bg"@) == Some(Json::Text(theme.bg)));
    assert(find(m, "fg"@) == Some(Json::Text(theme.fg)));
    assert(ascending(m));
    assert(readable(texts_json(theme.palette)));
    assert(members_readable(b.drop_last()));
    assert(members_readable(b)) by {
        assert(readable(b.last().1));
    }
    assert(members_readable(a)) by {
        assert(readable(a.last().1));
    }
    assert(members_readable(m));
    lemma_flat_table(a);
    assert(m.last().1 == texts_json(theme.palette));
    assert(table_depth(m) == 1);
    lemma_in_order(m);
}

/// Every field of a header can be told from its text.
proof fn lemma_header_readable(h: HeaderView)
    requires
        h.env matches Some(list) ==> ascending(list),
    ensures
        readable(header_json(h)),
        depth(header_json(h)) <= MAX_DEPTH,
        ordered(header_json(h)) == header_json(h),
{
    let f = header_fields(h);
    lemma_no_leading_zeros(h.version as int, whole_text(h.version as int));
    lemma_no_leading_zeros(h.width as int, whole_text(h.width as int));
    lemma_no_leading_zeros(h.height as int, whole_text(h.height as int));
    if let Some(v) = h.timestamp {
        lemma_no_leading_zeros(v as int, whole_text(v as int));
    }
    if let Some(v) = h.duration {
        lemma_no_leading_zeros(v as int, seconds_float(v as int));
    }
    if let Some(v) = h.idle_time_limit {
        lemma_no_leading_zeros(v as int, seconds_float(v as int));
    }
    if let Some(list) = h.env {
        lemma_pairs_read_back(list);
    }
    if let Some(theme) = h.theme {
        lemma_theme_read_back(theme);
    }
    assert forall|i: int| 0 <= i < f.len() implies ((#[trigger] f[i]).1 matches Some(j)
        ==> readable(j) && depth(j) <= 2) by {}
    lemma_present_readable(f, 2);
    lemma_header_fields(h);
    lemma_present(f);
    assert forall|i: int| 0 <= i < f.len() implies ((#[trigger] f[i]).1 matches Some(j)
        ==> ordered(j) == j) by {}
    lemma_present_in_order(f);
}

/// A header that was written reads back as the same header.
proof fn lemma_header_read_back(h: HeaderView)
    requires
        h.env matches Some(list) ==> ascending(list),
    ensures
        read_header(header_json(h)->Table_0) == Some(h),
{
    let f = header_fields(h);
    let m = present(f);
    lemma_header_fields(h);
    lemma_present(f);
    assert(find(m, f[0].0) == f[0].1);
    assert(find(m, f[1].0) == f[1].1);
    assert(find(m, f[2].0) == f[2].1);
    assert(find(m, f[3].0) == f[3].1);
    assert(find(m, f[4].0) == f[4].1);
    assert(find(m, f[5].0) == f[5].1);
    assert(find(m, f[6].0) == f[6].1);
    assert(find(m, f[7].0) == f[7].1);
    assert(find(m, f[8].0) == f[8].1);
    assert(find(m, f[9].0) == f[9].1);
    law_whole_read_back(h.version as int);
    law_whole_read_back(h.width as int);
    law_whole_read_back(h.height as int);
    if let Some(v) = h.timestamp {
        law_whole_read_back(v as int);
    }
    if let Some(v) = h.duration {
        law_seconds_read_back(v as int);
    }
    if let Some(v) = h.idle_time_limit {
        law_seconds_read_back(v as int);
    }
    if let Some(list) = h.env {
        lemma_pairs_read_back(list);
    }
    if let Some(theme) = h.theme {
        lemma_theme_read_back(theme);
    }
}

proof fn lemma_first_x(front: Seq<char>, back: Seq<char>)
    requires
        all_digits(front),
    ensures
        first_x(front + seq!['x'] + back) == front.len(),
    decreases front.len(),
{
    let s = front + seq!['x'] + back;
    if front.len() > 0 {
        assert(is_digit(front[0]));
        let rest = front.skip(1);
        assert forall|i: int| 0 <= i < rest.len() implies is_digit(#[trigger] rest[i]) by {
            assert(rest[i] == front[i + 1]);
        }
        lemma_first_x(rest, back);
        assert(s.skip(1) =~= rest + seq!['x'] + back);
    }
}

/// Time, code and data have a JSON text, and are read as they are.
proof fn lemma_event_line(time: i64, code: Seq<char>, data: Seq<char>)
    ensures
        readable(event_line(time, code, data)),
        depth(event_line(time, code, data)) <= MAX_DEPTH,
        ordered(event_line(time, code, data)) == event_line(time, code, data),
{
    let items = event_line(time, code, data)->List_0;
    lemma_no_leading_zeros(time as int, seconds_float(time as int));
    let a = items.drop_last();
    let b = a.drop_last();
    assert(all_readable(b.drop_last()));
    assert(all_readable(b)) by {
        assert(readable(b.last()));
    }
    assert(all_readable(a)) by {
        assert(readable(a.last()));
    }
    assert(all_readable(items)) by {
        assert(readable(items.last()));
    }
    lemma_flat_list(items);
    lemma_list_in_order(items);
}

/// An event that was written has a JSON text, and is read as it is.
proof fn lemma_event_readable(e: EventView)
    requires
        !(e is Comment),
    ensures
        event_json(e) is Some,
        readable(event_json(e)->0),
        depth(event_json(e)->0) <= MAX_DEPTH,
        ordered(event_json(e)->0) == event_json(e)->0,
{
    match e {
        EventView::Output { time, data } => lemma_event_line(time, "o"@, data),
        EventView::Input { time, data } => lemma_event_line(time, "i"@, data),
        EventView::Marker { time, label } => lemma_event_line(time, "m"@, label),
        EventView::Resize { time, columns, rows } => lemma_event_line(
            time,
            "r"@,
            size_text(columns, rows),
        ),
        EventView::Comment { .. } => {},
    }
}

/// A size that was written reads back as the same size.
proof fn lemma_size_read_back(columns: u16, rows: u16)
    ensures
        read_resize(size_text(columns, rows)) == Some((columns, rows)),
{
    let front = nat_digits(columns as nat);
    let back = nat_digits(rows as nat);
    let s = size_text(columns, rows);
    lemma_nat_digits(columns as nat);
    lemma_nat_digits(rows as nat);
    lemma_first_x(front, back);
    assert(s.take(front.len() as int) =~= front);
    assert(s.skip(front.len() as int + 1) =~= back);
    assert(is_digit(front[0]));
    assert(is_digit(back[0]));
}

/// The codes of events are different.
proof fn lemma_codes_differ()
    ensures
        "o"@ != "i"@,
        "o"@ != "m"@,
        "o"@ != "r"@,
        "i"@ != "m"@,
        "i"@ != "r"@,
        "m"@ != "r"@,
{
    reveal_strlit("o");
    reveal_strlit("i");
    reveal_strlit("m");
    reveal_strlit("r");
    assert("o"@[0] == 'o' && "i"@[0] == 'i' && "m"@[0] == 'm' && "r"@[0] == 'r');
}

/// An event that was written reads back as the same event.
proof fn lemma_event_read_back(e: EventView, line: usize)
    requires
        !(e is Comment),
    ensures
        event_json(e) is Some,
        read_event(event_json(e)->0, line) == Ok::<EventView, CastFault>(e),
{
    lemma_codes_differ();
    law_seconds_read_back(e.time() as int);
    if let EventView::Resize { columns, rows, .. } = e {
        lemma_size_read_back(columns, rows);
    }
}

proof fn lemma_events_read_back(events: Seq<EventView>)
    requires
        !has_comment(events),
        events.len() <= usize::MAX,
    ensures
        read_events(event_values(events)) == Ok::<Seq<EventView>, CastFault>(events),
    decreases events.len(),
{
    let list = event_values(events);
    if events.len() > 0 {
        let front = events.drop_last();
        assert forall|i: int| 0 <= i < front.len() implies !((#[trigger] front[i]) is Comment) by {
            assert(front[i] == events[i]);
        }
        lemma_events_read_back(front);
        assert(list.drop_last() =~= event_values(front));
        lemma_event_read_back(events.last(), events.len() as usize);
        assert(front.push(events.last()) =~= events);
    } else {
        assert(events =~= Seq::<EventView>::empty());
    }
}

/// The JSON values of a recording stand for that recording.
pub proof fn law_cast_read_back(c: CastView)
    requires
        savable(c),
        c.events.len() <= usize::MAX,
    ensures
        read_cast(cast_values(c)) == Ok::<CastView, CastFault>(c),
{
    lemma_header_read_back(c.header);
    lemma_events_read_back(c.events);
    assert(cast_values(c).skip(1) =~= event_values(c.events));
}

/// Whether a line holds nothing but white space.
fn is_blank(line: &str) -> (r: bool)
    ensures
        r == blank(line@),
{
    let chars = chars_of(line);
    let mut i: usize = 0;
    while i < chars.len()
        invariant
            i <= chars@.len(),
            chars@ == line@,
            forall|k: int| 0 <= k < i ==> is_space(#[trigger] line@[k]),
        decreases chars@.len() - i,
    {
        if !is_space_char(chars[i]) {
            proof {
                assert(!is_space(line@[i as int]));
            }
            return false;
        }
        i += 1;
    }
    true
}

/// Splits a text into its lines.
fn split_lines(text: &str) -> (r: Vec<String>)
    ensures
        views(r@) == lines_of(text@),
{
    let chars = chars_of(text);
    let mut lines: Vec<String> = Vec::new();
    let mut line: Vec<char> = Vec::new();
    let mut i: usize = 0;
    proof {
        assert(chars@.take(0) =~= Seq::<char>::empty());
        assert(views(lines@).push(line@) =~= lines_of(chars@.take(0)));
    }
    while i < chars.len()
        invariant
            i <= chars@.len(),
            views(lines@).push(line@) == lines_of(chars@.take(i as int)),
        decreases chars@.len() - i,
    {
        let c = chars[i];
        let ghost seen = views(lines@).push(line@);
        let ghost old_line = line@;
        let ghost old_lines = views(lines@);
        proof {
            assert(chars@.take(i + 1).drop_last() =~= chars@.take(i as int));
        }
        if c == '\n' {
            let n: usize = line.len();
            if n > 0 && line[n - 1] == '\r' {
                line.truncate(n - 1);
            }
            proof {
                assert(seen.drop_last() =~= old_lines);
                assert(line@ =~= without_return(old_line));
            }
            lines.push(string_of(line.as_slice()));
            proof {
                assert(views(lines@) =~= old_lines.push(line@));
            }
            line = Vec::new();
            proof {
                assert(line@ =~= Seq::<char>::empty());
            }
        } else {
            line.push(c);
            proof {
                assert(seen.drop_last() =~= old_lines);
                assert(seen.last() == old_line);
            }
        }
        i += 1;
    }
    let ghost seen = views(lines@).push(line@);
    lines.push(string_of(line.as_slice()));
    proof {
        assert(views(lines@) =~= seen);
        assert(chars@.take(i as int) =~= text@);
    }
    lines
}

/// Whether the value of a line that is the text of a value is that value.
spec fn told(line: Seq<char>) -> bool {
    forall|j: Json|
        readable(j) && depth(j) <= MAX_DEPTH && line == #[trigger] render(j) ==> json_of(line)
            == Some(ordered(j))
}

proof fn lemma_lines_grow(text: Seq<char>, line: Seq<char>)
    requires
        one_line(line),
    ensures
        lines_of(text + line) == lines_of(text).drop_last().push(lines_of(text).last() + line),
        lines_of(text).len() > 0,
    decreases line.len(),
{
    lemma_lines_not_empty(text);
    let all = lines_of(text);
    if line.len() == 0 {
        assert(text + line =~= text);
        assert(all.last() + line =~= all.last());
        assert(all.drop_last().push(all.last()) =~= all);
    } else {
        let front = line.drop_last();
        lemma_lines_grow(text, front);
        assert((text + line).drop_last() =~= text + front);
        assert((text + line).last() == line.last());
        let some = lines_of(text + front);
        assert(some.drop_last() =~= all.drop_last());
        assert(some.last().push(line.last()) =~= all.last() + line);
    }
}

proof fn lemma_lines_not_empty(text: Seq<char>)
    ensures
        lines_of(text).len() > 0,
    decreases text.len(),
{
    if text.len() > 0 {
        lemma_lines_not_empty(text.drop_last());
    }
}

/// Lines with a line feed behind each are those lines, with an empty one at the end.
proof fn lemma_lines_read_back(lines: Seq<Seq<char>>)
    requires
        forall|i: int| 0 <= i < lines.len() ==> one_line(#[trigger] lines[i]),
    ensures
        lines_of(ended_lines(lines)) == lines.push(Seq::empty()),
    decreases lines.len(),
{
    if lines.len() > 0 {
        let front = lines.drop_last();
        assert forall|i: int| 0 <= i < front.len() implies one_line(#[trigger] front[i]) by {
            assert(front[i] == lines[i]);
        }
        lemma_lines_read_back(front);
        let before = ended_lines(front);
        let line = lines.last();
        assert(one_line(line));
        lemma_lines_grow(before, line);
        let text = ended_lines(lines);
        assert(text.drop_last() =~= before + line);
        let some = lines_of(before);
        assert(some.drop_last() =~= front);
        assert(some.last() + line =~= line);
        assert(front.push(line) =~= lines);
    } else {
        assert(lines.push(Seq::empty()) =~= seq![Seq::<char>::empty()]);
    }
}

/// A readable value's text is one line that is not blank.
proof fn lemma_value_line(j: Json)
    requires
        readable(j),
    ensures
        one_line(render(j)),
        !blank(render(j)),
{
    lemma_render_one_line(j);
    lemma_first_char(j);
    assert(!is_space(render(j)[0]));
}

/// The lines of a recording's text.
proof fn lemma_file_lines(c: CastView)
    requires
        savable(c),
    ensures
        lines_of(cast_text(c)) == cast_lines(c).push(Seq::empty()),
        forall|i: int|
            0 <= i < cast_lines(c).len() ==> readable(#[trigger] cast_values(c)[i]) && depth(
                cast_values(c)[i],
            ) <= MAX_DEPTH && ordered(cast_values(c)[i]) == cast_values(c)[i]
                && cast_lines(c)[i] == render(cast_values(c)[i]) && !blank(cast_lines(c)[i]),
{
    let values = cast_values(c);
    let lines = cast_lines(c);
    lemma_header_readable(c.header);
    assert forall|i: int| 0 <= i < lines.len() implies readable(#[trigger] values[i]) && depth(
        values[i],
    ) <= MAX_DEPTH && ordered(values[i]) == values[i] && lines[i] == render(values[i]) && !blank(
        lines[i],
    ) && one_line(lines[i]) by {
        if i > 0 {
            let e = c.events[i - 1];
            assert(!(e is Comment));
            lemma_event_readable(e);
            assert(values[i] == event_json(e)->0);
        }
        lemma_value_line(values[i]);
    }
    assert forall|i: int| 0 <= i < lines.len() implies one_line(#[trigger] lines[i]) by {
        assert(readable(values[i]));
    }
    lemma_lines_read_back(lines);
}

/// Where every value of the lines of a recording can be told, those are its values.
proof fn lemma_values_read_back(lines: Seq<Seq<char>>, values: Seq<Json>)
    requires
        lines.len() == values.len(),
        forall|i: int|
            0 <= i < lines.len() ==> readable(#[trigger] values[i]) && depth(values[i])
                <= MAX_DEPTH && ordered(values[i]) == values[i] && lines[i] == render(values[i])
                && !blank(lines[i]) && told(lines[i]),
    ensures
        read_values(lines) == Ok::<Seq<Json>, CastFault>(values),
    decreases lines.len(),
{
    if lines.len() > 0 {
        let a = lines.drop_last();
        let b = values.drop_last();
        assert forall|i: int| 0 <= i < a.len() implies readable(#[trigger] b[i]) && depth(b[i])
            <= MAX_DEPTH && ordered(b[i]) == b[i] && a[i] == render(b[i]) && !blank(a[i]) && told(
            a[i],
        ) by {
            assert(b[i] == values[i] && a[i] == lines[i]);
        }
        lemma_values_read_back(a, b);
        let n = lines.len() - 1;
        assert(readable(values[n]));
        assert(json_of(lines[n]) == Some(values[n]));
        assert(b.push(values[n]) =~= values);
    } else {
        assert(values =~= Seq::<Json>::empty());
    }
}

proof fn lemma_read_values_fail(lines: Seq<Seq<char>>, i: int)
    requires
        0 <= i <= lines.len(),
        read_values(lines.take(i)) is Err,
    ensures
        read_values(lines) == read_values(lines.take(i)),
    decreases lines.len() - i,
{
    if i < lines.len() {
        assert(lines.take(i + 1).drop_last() =~= lines.take(i));
        lemma_read_values_fail(lines, i + 1);
    } else {
        assert(lines.take(i) =~= lines);
    }
}

impl AsciiCast {
    /// Reads a recording from its text. Blank lines are skipped. From the text that was written of
    /// a recording, it reads that recording.
    pub fn from_text(text: &str) -> (r: Result<AsciiCast, CastError>)
        ensures
            match r {
                Ok(cast) => read_file(text@) == Ok::<CastView, CastFault>(cast@),
                Err(f) => read_file(text@) == Err::<CastView, CastFault>(f@),
            },
            forall|c: CastView|
                savable(c) && text@ == #[trigger] cast_text(c) ==> (r matches Ok(cast) && cast@
                    == c),
    {
        let lines = split_lines(text);
        let ghost all = views(lines@);
        let mut values: Vec<Node> = Vec::new();
        let mut i: usize = 0;
        proof {
            assert(all.take(0) =~= Seq::<Seq<char>>::empty());
            assert(list_json(values@) =~= Seq::<Json>::empty());
        }
        while i < lines.len()
            invariant
                i <= lines@.len(),
                all == views(lines@),
                all == lines_of(text@),
                read_values(all.take(i as int)) == Ok::<Seq<Json>, CastFault>(list_json(values@)),
                forall|k: int| 0 <= k < i ==> blank(#[trigger] all[k]) || told(all[k]),
            decreases lines@.len() - i,
        {
            let ghost line = all[i as int];
            let ghost before = values@;
            proof {
                assert(line == lines@[i as int]@);
                assert(all.take(i + 1).drop_last() =~= all.take(i as int));
                assert(all.take(i + 1).last() == line);
            }
            if !is_blank(lines[i].as_str()) {
                match Node::from_text(lines[i].as_str()) {
                    Some(node) => {
                        proof {
                            assert(told(line));
                        }
                        values.push(node);
                        proof {
                            assert(values@.drop_last() =~= before);
                        }
                    },
                    None => {
                        proof {
                            lemma_read_values_fail(all, i + 1);
                            assert forall|c: CastView| savable(c) && text@ == #[trigger] cast_text(
                                c,
                            ) implies false by {
                                lemma_file_lines(c);
                                assert(all == cast_lines(c).push(Seq::empty()));
                                assert(i < cast_lines(c).len());
                                assert(readable(cast_values(c)[i as int]));
                            }
                        }
                        return Err(CastError::InvalidJson(copy_text(lines[i].as_str())));
                    },
                }
            }
            i += 1;
        }
        proof {
            assert(all.take(i as int) =~= all);
            lemma_list_json(values@);
            assert forall|c: CastView| savable(c) && text@ == #[trigger] cast_text(c) implies
                read_cast(list_json(values@)) == Ok::<CastView, CastFault>(c) by {
                lemma_file_lines(c);
                let written = cast_lines(c);
                assert(all == written.push(Seq::empty()));
                assert forall|k: int| 0 <= k < written.len() implies readable(
                    #[trigger] cast_values(c)[k],
                ) && depth(cast_values(c)[k]) <= MAX_DEPTH && ordered(cast_values(c)[k])
                    == cast_values(c)[k] && written[k] == render(
                    cast_values(c)[k],
                ) && !blank(written[k]) && told(written[k]) by {
                    assert(all[k] == written[k]);
                    assert(blank(all[k]) || told(all[k]));
                }
                lemma_values_read_back(written, cast_values(c));
                assert(all.drop_last() =~= written);
                assert(blank(all.last()));
                assert(list_json(values@) == cast_values(c));
                law_cast_read_back(c);
            }
        }
        parse_cast(&values)
    }
}

/// An event is written as its time in seconds, a code and its data: `o` for output, `i` for input,
/// `m` for a marker, `r` for a new size, whose data is the columns, an `x` and the rows.
pub proof fn law_events_are_written(time: i64, data: Seq<char>, columns: u16, rows: u16)
    ensures
        ({
            let at = Json::Number(seconds_float(time as int));
            &&& event_json(EventView::Output { time, data }) == Some(
                Json::List(seq![at, Json::Text("o"@), Json::Text(data)]),
            )
            &&& event_json(EventView::Input { time, data }) == Some(
                Json::List(seq![at, Json::Text("i"@), Json::Text(data)]),
            )
            &&& event_json(EventView::Marker { time, label: data }) == Some(
                Json::List(seq![at, Json::Text("m"@), Json::Text(data)]),
            )
            &&& event_json(EventView::Resize { time, columns, rows }) == Some(
                Json::List(
                    seq![
                        at,
                        Json::Text("r"@),
                        Json::Text(
                            nat_digits(columns as nat) + seq!['x'] + nat_digits(rows as nat),
                        ),
                    ],
                ),
            )
        }),
{
}

/// An event is read by its code. Its time is a number of seconds, its data a text; anything else is
/// told apart by what is wrong with it, with the line.
pub proof fn law_events_are_read(t: Seq<char>, code: Json, data: Json, line: usize)
    ensures
        ({
            let read = read_event(Json::List(seq![Json::Number(t), code, data]), line);
            match scaled(t, 9) {
                None => read == Err::<EventView, CastFault>(CastFault::InvalidTime(line)),
                Some(v) => {
                    let time = v as i64;
                    &&& !(code is Text) ==> read == Err::<EventView, CastFault>(
                        CastFault::InvalidCode(line),
                    )
                    &&& code is Text && !(data is Text) ==> read == Err::<EventView, CastFault>(
                        CastFault::InvalidData(line),
                    )
                    &&& data is Text && code == Json::Text("o"@) ==> read == Ok::<
                        EventView,
                        CastFault,
                    >(EventView::Output { time, data: data->Text_0 })
                    &&& data is Text && code == Json::Text("i"@) ==> read == Ok::<
                        EventView,
                        CastFault,
                    >(EventView::Input { time, data: data->Text_0 })
                    &&& data is Text && code == Json::Text("m"@) ==> read == Ok::<
                        EventView,
                        CastFault,
                    >(EventView::Marker { time, label: data->Text_0 })
                    &&& data is Text && code == Json::Text("r"@) ==> read == (match read_resize(
                        data->Text_0,
                    ) {
                        Some((columns, rows)) => Ok::<EventView, CastFault>(
                            EventView::Resize { time, columns, rows },
                        ),
                        None => Err(CastFault::InvalidResize(data->Text_0, line)),
                    })
                    &&& data is Text && code is Text && code->Text_0 != "o"@ && code->Text_0
                        != "i"@ && code->Text_0 != "m"@ && code->Text_0 != "r"@ ==> read == Err::<
                        EventView,
                        CastFault,
                    >(CastFault::UnknownCode(code->Text_0, line))
                },
            }
        }),
{
    lemma_codes_differ();
    let items = seq![Json::Number(t), code, data];
    assert(items[0] == Json::Number(t) && items[1] == code && items[2] == data);
}

/// A line that is no list of three is no event, and one whose time is no number has no time.
pub proof fn law_other_lines_are_no_events(j: Json, line: usize)
    ensures
        !(j is List) || j->List_0.len() != 3 ==> read_event(j, line) == Err::<
            EventView,
            CastFault,
        >(CastFault::InvalidEvent(line)),
        j is List && j->List_0.len() == 3 && !(j->List_0[0] is Number) ==> read_event(j, line)
            == Err::<EventView, CastFault>(CastFault::InvalidTime(line)),
{
}

/// A size is read from its columns, an `x` and its rows, each a number up to 65535.
pub proof fn law_sizes_are_read(a: Seq<char>, b: Seq<char>)
    requires
        a.len() > 0,
        b.len() > 0,
        forall|i: int| 0 <= i < a.len() ==> '0' <= #[trigger] a[i] <= '9',
        forall|i: int| 0 <= i < b.len() ==> '0' <= #[trigger] b[i] <= '9',
    ensures
        read_resize(a + seq!['x'] + b) == (if digits_value(a) <= 65535 && digits_value(b)
            <= 65535 {
            Some((digits_value(a) as u16, digits_value(b) as u16))
        } else {
            None
        }),
{
    assert forall|i: int| 0 <= i < a.len() implies is_digit(#[trigger] a[i]) by {}
    assert forall|i: int| 0 <= i < b.len() implies is_digit(#[trigger] b[i]) by {}
    lemma_first_x(a, b);
    let s = a + seq!['x'] + b;
    assert(s.take(a.len() as int) =~= a);
    assert(s.skip(a.len() as int + 1) =~= b);
    assert(a[0] != '+' && b[0] != '+');
}

/// Every line behind the header is an event, in order, counted from one; where one cannot be read,
/// the first such one says what is wrong and where.
pub proof fn law_events_are_read_one_by_one(list: Seq<Json>) -> (k: int)
    requires
        list.len() <= usize::MAX,
    ensures
        match read_events(list) {
            Ok(events) => events.len() == list.len() && forall|i: int|
                0 <= i < list.len() ==> read_event(#[trigger] list[i], (i + 1) as usize) == Ok::<
                    EventView,
                    CastFault,
                >(events[i]),
            Err(f) => 0 <= k < list.len() && read_event(list[k], (k + 1) as usize) == Err::<
                EventView,
                CastFault,
            >(f) && forall|i: int|
                0 <= i < k ==> read_event(#[trigger] list[i], (i + 1) as usize) is Ok,
        },
    decreases list.len(),
{
    if list.len() == 0 {
        0
    } else {
        let front = list.drop_last();
        let k = law_events_are_read_one_by_one(front);
        match read_events(front) {
            Ok(some) => {
                assert forall|i: int| 0 <= i < front.len() implies read_event(
                    #[trigger] list[i],
                    (i + 1) as usize,
                ) == Ok::<EventView, CastFault>(some[i]) by {
                    assert(front[i] == list[i]);
                }
                list.len() - 1
            },
            Err(f) => {
                assert(front[k] == list[k]);
                assert forall|i: int| 0 <= i < k implies read_event(
                    #[trigger] list[i],
                    (i + 1) as usize,
                ) is Ok by {
                    assert(front[i] == list[i]);
                }
                k
            },
        }
    }
}

/// A header tells of everything that is set in it, each under its own name, and of nothing that is
/// not.
pub proof fn law_header_is_written_by_name(h: HeaderView)
    ensures
        header_json(h) is Table,
        ({
            let m = header_json(h)->Table_0;
            &&& find(m, "version"@) == Some(Json::Number(whole_text(h.version as int)))
            &&& find(m, "width"@) == Some(Json::Number(whole_text(h.width as int)))
            &&& find(m, "height"@) == Some(Json::Number(whole_text(h.height as int)))
            &&& find(m, "timestamp"@) == (match h.timestamp {
                Some(v) => Some(Json::Number(whole_text(v as int))),
                None => None,
            })
            &&& find(m, "duration"@) == (match h.duration {
                Some(v) => Some(Json::Number(seconds_float(v as int))),
                None => None,
            })
            &&& find(m, "idle_time_limit"@) == (match h.idle_time_limit {
                Some(v) => Some(Json::Number(seconds_float(v as int))),
                None => None,
            })
            &&& find(m, "command"@) == (match h.command {
                Some(t) => Some(Json::Text(t)),
                None => None,
            })
            &&& find(m, "title"@) == (match h.title {
                Some(t) => Some(Json::Text(t)),
                None => None,
            })
            &&& find(m, "env"@) == (match h.env {
                Some(list) => Some(
                    Json::Table(
                        list.map_values(|p: (Seq<char>, Seq<char>)| (p.0, Json::Text(p.1))),
                    ),
                ),
                None => None,
            })
            &&& h.theme is None ==> find(m, "theme"@) is None
            &&& h.theme matches Some(theme) ==> {
                let t = find(m, "theme"@);
                &&& t is Some && t->0 is Table
                &&& find(t->0->Table_0, "fg"@) == Some(Json::Text(theme.fg))
                &&& find(t->0->Table_0, "bg"@) == Some(Json::Text(theme.bg))
                &&& find(t->0->Table_0, "palette"@) == Some(
                    Json::List(theme.palette.map_values(|c: Seq<char>| Json::Text(c))),
                )
            }
        }),
{
    let f = header_fields(h);
    let m = present(f);
    lemma_header_fields(h);
    lemma_present(f);
    assert(find(m, f[0].0) == f[0].1);
    assert(find(m, f[1].0) == f[1].1);
    assert(find(m, f[2].0) == f[2].1);
    assert(find(m, f[3].0) == f[3].1);
    assert(find(m, f[4].0) == f[4].1);
    assert(find(m, f[5].0) == f[5].1);
    assert(find(m, f[6].0) == f[6].1);
    assert(find(m, f[7].0) == f[7].1);
    assert(find(m, f[8].0) == f[8].1);
    assert(find(m, f[9].0) == f[9].1);
    if let Some(theme) = h.theme {
        lemma_theme_fields(theme);
    }
}

proof fn lemma_theme_fields(theme: ThemeView)
    ensures
        ({
            let m = theme_json(theme)->Table_0;
            &&& find(m, "fg"@) == Some(Json::Text(theme.fg))
            &&& find(m, "bg"@) == Some(Json::Text(theme.bg))
            &&& find(m, "palette"@) == Some(
                Json::List(theme.palette.map_values(|c: Seq<char>| Json::Text(c))),
            )
        }),
{
    let m = theme_json(theme)->Table_0;
    reveal_strlit("fg");
    reveal_strlit("bg");
    reveal_strlit("palette");
    assert("fg"@[0] == 'f' && "bg"@[0] == 'b' && "palette"@[0] == 'p');
    assert(m[0].0 == "bg"@ && m[1].0 == "fg"@ && m[2].0 == "palette"@ && m.len() == 3);
    crate::json::law_members_are_found(m, "bg"@, 0);
    crate::json::law_members_are_found(m, "fg"@, 1);
    crate::json::law_members_are_found(m, "palette"@, 2);
}

/// A header is read by the names of its fields: version and size must be there, whole and in their
/// limits; everything else may be absent.
pub proof fn law_header_is_read_by_name(
    m: Seq<(Seq<char>, Json)>,
    version: u32,
    width: u16,
    height: u16,
    h: HeaderView,
)
    requires
        find(m, "version"@) == Some(Json::Number(whole_text(version as int))),
        find(m, "width"@) == Some(Json::Number(whole_text(width as int))),
        find(m, "height"@) == Some(Json::Number(whole_text(height as int))),
        h.timestamp is Some ==> find(m, "timestamp"@) == Some(
            Json::Number(whole_text(h.timestamp->0 as int)),
        ),
        h.timestamp is None ==> find(m, "timestamp"@) is None,
        h.duration is Some ==> find(m, "duration"@) == Some(
            Json::Number(seconds_float(h.duration->0 as int)),
        ),
        h.duration is None ==> find(m, "duration"@) is None,
        h.idle_time_limit is Some ==> find(m, "idle_time_limit"@) == Some(
            Json::Number(seconds_float(h.idle_time_limit->0 as int)),
        ),
        h.idle_time_limit is None ==> find(m, "idle_time_limit"@) is None,
        h.command is Some ==> find(m, "command"@) == Some(Json::Text(h.command->0)),
        h.command is None ==> find(m, "command"@) is None,
        h.title is Some ==> find(m, "title"@) == Some(Json::Text(h.title->0)),
        h.title is None ==> find(m, "title"@) is None,
        h.env is None,
        find(m, "env"@) is None,
        h.theme is None,
        find(m, "theme"@) is None,
        h.version == version,
        h.width == width,
        h.height == height,
    ensures
        read_header(m) == Some(h),
{
    law_whole_read_back(version as int);
    law_whole_read_back(width as int);
    law_whole_read_back(height as int);
    if let Some(v) = h.timestamp {
        law_whole_read_back(v as int);
    }
    if let Some(v) = h.duration {
        law_seconds_read_back(v as int);
    }
    if let Some(v) = h.idle_time_limit {
        law_seconds_read_back(v as int);
    }
}

/// A recording begins with a header of the format's second version; any other version is told, and
/// so is that there is no header, or none that can be read. Without events it is read as its
/// header alone.
pub proof fn law_recording_needs_its_header(values: Seq<Json>, h: HeaderView)
    ensures
        values.len() == 0 || !(values[0] is Table) ==> read_cast(values) == Err::<
            CastView,
            CastFault,
        >(CastFault::MissingHeader),
        values.len() > 0 && values[0] is Table && read_header(values[0]->Table_0) is None
            ==> read_cast(values) == Err::<CastView, CastFault>(CastFault::InvalidHeader),
        values.len() > 0 && values[0] is Table && read_header(values[0]->Table_0) == Some(h)
            && h.version != 2 ==> read_cast(values) == Err::<CastView, CastFault>(
            CastFault::UnsupportedVersion(h.version),
        ),
        values.len() > 0 && values[0] is Table && read_header(values[0]->Table_0) == Some(h)
            && h.version == 2 ==> match read_events(values.skip(1)) {
            Ok(events) => read_cast(values) == Ok::<CastView, CastFault>(
                CastView { header: h, events },
            ),
            Err(f) => read_cast(values) == Err::<CastView, CastFault>(f),
        },
{
}

/// A recording is written line by line: its header first, then every event in order, each with a
/// line feed behind it.
pub proof fn law_recording_is_written_line_by_line(c: CastView, i: int, a: Seq<Seq<char>>, line:
    Seq<char>)
    requires
        0 <= i < c.events.len(),
    ensures
        cast_lines(c).len() == c.events.len() + 1,
        cast_lines(c)[0] == render(header_json(c.header)),
        event_json(c.events[i]) matches Some(j) ==> cast_lines(c)[i + 1] == render(j),
        ended_lines(a.push(line)) == ended_lines(a) + line + seq!['\n'],
        ended_lines(Seq::empty()) == Seq::<char>::empty(),
        cast_text(c) == ended_lines(cast_lines(c)),
{
    assert(cast_values(c)[0] == header_json(c.header));
    assert(cast_values(c)[i + 1] == event_values(c.events)[i]);
    assert(a.push(line).drop_last() =~= a);
}

/// What holds no line feed belongs to the last line.
proof fn lemma_line_goes_on(text: Seq<char>, line: Seq<char>)
    requires
        forall|i: int| 0 <= i < line.len() ==> #[trigger] line[i] != '\n',
    ensures
        lines_of(text + line) == lines_of(text).drop_last().push(lines_of(text).last() + line),
        lines_of(text).len() > 0,
    decreases line.len(),
{
    lemma_lines_not_empty(text);
    if line.len() == 0 {
        assert(text + line =~= text);
        assert(lines_of(text).last() + line =~= lines_of(text).last());
        assert(lines_of(text).drop_last().push(lines_of(text).last()) =~= lines_of(text));
    } else {
        let front = line.drop_last();
        assert forall|i: int| 0 <= i < front.len() implies #[trigger] front[i] != '\n' by {
            assert(front[i] == line[i]);
        }
        lemma_line_goes_on(text, front);
        assert((text + line).drop_last() =~= text + front);
        assert(line[line.len() - 1] != '\n');
        let before = lines_of(text + front);
        assert(before.drop_last() =~= lines_of(text).drop_last());
        assert(before.last().push(line.last()) =~= lines_of(text).last() + line);
    }
}

/// A text is cut into lines at its line feeds, and a carriage return before one goes with it. What
/// stands behind the last one is a line too.
pub proof fn law_lines_end_at_line_feeds(text: Seq<char>, line: Seq<char>)
    requires
        forall|i: int| 0 <= i < line.len() ==> #[trigger] line[i] != '\n',
        text.len() == 0 || text.last() == '\n',
    ensures
        lines_of(text).len() > 0,
        lines_of(text).last().len() == 0,
        lines_of(text + line) == lines_of(text).drop_last() + seq![line],
        line.len() == 0 || line.last() != '\r' ==> lines_of(text + line + seq!['\n']) == lines_of(
            text,
        ).drop_last() + seq![line, Seq::empty()],
        lines_of(text + line + seq!['\r', '\n']) == lines_of(text).drop_last() + seq![
            line,
            Seq::empty(),
        ],
{
    let before = lines_of(text);
    lemma_lines_not_empty(text);
    lemma_line_goes_on(text, line);
    assert(before.last() + line =~= line);
    let a = text + line;
    assert(lines_of(a) =~= before.drop_last() + seq![line]);
    let b = a + seq!['\n'];
    assert(b.drop_last() =~= a);
    assert(b.last() == '\n');
    if line.len() == 0 || line.last() != '\r' {
        assert(lines_of(b) =~= before.drop_last() + seq![line, Seq::empty()]);
    }
    let c = a + seq!['\r'];
    assert(c.drop_last() =~= a);
    assert(c.last() == '\r');
    let returned = line.push('\r');
    assert(lines_of(c) =~= before.drop_last() + seq![returned]);
    assert(returned.drop_last() =~= line);
    let d = a + seq!['\r', '\n'];
    assert(d.drop_last() =~= c);
    assert(d.last() == '\n');
    assert(lines_of(d) =~= before.drop_last() + seq![line, Seq::empty()]);
}

/// Every line that is not blank holds one value, in order; blank lines hold none. The first line
/// that holds no value is told.
pub proof fn law_values_stand_on_lines(lines: Seq<Seq<char>>, line: Seq<char>)
    ensures
        read_values(Seq::empty()) matches Ok(values) && values.len() == 0,
        match read_values(lines) {
            Err(f) => read_values(lines.push(line)) == Err::<Seq<Json>, CastFault>(f),
            Ok(values) => {
                let white = forall|i: int| 0 <= i < line.len() ==> is_space(#[trigger] line[i]);
                &&& white ==> read_values(lines.push(line)) == Ok::<Seq<Json>, CastFault>(values)
                &&& !white ==> read_values(lines.push(line)) == (match json_of(line) {
                    Some(j) => Ok::<Seq<Json>, CastFault>(values + seq![j]),
                    None => Err(CastFault::InvalidJson(line)),
                })
            },
        },
{
    assert(lines.push(line).drop_last() =~= lines);
    if let Ok(values) = read_values(lines) {
        if let Some(j) = json_of(line) {
            assert(values + seq![j] =~= values.push(j));
        }
    }
}

proof fn lemma_any_first_x(front: Seq<char>, back: Seq<char>)
    requires
        forall|i: int| 0 <= i < front.len() ==> #[trigger] front[i] != 'x',
    ensures
        first_x(front + seq!['x'] + back) == front.len(),
    decreases front.len(),
{
    let s = front + seq!['x'] + back;
    if front.len() > 0 {
        assert(s[0] == front[0]);
        let rest = front.skip(1);
        assert forall|i: int| 0 <= i < rest.len() implies #[trigger] rest[i] != 'x' by {
            assert(rest[i] == front[i + 1]);
        }
        lemma_any_first_x(rest, back);
        assert(s.skip(1) =~= rest + seq!['x'] + back);
    }
}

proof fn lemma_no_x(s: Seq<char>)
    requires
        forall|i: int| 0 <= i < s.len() ==> #[trigger] s[i] != 'x',
    ensures
        first_x(s) == s.len(),
    decreases s.len(),
{
    if s.len() > 0 {
        let rest = s.skip(1);
        assert(s[0] != 'x');
        assert forall|i: int| 0 <= i < rest.len() implies #[trigger] rest[i] != 'x' by {
            assert(rest[i] == s[i + 1]);
        }
        lemma_no_x(rest);
    }
}

/// A size is cut at its first `x`; both sides must be numbers. A plus sign in front of a number
/// changes nothing, and a text without an `x`, with nothing on a side or with anything but digits
/// there is no size.
pub proof fn law_sizes_have_two_sides(front: Seq<char>, back: Seq<char>, digits: Seq<char>)
    requires
        forall|i: int| 0 <= i < front.len() ==> #[trigger] front[i] != 'x',
    ensures
        read_resize(front) is None,
        read_resize(front + seq!['x'] + back) == (match (read_u16(front), read_u16(back)) {
            (Some(columns), Some(rows)) => Some((columns, rows)),
            _ => None,
        }),
        digits.len() > 0 && digits[0] != '+' ==> read_u16(seq!['+'] + digits) == read_u16(digits),
        read_u16(Seq::empty()) is None,
        (exists|i: int|
            0 < i < digits.len() && !('0' <= #[trigger] digits[i] <= '9')) ==> read_u16(
            digits,
        ) is None,
{
    lemma_no_x(front);
    lemma_any_first_x(front, back);
    let s = front + seq!['x'] + back;
    assert(s.take(front.len() as int) =~= front);
    assert(s.skip(front.len() as int + 1) =~= back);
    if digits.len() > 0 && digits[0] != '+' {
        let signed = seq!['+'] + digits;
        assert(signed[0] == '+');
        assert(signed.skip(1) =~= digits);
    }
    if exists|i: int| 0 < i < digits.len() && !('0' <= #[trigger] digits[i] <= '9') {
        let i = choose|i: int| 0 < i < digits.len() && !('0' <= #[trigger] digits[i] <= '9');
        let d = if digits[0] == '+' {
            digits.skip(1)
        } else {
            digits
        };
        let k = if digits[0] == '+' {
            i - 1
        } else {
            i
        };
        assert(d[k] == digits[i]);
        assert(!is_digit(d[k]));
    }
}

/// What may be absent from a header may also be null; a value of another kind is refused.
pub proof fn law_absent_and_null_are_the_same(t: Seq<char>, n: int, j: Json)
    requires
        i64::MIN <= n <= i64::MAX,
    ensures
        read_text(None) == Some(None::<Seq<char>>),
        read_text(Some(Json::Null)) == Some(None::<Seq<char>>),
        read_text(Some(Json::Text(t))) == Some(Some(t)),
        !(j is Null) && !(j is Text) ==> read_text(Some(j)) is None,
        read_whole(None) == Some(None::<i64>),
        read_whole(Some(Json::Null)) == Some(None::<i64>),
        read_whole(Some(Json::Number(whole_text(n)))) == Some(Some(n as i64)),
        !(j is Null) && !(j is Number) ==> read_whole(Some(j)) is None,
        read_seconds(None) == Some(None::<i64>),
        read_seconds(Some(Json::Null)) == Some(None::<i64>),
        read_seconds(Some(Json::Number(seconds_float(n)))) == Some(Some(n as i64)),
        !(j is Null) && !(j is Number) ==> read_seconds(Some(j)) is None,
        read_size(None, 65535) is None,
        0 <= n <= 65535 ==> read_size(Some(Json::Number(whole_text(n))), 65535) == Some(n),
        n < 0 || n > 65535 ==> read_size(Some(Json::Number(whole_text(n))), 65535) is None,
        !(j is Number) ==> read_size(Some(j), 65535) is None,
        read_env(None) matches Some(env) && env is None,
        read_env(Some(Json::Null)) matches Some(env) && env is None,
        !(j is Null) && !(j is Table) ==> read_env(Some(j)) is None,
        read_theme(None) == Some(None::<ThemeView>),
        read_theme(Some(Json::Null)) == Some(None::<ThemeView>),
        !(j is Null) && !(j is Table) && !(j is List) ==> read_theme(Some(j)) is None,
{
    law_whole_read_back(n);
    law_seconds_read_back(n);
}

/// An environment is read variable by variable, all of them and in order, and a theme by the names
/// of its colours, or from a list of the three.
pub proof fn law_environment_and_theme_are_read(
    members: Seq<(Seq<char>, Json)>,
    pairs: Seq<(Seq<char>, Seq<char>)>,
    fg: Seq<char>,
    bg: Seq<char>,
    items: Seq<Json>,
    palette: Seq<Seq<char>>,
)
    requires
        items.len() == palette.len(),
        forall|i: int| 0 <= i < items.len() ==> #[trigger] items[i] == Json::Text(palette[i]),
    ensures
        read_env(
            Some(
                Json::Table(
                    pairs.map_values(|p: (Seq<char>, Seq<char>)| (p.0, Json::Text(p.1))),
                ),
            ),
        ) == Some(Some(pairs)),
        find(members, "fg"@) == Some(Json::Text(fg)) && find(members, "bg"@) == Some(
            Json::Text(bg),
        ) && find(members, "palette"@) == Some(Json::List(items)) ==> read_theme(
            Some(Json::Table(members)),
        ) == Some(Some(ThemeView { fg, bg, palette })),
        read_theme(Some(Json::List(seq![Json::Text(fg), Json::Text(bg), Json::List(items)])))
            == Some(Some(ThemeView { fg, bg, palette })),
{
    lemma_pairs_are_read(pairs);
    crate::json::law_texts_are_read(items);
    if read_texts(items) is Some {
        let list = read_texts(items)->0;
        assert forall|i: int| 0 <= i < list.len() implies list[i] == palette[i] by {
            assert(items[i] == Json::Text(list[i]));
        }
        assert(list =~= palette);
    } else {
        let i = choose|i: int| 0 <= i < items.len() && !(#[trigger] items[i] is Text);
        assert(items[i] == Json::Text(palette[i]));
    }
    let three = seq![Json::Text(fg), Json::Text(bg), Json::List(items)];
    assert(three[0] == Json::Text(fg) && three[1] == Json::Text(bg) && three[2] == Json::List(
        items,
    ));
}

proof fn lemma_pairs_are_read(pairs: Seq<(Seq<char>, Seq<char>)>)
    ensures
        read_pairs(pairs.map_values(|p: (Seq<char>, Seq<char>)| (p.0, Json::Text(p.1)))) == Some(
            pairs,
        ),
    decreases pairs.len(),
{
    let m = pairs.map_values(|p: (Seq<char>, Seq<char>)| (p.0, Json::Text(p.1)));
    if pairs.len() > 0 {
        let front = pairs.drop_last();
        lemma_pairs_are_read(front);
        assert(m.drop_last() =~= front.map_values(
            |p: (Seq<char>, Seq<char>)| (p.0, Json::Text(p.1)),
        ));
        assert(m.last() == (pairs.last().0, Json::Text(pairs.last().1)));
        assert(front.push(pairs.last()) =~= pairs);
    } else {
        assert(read_pairs(m)->0 =~= pairs);
    }
}

/// What can be saved and read back: every recording of the format's version, without comments,
/// whose variables, if it tells of any, stand in order of their names.
pub proof fn law_what_can_be_saved(c: CastView)
    requires
        c.header.version == 2,
        forall|i: int| 0 <= i < c.events.len() ==> !(#[trigger] c.events[i] is Comment),
        c.header.env matches Some(list) ==> forall|i: int, j: int|
            0 <= i < j < list.len() ==> text_before(#[trigger] list[i].0, #[trigger] list[j].0),
        c.events.len() <= usize::MAX,
    ensures
        savable(c),
        read_cast(cast_values(c)) == Ok::<CastView, CastFault>(c),
{
    law_cast_read_back(c);
}

/// A file is read line by line: its values are those on its lines, and a line that holds none
/// decides before anything else.
pub proof fn law_file_is_read_by_its_lines(text: Seq<char>)
    ensures
        match read_values(lines_of(text)) {
            Ok(values) => read_file(text) == read_cast(values),
            Err(f) => read_file(text) == Err::<CastView, CastFault>(f),
        },
{
}

} // verus!
