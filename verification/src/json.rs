//! JSON values: their text, and reading them from text.

use crate::decimal::{digits_end, scaled, whole, written};
use crate::text::{append_chars, chars_of, copy_text, is_space, same_text, spells, string_of, views};
use vstd::prelude::*;

verus! {

/// A JSON value. A number is kept as it is written.
#[derive(Debug, PartialEq)]
pub enum Node {
    Null,
    Bool(bool),
    Number(String),
    Text(String),
    List(Vec<Node>),
    Table(Vec<(String, Node)>),
}

/// A JSON value as mathematics.
#[verifier::ext_equal]
pub enum Json {
    Null,
    Bool(bool),
    Number(Seq<char>),
    Text(Seq<char>),
    List(Seq<Json>),
    Table(Seq<(Seq<char>, Json)>),
}

impl Node {
    /// The value that this is.
    pub open spec fn json(self) -> Json
        decreases self,
    {
        match self {
            Node::Null => Json::Null,
            Node::Bool(b) => Json::Bool(b),
            Node::Number(t) => Json::Number(t@),
            Node::Text(t) => Json::Text(t@),
            Node::List(items) => Json::List(list_json(items@)),
            Node::Table(members) => Json::Table(table_json(members@)),
        }
    }
}

/// The values of a list.
pub open spec fn list_json(items: Seq<Node>) -> Seq<Json>
    decreases items,
{
    if items.len() == 0 {
        Seq::empty()
    } else {
        list_json(items.drop_last()).push(items.last().json())
    }
}

/// The members of a table.
pub open spec fn table_json(members: Seq<(String, Node)>) -> Seq<(Seq<char>, Json)>
    decreases members,
{
    if members.len() == 0 {
        Seq::empty()
    } else {
        table_json(members.drop_last()).push((members.last().0@, members.last().1.json()))
    }
}

impl View for Node {
    type V = Json;

    open spec fn view(&self) -> Json {
        self.json()
    }
}

/// The hexadecimal digit of a value below sixteen, in lower case.
pub open spec fn hex_char(d: int) -> char {
    if d < 10 {
        ((d + 0x30) as u32) as char
    } else {
        ((d + 0x57) as u32) as char
    }
}

/// A character inside a quoted text.
pub open spec fn quoted_char(c: char) -> Seq<char> {
    if c == '"' {
        seq!['\\', '"']
    } else if c == '\\' {
        seq!['\\', '\\']
    } else if c == '\u{8}' {
        seq!['\\', 'b']
    } else if c == '\u{9}' {
        seq!['\\', 't']
    } else if c == '\u{a}' {
        seq!['\\', 'n']
    } else if c == '\u{c}' {
        seq!['\\', 'f']
    } else if c == '\u{d}' {
        seq!['\\', 'r']
    } else if c <= '\u{1f}' {
        seq!['\\', 'u', '0', '0', hex_char(c as int / 16), hex_char(c as int % 16)]
    } else {
        seq![c]
    }
}

/// The characters of a text inside its quotes.
pub open spec fn quoted_inside(s: Seq<char>) -> Seq<char>
    decreases s.len(),
{
    if s.len() == 0 {
        Seq::empty()
    } else {
        quoted_inside(s.drop_last()) + quoted_char(s.last())
    }
}

/// A text as a JSON string.
pub open spec fn quoted(s: Seq<char>) -> Seq<char> {
    seq!['"'] + quoted_inside(s) + seq!['"']
}

/// Texts one after the other with commas between them.
pub open spec fn joined(list: Seq<Seq<char>>) -> Seq<char>
    decreases list.len(),
{
    if list.len() == 0 {
        Seq::empty()
    } else if list.len() == 1 {
        list[0]
    } else {
        joined(list.drop_last()) + seq![','] + list.last()
    }
}

/// The compact text of a value.
pub open spec fn render(j: Json) -> Seq<char>
    decreases j,
{
    match j {
        Json::Null => "null"@,
        Json::Bool(b) => if b {
            "true"@
        } else {
            "false"@
        },
        Json::Number(t) => t,
        Json::Text(t) => quoted(t),
        Json::List(items) => seq!['['] + joined(renders(items)) + seq![']'],
        Json::Table(members) => seq!['{'] + joined(member_texts(members)) + seq!['}'],
    }
}

/// The texts of a list of values.
pub open spec fn renders(items: Seq<Json>) -> Seq<Seq<char>>
    decreases items,
{
    if items.len() == 0 {
        Seq::empty()
    } else {
        renders(items.drop_last()).push(render(items.last()))
    }
}

/// The texts of the members of a table: the key in quotes, a colon, the value.
pub open spec fn member_texts(members: Seq<(Seq<char>, Json)>) -> Seq<Seq<char>>
    decreases members,
{
    if members.len() == 0 {
        Seq::empty()
    } else {
        let m = members.last();
        member_texts(members.drop_last()).push(quoted(m.0) + seq![':'] + render(m.1))
    }
}

/// The values of a list, one by one.
pub proof fn lemma_list_json(items: Seq<Node>)
    ensures
        list_json(items).len() == items.len(),
        forall|i: int| 0 <= i < items.len() ==> #[trigger] list_json(items)[i] == items[i]@,
    decreases items.len(),
{
    if items.len() > 0 {
        lemma_list_json(items.drop_last());
    }
}

/// The members of a table, one by one.
pub proof fn lemma_table_json(members: Seq<(String, Node)>)
    ensures
        table_json(members).len() == members.len(),
        forall|i: int|
            0 <= i < members.len() ==> #[trigger] table_json(members)[i] == (
                members[i].0@,
                members[i].1@,
            ),
    decreases members.len(),
{
    if members.len() > 0 {
        lemma_table_json(members.drop_last());
    }
}

/// The texts of a list of values, one by one.
pub proof fn lemma_renders(items: Seq<Json>)
    ensures
        renders(items).len() == items.len(),
        forall|i: int| 0 <= i < items.len() ==> #[trigger] renders(items)[i] == render(items[i]),
    decreases items.len(),
{
    if items.len() > 0 {
        lemma_renders(items.drop_last());
    }
}

/// The texts of the members of a table, one by one.
pub proof fn lemma_member_texts(members: Seq<(Seq<char>, Json)>)
    ensures
        member_texts(members).len() == members.len(),
        forall|i: int|
            0 <= i < members.len() ==> #[trigger] member_texts(members)[i] == quoted(members[i].0)
                + seq![':'] + render(members[i].1),
    decreases members.len(),
{
    if members.len() > 0 {
        lemma_member_texts(members.drop_last());
    }
}

/// `serde_json::to_string` of a text gives that text in quotes, with quotes, backslashes and
/// control characters escaped and every other character as it is.
#[verifier::external_body]
fn json_quoted(s: &str) -> (r: String)
    ensures
        r@ == quoted(s@),
{
    serde_json::to_string(s).unwrap_or_default()
}

proof fn lemma_joined_step(list: Seq<Seq<char>>, i: int)
    requires
        0 <= i < list.len(),
    ensures
        joined(list.take(i + 1)) == (if i == 0 {
            list[0]
        } else {
            joined(list.take(i)) + seq![','] + list[i]
        }),
{
    assert(list.take(i + 1).drop_last() =~= list.take(i));
}

impl Node {
    /// Appends the text of this value to `out`.
    fn write(&self, out: &mut Vec<char>)
        ensures
            final(out)@ == old(out)@ + render(self@),
        decreases self,
    {
        match self {
            Node::Null => {
                let t = chars_of("null");
                append_chars(out, t.as_slice());
            },
            Node::Bool(b) => {
                let t = chars_of(
                    if *b {
                        "true"
                    } else {
                        "false"
                    },
                );
                append_chars(out, t.as_slice());
            },
            Node::Number(text) => {
                let t = chars_of(text.as_str());
                append_chars(out, t.as_slice());
            },
            Node::Text(text) => {
                let q = json_quoted(text.as_str());
                let t = chars_of(q.as_str());
                append_chars(out, t.as_slice());
            },
            Node::List(items) => {
                let ghost start = out@;
                let ghost texts = renders(list_json(items@));
                proof {
                    lemma_list_json(items@);
                    lemma_renders(list_json(items@));
                }
                out.push('[');
                let mut i: usize = 0;
                proof {
                    assert(out@ =~= start + seq!['['] + joined(texts.take(0)));
                }
                while i < items.len()
                    invariant
                        i <= items@.len(),
                        self == Node::List(*items),
                        texts.len() == items@.len(),
                        forall|k: int|
                            0 <= k < texts.len() ==> #[trigger] texts[k] == render(items@[k]@),
                        out@ == start + seq!['['] + joined(texts.take(i as int)),
                    decreases items@.len() - i,
                {
                    proof {
                        lemma_joined_step(texts, i as int);
                    }
                    if i > 0 {
                        out.push(',');
                    }
                    proof {
                        assert(decreases_to!(self => self->List_0));
                        assert(decreases_to!(self->List_0 => self->List_0@));
                        assert(decreases_to!(items@ => items@[i as int]));
                    }
                    items[i].write(out);
                    proof {
                        assert(out@ =~= start + seq!['['] + joined(texts.take(i + 1)));
                    }
                    i += 1;
                }
                out.push(']');
                proof {
                    assert(texts.take(i as int) =~= texts);
                    assert(out@ =~= start + (seq!['['] + joined(texts) + seq![']']));
                }
            },
            Node::Table(members) => {
                let ghost start = out@;
                let ghost texts = member_texts(table_json(members@));
                proof {
                    lemma_table_json(members@);
                    lemma_member_texts(table_json(members@));
                }
                out.push('{');
                let mut i: usize = 0;
                proof {
                    assert(out@ =~= start + seq!['{'] + joined(texts.take(0)));
                }
                while i < members.len()
                    invariant
                        i <= members@.len(),
                        self == Node::Table(*members),
                        texts.len() == members@.len(),
                        forall|k: int|
                            0 <= k < texts.len() ==> #[trigger] texts[k] == quoted(members@[k].0@)
                                + seq![':'] + render(members@[k].1@),
                        out@ == start + seq!['{'] + joined(texts.take(i as int)),
                    decreases members@.len() - i,
                {
                    proof {
                        lemma_joined_step(texts, i as int);
                    }
                    if i > 0 {
                        out.push(',');
                    }
                    let key = json_quoted(members[i].0.as_str());
                    let t = chars_of(key.as_str());
                    append_chars(out, t.as_slice());
                    out.push(':');
                    proof {
                        assert(decreases_to!(self => self->Table_0));
                        assert(decreases_to!(self->Table_0 => self->Table_0@));
                        assert(decreases_to!(members@ => members@[i as int]));
                    }
                    members[i].1.write(out);
                    proof {
                        assert(out@ =~= start + seq!['{'] + joined(texts.take(i + 1)));
                    }
                    i += 1;
                }
                out.push('}');
                proof {
                    assert(texts.take(i as int) =~= texts);
                    assert(out@ =~= start + (seq!['{'] + joined(texts) + seq!['}']));
                }
            },
        }
    }

    /// The compact text of this value.
    pub fn to_text(&self) -> (r: String)
        ensures
            r@ == render(self@),
    {
        let mut out: Vec<char> = Vec::new();
        self.write(&mut out);
        proof {
            assert(out@ =~= render(self@));
        }
        string_of(out.as_slice())
    }
}

/// Whether `t` is written as JSON writes numbers: as a decimal number without leading zeros.
pub open spec fn json_number(t: Seq<char>) -> bool {
    let a: int = if t.len() > 0 && t[0] == '-' {
        1
    } else {
        0
    };
    written(t) is Some && (t[a] == '0' ==> digits_end(t, a) == a + 1)
}

/// Whether `t` is a JSON number of a common kind: not long, and not large.
pub open spec fn common_number(t: Seq<char>) -> bool {
    json_number(t) && t.len() <= 100 && (scaled(t, 9) is Some || whole(t) is Some)
}

/// Whether text `a` comes before text `b` in the order of code points.
pub open spec fn text_before(a: Seq<char>, b: Seq<char>) -> bool
    decreases b.len(),
{
    b.len() > 0 && (a.len() == 0 || a[0] < b[0] || (a[0] == b[0] && text_before(
        a.skip(1),
        b.skip(1),
    )))
}

/// Whether the keys of a table stand in order, each of them once.
pub open spec fn ascending<T>(members: Seq<(Seq<char>, T)>) -> bool {
    forall|i: int, j: int|
        0 <= i < j < members.len() ==> text_before(#[trigger] members[i].0, #[trigger] members[j].0)
}

/// Whether a value has a JSON text that can be read: its numbers are common ones.
pub open spec fn readable(j: Json) -> bool
    decreases j,
{
    match j {
        Json::Number(t) => common_number(t),
        Json::List(items) => all_readable(items),
        Json::Table(members) => members_readable(members),
        _ => true,
    }
}

/// Whether every value of a list has a JSON text.
pub open spec fn all_readable(items: Seq<Json>) -> bool
    decreases items,
{
    items.len() > 0 ==> all_readable(items.drop_last()) && readable(items.last())
}

/// Whether every value of a table has a JSON text.
pub open spec fn members_readable(members: Seq<(Seq<char>, Json)>) -> bool
    decreases members,
{
    members.len() > 0 ==> members_readable(members.drop_last()) && readable(members.last().1)
}

/// A table in order of its keys with one more member in it, which takes the place of one with the
/// same key.
pub open spec fn put<T>(list: Seq<(Seq<char>, T)>, key: Seq<char>, value: T) -> Seq<
    (Seq<char>, T),
>
    decreases list.len(),
{
    if list.len() == 0 {
        seq![(key, value)]
    } else if text_before(list.last().0, key) {
        list.push((key, value))
    } else if list.last().0 == key {
        list.drop_last().push((key, value))
    } else {
        put(list.drop_last(), key, value).push(list.last())
    }
}

/// Members in order of their keys. Of those with the same key the last one counts.
pub open spec fn sorted_pairs<T>(list: Seq<(Seq<char>, T)>) -> Seq<(Seq<char>, T)>
    decreases list.len(),
{
    if list.len() == 0 {
        Seq::empty()
    } else {
        put(sorted_pairs(list.drop_last()), list.last().0, list.last().1)
    }
}

/// The keys of a table with the texts of their values.
pub open spec fn text_pairs(members: Seq<(Seq<char>, Json)>) -> Seq<(Seq<char>, Seq<char>)> {
    map_pairs(members, |j: Json| render(j))
}

/// The keys of a table with something made of their values.
pub open spec fn map_pairs<A, B>(list: Seq<(Seq<char>, A)>, f: spec_fn(A) -> B) -> Seq<
    (Seq<char>, B),
> {
    list.map_values(|m: (Seq<char>, A)| (m.0, f(m.1)))
}

/// A value with the members of its tables in order of their keys: what its text is read as.
pub open spec fn ordered(j: Json) -> Json
    decreases j,
{
    match j {
        Json::List(items) => Json::List(ordered_list(items)),
        Json::Table(members) => Json::Table(ordered_members(members)),
        _ => j,
    }
}

/// The values of a list, with the members of their tables in order.
pub open spec fn ordered_list(items: Seq<Json>) -> Seq<Json>
    decreases items,
{
    if items.len() == 0 {
        Seq::empty()
    } else {
        ordered_list(items.drop_last()).push(ordered(items.last()))
    }
}

/// The members of a table in order, and those of the tables in it.
pub open spec fn ordered_members(members: Seq<(Seq<char>, Json)>) -> Seq<(Seq<char>, Json)>
    decreases members,
{
    if members.len() == 0 {
        Seq::empty()
    } else {
        put(ordered_members(members.drop_last()), members.last().0, ordered(members.last().1))
    }
}

/// How deep lists and tables stand in one another in a value.
pub open spec fn depth(j: Json) -> nat
    decreases j,
{
    match j {
        Json::List(items) => 1 + list_depth(items),
        Json::Table(members) => 1 + table_depth(members),
        _ => 0,
    }
}

/// The depth of the deepest value of a list.
pub open spec fn list_depth(items: Seq<Json>) -> nat
    decreases items,
{
    if items.len() == 0 {
        0
    } else {
        deeper(list_depth(items.drop_last()), depth(items.last()))
    }
}

/// The depth of the deepest value of a table.
pub open spec fn table_depth(members: Seq<(Seq<char>, Json)>) -> nat
    decreases members,
{
    if members.len() == 0 {
        0
    } else {
        deeper(table_depth(members.drop_last()), depth(members.last().1))
    }
}

/// The greater of two depths.
pub open spec fn deeper(a: nat, b: nat) -> nat {
    if a >= b {
        a
    } else {
        b
    }
}

/// How deep lists and tables may stand in one another in a text that is read.
pub const MAX_DEPTH: usize = 127;

/// Whether a text is a JSON number that is not out of range.
pub uninterp spec fn json_fits(text: Seq<char>) -> bool;

/// The one JSON value that a text holds, without the white space around it.
pub uninterp spec fn json_value(text: Seq<char>) -> Option<Seq<char>>;

/// The texts of the elements of the JSON array that a text holds.
pub uninterp spec fn json_elements(text: Seq<char>) -> Option<Seq<Seq<char>>>;

/// The members of the JSON object that a text holds: keys, and the texts of their values.
pub uninterp spec fn json_members(text: Seq<char>) -> Option<Seq<(Seq<char>, Seq<char>)>>;

/// The characters of the JSON string that a text holds.
pub uninterp spec fn json_string(text: Seq<char>) -> Option<Seq<char>>;

/// The view of an optional text.
pub open spec fn optional_view(t: Option<String>) -> Option<Seq<char>> {
    match t {
        Some(s) => Some(s@),
        None => None,
    }
}

/// The views of keys and the texts of their values.
pub open spec fn pair_views(list: Seq<(String, String)>) -> Seq<(Seq<char>, Seq<char>)> {
    list.map_values(|p: (String, String)| (p.0@, p.1@))
}

/// `serde_json::from_str` into a number refuses a number that is out of range. One that is neither
/// long nor large is not refused.
#[verifier::external_body]
fn json_number_fits(text: &str) -> (r: bool)
    ensures
        r == json_fits(text@),
        common_number(text@) ==> r,
{
    serde_json::from_str::<serde_json::Number>(text).is_ok()
}

/// `serde_json::from_str` into a raw value checks that the text holds one JSON value and nothing
/// else, and keeps its text, which is not empty. The compact text of a value is such a text.
#[verifier::external_body]
fn json_value_text(text: &str) -> (r: Option<String>)
    ensures
        optional_view(r) == json_value(text@),
        r matches Some(t) ==> t@.len() > 0,
        forall|j: Json|
            readable(j) && text@ == #[trigger] render(j) ==> r is Some && r->0@ == text@,
{
    match serde_json::from_str::<Box<serde_json::value::RawValue>>(text) {
        Ok(value) => Some(value.get().to_string()),
        Err(_) => None,
    }
}

/// `serde_json::from_str` into a list of raw values gives the text of each element, each shorter
/// than the whole. From the compact text of a list it gives the compact texts of its elements.
#[verifier::external_body]
fn json_array(text: &str) -> (r: Option<Vec<String>>)
    ensures
        match r {
            Some(list) => json_elements(text@) == Some(views(list@)),
            None => json_elements(text@) is None,
        },
        r matches Some(list) ==> forall|i: int|
            0 <= i < list@.len() ==> 0 < (#[trigger] list@[i])@.len() < text@.len(),
        forall|j: Json|
            j is List && readable(j) && text@ == #[trigger] render(j) ==> r is Some && views(r->0@)
                == renders(j->List_0),
{
    match serde_json::from_str::<Vec<Box<serde_json::value::RawValue>>>(text) {
        Ok(list) => Some(list.into_iter().map(|value| value.get().to_string()).collect()),
        Err(_) => None,
    }
}

/// `serde_json::from_str` into a sorted map of raw values gives the keys in order, each once, the
/// last value where a key is repeated, and the text of each value, shorter than the whole. From
/// the compact text of a table it gives its keys in order and the compact texts of their values.
#[verifier::external_body]
fn json_object(text: &str) -> (r: Option<Vec<(String, String)>>)
    ensures
        match r {
            Some(list) => json_members(text@) == Some(pair_views(list@)),
            None => json_members(text@) is None,
        },
        r matches Some(list) ==> ascending(pair_views(list@)),
        r matches Some(list) ==> forall|i: int|
            0 <= i < list@.len() ==> 0 < (#[trigger] list@[i]).1@.len() < text@.len(),
        forall|j: Json|
            j is Table && readable(j) && text@ == #[trigger] render(j) ==> r is Some && pair_views(
                r->0@,
            ) == sorted_pairs(text_pairs(j->Table_0)),
{
    match serde_json::from_str::<
        std::collections::BTreeMap<String, Box<serde_json::value::RawValue>>,
    >(text) {
        Ok(map) => Some(map.into_iter().map(|m| (m.0, m.1.get().to_string())).collect()),
        Err(_) => None,
    }
}

/// `serde_json::from_str` into a text undoes the quoting of a JSON string.
#[verifier::external_body]
fn json_text(text: &str) -> (r: Option<String>)
    ensures
        optional_view(r) == json_string(text@),
        forall|s: Seq<char>| text@ == #[trigger] quoted(s) ==> r is Some && r->0@ == s,
{
    serde_json::from_str::<String>(text).ok()
}

/// The value that a JSON text without white space around it stands for. Lists and tables may stand
/// in one another no deeper than `room`.
pub open spec fn value_of(t: Seq<char>, room: nat) -> Option<Json>
    decreases t.len(), 1nat, 0nat,
{
    if t.len() == 0 {
        None
    } else if t[0] == '"' {
        match json_string(t) {
            Some(s) => Some(Json::Text(s)),
            None => None,
        }
    } else if (t[0] == '[' || t[0] == '{') && room == 0 {
        None
    } else if t[0] == '[' {
        match json_elements(t) {
            Some(list) => match values_of(list, t.len(), room) {
                Some(items) => Some(Json::List(items)),
                None => None,
            },
            None => None,
        }
    } else if t[0] == '{' {
        match json_members(t) {
            Some(list) => match members_of(list, t.len(), room) {
                Some(members) => Some(Json::Table(members)),
                None => None,
            },
            None => None,
        }
    } else if t == "null"@ {
        Some(Json::Null)
    } else if t == "true"@ {
        Some(Json::Bool(true))
    } else if t == "false"@ {
        Some(Json::Bool(false))
    } else if json_fits(t) {
        Some(Json::Number(t))
    } else {
        None
    }
}

/// The values that texts shorter than `bound` stand for, in a list.
pub open spec fn values_of(list: Seq<Seq<char>>, bound: nat, room: nat) -> Option<Seq<Json>>
    decreases bound, 0nat, list.len(),
{
    if list.len() == 0 {
        Some(Seq::empty())
    } else if list.last().len() >= bound {
        None
    } else {
        match (values_of(list.drop_last(), bound, room), value_of(
            list.last(),
            (room - 1) as nat,
        )) {
            (Some(items), Some(item)) => Some(items.push(item)),
            _ => None,
        }
    }
}

/// The members whose values texts shorter than `bound` stand for, in a table.
pub open spec fn members_of(
    list: Seq<(Seq<char>, Seq<char>)>,
    bound: nat,
    room: nat,
) -> Option<Seq<(Seq<char>, Json)>>
    decreases bound, 0nat, list.len(),
{
    if list.len() == 0 {
        Some(Seq::empty())
    } else if list.last().1.len() >= bound {
        None
    } else {
        match (members_of(list.drop_last(), bound, room), value_of(
            list.last().1,
            (room - 1) as nat,
        )) {
            (Some(members), Some(item)) => Some(members.push((list.last().0, item))),
            _ => None,
        }
    }
}

/// The value that a text stands for.
pub open spec fn json_of(text: Seq<char>) -> Option<Json> {
    match json_value(text) {
        Some(t) => value_of(t, MAX_DEPTH as nat),
        None => None,
    }
}

proof fn lemma_values_fail(list: Seq<Seq<char>>, bound: nat, room: nat, i: int)
    requires
        0 <= i <= list.len(),
        values_of(list.take(i), bound, room) is None,
    ensures
        values_of(list, bound, room) is None,
    decreases list.len() - i,
{
    if i < list.len() {
        assert(list.take(i + 1).drop_last() =~= list.take(i));
        lemma_values_fail(list, bound, room, i + 1);
    } else {
        assert(list.take(i) =~= list);
    }
}

proof fn lemma_members_fail(
    list: Seq<(Seq<char>, Seq<char>)>,
    bound: nat,
    room: nat,
    i: int,
)
    requires
        0 <= i <= list.len(),
        members_of(list.take(i), bound, room) is None,
    ensures
        members_of(list, bound, room) is None,
    decreases list.len() - i,
{
    if i < list.len() {
        assert(list.take(i + 1).drop_last() =~= list.take(i));
        lemma_members_fail(list, bound, room, i + 1);
    } else {
        assert(list.take(i) =~= list);
    }
}

/// Every value of a readable list is readable, and none is deeper than the list.
pub proof fn lemma_all_readable(items: Seq<Json>, i: int)
    requires
        all_readable(items),
        0 <= i < items.len(),
    ensures
        readable(items[i]),
        depth(items[i]) <= list_depth(items),
    decreases items.len(),
{
    if i < items.len() - 1 {
        lemma_all_readable(items.drop_last(), i);
    }
}

/// Every value of a readable table is readable, and none is deeper than the table.
pub proof fn lemma_members_readable(members: Seq<(Seq<char>, Json)>, i: int)
    requires
        members_readable(members),
        0 <= i < members.len(),
    ensures
        readable(members[i].1),
        depth(members[i].1) <= table_depth(members),
    decreases members.len(),
{
    if i < members.len() - 1 {
        lemma_members_readable(members.drop_last(), i);
    }
}

/// A list of values that are no lists and no tables has no depth of its own.
pub proof fn lemma_flat_list(items: Seq<Json>)
    requires
        forall|i: int|
            0 <= i < items.len() ==> !((#[trigger] items[i]) is List) && !(items[i] is Table),
    ensures
        list_depth(items) == 0,
    decreases items.len(),
{
    if items.len() > 0 {
        lemma_flat_list(items.drop_last());
        assert(depth(items[items.len() - 1]) == 0);
    }
}

/// A table of values that are no lists and no tables has no depth of its own.
pub proof fn lemma_flat_table(members: Seq<(Seq<char>, Json)>)
    requires
        forall|i: int|
            0 <= i < members.len() ==> !((#[trigger] members[i]).1 is List)
                && !(members[i].1 is Table),
    ensures
        table_depth(members) == 0,
    decreases members.len(),
{
    if members.len() > 0 {
        lemma_flat_table(members.drop_last());
        assert(depth(members[members.len() - 1].1) == 0);
    }
}

/// The first character of a value's text tells what kind of value it is.
pub proof fn lemma_first_char(j: Json)
    requires
        readable(j),
    ensures
        render(j).len() > 0,
        !is_space(render(j)[0]),
        (render(j)[0] == '"') == (j is Text),
        (render(j)[0] == '[') == (j is List),
        (render(j)[0] == '{') == (j is Table),
        (render(j) == "null"@) == (j is Null),
        (render(j) == "true"@) == (j == Json::Bool(true)),
        (render(j) == "false"@) == (j == Json::Bool(false)),
{
    reveal_strlit("null");
    reveal_strlit("true");
    reveal_strlit("false");
    assert("null"@[0] == 'n' && "true"@[0] == 't' && "false"@[0] == 'f');
    match j {
        Json::Number(t) => {
            let a: int = if t.len() > 0 && t[0] == '-' {
                1
            } else {
                0
            };
            assert(digits_end(t, a) != a);
            assert(crate::decimal::is_digit(t[a]));
        },
        Json::Text(t) => {
            assert(render(j)[0] == '"');
        },
        Json::List(items) => {
            assert(render(j)[0] == '[');
        },
        Json::Table(members) => {
            assert(render(j)[0] == '{');
        },
        _ => {},
    }
}

proof fn lemma_put_map<A, B>(
    list: Seq<(Seq<char>, A)>,
    key: Seq<char>,
    value: A,
    f: spec_fn(A) -> B,
)
    ensures
        put(map_pairs(list, f), key, f(value)) == map_pairs(put(list, key, value), f),
    decreases list.len(),
{
    let made = map_pairs(list, f);
    if list.len() == 0 {
        assert(made =~= Seq::<(Seq<char>, B)>::empty());
        assert(seq![(key, f(value))] =~= map_pairs(seq![(key, value)], f));
    } else {
        let front = list.drop_last();
        assert(made.drop_last() =~= map_pairs(front, f));
        assert(made.last().0 == list.last().0);
        if text_before(list.last().0, key) {
            assert(made.push((key, f(value))) =~= map_pairs(list.push((key, value)), f));
        } else if list.last().0 == key {
            assert(map_pairs(front, f).push((key, f(value))) =~= map_pairs(
                front.push((key, value)),
                f,
            ));
        } else {
            lemma_put_map(front, key, value, f);
            assert(map_pairs(put(front, key, value), f).push(made.last()) =~= map_pairs(
                put(front, key, value).push(list.last()),
                f,
            ));
        }
    }
}

/// Sorting members and making something of their values can be done in either order.
proof fn lemma_sorted_map<A, B>(list: Seq<(Seq<char>, A)>, f: spec_fn(A) -> B)
    ensures
        sorted_pairs(map_pairs(list, f)) == map_pairs(sorted_pairs(list), f),
    decreases list.len(),
{
    let made = map_pairs(list, f);
    if list.len() == 0 {
        assert(made =~= Seq::<(Seq<char>, B)>::empty());
        assert(map_pairs(sorted_pairs(list), f) =~= Seq::<(Seq<char>, B)>::empty());
    } else {
        assert(made.drop_last() =~= map_pairs(list.drop_last(), f));
        lemma_sorted_map(list.drop_last(), f);
        lemma_put_map(sorted_pairs(list.drop_last()), list.last().0, list.last().1, f);
    }
}

/// The members of a table in order are its members in order, each with its value in order.
proof fn lemma_ordered_members(members: Seq<(Seq<char>, Json)>)
    ensures
        ordered_members(members) == map_pairs(sorted_pairs(members), |j: Json| ordered(j)),
    decreases members.len(),
{
    let f = |j: Json| ordered(j);
    if members.len() == 0 {
        assert(map_pairs(sorted_pairs(members), f) =~= Seq::<(Seq<char>, Json)>::empty());
    } else {
        lemma_ordered_members(members.drop_last());
        lemma_put_map(sorted_pairs(members.drop_last()), members.last().0, members.last().1, f);
    }
}

proof fn lemma_put_from<T>(list: Seq<(Seq<char>, T)>, key: Seq<char>, value: T, i: int)
    requires
        0 <= i < put(list, key, value).len(),
    ensures
        put(list, key, value)[i] == (key, value) || list.contains(put(list, key, value)[i]),
    decreases list.len(),
{
    if list.len() > 0 {
        let front = list.drop_last();
        let n = list.len() - 1;
        let all = put(list, key, value);
        if text_before(list.last().0, key) {
            if i <= n {
                assert(all[i] == list[i]);
            }
        } else if list.last().0 == key {
            if i < n {
                assert(all[i] == list[i]);
            }
        } else if i < all.len() - 1 {
            lemma_put_from(front, key, value, i);
            if front.contains(all[i]) {
                let k = choose|k: int| 0 <= k < front.len() && front[k] == all[i];
                assert(list[k] == all[i]);
            }
        } else {
            assert(all[i] == list[n]);
        }
    }
}

/// Sorting adds no member.
proof fn lemma_sorted_from<T>(list: Seq<(Seq<char>, T)>, i: int)
    requires
        0 <= i < sorted_pairs(list).len(),
    ensures
        list.contains(sorted_pairs(list)[i]),
    decreases list.len(),
{
    if list.len() > 0 {
        let front = list.drop_last();
        let m = sorted_pairs(list)[i];
        lemma_put_from(sorted_pairs(front), list.last().0, list.last().1, i);
        if m == (list.last().0, list.last().1) {
            assert(list[list.len() - 1] == m);
        } else {
            let k = choose|k: int|
                0 <= k < sorted_pairs(front).len() && sorted_pairs(front)[k] == m;
            lemma_sorted_from(front, k);
            let l = choose|l: int| 0 <= l < front.len() && front[l] == m;
            assert(list[l] == m);
        }
    }
}

/// A member of a table is found among them in order just as among them as they are.
pub proof fn lemma_find_sorted(members: Seq<(Seq<char>, Json)>, key: Seq<char>)
    ensures
        find(ordered_members(members), key) == (match find(members, key) {
            Some(j) => Some(ordered(j)),
            None => None,
        }),
    decreases members.len(),
{
    if members.len() > 0 {
        let m = members.last();
        lemma_find_sorted(members.drop_last(), key);
        lemma_find_put(ordered_members(members.drop_last()), m.0, ordered(m.1), key);
    }
}

proof fn lemma_find_put(
    list: Seq<(Seq<char>, Json)>,
    key: Seq<char>,
    value: Json,
    wanted: Seq<char>,
)
    ensures
        find(put(list, key, value), wanted) == (if wanted == key {
            Some(value)
        } else {
            find(list, wanted)
        }),
    decreases list.len(),
{
    let all = put(list, key, value);
    if list.len() == 0 {
        assert(all.drop_last() =~= Seq::<(Seq<char>, Json)>::empty());
    } else if text_before(list.last().0, key) {
        assert(all.drop_last() =~= list);
    } else if list.last().0 == key {
        assert(all.drop_last() =~= list.drop_last());
    } else {
        lemma_find_put(list.drop_last(), key, value, wanted);
        assert(all.drop_last() =~= put(list.drop_last(), key, value));
    }
}

/// A table in order whose values are in order is read as it is.
pub proof fn lemma_in_order(members: Seq<(Seq<char>, Json)>)
    requires
        ascending(members),
        forall|i: int|
            0 <= i < members.len() ==> ordered((#[trigger] members[i]).1) == members[i].1,
    ensures
        ordered_members(members) == members,
    decreases members.len(),
{
    if members.len() > 0 {
        let front = members.drop_last();
        let n = members.len() - 1;
        assert forall|i: int| 0 <= i < front.len() implies ordered((#[trigger] front[i]).1)
            == front[i].1 by {
            assert(front[i] == members[i]);
        }
        assert forall|i: int, j: int| 0 <= i < j < front.len() implies text_before(
            #[trigger] front[i].0,
            #[trigger] front[j].0,
        ) by {
            assert(text_before(members[i].0, members[j].0));
        }
        lemma_in_order(front);
        assert(members[n] == (members.last().0, members.last().1));
        if n > 0 {
            assert(text_before(members[n - 1].0, members[n].0));
        }
        assert(front.push(members.last()) =~= members);
    } else {
        assert(members =~= Seq::<(Seq<char>, Json)>::empty());
    }
}

/// A list whose values are in order is read as it is.
pub proof fn lemma_list_in_order(items: Seq<Json>)
    requires
        forall|i: int| 0 <= i < items.len() ==> ordered(#[trigger] items[i]) == items[i],
    ensures
        ordered_list(items) == items,
    decreases items.len(),
{
    if items.len() > 0 {
        let front = items.drop_last();
        assert forall|i: int| 0 <= i < front.len() implies ordered(#[trigger] front[i])
            == front[i] by {
            assert(front[i] == items[i]);
        }
        lemma_list_in_order(front);
        assert(items.last() == items[items.len() - 1]);
        assert(front.push(items.last()) =~= items);
    } else {
        assert(items =~= Seq::<Json>::empty());
    }
}

/// The values of a list in order, one by one.
pub proof fn lemma_ordered_list(items: Seq<Json>)
    ensures
        ordered_list(items).len() == items.len(),
        forall|i: int|
            0 <= i < items.len() ==> #[trigger] ordered_list(items)[i] == ordered(items[i]),
    decreases items.len(),
{
    if items.len() > 0 {
        lemma_ordered_list(items.drop_last());
    }
}

/// The member at a position among the members of a table in order.
proof fn lemma_member_at(members: Seq<(Seq<char>, Json)>, i: int)
    requires
        members_readable(members),
        0 <= i < sorted_pairs(text_pairs(members)).len(),
    ensures
        sorted_pairs(members).len() == sorted_pairs(text_pairs(members)).len(),
        ordered_members(members).len() == sorted_pairs(members).len(),
        ({
            let m = sorted_pairs(members)[i];
            &&& sorted_pairs(text_pairs(members))[i] == (m.0, render(m.1))
            &&& ordered_members(members)[i] == (m.0, ordered(m.1))
            &&& readable(m.1)
            &&& depth(m.1) <= table_depth(members)
        }),
{
    lemma_sorted_map(members, |v: Json| render(v));
    lemma_ordered_members(members);
    lemma_sorted_from(members, i);
    let k = choose|k: int| 0 <= k < members.len() && members[k] == sorted_pairs(members)[i];
    lemma_members_readable(members, k);
}

impl Node {
    /// Reads a value from a JSON text without white space around it.
    fn build(text: &str, room: usize) -> (r: Option<Node>)
        ensures
            match r {
                Some(node) => value_of(text@, room as nat) == Some(node@),
                None => value_of(text@, room as nat) is None,
            },
            forall|j: Json|
                readable(j) && depth(j) <= room && text@ == #[trigger] render(j) ==> r is Some
                    && r->0@ == ordered(j),
        decreases text@.len(), 1nat,
    {
        let chars = chars_of(text);
        proof {
            assert forall|j: Json| readable(j) && text@ == #[trigger] render(j) implies {
                &&& (text@[0] == '"') == (j is Text)
                &&& (text@[0] == '[') == (j is List)
                &&& (text@[0] == '{') == (j is Table)
                &&& (text@ == "null"@) == (j is Null)
                &&& (text@ == "true"@) == (j == Json::Bool(true))
                &&& (text@ == "false"@) == (j == Json::Bool(false))
                &&& text@.len() > 0
            } by {
                lemma_first_char(j);
            }
        }
        if chars.len() == 0 {
            return None;
        }
        if chars[0] == '"' {
            return match json_text(text) {
                Some(s) => Some(Node::Text(s)),
                None => None,
            };
        }
        if chars[0] == '[' {
            return if room == 0 {
                None
            } else {
                Node::build_list(text, room)
            };
        }
        if chars[0] == '{' {
            return if room == 0 {
                None
            } else {
                Node::build_table(text, room)
            };
        }
        let c = chars.as_slice();
        if spells(c, "null") {
            Some(Node::Null)
        } else if spells(c, "true") {
            Some(Node::Bool(true))
        } else if spells(c, "false") {
            Some(Node::Bool(false))
        } else if json_number_fits(text) {
            Some(Node::Number(string_of(c)))
        } else {
            None
        }
    }
}

impl Node {
    /// Reads a list from its JSON text.
    fn build_list(text: &str, room: usize) -> (r: Option<Node>)
        requires
            room > 0,
            text@.len() > 0,
            text@[0] == '[',
            forall|j: Json| readable(j) && text@ == #[trigger] render(j) ==> j is List,
        ensures
            match r {
                Some(node) => value_of(text@, room as nat) == Some(node@),
                None => value_of(text@, room as nat) is None,
            },
            forall|j: Json|
                readable(j) && depth(j) <= room && text@ == #[trigger] render(j) ==> r is Some
                    && r->0@ == ordered(j),
        decreases text@.len(), 0nat,
    {
        let list = match json_array(text) {
            Some(list) => list,
            None => {
                return None;
            },
        };
        let ghost texts = views(list@);
        let ghost bound = text@.len();
        let mut items: Vec<Node> = Vec::new();
        let mut i: usize = 0;
        proof {
            assert(texts.take(0) =~= Seq::<Seq<char>>::empty());
            assert(list_json(items@) =~= Seq::<Json>::empty());
        }
        while i < list.len()
            invariant
                i <= list@.len(),
                items@.len() == i,
                bound == text@.len(),
                texts == views(list@),
                text@.len() > 0,
                text@[0] == '[',
                json_elements(text@) == Some(texts),
                forall|k: int| 0 <= k < list@.len() ==> 0 < (#[trigger] list@[k])@.len() < bound,
                room > 0,
                values_of(texts.take(i as int), bound, room as nat) == Some(list_json(items@)),
                forall|j: Json|
                    #![trigger render(j)]
                    j is List && readable(j) && text@ == render(j) ==> texts == renders(j->List_0),
                forall|j: Json| readable(j) && text@ == #[trigger] render(j) ==> j is List,
                forall|j: Json, k: int|
                    #![trigger render(j), items@[k]]
                    readable(j) && depth(j) <= room && text@ == render(j) && 0 <= k < i
                        ==> items@[k]@ == ordered((j->List_0)[k]),
            decreases list@.len() - i,
        {
            let ghost one = texts[i as int];
            let ghost before = items@;
            proof {
                assert(one == list@[i as int]@);
                assert(texts.take(i + 1).drop_last() =~= texts.take(i as int));
                assert(texts.take(i + 1).last() == one);
            }
            match Node::build(list[i].as_str(), room - 1) {
                None => {
                    proof {
                        lemma_values_fail(texts, bound, room as nat, i + 1);
                        assert forall|j: Json|
                            readable(j) && depth(j) <= room && text@ == #[trigger] render(
                                j,
                            ) implies false by {
                            lemma_renders(j->List_0);
                            lemma_all_readable(j->List_0, i as int);
                        }
                    }
                    return None;
                },
                Some(node) => {
                    proof {
                        assert forall|j: Json|
                            readable(j) && depth(j) <= room && text@ == #[trigger] render(
                                j,
                            ) implies node@ == ordered((j->List_0)[i as int]) by {
                            lemma_renders(j->List_0);
                            lemma_all_readable(j->List_0, i as int);
                        }
                    }
                    items.push(node);
                    proof {
                        assert(items@.drop_last() =~= before);
                    }
                },
            }
            i += 1;
        }
        proof {
            assert(texts.take(i as int) =~= texts);
            lemma_list_json(items@);
            assert forall|j: Json|
                readable(j) && depth(j) <= room && text@ == #[trigger] render(
                    j,
                ) implies Json::List(
                list_json(items@),
            ) == ordered(j) by {
                lemma_renders(j->List_0);
                lemma_ordered_list(j->List_0);
                assert(list_json(items@) =~= ordered_list(j->List_0));
            }
        }
        Some(Node::List(items))
    }

    /// Reads a table from its JSON text.
    fn build_table(text: &str, room: usize) -> (r: Option<Node>)
        requires
            room > 0,
            text@.len() > 0,
            text@[0] == '{',
            forall|j: Json| readable(j) && text@ == #[trigger] render(j) ==> j is Table,
        ensures
            match r {
                Some(node) => value_of(text@, room as nat) == Some(node@),
                None => value_of(text@, room as nat) is None,
            },
            forall|j: Json|
                readable(j) && depth(j) <= room && text@ == #[trigger] render(j) ==> r is Some
                    && r->0@ == ordered(j),
        decreases text@.len(), 0nat,
    {
        let list = match json_object(text) {
            Some(list) => list,
            None => {
                return None;
            },
        };
        let ghost texts = pair_views(list@);
        let ghost bound = text@.len();
        let mut members: Vec<(String, Node)> = Vec::new();
        let mut i: usize = 0;
        proof {
            assert(texts.take(0) =~= Seq::<(Seq<char>, Seq<char>)>::empty());
            assert(table_json(members@) =~= Seq::<(Seq<char>, Json)>::empty());
        }
        while i < list.len()
            invariant
                i <= list@.len(),
                members@.len() == i,
                bound == text@.len(),
                texts == pair_views(list@),
                text@.len() > 0,
                text@[0] == '{',
                json_members(text@) == Some(texts),
                forall|k: int| 0 <= k < list@.len() ==> 0 < (#[trigger] list@[k]).1@.len() < bound,
                room > 0,
                members_of(texts.take(i as int), bound, room as nat) == Some(table_json(members@)),
                forall|j: Json|
                    #![trigger render(j)]
                    j is Table && readable(j) && text@ == render(j) ==> texts == sorted_pairs(
                        text_pairs(j->Table_0),
                    ),
                forall|j: Json| readable(j) && text@ == #[trigger] render(j) ==> j is Table,
                forall|j: Json, k: int|
                    #![trigger render(j), members@[k]]
                    readable(j) && depth(j) <= room && text@ == render(j) && 0 <= k < i ==> (
                        members@[k].0@,
                        members@[k].1@,
                    ) == ordered_members(j->Table_0)[k],
            decreases list@.len() - i,
        {
            let ghost one = texts[i as int];
            let ghost before = members@;
            proof {
                assert(one == (list@[i as int].0@, list@[i as int].1@));
                assert(texts.take(i + 1).drop_last() =~= texts.take(i as int));
                assert(texts.take(i + 1).last() == one);
            }
            let key = copy_text(list[i].0.as_str());
            match Node::build(list[i].1.as_str(), room - 1) {
                None => {
                    proof {
                        lemma_members_fail(texts, bound, room as nat, i + 1);
                        assert forall|j: Json|
                            readable(j) && depth(j) <= room && text@ == #[trigger] render(
                                j,
                            ) implies false by {
                            lemma_member_at(j->Table_0, i as int);
                            assert(depth(sorted_pairs(j->Table_0)[i as int].1) <= room - 1);
                        }
                    }
                    return None;
                },
                Some(node) => {
                    proof {
                        assert forall|j: Json|
                            readable(j) && depth(j) <= room && text@ == #[trigger] render(
                                j,
                            ) implies (key@, node@) == ordered_members(j->Table_0)[i as int] by {
                            lemma_member_at(j->Table_0, i as int);
                            assert(depth(sorted_pairs(j->Table_0)[i as int].1) <= room - 1);
                        }
                    }
                    members.push((key, node));
                    proof {
                        assert(members@.drop_last() =~= before);
                    }
                },
            }
            i += 1;
        }
        proof {
            assert(texts.take(i as int) =~= texts);
            lemma_table_json(members@);
            assert forall|j: Json|
                readable(j) && depth(j) <= room && text@ == #[trigger] render(
                    j,
                ) implies Json::Table(
                table_json(members@),
            ) == ordered(j) by {
                lemma_sorted_map(j->Table_0, |v: Json| render(v));
                lemma_ordered_members(j->Table_0);
                assert(ordered_members(j->Table_0).len() == texts.len());
                assert(table_json(members@) =~= ordered_members(j->Table_0));
            }
        }
        Some(Node::Table(members))
    }

    /// Reads the JSON value that `text` holds. Of the text of a value that is not too deep, it
    /// reads that value, with the members of tables in order.
    pub fn from_text(text: &str) -> (r: Option<Node>)
        ensures
            match r {
                Some(node) => json_of(text@) == Some(node@),
                None => json_of(text@) is None,
            },
            forall|j: Json|
                readable(j) && depth(j) <= MAX_DEPTH && text@ == #[trigger] render(j) ==> r is Some
                    && r->0@ == ordered(j),
    {
        match json_value_text(text) {
            Some(t) => Node::build(t.as_str(), MAX_DEPTH),
            None => None,
        }
    }
}

/// Whether a text is all on one line.
pub open spec fn one_line(s: Seq<char>) -> bool {
    forall|i: int| 0 <= i < s.len() ==> #[trigger] s[i] != '\n' && s[i] != '\r'
}

proof fn lemma_quoted_char_one_line(c: char)
    ensures
        one_line(quoted_char(c)),
{
}

proof fn lemma_quoted_one_line(s: Seq<char>)
    ensures
        one_line(quoted_inside(s)),
    decreases s.len(),
{
    if s.len() > 0 {
        lemma_quoted_one_line(s.drop_last());
        lemma_quoted_char_one_line(s.last());
    }
}

proof fn lemma_joined_one_line(list: Seq<Seq<char>>)
    requires
        forall|i: int| 0 <= i < list.len() ==> one_line(#[trigger] list[i]),
    ensures
        one_line(joined(list)),
    decreases list.len(),
{
    if list.len() > 1 {
        assert forall|i: int| 0 <= i < list.drop_last().len() implies one_line(
            #[trigger] list.drop_last()[i],
        ) by {
            assert(list.drop_last()[i] == list[i]);
        }
        lemma_joined_one_line(list.drop_last());
    }
}

/// The compact text of a value is one line.
pub proof fn lemma_render_one_line(j: Json)
    requires
        readable(j),
    ensures
        one_line(render(j)),
    decreases j,
{
    match j {
        Json::Null => {
            reveal_strlit("null");
        },
        Json::Bool(b) => {
            reveal_strlit("true");
            reveal_strlit("false");
        },
        Json::Number(t) => {
            assert forall|i: int| 0 <= i < t.len() implies #[trigger] t[i] != '\n' && t[i]
                != '\r' by {
                crate::decimal::lemma_number_chars(t, i);
            }
        },
        Json::Text(t) => {
            lemma_quoted_one_line(t);
        },
        Json::List(items) => {
            lemma_renders(items);
            assert forall|i: int| 0 <= i < items.len() implies one_line(
                #[trigger] renders(items)[i],
            ) by {
                lemma_all_readable(items, i);
                lemma_render_one_line(items[i]);
            }
            lemma_joined_one_line(renders(items));
        },
        Json::Table(members) => {
            lemma_member_texts(members);
            assert forall|i: int| 0 <= i < members.len() implies one_line(
                #[trigger] member_texts(members)[i],
            ) by {
                lemma_members_readable(members, i);
                lemma_render_one_line(members[i].1);
                lemma_quoted_one_line(members[i].0);
            }
            lemma_joined_one_line(member_texts(members));
        },
    }
}

proof fn lemma_text_before_irreflexive(a: Seq<char>)
    ensures
        !text_before(a, a),
    decreases a.len(),
{
    if a.len() > 0 {
        lemma_text_before_irreflexive(a.skip(1));
    }
}

/// The order of texts is transitive.
pub proof fn lemma_text_before_transitive(a: Seq<char>, b: Seq<char>, c: Seq<char>)
    requires
        text_before(a, b),
        text_before(b, c),
    ensures
        text_before(a, c),
    decreases b.len(),
{
    if a.len() > 0 && a[0] == b[0] && b[0] == c[0] {
        lemma_text_before_transitive(a.skip(1), b.skip(1), c.skip(1));
    }
}

/// Fields that may be absent, in the order in which they are written.
pub open spec fn present(fields: Seq<(Seq<char>, Option<Json>)>) -> Seq<(Seq<char>, Json)>
    decreases fields.len(),
{
    if fields.len() == 0 {
        Seq::empty()
    } else {
        match fields.last().1 {
            Some(j) => present(fields.drop_last()).push((fields.last().0, j)),
            None => present(fields.drop_last()),
        }
    }
}

/// The value of a member of a table.
pub open spec fn find(members: Seq<(Seq<char>, Json)>, key: Seq<char>) -> Option<Json>
    decreases members.len(),
{
    if members.len() == 0 {
        None
    } else if members.last().0 == key {
        Some(members.last().1)
    } else {
        find(members.drop_last(), key)
    }
}

/// Each key before the next.
pub open spec fn chained(fields: Seq<(Seq<char>, Option<Json>)>) -> bool {
    forall|i: int|
        0 < i < fields.len() ==> text_before(fields[i - 1].0, (#[trigger] fields[i]).0)
}

/// In a chain, each key comes before the last one.
proof fn lemma_chained(fields: Seq<(Seq<char>, Option<Json>)>, i: int)
    requires
        chained(fields),
        0 <= i < fields.len() - 1,
    ensures
        text_before(fields[i].0, fields.last().0),
    decreases fields.len(),
{
    let n = fields.len() - 1;
    assert(text_before(fields[n - 1].0, fields[n].0));
    if i < n - 1 {
        let front = fields.drop_last();
        assert forall|k: int| 0 < k < front.len() implies text_before(
            front[k - 1].0,
            (#[trigger] front[k]).0,
        ) by {
            assert(front[k] == fields[k]);
        }
        lemma_chained(front, i);
        lemma_text_before_transitive(fields[i].0, fields[n - 1].0, fields[n].0);
    }
}

proof fn lemma_present_keys(fields: Seq<(Seq<char>, Option<Json>)>, k: int) -> (i: int)
    requires
        0 <= k < present(fields).len(),
    ensures
        0 <= i < fields.len(),
        fields[i].0 == present(fields)[k].0,
        fields[i].1 == Some(present(fields)[k].1),
    decreases fields.len(),
{
    if fields.last().1 is Some && k == present(fields).len() - 1 {
        fields.len() - 1
    } else {
        lemma_present_keys(fields.drop_last(), k)
    }
}

proof fn lemma_find_absent(fields: Seq<(Seq<char>, Option<Json>)>, key: Seq<char>)
    requires
        forall|k: int| 0 <= k < fields.len() ==> (#[trigger] fields[k]).0 != key,
    ensures
        find(present(fields), key) is None,
    decreases fields.len(),
{
    if fields.len() > 0 {
        let front = fields.drop_last();
        assert forall|k: int| 0 <= k < front.len() implies (#[trigger] front[k]).0 != key by {
            assert(front[k] == fields[k]);
        }
        lemma_find_absent(front, key);
        assert(fields.last().0 != key);
        if let Some(j) = fields.last().1 {
            assert(present(fields).drop_last() =~= present(front));
        }
    }
}

/// The fields that are present make a table in order, in which each field is found.
pub proof fn lemma_present(fields: Seq<(Seq<char>, Option<Json>)>)
    requires
        chained(fields),
    ensures
        ascending(present(fields)),
        forall|i: int|
            0 <= i < fields.len() ==> find(present(fields), (#[trigger] fields[i]).0)
                == fields[i].1,
    decreases fields.len(),
{
    if fields.len() > 0 {
        let front = fields.drop_last();
        let all = present(fields);
        let some = present(front);
        assert forall|k: int| 0 < k < front.len() implies text_before(
            front[k - 1].0,
            (#[trigger] front[k]).0,
        ) by {
            assert(front[k] == fields[k]);
        }
        lemma_present(front);
        let last = fields.last();
        assert forall|k: int| 0 <= k < front.len() implies (#[trigger] front[k]).0 != last.0 by {
            lemma_chained(fields, k);
            lemma_text_before_irreflexive(last.0);
        }
        if let Some(j) = last.1 {
            assert(all.drop_last() =~= some);
            assert forall|a: int, b: int| 0 <= a < b < all.len() implies text_before(
                #[trigger] all[a].0,
                #[trigger] all[b].0,
            ) by {
                if b == all.len() - 1 {
                    let i = lemma_present_keys(front, a);
                    lemma_chained(fields, i);
                } else {
                    assert(all[a] == some[a] && all[b] == some[b]);
                }
            }
        } else {
            lemma_find_absent(front, last.0);
        }
        assert forall|i: int| 0 <= i < fields.len() implies find(all, (#[trigger] fields[i]).0)
            == fields[i].1 by {
            if i < front.len() {
                assert(front[i] == fields[i]);
            }
        }
    }
}

/// The fields that are present have JSON texts if each of them has one, and they are no deeper
/// than the deepest of them.
pub proof fn lemma_present_readable(fields: Seq<(Seq<char>, Option<Json>)>, deep: nat)
    requires
        forall|i: int|
            0 <= i < fields.len() ==> ((#[trigger] fields[i]).1 matches Some(j) ==> readable(j)
                && depth(j) <= deep),
    ensures
        members_readable(present(fields)),
        table_depth(present(fields)) <= deep,
    decreases fields.len(),
{
    if fields.len() > 0 {
        let front = fields.drop_last();
        assert forall|i: int| 0 <= i < front.len() implies ((#[trigger] front[i]).1 matches Some(j)
            ==> readable(j) && depth(j) <= deep) by {
            assert(front[i] == fields[i]);
        }
        lemma_present_readable(front, deep);
        assert(fields.last() == fields[fields.len() - 1]);
        if let Some(j) = fields.last().1 {
            assert(present(fields).drop_last() =~= present(front));
        }
    }
}

/// The fields that are present are read as they are if they stand in order and each of them does.
pub proof fn lemma_present_in_order(fields: Seq<(Seq<char>, Option<Json>)>)
    requires
        chained(fields),
        forall|i: int|
            0 <= i < fields.len() ==> ((#[trigger] fields[i]).1 matches Some(j) ==> ordered(j)
                == j),
    ensures
        ordered_members(present(fields)) == present(fields),
{
    let m = present(fields);
    lemma_present(fields);
    assert forall|k: int| 0 <= k < m.len() implies ordered((#[trigger] m[k]).1) == m[k].1 by {
        let i = lemma_present_keys(fields, k);
        assert(fields[i].1 == Some(m[k].1));
    }
    lemma_in_order(m);
}

/// The view of an optional value.
pub open spec fn optional_json(node: Option<Node>) -> Option<Json> {
    match node {
        Some(n) => Some(n@),
        None => None,
    }
}

/// The view of an optional value that is borrowed.
pub open spec fn found_json(node: Option<&Node>) -> Option<Json> {
    match node {
        Some(n) => Some(n@),
        None => None,
    }
}

/// What one more field adds to the fields that are present.
pub proof fn lemma_present_step(fields: Seq<(Seq<char>, Option<Json>)>, k: int)
    requires
        0 <= k < fields.len(),
    ensures
        present(fields.take(k + 1)) == match fields[k].1 {
            Some(j) => present(fields.take(k)).push((fields[k].0, j)),
            None => present(fields.take(k)),
        },
{
    assert(fields.take(k + 1).drop_last() =~= fields.take(k));
}

/// Adds a field to a table, unless it is absent.
pub fn push_field(members: &mut Vec<(String, Node)>, key: &str, field: Option<Node>)
    ensures
        table_json(final(members)@) == match optional_json(field) {
            Some(j) => table_json(old(members)@).push((key@, j)),
            None => table_json(old(members)@),
        },
{
    if let Some(node) = field {
        members.push((copy_text(key), node));
        proof {
            assert(members@.drop_last() =~= old(members)@);
        }
    }
}

/// Finds the value of a member of a table.
pub fn find_member<'a>(members: &'a Vec<(String, Node)>, key: &str) -> (r: Option<&'a Node>)
    ensures
        found_json(r) == find(table_json(members@), key@),
{
    let mut i: usize = members.len();
    let ghost all = table_json(members@);
    proof {
        lemma_table_json(members@);
        assert(all.take(i as int) =~= all);
    }
    while i > 0
        invariant
            i <= members@.len(),
            all == table_json(members@),
            all.len() == members@.len(),
            forall|k: int|
                0 <= k < members@.len() ==> #[trigger] all[k] == (members@[k].0@, members@[k].1@),
            find(all, key@) == find(all.take(i as int), key@),
        decreases i,
    {
        i -= 1;
        proof {
            assert(all.take(i + 1).drop_last() =~= all.take(i as int));
        }
        if same_text(members[i].0.as_str(), key) {
            return Some(&members[i].1);
        }
    }
    None
}

/// A list of texts as a JSON array.
pub open spec fn texts_json(list: Seq<Seq<char>>) -> Json {
    Json::List(list.map_values(|t: Seq<char>| Json::Text(t)))
}

/// Pairs of texts as a JSON object.
pub open spec fn pairs_json(list: Seq<(Seq<char>, Seq<char>)>) -> Json {
    Json::Table(list.map_values(|p: (Seq<char>, Seq<char>)| (p.0, Json::Text(p.1))))
}

/// Makes a JSON array of texts.
pub fn text_list(list: &Vec<String>) -> (r: Node)
    ensures
        r@ == texts_json(views(list@)),
{
    let mut items: Vec<Node> = Vec::new();
    let mut i: usize = 0;
    while i < list.len()
        invariant
            i <= list@.len(),
            items@.len() == i,
            forall|k: int| 0 <= k < i ==> (#[trigger] items@[k])@ == Json::Text(list@[k]@),
        decreases list@.len() - i,
    {
        items.push(Node::Text(copy_text(list[i].as_str())));
        i += 1;
    }
    proof {
        lemma_list_json(items@);
        assert(list_json(items@) =~= texts_json(views(list@))->List_0);
    }
    Node::List(items)
}

/// Makes a JSON object of pairs of texts.
pub fn pair_table(list: &Vec<(String, String)>) -> (r: Node)
    ensures
        r@ == pairs_json(pair_views(list@)),
{
    let mut members: Vec<(String, Node)> = Vec::new();
    let mut i: usize = 0;
    while i < list.len()
        invariant
            i <= list@.len(),
            members@.len() == i,
            forall|k: int|
                0 <= k < i ==> (#[trigger] members@[k]).0@ == list@[k].0@ && members@[k].1@
                    == Json::Text(list@[k].1@),
        decreases list@.len() - i,
    {
        members.push(
            (copy_text(list[i].0.as_str()), Node::Text(copy_text(list[i].1.as_str()))),
        );
        i += 1;
    }
    proof {
        lemma_table_json(members@);
        assert(table_json(members@) =~= pairs_json(pair_views(list@))->Table_0);
    }
    Node::Table(members)
}

/// The texts of a list that holds nothing else.
pub open spec fn read_texts(items: Seq<Json>) -> Option<Seq<Seq<char>>>
    decreases items.len(),
{
    if items.len() == 0 {
        Some(Seq::empty())
    } else {
        match (read_texts(items.drop_last()), items.last()) {
            (Some(list), Json::Text(t)) => Some(list.push(t)),
            _ => None,
        }
    }
}

/// The members of a table whose values are all texts.
pub open spec fn read_pairs(members: Seq<(Seq<char>, Json)>) -> Option<Seq<(Seq<char>, Seq<char>)>>
    decreases members.len(),
{
    if members.len() == 0 {
        Some(Seq::empty())
    } else {
        match (read_pairs(members.drop_last()), members.last().1) {
            (Some(list), Json::Text(t)) => Some(list.push((members.last().0, t))),
            _ => None,
        }
    }
}

proof fn lemma_read_texts_fail(items: Seq<Json>, i: int)
    requires
        0 <= i < items.len(),
        !(items[i] is Text),
    ensures
        read_texts(items) is None,
    decreases items.len(),
{
    if i < items.len() - 1 {
        lemma_read_texts_fail(items.drop_last(), i);
    }
}

proof fn lemma_read_pairs_fail(members: Seq<(Seq<char>, Json)>, i: int)
    requires
        0 <= i < members.len(),
        !(members[i].1 is Text),
    ensures
        read_pairs(members) is None,
    decreases members.len(),
{
    if i < members.len() - 1 {
        lemma_read_pairs_fail(members.drop_last(), i);
    }
}

/// Reads a list of texts.
pub fn texts_of(items: &Vec<Node>) -> (r: Option<Vec<String>>)
    ensures
        match r {
            Some(list) => read_texts(list_json(items@)) == Some(views(list@)),
            None => read_texts(list_json(items@)) is None,
        },
{
    let ghost all = list_json(items@);
    let mut out: Vec<String> = Vec::new();
    let mut i: usize = 0;
    proof {
        lemma_list_json(items@);
        assert(all.take(0) =~= Seq::<Json>::empty());
        assert(views(out@) =~= Seq::<Seq<char>>::empty());
    }
    while i < items.len()
        invariant
            i <= items@.len(),
            all == list_json(items@),
            all.len() == items@.len(),
            forall|k: int| 0 <= k < items@.len() ==> #[trigger] all[k] == items@[k]@,
            read_texts(all.take(i as int)) == Some(views(out@)),
        decreases items@.len() - i,
    {
        let ghost before = views(out@);
        proof {
            assert(all.take(i + 1).drop_last() =~= all.take(i as int));
            assert(all.take(i + 1).last() == items@[i as int]@);
        }
        match &items[i] {
            Node::Text(t) => {
                out.push(copy_text(t.as_str()));
                proof {
                    assert(views(out@) =~= before.push(t@));
                }
            },
            _ => {
                proof {
                    lemma_read_texts_fail(all, i as int);
                }
                return None;
            },
        }
        i += 1;
    }
    proof {
        assert(all.take(i as int) =~= all);
    }
    Some(out)
}

/// Reads a table of texts.
pub fn pairs_of(members: &Vec<(String, Node)>) -> (r: Option<Vec<(String, String)>>)
    ensures
        match r {
            Some(list) => read_pairs(table_json(members@)) == Some(pair_views(list@)),
            None => read_pairs(table_json(members@)) is None,
        },
{
    let ghost all = table_json(members@);
    let mut out: Vec<(String, String)> = Vec::new();
    let mut i: usize = 0;
    proof {
        lemma_table_json(members@);
        assert(all.take(0) =~= Seq::<(Seq<char>, Json)>::empty());
        assert(pair_views(out@) =~= Seq::<(Seq<char>, Seq<char>)>::empty());
    }
    while i < members.len()
        invariant
            i <= members@.len(),
            all == table_json(members@),
            all.len() == members@.len(),
            forall|k: int|
                0 <= k < members@.len() ==> #[trigger] all[k] == (members@[k].0@, members@[k].1@),
            read_pairs(all.take(i as int)) == Some(pair_views(out@)),
        decreases members@.len() - i,
    {
        let ghost before = pair_views(out@);
        proof {
            assert(all.take(i + 1).drop_last() =~= all.take(i as int));
            assert(all.take(i + 1).last() == all[i as int]);
        }
        match &members[i].1 {
            Node::Text(t) => {
                out.push((copy_text(members[i].0.as_str()), copy_text(t.as_str())));
                proof {
                    assert(pair_views(out@) =~= before.push((members@[i as int].0@, t@)));
                }
            },
            _ => {
                proof {
                    lemma_read_pairs_fail(all, i as int);
                }
                return None;
            },
        }
        i += 1;
    }
    proof {
        assert(all.take(i as int) =~= all);
    }
    Some(out)
}

/// Texts that were put into a list are read back.
pub proof fn lemma_texts_read_back(list: Seq<Seq<char>>)
    ensures
        read_texts(texts_json(list)->List_0) == Some(list),
        all_readable(texts_json(list)->List_0),
        depth(texts_json(list)) == 1,
        ordered(texts_json(list)) == texts_json(list),
    decreases list.len(),
{
    let items = texts_json(list)->List_0;
    lemma_flat_list(items);
    lemma_list_in_order(items);
    if list.len() > 0 {
        lemma_texts_read_back(list.drop_last());
        assert(items.drop_last() =~= texts_json(list.drop_last())->List_0);
        assert(items.last() is Text);
        assert(readable(items.last()));
        assert(list.drop_last().push(list.last()) =~= list);
    } else {
        assert(list =~= Seq::<Seq<char>>::empty());
    }
}

/// Pairs of texts that were put into a table are read back.
pub proof fn lemma_pairs_read_back(list: Seq<(Seq<char>, Seq<char>)>)
    ensures
        read_pairs(pairs_json(list)->Table_0) == Some(list),
        members_readable(pairs_json(list)->Table_0),
        depth(pairs_json(list)) == 1,
        ascending(list) ==> ordered(pairs_json(list)) == pairs_json(list),
    decreases list.len(),
{
    let members = pairs_json(list)->Table_0;
    lemma_flat_table(members);
    if ascending(list) {
        assert forall|i: int, j: int| 0 <= i < j < members.len() implies text_before(
            #[trigger] members[i].0,
            #[trigger] members[j].0,
        ) by {
            assert(text_before(list[i].0, list[j].0));
        }
        lemma_in_order(members);
    }
    if list.len() > 0 {
        lemma_pairs_read_back(list.drop_last());
        assert(members.drop_last() =~= pairs_json(list.drop_last())->Table_0);
        assert(members.last().1 is Text);
        assert(readable(members.last().1));
        assert(list.drop_last().push(list.last()) =~= list);
    } else {
        assert(list =~= Seq::<(Seq<char>, Seq<char>)>::empty());
    }
}

/// A member of a table is found by its key: where the key stands, and stands nowhere behind that,
/// its value there; and nothing where the key does not stand at all.
pub proof fn law_members_are_found(members: Seq<(Seq<char>, Json)>, key: Seq<char>, i: int)
    ensures
        0 <= i < members.len() && members[i].0 == key && (forall|j: int|
            i < j < members.len() ==> (#[trigger] members[j]).0 != key) ==> find(members, key)
            == Some(members[i].1),
        (forall|j: int| 0 <= j < members.len() ==> (#[trigger] members[j]).0 != key) <==> find(
            members,
            key,
        ) is None,
    decreases members.len(),
{
    if members.len() > 0 {
        let front = members.drop_last();
        law_members_are_found(front, key, i);
        if members.last().0 != key {
            if find(front, key) is None {
                assert forall|j: int| 0 <= j < members.len() implies (#[trigger] members[j]).0
                    != key by {
                    if j < front.len() {
                        assert(front[j].0 != key);
                    }
                }
            } else if forall|j: int| 0 <= j < members.len() ==> (#[trigger] members[j]).0 != key {
                assert forall|j: int| 0 <= j < front.len() implies (#[trigger] front[j]).0
                    != key by {
                    assert(members[j].0 != key);
                }
            }
            if 0 <= i < members.len() && members[i].0 == key && (forall|j: int|
                i < j < members.len() ==> (#[trigger] members[j]).0 != key) {
                assert(i < front.len());
                assert(front[i] == members[i]);
                assert forall|j: int| i < j < front.len() implies (#[trigger] front[j]).0
                    != key by {
                    assert(members[j].0 != key);
                }
            }
        } else {
            assert(members[members.len() - 1].0 == key);
        }
    }
}

/// A list of texts is read text by text, all of them and in order; it is none where any of its
/// values is no text.
pub proof fn law_texts_are_read(items: Seq<Json>)
    ensures
        match read_texts(items) {
            Some(list) => list.len() == items.len() && forall|i: int|
                0 <= i < items.len() ==> #[trigger] items[i] == Json::Text(list[i]),
            None => exists|i: int| 0 <= i < items.len() && !(#[trigger] items[i] is Text),
        },
    decreases items.len(),
{
    if items.len() > 0 {
        let front = items.drop_last();
        law_texts_are_read(front);
        if read_texts(front) is None {
            let i = choose|i: int| 0 <= i < front.len() && !(#[trigger] front[i] is Text);
            assert(items[i] == front[i]);
        } else if items.last() is Text {
            let list = read_texts(front)->0;
            assert forall|i: int| 0 <= i < items.len() implies #[trigger] items[i] == Json::Text(
                read_texts(items)->0[i],
            ) by {
                if i < front.len() {
                    assert(front[i] == items[i]);
                }
            }
        } else {
            assert(items[items.len() - 1] == items.last());
        }
    }
}

/// How values are written: the plain ones by their names, numbers as they stand, texts in quotes,
/// lists in square brackets and tables in braces, with commas between what they hold.
pub proof fn law_values_are_written(
    t: Seq<char>,
    items: Seq<Json>,
    j: Json,
    members: Seq<(Seq<char>, Json)>,
    key: Seq<char>,
)
    ensures
        render(Json::Null) == "null"@,
        render(Json::Bool(true)) == "true"@,
        render(Json::Bool(false)) == "false"@,
        render(Json::Number(t)) == t,
        render(Json::Text(t)) == quoted(t),
        render(Json::List(Seq::empty())) == seq!['[', ']'],
        render(Json::Table(Seq::empty())) == seq!['{', '}'],
        render(Json::List(seq![j])) == seq!['['] + render(j) + seq![']'],
        render(Json::Table(seq![(key, j)])) == seq!['{'] + quoted(key) + seq![':'] + render(j)
            + seq!['}'],
        items.len() > 0 ==> render(Json::List(items.push(j))) == render(
            Json::List(items),
        ).drop_last() + seq![','] + render(j) + seq![']'],
        members.len() > 0 ==> render(Json::Table(members.push((key, j)))) == render(
            Json::Table(members),
        ).drop_last() + seq![','] + quoted(key) + seq![':'] + render(j) + seq!['}'],
{
    lemma_lists_are_written(items, j);
    lemma_tables_are_written(members, key, j);
}

proof fn lemma_lists_are_written(items: Seq<Json>, j: Json)
    ensures
        render(Json::List(Seq::empty())) == seq!['[', ']'],
        render(Json::List(seq![j])) == seq!['['] + render(j) + seq![']'],
        items.len() > 0 ==> render(Json::List(items.push(j))) == render(
            Json::List(items),
        ).drop_last() + seq![','] + render(j) + seq![']'],
{
    let none = Seq::<Json>::empty();
    assert(render(Json::List(none)) =~= seq!['[', ']']);
    lemma_renders(seq![j]);
    assert(renders(seq![j])[0] == render(seq![j][0]));
    assert(joined(renders(seq![j])) == render(j));
    if items.len() > 0 {
        let all = items.push(j);
        lemma_renders(items);
        assert(all.drop_last() =~= items);
        assert(renders(all) == renders(items).push(render(j)));
        assert(renders(all).drop_last() =~= renders(items));
        let inside = joined(renders(items));
        assert(joined(renders(all)) == inside + seq![','] + render(j));
        assert(render(Json::List(items)).drop_last() =~= seq!['['] + inside);
        assert(render(Json::List(all)) =~= seq!['['] + inside + seq![','] + render(j) + seq![']']);
    }
}

proof fn lemma_tables_are_written(members: Seq<(Seq<char>, Json)>, key: Seq<char>, j: Json)
    ensures
        render(Json::Table(Seq::empty())) == seq!['{', '}'],
        render(Json::Table(seq![(key, j)])) == seq!['{'] + quoted(key) + seq![':'] + render(j)
            + seq!['}'],
        members.len() > 0 ==> render(Json::Table(members.push((key, j)))) == render(
            Json::Table(members),
        ).drop_last() + seq![','] + quoted(key) + seq![':'] + render(j) + seq!['}'],
{
    let none = Seq::<(Seq<char>, Json)>::empty();
    assert(render(Json::Table(none)) =~= seq!['{', '}']);
    let one = quoted(key) + seq![':'] + render(j);
    let single = seq![(key, j)];
    lemma_member_texts(single);
    assert(single[0] == (key, j));
    assert(member_texts(single)[0] == one);
    assert(joined(member_texts(single)) == one);
    assert(render(Json::Table(single)) =~= seq!['{'] + quoted(key) + seq![':'] + render(j)
        + seq!['}']);
    if members.len() > 0 {
        let all = members.push((key, j));
        lemma_member_texts(members);
        assert(all.drop_last() =~= members);
        assert(member_texts(all) == member_texts(members).push(one));
        assert(member_texts(all).drop_last() =~= member_texts(members));
        let inside = joined(member_texts(members));
        assert(joined(member_texts(all)) == inside + seq![','] + one);
        assert(render(Json::Table(members)).drop_last() =~= seq!['{'] + inside);
        assert(render(Json::Table(all)) =~= seq!['{'] + inside + seq![','] + quoted(key) + seq![':']
            + render(j) + seq!['}']);
    }
}

/// A text is quoted character by character. Quotes, backslashes and control characters are escaped;
/// every other character stands as it is.
pub proof fn law_texts_are_quoted(s: Seq<char>, c: char)
    ensures
        quoted(Seq::empty()) == seq!['"', '"'],
        quoted(s.push(c)) == quoted(s).drop_last() + quoted_char(c) + seq!['"'],
        c >= ' ' && c != '"' && c != '\\' ==> quoted_char(c) == seq![c],
        c < ' ' || c == '"' || c == '\\' ==> quoted_char(c).len() > 1 && quoted_char(c)[0] == '\\',
        quoted_char('"') == seq!['\\', '"'],
        quoted_char('\\') == seq!['\\', '\\'],
        quoted_char('\n') == seq!['\\', 'n'],
        quoted_char('\r') == seq!['\\', 'r'],
        quoted_char('\t') == seq!['\\', 't'],
        quoted_char('\u{1b}') == seq!['\\', 'u', '0', '0', '1', 'b'],
{
    let none = Seq::<char>::empty();
    assert(quoted(none) =~= seq!['"', '"']);
    assert(s.push(c).drop_last() =~= s);
    assert(quoted_inside(s.push(c)) == quoted_inside(s) + quoted_char(c));
    assert(quoted(s).drop_last() =~= seq!['"'] + quoted_inside(s));
    assert(quoted(s.push(c)) =~= quoted(s).drop_last() + quoted_char(c) + seq!['"']);
}

/// Putting the members of tables in order changes nothing about what they hold: under each key
/// stands what stood there, itself in order; and only tables change.
pub proof fn law_order_keeps_what_is_held(
    members: Seq<(Seq<char>, Json)>,
    key: Seq<char>,
    items: Seq<Json>,
    i: int,
    j: Json,
)
    ensures
        find(ordered_members(members), key) == (match find(members, key) {
            Some(v) => Some(ordered(v)),
            None => None,
        }),
        ordered(Json::Table(members)) == Json::Table(ordered_members(members)),
        ordered(Json::List(items)) is List,
        ordered(Json::List(items))->List_0.len() == items.len(),
        0 <= i < items.len() ==> ordered(Json::List(items))->List_0[i] == ordered(items[i]),
        !(j is List) && !(j is Table) ==> ordered(j) == j,
{
    lemma_find_sorted(members, key);
    lemma_ordered_items(items);
}

proof fn lemma_ordered_items(items: Seq<Json>)
    ensures
        ordered_list(items).len() == items.len(),
        forall|i: int|
            0 <= i < items.len() ==> #[trigger] ordered_list(items)[i] == ordered(items[i]),
    decreases items.len(),
{
    if items.len() > 0 {
        lemma_ordered_items(items.drop_last());
    }
}

proof fn lemma_values_one_by_one(list: Seq<Seq<char>>, bound: nat, room: nat)
    requires
        forall|i: int| 0 <= i < list.len() ==> (#[trigger] list[i]).len() < bound,
        room > 0,
    ensures
        match values_of(list, bound, room) {
            Some(items) => items.len() == list.len() && forall|i: int|
                0 <= i < list.len() ==> value_of(#[trigger] list[i], (room - 1) as nat) == Some(
                    items[i],
                ),
            None => exists|i: int|
                0 <= i < list.len() && value_of(#[trigger] list[i], (room - 1) as nat) is None,
        },
    decreases list.len(),
{
    if list.len() > 0 {
        let front = list.drop_last();
        assert forall|i: int| 0 <= i < front.len() implies (#[trigger] front[i]).len() < bound by {
            assert(front[i] == list[i]);
        }
        lemma_values_one_by_one(front, bound, room);
        assert(list[list.len() - 1].len() < bound);
        match values_of(front, bound, room) {
            None => {
                let i = choose|i: int|
                    0 <= i < front.len() && value_of(
                        #[trigger] front[i],
                        (room - 1) as nat,
                    ) is None;
                assert(list[i] == front[i]);
            },
            Some(some) => {
                if value_of(list.last(), (room - 1) as nat) is Some {
                    let items = values_of(list, bound, room)->0;
                    assert forall|i: int| 0 <= i < list.len() implies value_of(
                        #[trigger] list[i],
                        (room - 1) as nat,
                    ) == Some(items[i]) by {
                        if i < front.len() {
                            assert(front[i] == list[i]);
                        }
                    }
                } else {
                    assert(list[list.len() - 1] == list.last());
                }
            },
        }
    }
}

proof fn lemma_members_one_by_one(list: Seq<(Seq<char>, Seq<char>)>, bound: nat, room: nat)
    requires
        forall|i: int| 0 <= i < list.len() ==> (#[trigger] list[i]).1.len() < bound,
        room > 0,
    ensures
        match members_of(list, bound, room) {
            Some(members) => members.len() == list.len() && forall|i: int|
                0 <= i < list.len() ==> (#[trigger] list[i]).0 == members[i].0 && value_of(
                    list[i].1,
                    (room - 1) as nat,
                ) == Some(members[i].1),
            None => exists|i: int|
                0 <= i < list.len() && value_of(
                    (#[trigger] list[i]).1,
                    (room - 1) as nat,
                ) is None,
        },
    decreases list.len(),
{
    if list.len() > 0 {
        let front = list.drop_last();
        assert forall|i: int| 0 <= i < front.len() implies (#[trigger] front[i]).1.len()
            < bound by {
            assert(front[i] == list[i]);
        }
        lemma_members_one_by_one(front, bound, room);
        assert(list[list.len() - 1].1.len() < bound);
        match members_of(front, bound, room) {
            None => {
                let i = choose|i: int|
                    0 <= i < front.len() && value_of(
                        (#[trigger] front[i]).1,
                        (room - 1) as nat,
                    ) is None;
                assert(list[i] == front[i]);
            },
            Some(some) => {
                if value_of(list.last().1, (room - 1) as nat) is Some {
                    let members = members_of(list, bound, room)->0;
                    assert forall|i: int| 0 <= i < list.len() implies (#[trigger] list[i]).0
                        == members[i].0 && value_of(list[i].1, (room - 1) as nat) == Some(
                        members[i].1,
                    ) by {
                        if i < front.len() {
                            assert(front[i] == list[i]);
                        }
                    }
                } else {
                    assert(list[list.len() - 1] == list.last());
                }
            },
        }
    }
}

/// A list is read element by element and a table member by member: all of them, in order, each key
/// with its own value. Where one cannot be read, the whole cannot.
pub proof fn law_lists_and_tables_are_read(
    t: Seq<char>,
    list: Seq<Seq<char>>,
    pairs: Seq<(Seq<char>, Seq<char>)>,
    room: nat,
)
    requires
        t.len() > 0,
        room > 0,
        forall|i: int| 0 <= i < list.len() ==> (#[trigger] list[i]).len() < t.len(),
        forall|i: int| 0 <= i < pairs.len() ==> (#[trigger] pairs[i]).1.len() < t.len(),
    ensures
        t[0] == '[' && json_elements(t) == Some(list) ==> match value_of(t, room) {
            Some(j) => j is List && j->List_0.len() == list.len() && forall|i: int|
                0 <= i < list.len() ==> value_of(#[trigger] list[i], (room - 1) as nat) == Some(
                    j->List_0[i],
                ),
            None => exists|i: int|
                0 <= i < list.len() && value_of(#[trigger] list[i], (room - 1) as nat) is None,
        },
        t[0] == '{' && json_members(t) == Some(pairs) ==> match value_of(t, room) {
            Some(j) => j is Table && j->Table_0.len() == pairs.len() && forall|i: int|
                0 <= i < pairs.len() ==> (#[trigger] pairs[i]).0 == j->Table_0[i].0 && value_of(
                    pairs[i].1,
                    (room - 1) as nat,
                ) == Some(j->Table_0[i].1),
            None => exists|i: int|
                0 <= i < pairs.len() && value_of(
                    (#[trigger] pairs[i]).1,
                    (room - 1) as nat,
                ) is None,
        },
        t[0] == '[' && json_elements(t) is None ==> value_of(t, room) is None,
        t[0] == '{' && json_members(t) is None ==> value_of(t, room) is None,
{
    if t[0] == '[' && json_elements(t) == Some(list) {
        lemma_values_one_by_one(list, t.len(), room);
    }
    if t[0] == '{' && json_members(t) == Some(pairs) {
        lemma_members_one_by_one(pairs, t.len(), room);
    }
}

/// The values that hold no others: a string in quotes, the three words, and numbers that are not
/// out of range. Nothing else is one.
pub proof fn law_single_values_are_read(t: Seq<char>, room: nat)
    requires
        t.len() > 0,
        t[0] != '[',
        t[0] != '{',
    ensures
        t[0] == '"' ==> value_of(t, room) == (match json_string(t) {
            Some(s) => Some(Json::Text(s)),
            None => None,
        }),
        t == "null"@ ==> value_of(t, room) == Some(Json::Null),
        t == "true"@ ==> value_of(t, room) == Some(Json::Bool(true)),
        t == "false"@ ==> value_of(t, room) == Some(Json::Bool(false)),
        t[0] != '"' && t != "null"@ && t != "true"@ && t != "false"@ ==> value_of(t, room) == (
        if json_fits(t) {
            Some(Json::Number(t))
        } else {
            None
        }),
{
    reveal_strlit("null");
    reveal_strlit("true");
    reveal_strlit("false");
    assert("null"@[0] == 'n' && "true"@[0] == 't' && "false"@[0] == 'f');
}

} // verus!
