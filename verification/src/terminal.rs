//! The terminal that a program is recorded in: its type, its size, and the header that tells of
//! them.

use crate::cast::{Header, HeaderView};
use crate::json::{optional_view, pair_views};
use crate::text::{
    chars_of, copy_text, is_space, lower, lower_chars, spells, trim, trim_chars, trim_end,
    trim_start,
};
use vstd::prelude::*;

verus! {

/// Columns where no size is known.
pub const DEFAULT_COLS: u16 = 80;

/// Rows where no size is known.
pub const DEFAULT_ROWS: u16 = 24;

/// Whether a full-screen program can draw on a terminal of that type: any but the primitive
/// ones, in any letter case and with white space around it left aside.
pub open spec fn capable(term: Seq<char>) -> bool {
    let name = lower(trim(term));
    !(name.len() == 0 || name == "dumb"@ || name == "ansi"@ || name == "unknown"@ || name
        == "vt52"@)
}

/// The terminal type that is told to the program: the one around it if a full-screen program can
/// draw on it, else a common capable one.
pub open spec fn advertised(ambient: Option<Seq<char>>) -> Seq<char> {
    match ambient {
        Some(term) => if capable(term) {
            term
        } else {
            "xterm-256color"@
        },
        None => "xterm-256color"@,
    }
}

/// Whether a full-screen program can draw on a terminal of that type.
pub fn is_capable_term(term: &str) -> (r: bool)
    ensures
        r == capable(term@),
{
    let chars = chars_of(term);
    let inner = trim_chars(chars.as_slice());
    let low = lower_chars(inner.as_slice());
    let name = low.as_slice();
    !(name.len() == 0 || spells(name, "dumb") || spells(name, "ansi") || spells(name, "unknown")
        || spells(name, "vt52"))
}

/// Picks the terminal type that is told to the program, given the one around it.
pub fn resolve_term(ambient: &Option<String>) -> (r: String)
    ensures
        r@ == advertised(optional_view(*ambient)),
{
    match ambient {
        Some(term) => if is_capable_term(term.as_str()) {
            copy_text(term.as_str())
        } else {
            copy_text("xterm-256color")
        },
        None => copy_text("xterm-256color"),
    }
}

/// One dimension: as asked for, else as the terminal has it, else the default. Zero is unknown.
pub open spec fn dimension(asked: Option<u16>, queried: u16, default: u16) -> u16 {
    if asked is Some && asked->0 > 0 {
        asked->0
    } else if queried > 0 {
        queried
    } else {
        default
    }
}

/// The size asked for, with what the terminal reports in place of what is not.
pub open spec fn size_of(cols: Option<u16>, rows: Option<u16>, terminal: Option<(u16, u16)>) -> (
    u16,
    u16,
) {
    let queried = match terminal {
        Some(size) => size,
        None => (DEFAULT_COLS, DEFAULT_ROWS),
    };
    (dimension(cols, queried.0, DEFAULT_COLS), dimension(rows, queried.1, DEFAULT_ROWS))
}

/// Picks one dimension.
fn pick_dimension(asked: Option<u16>, queried: u16, default: u16) -> (r: u16)
    ensures
        r == dimension(asked, queried, default),
{
    match asked {
        Some(n) => if n > 0 {
            n
        } else if queried > 0 {
            queried
        } else {
            default
        },
        None => if queried > 0 {
            queried
        } else {
            default
        },
    }
}

/// Picks the size of the recorded terminal, given the size that the real one reports. It is never
/// zero.
pub fn resolve_size(cols: Option<u16>, rows: Option<u16>, terminal: Option<(u16, u16)>) -> (r: (
    u16,
    u16,
))
    ensures
        r == size_of(cols, rows, terminal),
        r.0 > 0,
        r.1 > 0,
{
    let (term_cols, term_rows) = match terminal {
        Some((c, r)) => (c, r),
        None => (DEFAULT_COLS, DEFAULT_ROWS),
    };
    (
        pick_dimension(cols, term_cols, DEFAULT_COLS),
        pick_dimension(rows, term_rows, DEFAULT_ROWS),
    )
}

/// The environment that a header tells of: the shell, if it is known, and the terminal type.
pub open spec fn recorded_env(shell: Option<Seq<char>>, term: Seq<char>) -> Seq<
    (Seq<char>, Seq<char>),
> {
    match shell {
        Some(path) => seq![("SHELL"@, path), ("TERM"@, term)],
        None => seq![("TERM"@, term)],
    }
}

/// The header of a recording of that size, made at that time.
pub open spec fn recorded_header(
    cols: u16,
    rows: u16,
    timestamp: Option<i64>,
    shell: Option<Seq<char>>,
    term: Seq<char>,
) -> HeaderView {
    HeaderView {
        timestamp,
        env: Some(recorded_env(shell, term)),
        ..HeaderView::plain(cols, rows)
    }
}

/// Makes the header of a recording.
pub fn build_header(
    cols: u16,
    rows: u16,
    timestamp: Option<i64>,
    shell: &Option<String>,
    term: &str,
) -> (r: Header)
    ensures
        r@ == recorded_header(cols, rows, timestamp, optional_view(*shell), term@),
        r@.env matches Some(list) && crate::json::ascending(list),
{
    let mut env: Vec<(String, String)> = Vec::new();
    if let Some(path) = shell {
        env.push((copy_text("SHELL"), copy_text(path.as_str())));
    }
    env.push((copy_text("TERM"), copy_text(term)));
    proof {
        assert(pair_views(env@) =~= recorded_env(optional_view(*shell), term@));
        reveal_strlit("SHELL");
        reveal_strlit("TERM");
        assert("SHELL"@[0] == 'S' && "TERM"@[0] == 'T');
        assert(crate::json::ascending(pair_views(env@)));
    }
    let mut header = Header::new(cols, rows);
    header.timestamp = timestamp;
    header.env = Some(env);
    header
}

proof fn lemma_start_goes(left: Seq<char>, word: Seq<char>)
    requires
        forall|i: int| 0 <= i < left.len() ==> is_space(#[trigger] left[i]),
        word.len() > 0,
        !is_space(word[0]),
    ensures
        trim_start(left + word) == word,
    decreases left.len(),
{
    let all = left + word;
    if left.len() > 0 {
        assert(all.first() == left[0]);
        let rest = left.drop_first();
        assert forall|i: int| 0 <= i < rest.len() implies is_space(#[trigger] rest[i]) by {
            assert(rest[i] == left[i + 1]);
        }
        assert(all.drop_first() =~= rest + word);
        lemma_start_goes(rest, word);
    } else {
        assert(all =~= word);
    }
}

proof fn lemma_end_goes(word: Seq<char>, right: Seq<char>)
    requires
        forall|i: int| 0 <= i < right.len() ==> is_space(#[trigger] right[i]),
        word.len() > 0,
        !is_space(word.last()),
    ensures
        trim_end(word + right) == word,
    decreases right.len(),
{
    let all = word + right;
    if right.len() > 0 {
        assert(all.last() == right[right.len() - 1]);
        let rest = right.drop_last();
        assert forall|i: int| 0 <= i < rest.len() implies is_space(#[trigger] rest[i]) by {
            assert(rest[i] == right[i]);
        }
        assert(all.drop_last() =~= word + rest);
        lemma_end_goes(word, rest);
    } else {
        assert(all =~= word);
    }
}

/// A primitive terminal type is never told to the program, whatever its letter case and the white
/// space around it: a common capable one is. Any other type is told just as it stands, white space
/// and all.
pub proof fn law_terminal_type_is_picked(left: Seq<char>, word: Seq<char>, right: Seq<char>)
    requires
        forall|i: int| 0 <= i < left.len() ==> is_space(#[trigger] left[i]),
        forall|i: int| 0 <= i < right.len() ==> is_space(#[trigger] right[i]),
        word.len() > 0,
        !is_space(word[0]),
        !is_space(word.last()),
    ensures
        ({
            let term = left + word + right;
            let low = lower(word);
            let primitive = low == "dumb"@ || low == "ansi"@ || low == "unknown"@ || low
                == "vt52"@;
            &&& capable(term) == !primitive
            &&& primitive ==> advertised(Some(term)) == "xterm-256color"@
            &&& !primitive ==> advertised(Some(term)) == term
        }),
{
    let term = left + word + right;
    assert(term =~= left + (word + right));
    assert((word + right)[0] == word[0]);
    lemma_start_goes(left, word + right);
    lemma_end_goes(word, right);
    assert(trim(term) == word);
    assert(lower(word).len() == word.len());
}

/// Without a terminal type, or with one that is mere white space, a common capable one is told.
pub proof fn law_no_terminal_type(blank: Seq<char>)
    requires
        forall|i: int| 0 <= i < blank.len() ==> is_space(#[trigger] blank[i]),
    ensures
        advertised(None) == "xterm-256color"@,
        advertised(Some(blank)) == "xterm-256color"@,
{
    lemma_blank_goes(blank);
}

proof fn lemma_blank_goes(blank: Seq<char>)
    requires
        forall|i: int| 0 <= i < blank.len() ==> is_space(#[trigger] blank[i]),
    ensures
        trim_start(blank).len() == 0,
    decreases blank.len(),
{
    if blank.len() > 0 {
        assert(is_space(blank[0]));
        let rest = blank.drop_first();
        assert forall|i: int| 0 <= i < rest.len() implies is_space(#[trigger] rest[i]) by {
            assert(rest[i] == blank[i + 1]);
        }
        lemma_blank_goes(rest);
    }
}

/// The size is the one asked for; what is not asked for, or asked for as zero, is as the terminal
/// has it; and where that is not known either, it is 80 columns by 24 rows. Columns and rows are
/// picked apart from one another.
pub proof fn law_size_is_picked(
    cols: u16,
    rows: u16,
    other: Option<u16>,
    width: u16,
    height: u16,
    terminal: Option<(u16, u16)>,
)
    ensures
        cols > 0 ==> size_of(Some(cols), other, terminal).0 == cols,
        rows > 0 ==> size_of(other, Some(rows), terminal).1 == rows,
        width > 0 ==> size_of(None, other, Some((width, height))).0 == width && size_of(
            Some(0),
            other,
            Some((width, height)),
        ).0 == width,
        height > 0 ==> size_of(other, None, Some((width, height))).1 == height && size_of(
            other,
            Some(0),
            Some((width, height)),
        ).1 == height,
        size_of(None, other, None).0 == 80,
        size_of(other, None, None).1 == 24,
        size_of(None, other, Some((0, height))).0 == 80,
        size_of(other, None, Some((width, 0))).1 == 24,
        size_of(Some(0), Some(0), None) == (80u16, 24u16),
{
}

/// The header of a recording tells of its size, when it was made, the shell if it is known, and the
/// terminal type; nothing else is set.
pub proof fn law_header_tells_of_the_terminal(
    cols: u16,
    rows: u16,
    timestamp: Option<i64>,
    path: Seq<char>,
    term: Seq<char>,
)
    ensures
        ({
            let h = recorded_header(cols, rows, timestamp, Some(path), term);
            let bare = recorded_header(cols, rows, timestamp, None, term);
            &&& h.version == 2 && h.width == cols && h.height == rows && h.timestamp == timestamp
            &&& h.env == Some(seq![("SHELL"@, path), ("TERM"@, term)])
            &&& bare.env == Some(seq![("TERM"@, term)])
            &&& bare == (HeaderView { env: bare.env, ..h })
            &&& h.duration is None && h.idle_time_limit is None && h.command is None
            &&& h.title is None && h.theme is None
        }),
{
}

} // verus!
