//! Listing the markers of a recording, and finding where it is saved.

use crate::cast::{event_views, AsciiCast, Event, EventView};
use crate::decimal::{seconds_text, show_nat, show_seconds, whole_text};
use crate::json::optional_view;
use crate::text::{append_chars, chars_of, copy_text, string_of, views};
use vstd::prelude::*;

verus! {

/// The attribute that names the video, if there is one.
pub open spec fn video_attribute(id: Option<Seq<char>>) -> Seq<char> {
    match id {
        Some(name) => " data-video=\""@ + name + "\""@,
        None => Seq::empty(),
    }
}

/// A link to a time of a video.
pub open spec fn seek_link(id: Option<Seq<char>>, time: i64, label: Seq<char>) -> Seq<char> {
    "<a"@ + video_attribute(id) + " data-seek-to=\""@ + seconds_text(time as int)
        + "\" href=\"javascript:;\">"@ + label + "</a>"@
}

/// The links to the markers among events, in order.
pub open spec fn marker_links(events: Seq<EventView>, id: Option<Seq<char>>) -> Seq<Seq<char>>
    decreases events.len(),
{
    if events.len() == 0 {
        Seq::empty()
    } else {
        let before = marker_links(events.drop_last(), id);
        match events.last() {
            EventView::Marker { time, label } => before.push(seek_link(id, time, label)),
            _ => before,
        }
    }
}

/// Makes a link to a time of a video.
fn make_link(id: &Option<String>, time: i64, label: &str) -> (r: String)
    ensures
        r@ == seek_link(optional_view(*id), time, label@),
{
    let mut out = copy_text("<a");
    if let Some(name) = id {
        out.append(" data-video=\"");
        out.append(name.as_str());
        out.append("\"");
    }
    out.append(" data-seek-to=\"");
    let number = show_seconds(time);
    out.append(number.as_str());
    out.append("\" href=\"javascript:;\">");
    out.append(label);
    out.append("</a>");
    proof {
        assert(out@ =~= seek_link(optional_view(*id), time, label@));
    }
    out
}

/// Links to the markers of a recording, for a page with the video of that name.
pub fn marker_md_list(cast: &AsciiCast, data_video_id: &Option<String>) -> (r: Vec<String>)
    ensures
        views(r@) == marker_links(cast@.events, optional_view(*data_video_id)),
{
    let ghost all = event_views(cast.events@);
    let ghost id = optional_view(*data_video_id);
    let mut lines: Vec<String> = Vec::new();
    let mut i: usize = 0;
    proof {
        assert(all.take(0) =~= Seq::<EventView>::empty());
        assert(views(lines@) =~= Seq::<Seq<char>>::empty());
    }
    while i < cast.events.len()
        invariant
            i <= cast.events@.len(),
            all == event_views(cast.events@),
            id == optional_view(*data_video_id),
            views(lines@) == marker_links(all.take(i as int), id),
        decreases cast.events@.len() - i,
    {
        let ghost before = views(lines@);
        proof {
            assert(all.take(i + 1).drop_last() =~= all.take(i as int));
            assert(all.take(i + 1).last() == cast.events@[i as int]@);
        }
        if let Event::Marker { time, label } = &cast.events[i] {
            let link = make_link(data_video_id, *time, label.as_str());
            lines.push(link);
            proof {
                assert(views(lines@) =~= before.push(link@));
            }
        }
        i += 1;
    }
    proof {
        assert(all.take(i as int) =~= all);
    }
    lines
}

/// The items of a numbered list, counted from one.
pub open spec fn numbered(lines: Seq<Seq<char>>) -> Seq<Seq<char>> {
    Seq::new(lines.len(), |i: int| whole_text(i + 1) + ". "@ + lines[i])
}

/// Numbers the items of a list.
pub fn number_lines(lines: &Vec<String>) -> (r: Vec<String>)
    ensures
        views(r@) == numbered(views(lines@)),
{
    let mut out: Vec<String> = Vec::new();
    let mut i: usize = 0;
    while i < lines.len()
        invariant
            i <= lines.len(),
            out@.len() == i,
            forall|k: int|
                0 <= k < i ==> (#[trigger] out@[k])@ == whole_text(k + 1) + ". "@ + lines@[k]@,
        decreases lines@.len() - i,
    {
        let mut line = show_nat(i as u64 + 1);
        line.append(". ");
        line.append(lines[i].as_str());
        out.push(line);
        i += 1;
    }
    proof {
        assert(views(out@) =~= numbered(views(lines@)));
    }
    out
}

/// Whether a path begins at the root.
pub open spec fn is_absolute(path: Seq<char>) -> bool {
    path.len() > 0 && path[0] == '/'
}

/// Where the last slash stands; minus one if there is none.
pub open spec fn last_slash(path: Seq<char>) -> int
    decreases path.len(),
{
    if path.len() == 0 {
        -1
    } else if path.last() == '/' {
        path.len() - 1
    } else {
        last_slash(path.drop_last())
    }
}

/// Where the names of a path begin: behind the slash at its root, or behind the dot that it begins
/// with.
pub open spec fn names_start(path: Seq<char>) -> int {
    if is_absolute(path) || (path.len() > 0 && path[0] == '.' && (path.len() == 1 || path[1]
        == '/')) {
        1
    } else {
        0
    }
}

/// A path without the slashes at its end and the dots that name nothing, as far as `start`.
pub open spec fn trimmed_path(path: Seq<char>, start: int) -> Seq<char>
    decreases path.len(),
{
    let n = path.len() as int;
    if 0 <= start < n && (path[n - 1] == '/' || (path[n - 1] == '.' && (n - 1 == start || path[n
        - 2] == '/'))) {
        trimmed_path(path.drop_last(), start)
    } else {
        path
    }
}

/// The directory in which a path names something; empty if it names nothing in another one.
pub open spec fn directory_of(path: Seq<char>) -> Seq<char> {
    let start = names_start(path);
    let all = trimmed_path(path, start);
    if all.len() <= start {
        Seq::empty()
    } else if last_slash(all) > start {
        trimmed_path(all.take(last_slash(all)), start)
    } else {
        all.take(start)
    }
}

/// The path of a file that is named beside a script: an absolute one as it is, another in the
/// directory of the script.
pub open spec fn beside(script: Seq<char>, file: Seq<char>) -> Seq<char> {
    let dir = directory_of(script);
    if is_absolute(file) || dir.len() == 0 {
        file
    } else if dir.last() == '/' {
        dir + file
    } else {
        dir + seq!['/'] + file
    }
}

/// Takes the slashes and the dots that name nothing off the end of a path.
fn trim_path(path: &mut Vec<char>, start: usize)
    ensures
        final(path)@ == trimmed_path(old(path)@, start as int),
{
    while path.len() > start && (path[path.len() - 1] == '/' || (path[path.len() - 1] == '.' && (
    path.len() - 1 == start || path[path.len() - 2] == '/')))
        invariant
            trimmed_path(path@, start as int) == trimmed_path(old(path)@, start as int),
        decreases path@.len(),
    {
        proof {
            assert(path@.drop_last() =~= path@.take(path@.len() - 1));
        }
        path.pop();
    }
}

/// Finds the directory in which a path names something.
fn find_directory(path: &str) -> (r: Vec<char>)
    ensures
        r@ == directory_of(path@),
{
    let mut chars = chars_of(path);
    let start: usize = if chars.len() > 0 && (chars[0] == '/' || (chars[0] == '.' && (chars.len()
        == 1 || chars[1] == '/'))) {
        1
    } else {
        0
    };
    trim_path(&mut chars, start);
    if chars.len() <= start {
        return Vec::new();
    }
    let ghost all = chars@;
    let mut n: usize = chars.len();
    proof {
        assert(all.take(n as int) =~= all);
    }
    while n > 0 && chars[n - 1] != '/'
        invariant
            n <= chars@.len(),
            chars@ == all,
            last_slash(all) == last_slash(all.take(n as int)),
        decreases n,
    {
        proof {
            assert(all.take(n as int).drop_last() =~= all.take(n - 1));
        }
        n -= 1;
    }
    if n > start + 1 {
        chars.truncate(n - 1);
        proof {
            assert(chars@ =~= all.take(last_slash(all)));
        }
        trim_path(&mut chars, start);
    } else {
        chars.truncate(start);
        proof {
            assert(chars@ =~= all.take(start as int));
        }
    }
    chars
}

/// Resolves the path of a recording against the path of its script.
pub fn resolve_output_file(script_file: &str, output_file: &str) -> (r: String)
    ensures
        r@ == beside(script_file@, output_file@),
{
    let file = chars_of(output_file);
    if file.len() > 0 && file[0] == '/' {
        return copy_text(output_file);
    }
    let mut out = find_directory(script_file);
    if out.len() > 0 && out[out.len() - 1] != '/' {
        out.push('/');
    }
    append_chars(&mut out, file.as_slice());
    proof {
        assert(out@ =~= beside(script_file@, output_file@));
    }
    string_of(out.as_slice())
}

/// Every marker gets one link, with its time and its label, in the order of the markers; other
/// events get none.
pub proof fn law_each_marker_is_linked(
    a: Seq<EventView>,
    e: EventView,
    b: Seq<EventView>,
    id: Option<Seq<char>>,
)
    ensures
        marker_links(a + b, id) == marker_links(a, id) + marker_links(b, id),
        match e {
            EventView::Marker { time, label } => marker_links(seq![e], id) == seq![
                seek_link(id, time, label),
            ],
            _ => marker_links(seq![e], id).len() == 0,
        },
    decreases b.len(),
{
    reveal_with_fuel(marker_links, 2);
    assert(seq![e].drop_last() =~= Seq::<EventView>::empty());
    if e is Marker {
        assert(marker_links(seq![e], id) =~= seq![
            seek_link(id, e->Marker_time, e->label),
        ]);
    }
    if b.len() == 0 {
        assert(a + b =~= a);
        assert(marker_links(a, id) + marker_links(b, id) =~= marker_links(a, id));
    } else {
        law_each_marker_is_linked(a, e, b.drop_last(), id);
        assert((a + b).drop_last() =~= a + b.drop_last());
        assert((a + b).last() == b.last());
        assert(marker_links(a + b, id) =~= marker_links(a, id) + marker_links(b, id));
    }
}

/// A link seeks to the time in seconds and shows the label; it names the video where there is one.
pub proof fn law_link_tells_time_and_label(name: Seq<char>, time: i64, label: Seq<char>)
    ensures
        seek_link(None, time, label) == "<a data-seek-to=\""@ + seconds_text(time as int)
            + "\" href=\"javascript:;\">"@ + label + "</a>"@,
        seek_link(Some(name), time, label) == "<a data-video=\""@ + name + "\" data-seek-to=\""@
            + seconds_text(time as int) + "\" href=\"javascript:;\">"@ + label + "</a>"@,
{
    reveal_strlit("<a");
    reveal_strlit(" data-seek-to=\"");
    reveal_strlit("<a data-seek-to=\"");
    reveal_strlit(" data-video=\"");
    reveal_strlit("<a data-video=\"");
    reveal_strlit("\"");
    reveal_strlit("\" data-seek-to=\"");
    assert("<a data-seek-to=\""@ =~= "<a"@ + " data-seek-to=\""@);
    assert("<a data-video=\""@ =~= "<a"@ + " data-video=\""@);
    assert("\" data-seek-to=\""@ =~= "\""@ + " data-seek-to=\""@);
    assert("<a"@ + Seq::<char>::empty() =~= "<a"@);
    let tail = seconds_text(time as int) + "\" href=\"javascript:;\">"@ + label + "</a>"@;
    assert(seek_link(None, time, label) =~= "<a data-seek-to=\""@ + tail);
    assert("<a data-seek-to=\""@ + tail =~= "<a data-seek-to=\""@ + seconds_text(time as int)
        + "\" href=\"javascript:;\">"@ + label + "</a>"@);
    assert(seek_link(Some(name), time, label) =~= "<a data-video=\""@ + name
        + "\" data-seek-to=\""@ + tail);
    assert("<a data-video=\""@ + name + "\" data-seek-to=\""@ + tail =~= "<a data-video=\""@ + name
        + "\" data-seek-to=\""@ + seconds_text(time as int) + "\" href=\"javascript:;\">"@ + label
        + "</a>"@);
}

/// A numbered list has all the lines, in order, each behind its number, counted from one.
pub proof fn law_lines_are_numbered(lines: Seq<Seq<char>>, i: int)
    requires
        0 <= i < lines.len(),
    ensures
        numbered(lines).len() == lines.len(),
        numbered(lines)[i] == whole_text(i + 1) + ". "@ + lines[i],
{
}

proof fn lemma_last_slash(path: Seq<char>, k: int)
    requires
        -1 <= k < path.len(),
        k >= 0 ==> path[k] == '/',
        forall|i: int| k < i < path.len() ==> #[trigger] path[i] != '/',
    ensures
        last_slash(path) == k,
    decreases path.len(),
{
    if path.len() > 0 && path.last() != '/' {
        let front = path.drop_last();
        assert forall|i: int| k < i < front.len() implies #[trigger] front[i] != '/' by {
            assert(front[i] == path[i]);
        }
        lemma_last_slash(front, k);
    } else if path.len() > 0 {
        assert(path[path.len() - 1] == '/');
    }
}

/// A file with an absolute path is where it says. Any other is in the directory of the script: the
/// one that the path of the script begins with, or the current one where it is a mere name.
pub proof fn law_recording_lies_beside_the_script(
    dir: Seq<char>,
    name: Seq<char>,
    file: Seq<char>,
)
    requires
        name.len() > 0,
        forall|i: int| 0 <= i < name.len() ==> #[trigger] name[i] != '/',
        name != seq!['.'],
        dir.len() > 0,
        dir.last() != '/',
        dir != seq!['.'],
        dir.len() > 1 && dir.last() == '.' ==> dir[dir.len() - 2] != '/',
        file.len() == 0 || file[0] != '/',
    ensures
        beside(name, file) == file,
        beside(dir + seq!['/'] + name, file) == dir + seq!['/'] + file,
        beside(seq!['/'] + name, file) == seq!['/'] + file,
        beside(seq!['.', '/'] + name, file) == seq!['.', '/'] + file,
{
    lemma_mere_name(name);
    lemma_in_directory(dir, name);
    lemma_at_the_root('/', seq!['/'], name);
    lemma_at_the_root('.', seq!['.', '/'], name);
    assert(seq!['.'] + seq!['/'] + file =~= seq!['.', '/'] + file);
    assert(seq!['.'].last() == '.');
    assert(seq!['/'].last() == '/');
}

/// A name alone keeps all of itself when a path is trimmed.
proof fn lemma_name_stays(head: Seq<char>, name: Seq<char>, start: int)
    requires
        name.len() > 0,
        name.last() != '/',
        name != seq!['.'],
        0 <= start <= head.len(),
        name.len() > 1 ==> name[name.len() - 2] != '/',
    ensures
        trimmed_path(head + name, start) == head + name,
{
    let path = head + name;
    let n = path.len() as int;
    assert(path[n - 1] == name.last());
    if name.last() == '.' {
        assert(name.len() > 1) by {
            if name.len() == 1 {
                assert(name =~= seq!['.']);
            }
        }
        assert(path[n - 2] == name[name.len() - 2]);
    }
}

proof fn lemma_mere_name(name: Seq<char>)
    requires
        name.len() > 0,
        forall|i: int| 0 <= i < name.len() ==> #[trigger] name[i] != '/',
        name != seq!['.'],
    ensures
        directory_of(name).len() == 0,
{
    if name.len() == 1 {
        if name[0] == '.' {
            assert(name =~= seq!['.']);
        }
    }
    assert(names_start(name) == 0);
    let none = Seq::<char>::empty();
    assert(none + name =~= name);
    assert(name[name.len() - 1] != '/');
    if name.len() > 1 {
        assert(name[name.len() - 2] != '/');
    }
    lemma_name_stays(none, name, 0);
    lemma_last_slash(name, -1);
}

proof fn lemma_in_directory(dir: Seq<char>, name: Seq<char>)
    requires
        name.len() > 0,
        forall|i: int| 0 <= i < name.len() ==> #[trigger] name[i] != '/',
        name != seq!['.'],
        dir.len() > 0,
        dir.last() != '/',
        dir != seq!['.'],
        dir.len() > 1 && dir.last() == '.' ==> dir[dir.len() - 2] != '/',
    ensures
        directory_of(dir + seq!['/'] + name) == dir,
{
    let head = dir + seq!['/'];
    let path = head + name;
    let n = dir.len() as int;
    let start = names_start(path);
    assert(path[0] == dir[0]);
    assert(path[n] == '/');
    assert(dir.last() == dir[n - 1]);
    if n > 1 {
        assert(path[1] == dir[1]);
    }
    assert(start < n) by {
        if n == 1 {
            assert(path[0] == dir.last());
            if dir[0] == '.' {
                assert(dir =~= seq!['.']);
            }
        }
    }
    assert(trimmed_path(dir, start) == dir) by {
        if n == 1 && dir[0] == '.' {
            assert(dir =~= seq!['.']);
        }
    }
    assert(name[name.len() - 1] != '/');
    if name.len() > 1 {
        assert(name[name.len() - 2] != '/');
    }
    lemma_name_stays(head, name, start);
    assert forall|i: int| n < i < path.len() implies #[trigger] path[i] != '/' by {
        assert(path[i] == name[i - n - 1]);
    }
    lemma_last_slash(path, n);
    assert(path.take(n) =~= dir);
}

proof fn lemma_at_the_root(first: char, head: Seq<char>, name: Seq<char>)
    requires
        name.len() > 0,
        forall|i: int| 0 <= i < name.len() ==> #[trigger] name[i] != '/',
        name != seq!['.'],
        first == '/' && head == seq!['/'] || first == '.' && head == seq!['.', '/'],
    ensures
        directory_of(head + name) == seq![first],
{
    let path = head + name;
    assert(path[0] == first);
    if first == '.' {
        assert(path[1] == '/');
    }
    assert(names_start(path) == 1);
    assert(name[name.len() - 1] != '/');
    if name.len() > 1 {
        assert(name[name.len() - 2] != '/');
    }
    lemma_name_stays(head, name, 1);
    let n = head.len() - 1;
    assert forall|i: int| n < i < path.len() implies #[trigger] path[i] != '/' by {
        assert(path[i] == name[i - n - 1]);
    }
    assert(path[n] == '/');
    lemma_last_slash(path, n);
    assert(path.take(1) =~= seq![first]);
}

/// A file with an absolute path is where it says, wherever the script is.
pub proof fn law_absolute_file_stays(script: Seq<char>, file: Seq<char>)
    requires
        file.len() > 0,
        file[0] == '/',
    ensures
        beside(script, file) == file,
{
}

/// Slashes and lone dots at the end of a path, and slashes in a row before its last name, change
/// nothing about where its directory is.
pub proof fn law_idle_slashes_do_not_count(path: Seq<char>, dir: Seq<char>, name: Seq<char>)
    requires
        path.len() > 0,
        dir.len() > 0,
        name.len() > 0,
        forall|i: int| 0 <= i < name.len() ==> #[trigger] name[i] != '/',
        name != seq!['.'],
    ensures
        directory_of(path + seq!['/']) == directory_of(path),
        directory_of(path + seq!['/', '.']) == directory_of(path),
        directory_of(dir + seq!['/', '/'] + name) == directory_of(dir + seq!['/'] + name),
{
    let a = path + seq!['/'];
    let start = names_start(path);
    assert(a[0] == path[0]);
    if path.len() > 1 {
        assert(a[1] == path[1]);
    }
    assert(names_start(a) == start);
    assert(a.drop_last() =~= path);
    assert(trimmed_path(a, start) == trimmed_path(path, start));
    let b = path + seq!['/', '.'];
    assert(b[0] == path[0]);
    assert(b[path.len() as int] == '/');
    if path.len() > 1 {
        assert(b[1] == path[1]);
    }
    assert(names_start(b) == start);
    assert(b.drop_last() =~= a);
    assert(b[b.len() - 1] == '.' && b[b.len() - 2] == '/');
    assert(trimmed_path(b, start) == trimmed_path(a, start));
    lemma_slashes_in_a_row(dir, name);
}

proof fn lemma_slashes_in_a_row(dir: Seq<char>, name: Seq<char>)
    requires
        dir.len() > 0,
        name.len() > 0,
        forall|i: int| 0 <= i < name.len() ==> #[trigger] name[i] != '/',
        name != seq!['.'],
    ensures
        directory_of(dir + seq!['/', '/'] + name) == directory_of(dir + seq!['/'] + name),
{
    let n = dir.len() as int;
    let h1 = dir + seq!['/'];
    let h2 = dir + seq!['/', '/'];
    let p1 = h1 + name;
    let p2 = h2 + name;
    let start = names_start(p1);
    assert(p1[0] == dir[0] && p2[0] == dir[0]);
    assert(p1[n] == '/' && p2[n] == '/' && p2[n + 1] == '/');
    if n > 1 {
        assert(p1[1] == dir[1] && p2[1] == dir[1]);
    }
    assert(names_start(p2) == start);
    assert(name[name.len() - 1] != '/');
    if name.len() > 1 {
        assert(name[name.len() - 2] != '/');
    }
    lemma_name_stays(h1, name, start);
    lemma_name_stays(h2, name, start);
    assert forall|i: int| n < i < p1.len() implies #[trigger] p1[i] != '/' by {
        assert(p1[i] == name[i - n - 1]);
    }
    assert forall|i: int| n + 1 < i < p2.len() implies #[trigger] p2[i] != '/' by {
        assert(p2[i] == name[i - n - 2]);
    }
    lemma_last_slash(p1, n);
    lemma_last_slash(p2, n + 1);
    assert(p1.take(n) =~= dir);
    assert(p2.take(n + 1) =~= h1);
    assert(h1.drop_last() =~= dir);
    assert(trimmed_path(h1, start) == trimmed_path(dir, start));
    if n <= start {
        assert(n == 1 && start == 1);
        assert(p1.take(1) =~= dir);
        assert(trimmed_path(dir, 1) == dir);
    }
}

} // verus!
