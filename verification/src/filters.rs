//! Passes over recorded events: replacing text, cutting at markers, and drawing captions.

use crate::cast::{
    copy_events, event_views, in_order, AsciiCast, Event, EventView, Header, HeaderView,
};
use crate::castfile::has_comment;
use crate::decimal::{nat_digits, show_whole};
use crate::text::{append_spaces, chars_of, copy_text, same_text, spaces};
use vstd::prelude::*;

verus! {

/// A pass over the events of a recording.
#[derive(Debug, PartialEq)]
pub enum Filter {
    /// Replaces what matches in the output.
    RegexReplacement { regex: String, replacement: String },
    /// Drops everything up to a marker.
    StartMarker { start_label: String },
    /// Drops everything from a marker on.
    EndMarker { end_label: String },
    /// Draws comments as captions.
    Comment,
}

/// A filter as mathematics.
#[verifier::ext_equal]
pub enum FilterView {
    RegexReplacement { regex: Seq<char>, replacement: Seq<char> },
    StartMarker { start_label: Seq<char> },
    EndMarker { end_label: Seq<char> },
    Comment,
}

impl View for Filter {
    type V = FilterView;

    open spec fn view(&self) -> FilterView {
        match self {
            Filter::RegexReplacement { regex, replacement } => FilterView::RegexReplacement {
                regex: regex@,
                replacement: replacement@,
            },
            Filter::StartMarker { start_label } => FilterView::StartMarker {
                start_label: start_label@,
            },
            Filter::EndMarker { end_label } => FilterView::EndMarker { end_label: end_label@ },
            Filter::Comment => FilterView::Comment,
        }
    }
}

/// The views of a list of filters.
pub open spec fn filter_views(filters: Seq<Filter>) -> Seq<FilterView> {
    filters.map_values(|f: Filter| f@)
}

/// A filter whose regular expression is not one, with the reason.
#[derive(Debug, PartialEq)]
pub struct FilterError {
    pub regex: String,
    pub reason: String,
}

/// Why a text is not a regular expression, if it is not.
pub uninterp spec fn regex_fault(regex: Seq<char>) -> Option<Seq<char>>;

/// A text with every match of a regular expression replaced.
pub uninterp spec fn regex_replaced(
    regex: Seq<char>,
    text: Seq<char>,
    replacement: Seq<char>,
) -> Seq<char>;

/// `regex::Regex::new` either accepts a regular expression or says what is wrong with it.
#[verifier::external_body]
fn regex_check(regex: &str) -> (r: Option<String>)
    ensures
        match r {
            Some(reason) => regex_fault(regex@) == Some(reason@),
            None => regex_fault(regex@) is None,
        },
{
    match regex::Regex::new(regex) {
        Ok(_) => None,
        Err(e) => Some(e.to_string()),
    }
}

/// `regex::Regex::replace_all` replaces every match in a text, with the groups that the
/// replacement names put in. What matches is left to the name.
#[verifier::external_body]
fn regex_replace_all(regex: &str, text: &str, replacement: &str) -> (r: String)
    requires
        regex_fault(regex@) is None,
    ensures
        r@ == regex_replaced(regex@, text@, replacement@),
{
    match regex::Regex::new(regex) {
        Ok(re) => re.replace_all(text, replacement).into_owned(),
        Err(_) => text.to_string(),
    }
}

/// The event with other output, if it is output.
pub open spec fn with_output(e: EventView, data: Seq<char>) -> EventView {
    match e {
        EventView::Output { time, .. } => EventView::Output { time, data },
        _ => e,
    }
}

/// The output of an event; empty if it is none.
pub open spec fn output_of(e: EventView) -> Seq<char> {
    match e {
        EventView::Output { data, .. } => data,
        _ => Seq::empty(),
    }
}

/// Where the first marker with that label stands, or the number of events.
pub open spec fn marker_at(events: Seq<EventView>, label: Seq<char>) -> int
    decreases events.len(),
{
    if events.len() == 0 {
        0
    } else if events[0] is Marker && events[0]->label == label {
        0
    } else {
        1 + marker_at(events.skip(1), label)
    }
}

/// What stands behind the first marker with that label; nothing if there is none.
pub open spec fn after_marker(events: Seq<EventView>, label: Seq<char>) -> Seq<EventView> {
    let i = marker_at(events, label);
    if i < events.len() {
        events.skip(i + 1)
    } else {
        Seq::empty()
    }
}

/// A text in the middle of a line of `width` columns; of an odd number of spaces, the one over
/// stands on the right.
pub open spec fn centered(text: Seq<char>, width: nat) -> Seq<char> {
    if text.len() >= width {
        text
    } else {
        let left = (width - text.len()) / 2;
        spaces(left as nat) + text + spaces((width - text.len() - left) as nat)
    }
}

/// What draws a caption: save the cursor, go to the first or the last line, draw the text in
/// reverse video, and put the cursor back.
pub open spec fn caption(top: bool, comment: Seq<char>, width: u16, height: u16) -> Seq<char> {
    let line: u16 = if top {
        1
    } else {
        height
    };
    "\u{1b}[s\u{1b}["@ + nat_digits(line as nat) + ";1H\u{1b}[7m"@ + centered(
        comment,
        width as nat,
    ) + "\u{1b}[m\u{1b}[u"@
}

/// Draws comments as captions. A caption is drawn again behind all later output, until another
/// takes its place.
pub open spec fn captioned(
    events: Seq<EventView>,
    width: u16,
    height: u16,
    shown: Option<Seq<char>>,
) -> Seq<EventView>
    decreases events.len(),
{
    if events.len() == 0 {
        Seq::empty()
    } else {
        let rest = events.skip(1);
        match events[0] {
            EventView::Comment { time, top, comment } => {
                let data = caption(top, comment, width, height);
                seq![EventView::Output { time, data }] + captioned(rest, width, height, Some(data))
            },
            EventView::Output { time, data } => {
                let all = match shown {
                    Some(drawn) => data + drawn,
                    None => data,
                };
                seq![EventView::Output { time, data: all }] + captioned(rest, width, height, shown)
            },
            other => seq![other] + captioned(rest, width, height, shown),
        }
    }
}

/// What a filter makes of events. The only thing that can be wrong is a regular expression.
pub open spec fn applied(f: FilterView, h: HeaderView, events: Seq<EventView>) -> Result<
    Seq<EventView>,
    (Seq<char>, Seq<char>),
> {
    match f {
        FilterView::RegexReplacement { regex, replacement } => match regex_fault(regex) {
            Some(reason) => Err((regex, reason)),
            None => Ok(
                events.map_values(
                    |e: EventView|
                        with_output(e, regex_replaced(regex, output_of(e), replacement)),
                ),
            ),
        },
        FilterView::StartMarker { start_label } => Ok(after_marker(events, start_label)),
        FilterView::EndMarker { end_label } => Ok(events.take(marker_at(events, end_label))),
        FilterView::Comment => Ok(captioned(events, h.width, h.height, None)),
    }
}

/// What filters make of events, one after the other.
pub open spec fn all_applied(
    filters: Seq<FilterView>,
    h: HeaderView,
    events: Seq<EventView>,
) -> Result<Seq<EventView>, (Seq<char>, Seq<char>)>
    decreases filters.len(),
{
    if filters.len() == 0 {
        Ok(events)
    } else {
        match all_applied(filters.drop_last(), h, events) {
            Err(f) => Err(f),
            Ok(list) => applied(filters.last(), h, list),
        }
    }
}

/// The events that are not comments.
pub open spec fn without_comments(events: Seq<EventView>) -> Seq<EventView>
    decreases events.len(),
{
    if events.len() == 0 {
        Seq::empty()
    } else if events.last() is Comment {
        without_comments(events.drop_last())
    } else {
        without_comments(events.drop_last()).push(events.last())
    }
}

impl Clone for Filter {
    fn clone(&self) -> (r: Filter)
        ensures
            r@ == self@,
    {
        match self {
            Filter::RegexReplacement { regex, replacement } => Filter::RegexReplacement {
                regex: copy_text(regex.as_str()),
                replacement: copy_text(replacement.as_str()),
            },
            Filter::StartMarker { start_label } => Filter::StartMarker {
                start_label: copy_text(start_label.as_str()),
            },
            Filter::EndMarker { end_label } => Filter::EndMarker {
                end_label: copy_text(end_label.as_str()),
            },
            Filter::Comment => Filter::Comment,
        }
    }
}

/// Centers a text in a line of `width` columns.
pub fn center(text: &str, width: usize) -> (r: String)
    ensures
        r@ == centered(text@, width as nat),
{
    let chars = chars_of(text);
    let len: usize = chars.len();
    if len >= width {
        return copy_text(text);
    }
    let left: usize = (width - len) / 2;
    let right: usize = width - len - left;
    let mut out = String::new();
    append_spaces(&mut out, left);
    out.append(text);
    append_spaces(&mut out, right);
    proof {
        assert(out@ =~= centered(text@, width as nat));
    }
    out
}

/// What draws a comment on the status line.
pub fn comment_overlay_data(top: bool, comment: &str, num_cols: u16, num_rows: u16) -> (r: String)
    ensures
        r@ == caption(top, comment@, num_cols, num_rows),
{
    let line: u16 = if top {
        1
    } else {
        num_rows
    };
    let mut out = copy_text("\u{1b}[s\u{1b}[");
    let number = show_whole(line as i64);
    out.append(number.as_str());
    out.append(";1H\u{1b}[7m");
    let middle = center(comment, num_cols as usize);
    out.append(middle.as_str());
    out.append("\u{1b}[m\u{1b}[u");
    proof {
        assert(out@ =~= caption(top, comment@, num_cols, num_rows));
    }
    out
}

/// Puts other output into an event, if it is output.
pub fn replace_output(event: &Event, data: String) -> (r: Event)
    ensures
        r@ == with_output(event@, data@),
{
    match event {
        Event::Output { time, .. } => Event::Output { time: *time, data },
        _ => event.clone(),
    }
}

/// Finds the first marker with that label.
fn marker_index(events: &Vec<Event>, label: &str) -> (r: usize)
    ensures
        r == marker_at(event_views(events@), label@),
        r <= events@.len(),
{
    let ghost all = event_views(events@);
    let mut i: usize = 0;
    proof {
        assert(all.skip(0) =~= all);
    }
    while i < events.len()
        invariant
            i <= events@.len(),
            all == event_views(events@),
            marker_at(all, label@) == i + marker_at(all.skip(i as int), label@),
        decreases events@.len() - i,
    {
        proof {
            assert(all.skip(i as int)[0] == events@[i as int]@);
            assert(all.skip(i as int).skip(1) =~= all.skip(i + 1));
        }
        if let Event::Marker { label: found, .. } = &events[i] {
            if same_text(found.as_str(), label) {
                return i;
            }
        }
        i += 1;
    }
    i
}

/// Copies the events from `from` to `to`.
fn copy_range(events: &Vec<Event>, from: usize, to: usize) -> (r: Vec<Event>)
    requires
        from <= to <= events@.len(),
    ensures
        event_views(r@) == event_views(events@).subrange(from as int, to as int),
{
    let ghost all = event_views(events@);
    let mut out: Vec<Event> = Vec::new();
    let mut i: usize = from;
    proof {
        assert(event_views(out@) =~= all.subrange(from as int, from as int));
    }
    while i < to
        invariant
            from <= i <= to <= events@.len(),
            all == event_views(events@),
            event_views(out@) == all.subrange(from as int, i as int),
        decreases to - i,
    {
        let ghost before = event_views(out@);
        out.push(events[i].clone());
        proof {
            assert(event_views(out@) =~= before.push(all[i as int]));
            assert(all.subrange(from as int, i + 1) =~= all.subrange(from as int, i as int).push(
                all[i as int],
            ));
        }
        i += 1;
    }
    out
}

impl Filter {
    /// Replaces the matches in the output of every event.
    fn replace_in(regex: &str, replacement: &str, events: &Vec<Event>) -> (r: Vec<Event>)
        requires
            regex_fault(regex@) is None,
        ensures
            event_views(r@) == event_views(events@).map_values(
                |e: EventView| with_output(e, regex_replaced(regex@, output_of(e), replacement@)),
            ),
    {
        let ghost all = event_views(events@);
        let mut out: Vec<Event> = Vec::new();
        let mut i: usize = 0;
        while i < events.len()
            invariant
                i <= events@.len(),
                out@.len() == i,
                regex_fault(regex@) is None,
                forall|k: int|
                    0 <= k < i ==> (#[trigger] out@[k])@ == with_output(
                        events@[k]@,
                        regex_replaced(regex@, output_of(events@[k]@), replacement@),
                    ),
            decreases events@.len() - i,
        {
            let data = match &events[i] {
                Event::Output { data, .. } => regex_replace_all(regex, data.as_str(), replacement),
                _ => String::new(),
            };
            let changed = replace_output(&events[i], data);
            out.push(changed);
            i += 1;
        }
        proof {
            assert(event_views(out@) =~= all.map_values(
                |e: EventView| with_output(e, regex_replaced(regex@, output_of(e), replacement@)),
            ));
        }
        out
    }

    /// Draws the comments among the events as captions.
    fn draw_captions(header: &Header, events: &Vec<Event>) -> (r: Vec<Event>)
        ensures
            event_views(r@) == captioned(
                event_views(events@),
                header@.width,
                header@.height,
                None,
            ),
    {
        let ghost all = event_views(events@);
        let ghost w = header@.width;
        let ghost h = header@.height;
        let mut out: Vec<Event> = Vec::new();
        let mut shown: Option<String> = None;
        let mut i: usize = 0;
        proof {
            assert(all.skip(0) =~= all);
            assert(event_views(out@) + captioned(all, w, h, None) =~= captioned(all, w, h, None));
        }
        while i < events.len()
            invariant
                i <= events@.len(),
                all == event_views(events@),
                w == header@.width,
                h == header@.height,
                event_views(out@) + captioned(
                    all.skip(i as int),
                    w,
                    h,
                    crate::json::optional_view(shown),
                ) == captioned(all, w, h, None),
            decreases events@.len() - i,
        {
            let ghost before = event_views(out@);
            let ghost rest = all.skip(i as int);
            let ghost drawn = crate::json::optional_view(shown);
            proof {
                assert(rest[0] == events@[i as int]@);
                assert(rest.skip(1) =~= all.skip(i + 1));
            }
            let event = match &events[i] {
                Event::Comment { time, top, comment } => {
                    let data = comment_overlay_data(
                        *top,
                        comment.as_str(),
                        header.width,
                        header.height,
                    );
                    shown = Some(copy_text(data.as_str()));
                    Event::Output { time: *time, data }
                },
                Event::Output { time, data } => {
                    let mut more = copy_text(data.as_str());
                    if let Some(overlay) = &shown {
                        more.append(overlay.as_str());
                    }
                    Event::Output { time: *time, data: more }
                },
                other => other.clone(),
            };
            out.push(event);
            proof {
                let now = crate::json::optional_view(shown);
                assert(event_views(out@) =~= before.push(event@));
                assert(captioned(rest, w, h, drawn) =~= seq![event@] + captioned(
                    rest.skip(1),
                    w,
                    h,
                    now,
                ));
                assert(before + captioned(rest, w, h, drawn) =~= event_views(out@) + captioned(
                    rest.skip(1),
                    w,
                    h,
                    now,
                ));
            }
            i += 1;
        }
        proof {
            assert(all.skip(i as int).len() == 0);
            assert(event_views(out@) =~= captioned(all, w, h, None));
        }
        out
    }

    /// Applies this filter to the events of a recording with that header.
    pub fn apply(&self, header: &Header, events: Vec<Event>) -> (r: Result<
        Vec<Event>,
        FilterError,
    >)
        ensures
            match r {
                Ok(list) => applied(self@, header@, event_views(events@)) == Ok::<
                    Seq<EventView>,
                    (Seq<char>, Seq<char>),
                >(event_views(list@)),
                Err(e) => applied(self@, header@, event_views(events@)) == Err::<
                    Seq<EventView>,
                    (Seq<char>, Seq<char>),
                >((e.regex@, e.reason@)),
            },
    {
        let ghost all = event_views(events@);
        match self {
            Filter::RegexReplacement { regex, replacement } => {
                match regex_check(regex.as_str()) {
                    Some(reason) => Err(
                        FilterError { regex: copy_text(regex.as_str()), reason },
                    ),
                    None => Ok(
                        Filter::replace_in(regex.as_str(), replacement.as_str(), &events),
                    ),
                }
            },
            Filter::StartMarker { start_label } => {
                let i = marker_index(&events, start_label.as_str());
                if i < events.len() {
                    proof {
                        assert(all.subrange(i + 1, all.len() as int) =~= all.skip(i + 1));
                    }
                    Ok(copy_range(&events, i + 1, events.len()))
                } else {
                    let none: Vec<Event> = Vec::new();
                    proof {
                        assert(event_views(none@) =~= Seq::<EventView>::empty());
                    }
                    Ok(none)
                }
            },
            Filter::EndMarker { end_label } => {
                let i = marker_index(&events, end_label.as_str());
                proof {
                    assert(all.subrange(0, i as int) =~= all.take(i as int));
                }
                Ok(copy_range(&events, 0, i))
            },
            Filter::Comment => Ok(Filter::draw_captions(header, &events)),
        }
    }
}

proof fn lemma_all_applied_fail(
    filters: Seq<FilterView>,
    h: HeaderView,
    events: Seq<EventView>,
    i: int,
)
    requires
        0 <= i <= filters.len(),
        all_applied(filters.take(i), h, events) is Err,
    ensures
        all_applied(filters, h, events) == all_applied(filters.take(i), h, events),
    decreases filters.len() - i,
{
    if i < filters.len() {
        assert(filters.take(i + 1).drop_last() =~= filters.take(i));
        lemma_all_applied_fail(filters, h, events, i + 1);
    } else {
        assert(filters.take(i) =~= filters);
    }
}

impl AsciiCast {
    /// The recording with the filters applied in order.
    pub fn filter_events(&self, filters: &[Filter]) -> (r: Result<AsciiCast, FilterError>)
        ensures
            match r {
                Ok(cast) => all_applied(filter_views(filters@), self@.header, self@.events) == Ok::<
                    Seq<EventView>,
                    (Seq<char>, Seq<char>),
                >(cast@.events) && cast@.header == self@.header,
                Err(e) => all_applied(filter_views(filters@), self@.header, self@.events) == Err::<
                    Seq<EventView>,
                    (Seq<char>, Seq<char>),
                >((e.regex@, e.reason@)),
            },
    {
        let ghost all = filter_views(filters@);
        let ghost h = self@.header;
        let ghost recorded = self@.events;
        let mut events = copy_events(&self.events);
        let mut i: usize = 0;
        proof {
            assert(all.take(0) =~= Seq::<FilterView>::empty());
        }
        while i < filters.len()
            invariant
                i <= filters@.len(),
                all == filter_views(filters@),
                h == self@.header,
                recorded == self@.events,
                all_applied(all.take(i as int), h, recorded) == Ok::<
                    Seq<EventView>,
                    (Seq<char>, Seq<char>),
                >(event_views(events@)),
            decreases filters@.len() - i,
        {
            proof {
                assert(all.take(i + 1).drop_last() =~= all.take(i as int));
                assert(all.take(i + 1).last() == filters@[i as int]@);
            }
            match filters[i].apply(&self.header, events) {
                Ok(list) => {
                    events = list;
                },
                Err(e) => {
                    proof {
                        lemma_all_applied_fail(all, h, recorded, i + 1);
                    }
                    return Err(e);
                },
            }
            i += 1;
        }
        proof {
            assert(all.take(i as int) =~= all);
        }
        Ok(AsciiCast { header: self.header.clone(), events })
    }
}

/// Drops the comments among the events.
pub fn strip_comments(events: &Vec<Event>) -> (r: Vec<Event>)
    ensures
        event_views(r@) == without_comments(event_views(events@)),
{
    let ghost all = event_views(events@);
    let mut out: Vec<Event> = Vec::new();
    let mut i: usize = 0;
    proof {
        assert(all.take(0) =~= Seq::<EventView>::empty());
        assert(event_views(out@) =~= Seq::<EventView>::empty());
    }
    while i < events.len()
        invariant
            i <= events@.len(),
            all == event_views(events@),
            event_views(out@) == without_comments(all.take(i as int)),
        decreases events@.len() - i,
    {
        let ghost before = event_views(out@);
        proof {
            assert(all.take(i + 1).drop_last() =~= all.take(i as int));
            assert(all.take(i + 1).last() == events@[i as int]@);
        }
        match &events[i] {
            Event::Comment { .. } => {},
            other => {
                out.push(other.clone());
                proof {
                    assert(event_views(out@) =~= before.push(all[i as int]));
                }
            },
        }
        i += 1;
    }
    proof {
        assert(all.take(i as int) =~= all);
    }
    out
}

/// No event is a comment behind the caption filter, nothing is lost, and times stay.
pub proof fn law_captions_replace_comments(
    events: Seq<EventView>,
    width: u16,
    height: u16,
    shown: Option<Seq<char>>,
)
    ensures
        ({
            let out = captioned(events, width, height, shown);
            &&& !has_comment(out)
            &&& out.len() == events.len()
            &&& forall|i: int|
                0 <= i < out.len() ==> (#[trigger] out[i]).time() == events[i].time()
        }),
    decreases events.len(),
{
    if events.len() > 0 {
        let rest = events.skip(1);
        let out = captioned(events, width, height, shown);
        let now = match events[0] {
            EventView::Comment { top, comment, .. } => Some(caption(top, comment, width, height)),
            _ => shown,
        };
        law_captions_replace_comments(rest, width, height, now);
        let tail = captioned(rest, width, height, now);
        assert(out =~= seq![out[0]] + tail);
        assert forall|i: int| 0 <= i < out.len() implies (#[trigger] out[i]).time()
            == events[i].time() && !(out[i] is Comment) by {
            if i > 0 {
                assert(out[i] == tail[i - 1]);
                assert(events[i] == rest[i - 1]);
            }
        }
    }
}

/// Where there are no comments and no caption is shown, the caption filter changes nothing.
pub proof fn law_captions_need_comments(events: Seq<EventView>, width: u16, height: u16)
    requires
        !has_comment(events),
    ensures
        captioned(events, width, height, None) == events,
    decreases events.len(),
{
    if events.len() > 0 {
        let rest = events.skip(1);
        assert forall|i: int| 0 <= i < rest.len() implies !(#[trigger] rest[i] is Comment) by {
            assert(rest[i] == events[i + 1]);
        }
        assert(!(events[0] is Comment));
        law_captions_need_comments(rest, width, height);
        assert(captioned(events, width, height, None) =~= events);
    } else {
        assert(captioned(events, width, height, None) =~= events);
    }
}

/// Stripping leaves no comments, and changes nothing where there are none.
pub proof fn law_stripping_leaves_no_comments(events: Seq<EventView>)
    ensures
        !has_comment(without_comments(events)),
        !has_comment(events) ==> without_comments(events) == events,
    decreases events.len(),
{
    let out = without_comments(events);
    if events.len() > 0 {
        let front = events.drop_last();
        let some = without_comments(front);
        law_stripping_leaves_no_comments(front);
        assert forall|i: int| 0 <= i < out.len() implies !(#[trigger] out[i] is Comment) by {
            if i < some.len() {
                assert(out[i] == some[i]);
            }
        }
        if !has_comment(events) {
            assert(!(events[events.len() - 1] is Comment));
            assert forall|i: int| 0 <= i < front.len() implies !(
            #[trigger] front[i] is Comment) by {
                assert(front[i] == events[i]);
            }
            assert(out =~= events);
        }
    } else {
        assert(out =~= events);
    }
}

/// Whether no event is later than `t`.
spec fn none_after(events: Seq<EventView>, t: i64) -> bool {
    forall|i: int| 0 <= i < events.len() ==> (#[trigger] events[i]).time() <= t
}

proof fn lemma_stripped_bound(events: Seq<EventView>, t: i64)
    requires
        none_after(events, t),
    ensures
        none_after(without_comments(events), t),
    decreases events.len(),
{
    if events.len() > 0 {
        let front = events.drop_last();
        assert forall|i: int| 0 <= i < front.len() implies (#[trigger] front[i]).time() <= t by {
            assert(front[i] == events[i]);
        }
        lemma_stripped_bound(front, t);
        assert(events[events.len() - 1].time() <= t);
    }
}

/// Stripping keeps events in order.
pub proof fn law_stripping_stays_in_order(events: Seq<EventView>)
    requires
        in_order(events),
    ensures
        in_order(without_comments(events)),
    decreases events.len(),
{
    if events.len() > 0 {
        let front = events.drop_last();
        let last = events[events.len() - 1];
        assert forall|i: int, j: int| 0 <= i <= j < front.len() implies (
        #[trigger] front[i]).time() <= (#[trigger] front[j]).time() by {
            assert(events[i].time() <= events[j].time());
        }
        assert forall|i: int| 0 <= i < front.len() implies (#[trigger] front[i]).time()
            <= last.time() by {
            assert(events[i].time() <= last.time());
        }
        law_stripping_stays_in_order(front);
        lemma_stripped_bound(front, last.time());
    }
}

proof fn lemma_marker_at(events: Seq<EventView>, label: Seq<char>)
    ensures
        0 <= marker_at(events, label) <= events.len(),
        forall|i: int|
            0 <= i < marker_at(events, label) ==> !((#[trigger] events[i]) is Marker
                && events[i]->label == label),
        marker_at(events, label) < events.len() ==> events[marker_at(events, label)] is Marker
            && events[marker_at(events, label)]->label == label,
    decreases events.len(),
{
    if events.len() > 0 && !(events[0] is Marker && events[0]->label == label) {
        let rest = events.skip(1);
        lemma_marker_at(rest, label);
        let n = marker_at(events, label);
        assert forall|i: int| 0 <= i < n implies !((#[trigger] events[i]) is Marker
            && events[i]->label == label) by {
            if i > 0 {
                assert(events[i] == rest[i - 1]);
            }
        }
        if n < events.len() {
            assert(events[n] == rest[n - 1]);
        }
    }
}

/// A marker cuts a recording in two: what the two marker filters keep, with the marker between
/// them, is the whole; the part before holds no such marker.
pub proof fn law_marker_cuts_in_two(events: Seq<EventView>, label: Seq<char>)
    ensures
        ({
            let i = marker_at(events, label);
            let before = events.take(i);
            &&& marker_at(before, label) == before.len()
            &&& i < events.len() ==> before + seq![events[i]] + after_marker(events, label)
                == events
            &&& i == events.len() ==> before == events && after_marker(events, label).len() == 0
        }),
{
    lemma_marker_at(events, label);
    let i = marker_at(events, label);
    let before = events.take(i);
    lemma_marker_at(before, label);
    if marker_at(before, label) < before.len() {
        assert(before[marker_at(before, label)] == events[marker_at(before, label)]);
    }
    if i < events.len() {
        assert(before + seq![events[i]] + after_marker(events, label) =~= events);
    } else {
        assert(before =~= events);
    }
}

/// Whether each event of `after` happens when some event of `before` does, in the same order.
pub open spec fn keeps_times(before: Seq<EventView>, after: Seq<EventView>, from: int) -> bool {
    &&& 0 <= from
    &&& from + after.len() <= before.len()
    &&& forall|i: int|
        0 <= i < after.len() ==> (#[trigger] after[i]).time() == before[from + i].time()
}

/// A filter keeps a stretch of the events, each at its time; and where there are no comments, it
/// makes none.
pub proof fn lemma_applied(f: FilterView, h: HeaderView, events: Seq<EventView>) -> (from: int)
    requires
        applied(f, h, events) is Ok,
    ensures
        keeps_times(events, applied(f, h, events)->Ok_0, from),
        !has_comment(events) ==> !has_comment(applied(f, h, events)->Ok_0),
        f == FilterView::Comment ==> !has_comment(applied(f, h, events)->Ok_0),
{
    let out = applied(f, h, events)->Ok_0;
    match f {
        FilterView::RegexReplacement { regex, replacement } => {
            if !has_comment(events) {
                assert forall|i: int| 0 <= i < out.len() implies !(
                #[trigger] out[i] is Comment) by {
                    assert(!(events[i] is Comment));
                }
            }
            0
        },
        FilterView::StartMarker { start_label } => {
            lemma_marker_at(events, start_label);
            let n = marker_at(events, start_label);
            if !has_comment(events) {
                assert forall|i: int| 0 <= i < out.len() implies !(
                #[trigger] out[i] is Comment) by {
                    assert(out[i] == events[i + n + 1]);
                }
            }
            if n < events.len() {
                n + 1
            } else {
                0
            }
        },
        FilterView::EndMarker { end_label } => {
            lemma_marker_at(events, end_label);
            if !has_comment(events) {
                assert forall|i: int| 0 <= i < out.len() implies !(
                #[trigger] out[i] is Comment) by {
                    assert(out[i] == events[i]);
                }
            }
            0
        },
        FilterView::Comment => {
            law_captions_replace_comments(events, h.width, h.height, None);
            0
        },
    }
}

proof fn lemma_keeps_times_order(before: Seq<EventView>, after: Seq<EventView>, from: int)
    requires
        keeps_times(before, after, from),
        in_order(before),
    ensures
        in_order(after),
{
    assert forall|i: int, j: int| 0 <= i <= j < after.len() implies (#[trigger] after[i]).time()
        <= (#[trigger] after[j]).time() by {
        assert(before[from + i].time() <= before[from + j].time());
    }
}

/// Filters keep events in order.
pub proof fn law_filters_stay_in_order(
    filters: Seq<FilterView>,
    h: HeaderView,
    events: Seq<EventView>,
)
    requires
        in_order(events),
    ensures
        all_applied(filters, h, events) matches Ok(out) ==> in_order(out),
    decreases filters.len(),
{
    if filters.len() > 0 {
        law_filters_stay_in_order(filters.drop_last(), h, events);
        if let Ok(list) = all_applied(filters.drop_last(), h, events) {
            if let Ok(out) = applied(filters.last(), h, list) {
                let from = lemma_applied(filters.last(), h, list);
                lemma_keeps_times_order(list, out, from);
            }
        }
    }
}

/// Filters among which is the caption filter leave no comments.
pub proof fn law_caption_filter_leaves_no_comments(
    filters: Seq<FilterView>,
    h: HeaderView,
    events: Seq<EventView>,
)
    requires
        filters.contains(FilterView::Comment) || !has_comment(events),
    ensures
        all_applied(filters, h, events) matches Ok(out) ==> !has_comment(out),
    decreases filters.len(),
{
    if filters.len() > 0 {
        let front = filters.drop_last();
        if let Ok(list) = all_applied(front, h, events) {
            if let Ok(out) = applied(filters.last(), h, list) {
                let from = lemma_applied(filters.last(), h, list);
                if filters.last() != FilterView::Comment {
                    if filters.contains(FilterView::Comment) {
                        let i = choose|i: int|
                            0 <= i < filters.len() && filters[i] == FilterView::Comment;
                        assert(front[i] == FilterView::Comment);
                        assert(front.contains(FilterView::Comment));
                    }
                    law_caption_filter_leaves_no_comments(front, h, events);
                }
            }
        }
    }
}

/// A caption stands until another takes its place. Behind the caption filter, output with comments
/// before it is its own data followed by the caption of the last of them, however many events
/// stand between the two.
pub proof fn law_caption_stays(
    events: Seq<EventView>,
    width: u16,
    height: u16,
    shown: Option<Seq<char>>,
    k: int,
    i: int,
)
    requires
        0 <= k < i < events.len(),
        events[k] is Comment,
        events[i] is Output,
        forall|j: int| k < j < i ==> !(#[trigger] events[j] is Comment),
    ensures
        captioned(events, width, height, shown)[i] == (EventView::Output {
            time: events[i]->Output_time,
            data: events[i]->Output_data + caption(
                events[k]->top,
                events[k]->comment,
                width,
                height,
            ),
        }),
    decreases events.len(),
{
    let rest = events.skip(1);
    let out = captioned(events, width, height, shown);
    let now = match events[0] {
        EventView::Comment { top, comment, .. } => Some(caption(top, comment, width, height)),
        _ => shown,
    };
    law_captions_replace_comments(rest, width, height, now);
    let tail = captioned(rest, width, height, now);
    assert(out =~= seq![out[0]] + tail);
    assert(out[i] == tail[i - 1]);
    assert(rest[i - 1] == events[i]);
    if k > 0 {
        assert(rest[k - 1] == events[k]);
        assert forall|j: int| k - 1 < j < i - 1 implies !(#[trigger] rest[j] is Comment) by {
            assert(rest[j] == events[j + 1]);
        }
        law_caption_stays(rest, width, height, now, k - 1, i - 1);
    } else {
        assert forall|j: int| 0 <= j < i - 1 implies !(#[trigger] rest[j] is Comment) by {
            assert(rest[j] == events[j + 1]);
        }
        lemma_no_comment_before(rest, width, height, now, i - 1);
    }
}

/// Output with no comment before it is followed by the caption that was already shown.
proof fn lemma_no_comment_before(
    events: Seq<EventView>,
    width: u16,
    height: u16,
    shown: Option<Seq<char>>,
    i: int,
)
    requires
        0 <= i < events.len(),
        events[i] is Output,
        forall|j: int| 0 <= j < i ==> !(#[trigger] events[j] is Comment),
    ensures
        captioned(events, width, height, shown)[i] == (EventView::Output {
            time: events[i]->Output_time,
            data: match shown {
                Some(drawn) => events[i]->Output_data + drawn,
                None => events[i]->Output_data,
            },
        }),
    decreases events.len(),
{
    let rest = events.skip(1);
    let out = captioned(events, width, height, shown);
    if i > 0 {
        assert(!(events[0] is Comment));
        law_captions_replace_comments(rest, width, height, shown);
        let tail = captioned(rest, width, height, shown);
        assert(out =~= seq![out[0]] + tail);
        assert(out[i] == tail[i - 1]);
        assert(rest[i - 1] == events[i]);
        assert forall|j: int| 0 <= j < i - 1 implies !(#[trigger] rest[j] is Comment) by {
            assert(rest[j] == events[j + 1]);
        }
        lemma_no_comment_before(rest, width, height, shown, i - 1);
    }
}

/// What becomes of a comment, and of an event that is neither a comment nor output.
proof fn lemma_captioned_at(
    events: Seq<EventView>,
    width: u16,
    height: u16,
    shown: Option<Seq<char>>,
    i: int,
)
    requires
        0 <= i < events.len(),
    ensures
        !(events[i] is Output) && !(events[i] is Comment) ==> captioned(
            events,
            width,
            height,
            shown,
        )[i] == events[i],
        events[i] is Comment ==> captioned(events, width, height, shown)[i]
            == (EventView::Output {
            time: events[i].time(),
            data: caption(events[i]->top, events[i]->comment, width, height),
        }),
    decreases events.len(),
{
    let rest = events.skip(1);
    let out = captioned(events, width, height, shown);
    let now = match events[0] {
        EventView::Comment { top, comment, .. } => Some(caption(top, comment, width, height)),
        _ => shown,
    };
    law_captions_replace_comments(rest, width, height, now);
    let tail = captioned(rest, width, height, now);
    assert(out =~= seq![out[0]] + tail);
    if i > 0 {
        assert(out[i] == tail[i - 1]);
        assert(rest[i - 1] == events[i]);
        lemma_captioned_at(rest, width, height, now, i - 1);
    }
}

/// The caption filter, event by event: there are as many as before; a comment becomes the output
/// that draws it, at its time; output with no comment before it stays as it is, and with comments
/// before it the caption of the last of them follows it; every event that is neither stays as it
/// is.
pub proof fn law_caption_filter_per_event(h: HeaderView, events: Seq<EventView>, i: int)
    requires
        0 <= i < events.len(),
    ensures
        applied(FilterView::Comment, h, events) matches Ok(out) && {
            &&& out.len() == events.len()
            &&& events[i] is Comment ==> out[i] == (EventView::Output {
                time: events[i].time(),
                data: caption(events[i]->top, events[i]->comment, h.width, h.height),
            })
            &&& (forall|j: int| 0 <= j < i ==> !(#[trigger] events[j] is Comment))
                && !(events[i] is Comment) ==> out[i] == events[i]
            &&& !(events[i] is Output) && !(events[i] is Comment) ==> out[i] == events[i]
            &&& forall|k: int|
                0 <= k < i && (#[trigger] events[k]) is Comment && (forall|j: int|
                    k < j < i ==> !(#[trigger] events[j] is Comment)) && events[i] is Output
                    ==> out[i] == (EventView::Output {
                    time: events[i].time(),
                    data: events[i]->Output_data + caption(
                        events[k]->top,
                        events[k]->comment,
                        h.width,
                        h.height,
                    ),
                })
        },
{
    let w = h.width;
    let ht = h.height;
    law_captions_replace_comments(events, w, ht, None);
    lemma_captioned_at(events, w, ht, None, i);
    if (forall|j: int| 0 <= j < i ==> !(#[trigger] events[j] is Comment)) && events[i] is Output {
        lemma_no_comment_before(events, w, ht, None, i);
    }
    assert forall|k: int|
        0 <= k < i && (#[trigger] events[k]) is Comment && (forall|j: int|
            k < j < i ==> !(#[trigger] events[j] is Comment))
            && events[i] is Output implies captioned(events, w, ht, None)[i]
        == (EventView::Output {
        time: events[i].time(),
        data: events[i]->Output_data + caption(events[k]->top, events[k]->comment, w, ht),
    }) by {
        law_caption_stays(events, w, ht, None, k, i);
    }
}

/// A caption is drawn between saving the cursor and putting it back, from the first column of
/// line 1 or of the last line, in reverse video. Its text is the comment with spaces round it, as
/// many as fill the line, and at most one more on the right than on the left. A comment that fills
/// the line, or is longer, stands as it is.
pub proof fn law_caption_is_centered(top: bool, comment: Seq<char>, width: u16, height: u16) -> (r:
    (nat, nat))
    ensures
        caption(top, comment, width, height) == "\u{1b}[s"@ + "\u{1b}["@ + nat_digits(
            if top {
                1
            } else {
                height as nat
            },
        ) + ";1H"@ + "\u{1b}[7m"@ + Seq::new(r.0, |i: int| ' ') + comment + Seq::new(
            r.1,
            |i: int| ' ',
        ) + "\u{1b}[m"@ + "\u{1b}[u"@,
        comment.len() >= width ==> r.0 == 0 && r.1 == 0,
        comment.len() < width ==> r.0 + comment.len() + r.1 == width && (r.1 == r.0 || r.1 == r.0
            + 1),
{
    reveal_strlit("\u{1b}[s\u{1b}[");
    reveal_strlit("\u{1b}[s");
    reveal_strlit("\u{1b}[");
    reveal_strlit(";1H\u{1b}[7m");
    reveal_strlit(";1H");
    reveal_strlit("\u{1b}[7m");
    reveal_strlit("\u{1b}[m\u{1b}[u");
    reveal_strlit("\u{1b}[m");
    reveal_strlit("\u{1b}[u");
    assert("\u{1b}[s\u{1b}["@ =~= "\u{1b}[s"@ + "\u{1b}["@);
    assert(";1H\u{1b}[7m"@ =~= ";1H"@ + "\u{1b}[7m"@);
    assert("\u{1b}[m\u{1b}[u"@ =~= "\u{1b}[m"@ + "\u{1b}[u"@);
    let left: nat = if comment.len() >= width {
        0
    } else {
        ((width - comment.len()) / 2) as nat
    };
    let right: nat = if comment.len() >= width {
        0
    } else {
        (width - comment.len() - left) as nat
    };
    assert(centered(comment, width as nat) =~= Seq::new(left, |i: int| ' ') + comment + Seq::new(
        right,
        |i: int| ' ',
    ));
    let line: nat = if top {
        1
    } else {
        height as nat
    };
    assert(caption(top, comment, width, height) =~= "\u{1b}[s"@ + "\u{1b}["@ + nat_digits(line)
        + ";1H"@ + "\u{1b}[7m"@ + Seq::new(left, |i: int| ' ') + comment + Seq::new(
        right,
        |i: int| ' ',
    ) + "\u{1b}[m"@ + "\u{1b}[u"@);
    (left, right)
}

/// The replacement filter works on every output, each by itself and whole, and on nothing else:
/// each event keeps its place and its time, and only the data of output changes. It fails exactly
/// where its regular expression is not one, and says which and why.
pub proof fn law_replacement_reaches_every_output(
    regex: Seq<char>,
    replacement: Seq<char>,
    h: HeaderView,
    events: Seq<EventView>,
)
    ensures
        match applied(FilterView::RegexReplacement { regex, replacement }, h, events) {
            Ok(out) => {
                &&& regex_fault(regex) is None
                &&& out.len() == events.len()
                &&& forall|i: int|
                    #![trigger events[i]]
                    #![trigger out[i]]
                    0 <= i < events.len() ==> out[i] == (match events[i] {
                        EventView::Output { time, data } => EventView::Output {
                            time,
                            data: regex_replaced(regex, data, replacement),
                        },
                        other => other,
                    })
            },
            Err((bad, reason)) => bad == regex && regex_fault(regex) == Some(reason),
        },
{
}

/// The marker filters cut at the first marker with their label. In front of it the end filter
/// keeps every event, behind it the start filter does; each drops all the others and the marker
/// itself. Where there is no such marker, the end filter keeps all and the start filter nothing.
pub proof fn law_marker_filters_cut(
    before: Seq<EventView>,
    time: i64,
    label: Seq<char>,
    after: Seq<EventView>,
    h: HeaderView,
)
    requires
        forall|i: int| #![trigger before[i]] 0 <= i < before.len() ==> match before[i] {
            EventView::Marker { label: other, .. } => other != label,
            _ => true,
        },
    ensures
        ({
            let events = before + seq![EventView::Marker { time, label }] + after;
            &&& applied(FilterView::EndMarker { end_label: label }, h, events) matches Ok(kept)
                && kept == before
            &&& applied(FilterView::StartMarker { start_label: label }, h, events) matches Ok(kept)
                && kept == after
            &&& applied(FilterView::EndMarker { end_label: label }, h, before) matches Ok(kept)
                && kept == before
            &&& applied(FilterView::StartMarker { start_label: label }, h, before) matches Ok(kept)
                && kept.len() == 0
        }),
{
    let m = EventView::Marker { time, label };
    let events = before + seq![m] + after;
    lemma_marker_at(events, label);
    lemma_marker_at(before, label);
    let n = marker_at(events, label);
    assert(events[before.len() as int] == m);
    if n < before.len() {
        assert(events[n] == before[n]);
    }
    assert(n == before.len());
    assert(events.take(n) =~= before);
    assert(events.skip(n + 1) =~= after);
    assert(marker_at(before, label) == before.len());
    assert(before.take(before.len() as int) =~= before);
}

/// Filters work one after the other, each on what the one before it made: no filter changes
/// nothing, one filter does what it does alone, and a list does what its beginning does and then,
/// on the result, what its end does. The first that fails decides.
pub proof fn law_filters_follow_one_another(
    first: Seq<FilterView>,
    f: FilterView,
    later: Seq<FilterView>,
    h: HeaderView,
    events: Seq<EventView>,
)
    ensures
        all_applied(Seq::empty(), h, events) == Ok::<Seq<EventView>, (Seq<char>, Seq<char>)>(
            events,
        ),
        all_applied(seq![f], h, events) == applied(f, h, events),
        all_applied(first + later, h, events) == (match all_applied(first, h, events) {
            Ok(list) => all_applied(later, h, list),
            Err(e) => Err(e),
        }),
    decreases later.len(),
{
    reveal_with_fuel(all_applied, 3);
    assert(seq![f].drop_last() =~= Seq::<FilterView>::empty());
    if later.len() == 0 {
        assert(first + later =~= first);
    } else {
        law_filters_follow_one_another(first, f, later.drop_last(), h, events);
        assert((first + later).drop_last() =~= first + later.drop_last());
        assert((first + later).last() == later.last());
    }
}

/// Stripping takes out the comments and nothing else: a comment alone goes, any other event alone
/// stays, and a longer list is stripped piece by piece.
pub proof fn law_stripping_takes_only_comments(
    a: Seq<EventView>,
    e: EventView,
    b: Seq<EventView>,
)
    ensures
        without_comments(a + b) == without_comments(a) + without_comments(b),
        without_comments(seq![e]) == (if e is Comment {
            Seq::empty()
        } else {
            seq![e]
        }),
    decreases b.len(),
{
    reveal_with_fuel(without_comments, 3);
    assert(seq![e].drop_last() =~= Seq::<EventView>::empty());
    assert(Seq::<EventView>::empty().push(e) =~= seq![e]);
    if b.len() == 0 {
        assert(a + b =~= a);
        assert(without_comments(a) + without_comments(b) =~= without_comments(a));
    } else {
        law_stripping_takes_only_comments(a, e, b.drop_last());
        assert((a + b).drop_last() =~= a + b.drop_last());
        assert((a + b).last() == b.last());
        assert(without_comments(a + b) =~= without_comments(a) + without_comments(b));
    }
}

/// A centered text fills its line: spaces on the left, the text, and as many spaces on the right,
/// or one more. A text that is not shorter than the line stands as it is.
pub proof fn law_centered_text_fills_the_line(text: Seq<char>, width: nat, i: int)
    requires
        0 <= i < width,
    ensures
        text.len() >= width ==> centered(text, width) == text,
        text.len() < width ==> {
            let left = (width - text.len()) / 2;
            &&& centered(text, width).len() == width
            &&& centered(text, width).subrange(left, left + text.len()) == text
            &&& i < left || i >= left + text.len() ==> centered(text, width)[i] == ' '
        },
{
    if text.len() < width {
        let left = (width - text.len()) / 2;
        let all = centered(text, width);
        assert(all.len() == width);
        assert(all.subrange(left, left + text.len()) =~= text);
    }
}

/// Other data is put into output only, and its time stays.
pub proof fn law_data_is_put_into_output_only(e: EventView, data: Seq<char>)
    ensures
        e matches EventView::Output { time, .. } ==> with_output(e, data) == (EventView::Output {
            time,
            data,
        }),
        !(e is Output) ==> with_output(e, data) == e,
{
}

} // verus!
