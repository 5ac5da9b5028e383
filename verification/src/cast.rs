//! Asciicast recordings: the header, the timed events, and merging events into a recording.
//!
//! Times are nanoseconds since the recording began.

use crate::json::{optional_view, pair_views};
use crate::text::{copy_text, views};
use vstd::prelude::*;

verus! {

/// The theme of a recorded terminal.
#[derive(Debug, PartialEq)]
pub struct Theme {
    pub fg: String,
    pub bg: String,
    pub palette: Vec<String>,
}

/// The first line of a recording. Variables of the environment stand in order of their names.
#[derive(Debug, PartialEq)]
pub struct Header {
    pub version: u32,
    pub width: u16,
    pub height: u16,
    pub timestamp: Option<i64>,
    pub duration: Option<i64>,
    pub idle_time_limit: Option<i64>,
    pub command: Option<String>,
    pub title: Option<String>,
    pub env: Option<Vec<(String, String)>>,
    pub theme: Option<Theme>,
}

/// Something that happens at a time of a recording. A comment is not part of the file format: it
/// becomes output, or goes, before a recording is saved.
#[derive(Debug, PartialEq)]
pub enum Event {
    Output { time: i64, data: String },
    Input { time: i64, data: String },
    Marker { time: i64, label: String },
    Resize { time: i64, columns: u16, rows: u16 },
    Comment { time: i64, top: bool, comment: String },
}

/// A recording: its header, and its events in order.
#[derive(Debug, PartialEq)]
pub struct AsciiCast {
    pub header: Header,
    pub events: Vec<Event>,
}

/// Why a recording cannot be read, written or merged. Lines are counted from the first event.
#[derive(Debug, PartialEq)]
pub enum CastError {
    /// Events to merge are not in order.
    Unsorted,
    /// A comment is not part of the file format.
    CommentEvent,
    /// A line is not JSON.
    InvalidJson(String),
    /// The first line is not a JSON object.
    MissingHeader,
    /// The first line is not a header.
    InvalidHeader,
    /// The file format has another version.
    UnsupportedVersion(u32),
    /// An event is not a list of three.
    InvalidEvent(usize),
    /// The time of an event is not a number.
    InvalidTime(usize),
    /// The code of an event is not a text.
    InvalidCode(usize),
    /// The data of an event is not a text.
    InvalidData(usize),
    /// The data of a resize event is not a size.
    InvalidResize(String, usize),
    /// No event has that code.
    UnknownCode(String, usize),
}

/// A theme as mathematics.
#[verifier::ext_equal]
pub struct ThemeView {
    pub fg: Seq<char>,
    pub bg: Seq<char>,
    pub palette: Seq<Seq<char>>,
}

/// A header as mathematics.
#[verifier::ext_equal]
pub struct HeaderView {
    pub version: u32,
    pub width: u16,
    pub height: u16,
    pub timestamp: Option<i64>,
    pub duration: Option<i64>,
    pub idle_time_limit: Option<i64>,
    pub command: Option<Seq<char>>,
    pub title: Option<Seq<char>>,
    pub env: Option<Seq<(Seq<char>, Seq<char>)>>,
    pub theme: Option<ThemeView>,
}

/// An event as mathematics.
#[verifier::ext_equal]
pub enum EventView {
    Output { time: i64, data: Seq<char> },
    Input { time: i64, data: Seq<char> },
    Marker { time: i64, label: Seq<char> },
    Resize { time: i64, columns: u16, rows: u16 },
    Comment { time: i64, top: bool, comment: Seq<char> },
}

/// A recording as mathematics.
#[verifier::ext_equal]
pub struct CastView {
    pub header: HeaderView,
    pub events: Seq<EventView>,
}

impl View for Theme {
    type V = ThemeView;

    open spec fn view(&self) -> ThemeView {
        ThemeView { fg: self.fg@, bg: self.bg@, palette: views(self.palette@) }
    }
}

impl View for Header {
    type V = HeaderView;

    open spec fn view(&self) -> HeaderView {
        HeaderView {
            version: self.version,
            width: self.width,
            height: self.height,
            timestamp: self.timestamp,
            duration: self.duration,
            idle_time_limit: self.idle_time_limit,
            command: optional_view(self.command),
            title: optional_view(self.title),
            env: match self.env {
                Some(list) => Some(pair_views(list@)),
                None => None,
            },
            theme: match self.theme {
                Some(theme) => Some(theme@),
                None => None,
            },
        }
    }
}

impl View for Event {
    type V = EventView;

    open spec fn view(&self) -> EventView {
        match self {
            Event::Output { time, data } => EventView::Output { time: *time, data: data@ },
            Event::Input { time, data } => EventView::Input { time: *time, data: data@ },
            Event::Marker { time, label } => EventView::Marker { time: *time, label: label@ },
            Event::Resize { time, columns, rows } => EventView::Resize {
                time: *time,
                columns: *columns,
                rows: *rows,
            },
            Event::Comment { time, top, comment } => EventView::Comment {
                time: *time,
                top: *top,
                comment: comment@,
            },
        }
    }
}

/// The views of a list of events.
pub open spec fn event_views(events: Seq<Event>) -> Seq<EventView> {
    events.map_values(|e: Event| e@)
}

impl View for AsciiCast {
    type V = CastView;

    open spec fn view(&self) -> CastView {
        CastView { header: self.header@, events: event_views(self.events@) }
    }
}

impl EventView {
    /// When the event happens.
    pub open spec fn time(self) -> i64 {
        match self {
            EventView::Output { time, .. } => time,
            EventView::Input { time, .. } => time,
            EventView::Marker { time, .. } => time,
            EventView::Resize { time, .. } => time,
            EventView::Comment { time, .. } => time,
        }
    }
}

impl HeaderView {
    /// The header with nothing but a size.
    pub open spec fn plain(width: u16, height: u16) -> HeaderView {
        HeaderView {
            version: 2,
            width,
            height,
            timestamp: None,
            duration: None,
            idle_time_limit: None,
            command: None,
            title: None,
            env: None,
            theme: None,
        }
    }
}

/// Whether no event stands behind a later one.
pub open spec fn in_order(events: Seq<EventView>) -> bool {
    forall|i: int, j: int|
        0 <= i <= j < events.len() ==> (#[trigger] events[i]).time() <= (
        #[trigger] events[j]).time()
}

/// Merges two lists of events by time. At the same time, what was recorded comes first.
pub open spec fn merged(recorded: Seq<EventView>, inserted: Seq<EventView>) -> Seq<EventView>
    decreases recorded.len() + inserted.len(),
{
    if inserted.len() == 0 {
        recorded
    } else if recorded.len() == 0 {
        inserted
    } else if inserted[0].time() < recorded[0].time() {
        seq![inserted[0]] + merged(recorded, inserted.skip(1))
    } else {
        seq![recorded[0]] + merged(recorded.skip(1), inserted)
    }
}

/// Whether `all` holds the items of `a` and the items of `b`, each list in its own order.
pub open spec fn interleaves(all: Seq<EventView>, a: Seq<EventView>, b: Seq<EventView>) -> bool
    decreases all.len(),
{
    if all.len() == 0 {
        a.len() == 0 && b.len() == 0
    } else {
        ||| a.len() > 0 && all[0] == a[0] && interleaves(all.skip(1), a.skip(1), b)
        ||| b.len() > 0 && all[0] == b[0] && interleaves(all.skip(1), a, b.skip(1))
    }
}

/// Copies a list of texts.
pub fn copy_texts(list: &Vec<String>) -> (r: Vec<String>)
    ensures
        views(r@) == views(list@),
{
    let mut out: Vec<String> = Vec::new();
    let mut i: usize = 0;
    while i < list.len()
        invariant
            i <= list@.len(),
            views(out@) == views(list@).take(i as int),
        decreases list@.len() - i,
    {
        let ghost before = views(out@);
        out.push(copy_text(list[i].as_str()));
        proof {
            assert(views(out@) =~= before.push(list@[i as int]@));
            assert(views(list@).take(i + 1) =~= views(list@).take(i as int).push(
                list@[i as int]@,
            ));
        }
        i += 1;
    }
    proof {
        assert(views(list@).take(i as int) =~= views(list@));
    }
    out
}

/// Copies a list of pairs of texts.
pub fn copy_pairs(list: &Vec<(String, String)>) -> (r: Vec<(String, String)>)
    ensures
        pair_views(r@) == pair_views(list@),
{
    let mut out: Vec<(String, String)> = Vec::new();
    let mut i: usize = 0;
    while i < list.len()
        invariant
            i <= list@.len(),
            pair_views(out@) == pair_views(list@).take(i as int),
        decreases list@.len() - i,
    {
        let ghost before = pair_views(out@);
        out.push((copy_text(list[i].0.as_str()), copy_text(list[i].1.as_str())));
        proof {
            let one = (list@[i as int].0@, list@[i as int].1@);
            assert(pair_views(out@) =~= before.push(one));
            assert(pair_views(list@).take(i + 1) =~= pair_views(list@).take(i as int).push(one));
        }
        i += 1;
    }
    proof {
        assert(pair_views(list@).take(i as int) =~= pair_views(list@));
    }
    out
}

/// Copies an optional text.
pub fn copy_optional(t: &Option<String>) -> (r: Option<String>)
    ensures
        optional_view(r) == optional_view(*t),
{
    match t {
        Some(s) => Some(copy_text(s.as_str())),
        None => None,
    }
}

impl Clone for Theme {
    fn clone(&self) -> (r: Theme)
        ensures
            r@ == self@,
    {
        Theme {
            fg: copy_text(self.fg.as_str()),
            bg: copy_text(self.bg.as_str()),
            palette: copy_texts(&self.palette),
        }
    }
}

impl Clone for Header {
    fn clone(&self) -> (r: Header)
        ensures
            r@ == self@,
    {
        Header {
            version: self.version,
            width: self.width,
            height: self.height,
            timestamp: self.timestamp,
            duration: self.duration,
            idle_time_limit: self.idle_time_limit,
            command: copy_optional(&self.command),
            title: copy_optional(&self.title),
            env: match &self.env {
                Some(list) => Some(copy_pairs(list)),
                None => None,
            },
            theme: match &self.theme {
                Some(theme) => Some(theme.clone()),
                None => None,
            },
        }
    }
}

impl Clone for Event {
    fn clone(&self) -> (r: Event)
        ensures
            r@ == self@,
    {
        match self {
            Event::Output { time, data } => Event::Output {
                time: *time,
                data: copy_text(data.as_str()),
            },
            Event::Input { time, data } => Event::Input {
                time: *time,
                data: copy_text(data.as_str()),
            },
            Event::Marker { time, label } => Event::Marker {
                time: *time,
                label: copy_text(label.as_str()),
            },
            Event::Resize { time, columns, rows } => Event::Resize {
                time: *time,
                columns: *columns,
                rows: *rows,
            },
            Event::Comment { time, top, comment } => Event::Comment {
                time: *time,
                top: *top,
                comment: copy_text(comment.as_str()),
            },
        }
    }
}

/// Copies a list of events.
pub fn copy_events(events: &Vec<Event>) -> (r: Vec<Event>)
    ensures
        event_views(r@) == event_views(events@),
{
    let mut out: Vec<Event> = Vec::new();
    let mut i: usize = 0;
    while i < events.len()
        invariant
            i <= events@.len(),
            event_views(out@) == event_views(events@).take(i as int),
        decreases events@.len() - i,
    {
        let ghost before = event_views(out@);
        out.push(events[i].clone());
        proof {
            let one = events@[i as int]@;
            assert(event_views(out@) =~= before.push(one));
            assert(event_views(events@).take(i + 1) =~= event_views(events@).take(i as int).push(
                one,
            ));
        }
        i += 1;
    }
    proof {
        assert(event_views(events@).take(i as int) =~= event_views(events@));
    }
    out
}

impl Clone for AsciiCast {
    fn clone(&self) -> (r: AsciiCast)
        ensures
            r@ == self@,
    {
        AsciiCast { header: self.header.clone(), events: copy_events(&self.events) }
    }
}

impl Header {
    /// The header with nothing but a size.
    pub fn new(width: u16, height: u16) -> (r: Header)
        ensures
            r@ == HeaderView::plain(width, height),
    {
        Header {
            version: 2,
            width,
            height,
            timestamp: None,
            duration: None,
            idle_time_limit: None,
            command: None,
            title: None,
            env: None,
            theme: None,
        }
    }
}

impl Event {
    /// When the event happens.
    pub fn time(&self) -> (r: i64)
        ensures
            r == self@.time(),
    {
        match self {
            Event::Output { time, .. } => *time,
            Event::Input { time, .. } => *time,
            Event::Marker { time, .. } => *time,
            Event::Resize { time, .. } => *time,
            Event::Comment { time, .. } => *time,
        }
    }
}

/// Whether no event stands behind a later one.
fn is_in_order(events: &Vec<Event>) -> (r: bool)
    ensures
        r == in_order(event_views(events@)),
{
    let ghost list = event_views(events@);
    let mut i: usize = 1;
    while i < events.len()
        invariant
            1 <= i,
            events@.len() > 0 ==> i <= events@.len(),
            list == event_views(events@),
            forall|j: int, k: int|
                0 <= j <= k < i && k < list.len() ==> (#[trigger] list[j]).time() <= (
                #[trigger] list[k]).time(),
        decreases events@.len() - i,
    {
        if events[i].time() < events[i - 1].time() {
            proof {
                assert(list[i as int].time() < list[i - 1].time());
            }
            return false;
        }
        proof {
            assert(list[i - 1].time() <= list[i as int].time());
        }
        i += 1;
    }
    true
}

impl AsciiCast {
    /// The recording with that header and those events.
    pub fn new(header: Header, events: Vec<Event>) -> (r: AsciiCast)
        ensures
            r@ == (CastView { header: header@, events: event_views(events@) }),
    {
        AsciiCast { header, events }
    }

    /// Merges events into the recording. They must be in order.
    pub fn insert_events(&self, inserted: Vec<Event>) -> (r: Result<AsciiCast, CastError>)
        ensures
            match r {
                Ok(cast) => {
                    &&& in_order(event_views(inserted@))
                    &&& cast@ == (CastView {
                        header: self@.header,
                        events: merged(self@.events, event_views(inserted@)),
                    })
                },
                Err(e) => !in_order(event_views(inserted@)) && e == CastError::Unsorted,
            },
    {
        if inserted.len() == 0 {
            return Ok(self.clone());
        }
        if !is_in_order(&inserted) {
            return Err(CastError::Unsorted);
        }
        if self.events.len() == 0 {
            return Ok(AsciiCast { header: self.header.clone(), events: inserted });
        }
        let ghost old_events = event_views(self.events@);
        let ghost new_events = event_views(inserted@);
        let mut out: Vec<Event> = Vec::new();
        let mut i: usize = 0;
        let mut j: usize = 0;
        proof {
            assert(old_events.skip(0) =~= old_events);
            assert(new_events.skip(0) =~= new_events);
            assert(event_views(out@) + merged(old_events, new_events) =~= merged(
                old_events,
                new_events,
            ));
        }
        while i < self.events.len() || j < inserted.len()
            invariant
                i <= self.events@.len(),
                j <= inserted@.len(),
                old_events == event_views(self.events@),
                new_events == event_views(inserted@),
                event_views(out@) + merged(old_events.skip(i as int), new_events.skip(j as int))
                    == merged(old_events, new_events),
            decreases (self.events@.len() - i) + (inserted@.len() - j),
        {
            let ghost before = event_views(out@);
            let ghost a = old_events.skip(i as int);
            let ghost b = new_events.skip(j as int);
            if j < inserted.len() && (i >= self.events.len() || inserted[j].time()
                < self.events[i].time()) {
                out.push(inserted[j].clone());
                proof {
                    assert(event_views(out@) =~= before.push(b[0]));
                    assert(b.skip(1) =~= new_events.skip(j + 1));
                    if a.len() == 0 {
                        assert(merged(a, b) == b);
                        assert(merged(a, b.skip(1)) =~= b.skip(1));
                    }
                    assert(before + merged(a, b) =~= event_views(out@) + merged(a, b.skip(1)));
                }
                j += 1;
            } else {
                out.push(self.events[i].clone());
                proof {
                    assert(event_views(out@) =~= before.push(a[0]));
                    assert(a.skip(1) =~= old_events.skip(i + 1));
                    if b.len() == 0 {
                        assert(merged(a, b) == a);
                        assert(merged(a.skip(1), b) == a.skip(1));
                    }
                    assert(before + merged(a, b) =~= event_views(out@) + merged(a.skip(1), b));
                }
                i += 1;
            }
        }
        proof {
            assert(old_events.skip(i as int).len() == 0);
            assert(new_events.skip(j as int).len() == 0);
            assert(event_views(out@) =~= merged(old_events, new_events));
        }
        Ok(AsciiCast { header: self.header.clone(), events: out })
    }
}

proof fn lemma_interleaves_alone(a: Seq<EventView>)
    ensures
        interleaves(a, a, Seq::empty()),
        interleaves(a, Seq::empty(), a),
    decreases a.len(),
{
    if a.len() > 0 {
        lemma_interleaves_alone(a.skip(1));
    }
}

/// Merging loses no event, adds none, and keeps the order of either list.
pub proof fn law_merge_keeps_both(recorded: Seq<EventView>, inserted: Seq<EventView>)
    ensures
        interleaves(merged(recorded, inserted), recorded, inserted),
    decreases recorded.len() + inserted.len(),
{
    let all = merged(recorded, inserted);
    if inserted.len() == 0 {
        assert(inserted =~= Seq::<EventView>::empty());
        lemma_interleaves_alone(recorded);
    } else if recorded.len() == 0 {
        assert(recorded =~= Seq::<EventView>::empty());
        lemma_interleaves_alone(inserted);
    } else if inserted[0].time() < recorded[0].time() {
        law_merge_keeps_both(recorded, inserted.skip(1));
        assert(all.skip(1) =~= merged(recorded, inserted.skip(1)));
    } else {
        law_merge_keeps_both(recorded.skip(1), inserted);
        assert(all.skip(1) =~= merged(recorded.skip(1), inserted));
    }
}

proof fn lemma_order_from_front(first: EventView, rest: Seq<EventView>)
    requires
        in_order(rest),
        rest.len() > 0 ==> first.time() <= rest[0].time(),
    ensures
        in_order(seq![first] + rest),
{
    let all = seq![first] + rest;
    assert forall|i: int, j: int| 0 <= i <= j < all.len() implies (#[trigger] all[i]).time() <= (
    #[trigger] all[j]).time() by {
        if i == 0 && j > 0 {
            assert(rest[0].time() <= rest[j - 1].time());
        } else if i > 0 {
            assert(rest[i - 1].time() <= rest[j - 1].time());
        }
    }
}

proof fn lemma_order_skip(events: Seq<EventView>)
    requires
        in_order(events),
        events.len() > 0,
    ensures
        in_order(events.skip(1)),
        events.len() > 1 ==> events[0].time() <= events[1].time(),
{
    let rest = events.skip(1);
    assert forall|i: int, j: int| 0 <= i <= j < rest.len() implies (#[trigger] rest[i]).time() <= (
    #[trigger] rest[j]).time() by {
        assert(events[i + 1].time() <= events[j + 1].time());
    }
}

/// Merging two lists that are in order gives a list that is in order.
pub proof fn law_merge_stays_in_order(recorded: Seq<EventView>, inserted: Seq<EventView>)
    requires
        in_order(recorded),
        in_order(inserted),
    ensures
        in_order(merged(recorded, inserted)),
    decreases recorded.len() + inserted.len(),
{
    if inserted.len() > 0 && recorded.len() > 0 {
        if inserted[0].time() < recorded[0].time() {
            lemma_order_skip(inserted);
            law_merge_stays_in_order(recorded, inserted.skip(1));
            lemma_order_from_front(inserted[0], merged(recorded, inserted.skip(1)));
        } else {
            lemma_order_skip(recorded);
            law_merge_stays_in_order(recorded.skip(1), inserted);
            lemma_order_from_front(recorded[0], merged(recorded.skip(1), inserted));
        }
    }
}

/// Merging puts every event of either list in its place, each list in its own order: where both are
/// in order, a recorded event stands before an inserted one just if it is not later. The result
/// gives the places.
pub proof fn law_merge_places_each_event(
    recorded: Seq<EventView>,
    inserted: Seq<EventView>,
) -> (r: (Seq<int>, Seq<int>))
    ensures
        merged(recorded, inserted).len() == recorded.len() + inserted.len(),
        r.0.len() == recorded.len(),
        r.1.len() == inserted.len(),
        forall|i: int|
            #![trigger r.0[i]]
            0 <= i < recorded.len() ==> 0 <= r.0[i] < merged(recorded, inserted).len() && merged(
                recorded,
                inserted,
            )[r.0[i]] == recorded[i],
        forall|i: int|
            #![trigger r.1[i]]
            0 <= i < inserted.len() ==> 0 <= r.1[i] < merged(recorded, inserted).len() && merged(
                recorded,
                inserted,
            )[r.1[i]] == inserted[i],
        forall|i: int, j: int|
            #![trigger r.0[i], r.0[j]]
            0 <= i < j < recorded.len() ==> r.0[i] < r.0[j],
        forall|i: int, j: int|
            #![trigger r.1[i], r.1[j]]
            0 <= i < j < inserted.len() ==> r.1[i] < r.1[j],
        forall|i: int, j: int|
            #![trigger r.0[i], r.1[j]]
            0 <= i < recorded.len() && 0 <= j < inserted.len() ==> r.0[i] != r.1[j],
        in_order(recorded) && in_order(inserted) ==> forall|i: int, j: int|
            #![trigger r.0[i], r.1[j]]
            0 <= i < recorded.len() && 0 <= j < inserted.len() ==> (recorded[i].time()
                <= inserted[j].time() <==> r.0[i] < r.1[j]),
    decreases recorded.len() + inserted.len(),
{
    if inserted.len() == 0 {
        (Seq::new(recorded.len(), |i: int| i), Seq::empty())
    } else if recorded.len() == 0 {
        (Seq::empty(), Seq::new(inserted.len(), |i: int| i))
    } else if inserted[0].time() < recorded[0].time() {
        let rest = inserted.skip(1);
        let sub = law_merge_places_each_event(recorded, rest);
        let a = Seq::new(recorded.len(), |i: int| sub.0[i] + 1);
        let b = Seq::new(
            inserted.len(),
            |i: int|
                if i == 0 {
                    0
                } else {
                    sub.1[i - 1] + 1
                },
        );
        let all = merged(recorded, inserted);
        assert(all == seq![inserted[0]] + merged(recorded, rest));
        assert forall|i: int| 0 <= i < inserted.len() implies 0 <= #[trigger] b[i] < all.len()
            && all[b[i]] == inserted[i] by {
            if i > 0 {
                assert(sub.1[i - 1] >= 0);
                assert(rest[i - 1] == inserted[i]);
            }
        }
        if in_order(recorded) && in_order(inserted) {
            lemma_order_skip(inserted);
            assert forall|i: int, j: int|
                #![trigger a[i], b[j]]
                0 <= i < recorded.len() && 0 <= j < inserted.len() implies (recorded[i].time()
                <= inserted[j].time() <==> a[i] < b[j]) by {
                assert(recorded[0].time() <= recorded[i].time());
                if j > 0 {
                    assert(rest[j - 1] == inserted[j]);
                    assert(sub.0[i] < sub.1[j - 1] <==> recorded[i].time() <= rest[j - 1].time());
                } else {
                    assert(sub.0[i] >= 0);
                }
            }
        }
        assert forall|i: int, j: int|
            #![trigger a[i], b[j]]
            0 <= i < recorded.len() && 0 <= j < inserted.len() implies a[i] != b[j] by {
            assert(sub.0[i] >= 0);
            if j > 0 {
                assert(sub.0[i] != sub.1[j - 1]);
            }
        }
        assert forall|i: int, j: int|
            #![trigger b[i], b[j]]
            0 <= i < j < inserted.len() implies b[i] < b[j] by {
            assert(sub.1[j - 1] >= 0);
            if i > 0 {
                assert(sub.1[i - 1] < sub.1[j - 1]);
            }
        }
        (a, b)
    } else {
        let rest = recorded.skip(1);
        let sub = law_merge_places_each_event(rest, inserted);
        let a = Seq::new(
            recorded.len(),
            |i: int|
                if i == 0 {
                    0
                } else {
                    sub.0[i - 1] + 1
                },
        );
        let b = Seq::new(inserted.len(), |i: int| sub.1[i] + 1);
        let all = merged(recorded, inserted);
        assert(all == seq![recorded[0]] + merged(rest, inserted));
        assert forall|i: int| 0 <= i < recorded.len() implies 0 <= #[trigger] a[i] < all.len()
            && all[a[i]] == recorded[i] by {
            if i > 0 {
                assert(sub.0[i - 1] >= 0);
                assert(rest[i - 1] == recorded[i]);
            }
        }
        if in_order(recorded) && in_order(inserted) {
            lemma_order_skip(recorded);
            assert forall|i: int, j: int|
                #![trigger a[i], b[j]]
                0 <= i < recorded.len() && 0 <= j < inserted.len() implies (recorded[i].time()
                <= inserted[j].time() <==> a[i] < b[j]) by {
                assert(inserted[0].time() <= inserted[j].time());
                assert(sub.1[j] >= 0);
                if i > 0 {
                    assert(rest[i - 1] == recorded[i]);
                    assert(sub.0[i - 1] < sub.1[j] <==> rest[i - 1].time() <= inserted[j].time());
                }
            }
        }
        assert forall|i: int, j: int|
            #![trigger a[i], b[j]]
            0 <= i < recorded.len() && 0 <= j < inserted.len() implies a[i] != b[j] by {
            assert(sub.1[j] >= 0);
            if i > 0 {
                assert(sub.0[i - 1] != sub.1[j]);
            }
        }
        assert forall|i: int, j: int|
            #![trigger a[i], a[j]]
            0 <= i < j < recorded.len() implies a[i] < a[j] by {
            assert(sub.0[j - 1] >= 0);
            if i > 0 {
                assert(sub.0[i - 1] < sub.0[j - 1]);
            }
        }
        (a, b)
    }
}

/// A plain header has the size it is given, the format's second version, and nothing else.
pub proof fn law_plain_header(width: u16, height: u16)
    ensures
        ({
            let h = HeaderView::plain(width, height);
            &&& h.width == width && h.height == height && h.version == 2
            &&& h.timestamp is None && h.duration is None && h.idle_time_limit is None
            &&& h.command is None && h.title is None && h.env is None && h.theme is None
        }),
{
}

/// Every event happens at the time it was given.
pub proof fn law_events_keep_their_time(time: i64, text: Seq<char>, a: u16, b: u16, top: bool)
    ensures
        (EventView::Output { time, data: text }).time() == time,
        (EventView::Input { time, data: text }).time() == time,
        (EventView::Marker { time, label: text }).time() == time,
        (EventView::Resize { time, columns: a, rows: b }).time() == time,
        (EventView::Comment { time, top, comment: text }).time() == time,
{
}

/// Events are in order just where no two of them that stand next to one another, or anywhere else,
/// are the other way round.
pub proof fn law_order_goes_by_time(events: Seq<EventView>, e: EventView)
    ensures
        in_order(Seq::empty()),
        in_order(seq![e]),
        in_order(events.push(e)) <==> in_order(events) && forall|i: int|
            0 <= i < events.len() ==> (#[trigger] events[i]).time() <= e.time(),
{
    let all = events.push(e);
    let n = events.len() as int;
    if in_order(all) {
        assert forall|i: int| 0 <= i < n implies (#[trigger] events[i]).time() <= e.time() by {
            assert(all[i].time() <= all[n].time());
        }
        assert forall|i: int, j: int| 0 <= i <= j < n implies (#[trigger] events[i]).time() <= (
        #[trigger] events[j]).time() by {
            assert(all[i].time() <= all[j].time());
        }
    }
    if in_order(events) && forall|i: int|
        0 <= i < events.len() ==> (#[trigger] events[i]).time() <= e.time() {
        assert forall|i: int, j: int| 0 <= i <= j < all.len() implies (#[trigger] all[i]).time()
            <= (#[trigger] all[j]).time() by {
            if j < n {
                assert(events[i].time() <= events[j].time());
            } else if i < n {
                assert(events[i].time() <= e.time());
            }
        }
    }
}

} // verus!
