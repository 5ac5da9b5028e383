//! Performing a script: the steps of each action, and what a take keeps while they are done.
//!
//! The steps say what to send, how long to pause and when to capture output. Whoever drives the
//! recorded program does them one after the other and hands the output to the take.

use crate::actions::{Action, ActionView};
use crate::cast::{
    event_views, in_order, law_merge_stays_in_order, merged, AsciiCast, CastError, CastView, Event,
    EventView, Header, HeaderView,
};
use crate::castfile::{has_comment, savable};
use crate::escapes::{
    all_unit_bytes, decode_escapes, decoded, law_units_make_the_text, split_into_units, units,
    EscapeError,
};
use crate::filters::{
    all_applied, applied, filter_views, law_caption_filter_leaves_no_comments,
    law_filters_follow_one_another, law_filters_stay_in_order, law_stripping_leaves_no_comments,
    law_stripping_stays_in_order, strip_comments, without_comments, Filter, FilterError,
    FilterView,
};
use crate::json::ascending;
use crate::keys::{KeyBase, KeyPress};
use crate::pty::{
    all_bytes, all_lower, any_occurs, chunk_views, chunks_contain_any, chunks_to_events,
    joined_bytes, law_a_match_is_a_needle, law_each_needle_counts, law_output_stays_in_order,
    output_events, text_of, ChunkView, OutputChunk,
};
use crate::script::{default_prompts, Script, ScriptView};
use crate::terminal::{recorded_env, recorded_header};
use crate::text::{chars_of, copy_text, lower, lower_char, utf8_bytes, views};
use vstd::prelude::*;
use vstd::utf8::encode_utf8;

verus! {

/// How long a password prompt is waited for, in nanoseconds.
pub const SUDO_PROMPT_TIMEOUT: i64 = 10_000_000_000;

/// Something to do while recording. A range is a delay to pick from, in nanoseconds.
#[derive(Debug, PartialEq)]
pub enum Step {
    /// Send bytes to the program.
    Write(Vec<u8>),
    /// Pause.
    Pause((i64, i64)),
    /// Pause behind a line; how long is remembered.
    Settle((i64, i64)),
    /// Capture the output that has arrived.
    Capture,
    /// What went before was not a line.
    NoLine,
    /// Put a marker here.
    Mark(String),
    /// Put a comment here.
    Caption(String),
    /// See whether a password is asked for, and wait for that if need be.
    SudoCheck { wait: bool },
    /// Wait for output.
    Expect { needle: String, timeout: i64 },
    /// Close the program, and keep its last output or not.
    Close { keep: bool },
}

/// A step as mathematics.
#[verifier::ext_equal]
pub enum StepView {
    Write(Seq<u8>),
    Pause((i64, i64)),
    Settle((i64, i64)),
    Capture,
    NoLine,
    Mark(Seq<char>),
    Caption(Seq<char>),
    SudoCheck { wait: bool },
    Expect { needle: Seq<char>, timeout: i64 },
    Close { keep: bool },
}

impl View for Step {
    type V = StepView;

    open spec fn view(&self) -> StepView {
        match self {
            Step::Write(bytes) => StepView::Write(bytes@),
            Step::Pause(range) => StepView::Pause(*range),
            Step::Settle(range) => StepView::Settle(*range),
            Step::Capture => StepView::Capture,
            Step::NoLine => StepView::NoLine,
            Step::Mark(label) => StepView::Mark(label@),
            Step::Caption(comment) => StepView::Caption(comment@),
            Step::SudoCheck { wait } => StepView::SudoCheck { wait: *wait },
            Step::Expect { needle, timeout } => StepView::Expect {
                needle: needle@,
                timeout: *timeout,
            },
            Step::Close { keep } => StepView::Close { keep: *keep },
        }
    }
}

/// The views of a list of steps.
pub open spec fn step_views(steps: Seq<Step>) -> Seq<StepView> {
    steps.map_values(|s: Step| s@)
}

/// Sending bytes, pausing and capturing.
pub open spec fn send(bytes: Seq<u8>, delay: (i64, i64)) -> Seq<StepView> {
    seq![StepView::Write(bytes), StepView::Pause(delay), StepView::Capture]
}

/// Sending byte strings one after the other, with a pause behind each.
pub open spec fn send_all(list: Seq<Seq<u8>>, delay: (i64, i64)) -> Seq<StepView>
    decreases list.len(),
{
    if list.len() == 0 {
        Seq::empty()
    } else {
        send_all(list.drop_last(), delay) + send(list.last(), delay)
    }
}

/// The bytes of each unit.
pub open spec fn unit_list(list: Seq<Seq<char>>) -> Seq<Seq<u8>> {
    list.map_values(|u: Seq<char>| decoded(u)->Ok_0)
}

/// The bytes of each key press.
pub open spec fn key_list(keys: Seq<KeyPress>) -> Seq<Seq<u8>> {
    keys.map_values(|k: KeyPress| k.bytes_view())
}

/// The bytes of each character.
pub open spec fn char_list(text: Seq<char>) -> Seq<Seq<u8>> {
    text.map_values(|c: char| encode_utf8(seq![c]))
}

/// Typing a text unit by unit, with two pauses behind it. Nothing is typed of a text with an
/// error in it.
pub open spec fn typing(
    text: Seq<char>,
    delay: (i64, i64),
    pre: (i64, i64),
    post: (i64, i64),
) -> Result<Seq<StepView>, EscapeError> {
    match decoded(text) {
        Err(e) => Err(e),
        Ok(_) => Ok(
            send_all(unit_list(units(text)), delay) + seq![
                StepView::Pause(pre),
                StepView::Settle(post),
                StepView::Capture,
            ],
        ),
    }
}

/// Pressing keys, with a pause behind each.
pub open spec fn pressing(keys: Seq<KeyPress>, delay: (i64, i64)) -> Seq<StepView> {
    send_all(key_list(keys), delay) + seq![StepView::NoLine, StepView::SudoCheck { wait: true }]
}

/// Pausing, with the output captured.
pub open spec fn pausing(nanos: i64) -> Seq<StepView> {
    seq![StepView::Pause((nanos, nanos)), StepView::Capture, StepView::NoLine]
}

/// The press that wipes the input line.
pub open spec fn wipe() -> KeyPress {
    KeyPress { ctrl: true, alt: false, shift: false, base: KeyBase::Char('U') }
}

/// The steps of an action.
pub open spec fn action_steps(s: ScriptView, a: ActionView) -> Result<Seq<StepView>, EscapeError> {
    match a {
        ActionView::Text(text) => match typing(
            text,
            s.typing_delay,
            s.pre_nl_delay,
            s.post_nl_delay,
        ) {
            Err(e) => Err(e),
            Ok(steps) => Ok(steps.push(StepView::SudoCheck { wait: false })),
        },
        ActionView::Input { text, pre_nl_delay, post_nl_delay } => match typing(
            text,
            s.typing_delay,
            (pre_nl_delay, pre_nl_delay),
            (post_nl_delay, post_nl_delay),
        ) {
            Err(e) => Err(e),
            Ok(steps) => Ok(steps.push(StepView::SudoCheck { wait: false })),
        },
        ActionView::Marker { label } => Ok(seq![StepView::Mark(label)]),
        ActionView::Comment { comment } => Ok(seq![StepView::Caption(comment)]),
        ActionView::InlineComment { text, show } => match typing(
            text,
            s.typing_delay,
            s.pre_nl_delay,
            s.post_nl_delay,
        ) {
            Err(e) => Err(e),
            Ok(steps) => Ok(
                steps.push(StepView::SudoCheck { wait: false }) + pausing(show) + pressing(
                    seq![wipe()],
                    s.key_delay,
                ) + pausing(show),
            ),
        },
        ActionView::Key { keys } => Ok(pressing(keys, s.key_delay)),
        ActionView::Wait { nanos } => Ok(pausing(nanos)),
        ActionView::Expect { text, timeout } => Ok(
            seq![StepView::Expect { needle: text, timeout }, StepView::NoLine],
        ),
        ActionView::End => Ok(Seq::empty()),
    }
}

/// How many actions are performed: all up to the first end.
pub open spec fn performed(actions: Seq<ActionView>) -> int
    decreases actions.len(),
{
    if actions.len() == 0 {
        0
    } else if actions[0] == ActionView::End {
        1
    } else {
        1 + performed(actions.skip(1))
    }
}

/// Whether any action ends the recording.
pub open spec fn has_end(actions: Seq<ActionView>) -> bool {
    exists|i: int| 0 <= i < actions.len() && #[trigger] actions[i] == ActionView::End
}

/// The steps before the first action.
pub open spec fn opening_steps(s: ScriptView) -> Seq<StepView> {
    seq![StepView::Pause(s.start_delay), StepView::Capture]
}

/// The steps behind the last action. Behind an end, nothing more is captured.
pub open spec fn closing_steps(s: ScriptView) -> Seq<StepView> {
    if has_end(s.actions) {
        seq![StepView::Close { keep: false }]
    } else {
        seq![StepView::Pause(s.end_delay), StepView::Capture, StepView::Close { keep: true }]
    }
}

/// Typing a password and Enter.
pub open spec fn password_steps(password: Seq<char>, delay: (i64, i64)) -> Seq<StepView> {
    send_all(char_list(password), delay) + seq![StepView::Write(seq![0x0du8]), StepView::Capture]
}

/// The bytes that steps send.
pub open spec fn sent(steps: Seq<StepView>) -> Seq<u8>
    decreases steps.len(),
{
    if steps.len() == 0 {
        Seq::empty()
    } else {
        match steps.last() {
            StepView::Write(bytes) => sent(steps.drop_last()) + bytes,
            _ => sent(steps.drop_last()),
        }
    }
}

/// Adds the steps that send bytes.
fn push_send(steps: &mut Vec<Step>, bytes: Vec<u8>, delay: (i64, i64))
    ensures
        step_views(final(steps)@) == step_views(old(steps)@) + send(bytes@, delay),
{
    steps.push(Step::Write(bytes));
    steps.push(Step::Pause(delay));
    steps.push(Step::Capture);
    proof {
        assert(step_views(steps@) =~= step_views(old(steps)@) + send(bytes@, delay));
    }
}

/// Adds a step.
fn push_step(steps: &mut Vec<Step>, step: Step)
    ensures
        step_views(final(steps)@) == step_views(old(steps)@).push(step@),
{
    steps.push(step);
    proof {
        assert(step_views(steps@) =~= step_views(old(steps)@).push(step@));
    }
}

/// Adds the steps that type a text.
fn push_typing(
    steps: &mut Vec<Step>,
    text: &str,
    delay: (i64, i64),
    pre: (i64, i64),
    post: (i64, i64),
) -> (r: Option<EscapeError>)
    ensures
        match r {
            None => typing(text@, delay, pre, post) matches Ok(more) && step_views(final(steps)@)
                == step_views(old(steps)@) + more,
            Some(e) => typing(text@, delay, pre, post) == Err::<Seq<StepView>, EscapeError>(e),
        },
{
    match decode_escapes(text) {
        Err(e) => {
            return Some(e);
        },
        Ok(_) => {},
    }
    let list = split_into_units(text);
    let ghost us = units(text@);
    let ghost bytes = unit_list(us);
    let ghost start = step_views(steps@);
    let mut i: usize = 0;
    proof {
        law_units_make_the_text(text@);
        assert(bytes.take(0) =~= Seq::<Seq<u8>>::empty());
        assert(step_views(steps@) =~= start + send_all(bytes.take(0), delay));
    }
    while i < list.len()
        invariant
            i <= list@.len(),
            views(list@) == us,
            bytes == unit_list(us),
            step_views(steps@) == start + send_all(bytes.take(i as int), delay),
            forall|k: int| 0 <= k < us.len() ==> decoded(#[trigger] us[k]) is Ok,
        decreases list@.len() - i,
    {
        let ghost before = step_views(steps@);
        proof {
            assert(us[i as int] == list@[i as int]@);
            assert(bytes.take(i + 1).drop_last() =~= bytes.take(i as int));
            assert(bytes.take(i + 1).last() == decoded(us[i as int])->Ok_0);
        }
        match decode_escapes(list[i].as_str()) {
            Ok(unit) => {
                push_send(steps, unit, delay);
                proof {
                    assert(step_views(steps@) =~= start + send_all(bytes.take(i + 1), delay));
                }
            },
            Err(_) => {
                proof {
                    assert(false);
                }
            },
        }
        i += 1;
    }
    push_step(steps, Step::Pause(pre));
    push_step(steps, Step::Settle(post));
    push_step(steps, Step::Capture);
    proof {
        assert(bytes.take(i as int) =~= bytes);
        let tail = seq![StepView::Pause(pre), StepView::Settle(post), StepView::Capture];
        assert(step_views(steps@) =~= start + (send_all(bytes, delay) + tail));
    }
    None
}

/// Adds the steps that press keys.
fn push_pressing(steps: &mut Vec<Step>, keys: &Vec<KeyPress>, delay: (i64, i64))
    ensures
        step_views(final(steps)@) == step_views(old(steps)@) + pressing(keys@, delay),
{
    let ghost bytes = key_list(keys@);
    let ghost start = step_views(steps@);
    let mut i: usize = 0;
    proof {
        assert(bytes.take(0) =~= Seq::<Seq<u8>>::empty());
        assert(step_views(steps@) =~= start + send_all(bytes.take(0), delay));
    }
    while i < keys.len()
        invariant
            i <= keys@.len(),
            bytes == key_list(keys@),
            step_views(steps@) == start + send_all(bytes.take(i as int), delay),
        decreases keys@.len() - i,
    {
        proof {
            assert(bytes.take(i + 1).drop_last() =~= bytes.take(i as int));
            assert(bytes.take(i + 1).last() == keys@[i as int].bytes_view());
        }
        push_send(steps, keys[i].bytes(), delay);
        proof {
            assert(step_views(steps@) =~= start + send_all(bytes.take(i + 1), delay));
        }
        i += 1;
    }
    push_step(steps, Step::NoLine);
    push_step(steps, Step::SudoCheck { wait: true });
    proof {
        assert(bytes.take(i as int) =~= bytes);
        let tail = seq![StepView::NoLine, StepView::SudoCheck { wait: true }];
        assert(step_views(steps@) =~= start + (send_all(bytes, delay) + tail));
    }
}

/// Adds the steps of a pause.
fn push_pausing(steps: &mut Vec<Step>, nanos: i64)
    ensures
        step_views(final(steps)@) == step_views(old(steps)@) + pausing(nanos),
{
    push_step(steps, Step::Pause((nanos, nanos)));
    push_step(steps, Step::Capture);
    push_step(steps, Step::NoLine);
    proof {
        assert(step_views(steps@) =~= step_views(old(steps)@) + pausing(nanos));
    }
}

impl Script {
    /// The steps of an action of this script. Text with an error in its escapes has none.
    pub fn steps(&self, action: &Action) -> (r: Result<Vec<Step>, EscapeError>)
        ensures
            match r {
                Ok(steps) => action_steps(self@, action@) == Ok::<Seq<StepView>, EscapeError>(
                    step_views(steps@),
                ),
                Err(e) => action_steps(self@, action@) == Err::<Seq<StepView>, EscapeError>(e),
            },
    {
        let mut steps: Vec<Step> = Vec::new();
        proof {
            assert(step_views(steps@) =~= Seq::<StepView>::empty());
        }
        match action {
            Action::Text(text) => {
                if let Some(e) = push_typing(
                    &mut steps,
                    text.as_str(),
                    self.typing_delay,
                    self.pre_nl_delay,
                    self.post_nl_delay,
                ) {
                    return Err(e);
                }
                push_step(&mut steps, Step::SudoCheck { wait: false });
            },
            Action::Input { text, pre_nl_delay, post_nl_delay } => {
                if let Some(e) = push_typing(
                    &mut steps,
                    text.as_str(),
                    self.typing_delay,
                    (*pre_nl_delay, *pre_nl_delay),
                    (*post_nl_delay, *post_nl_delay),
                ) {
                    return Err(e);
                }
                push_step(&mut steps, Step::SudoCheck { wait: false });
            },
            Action::Marker { label } => {
                push_step(&mut steps, Step::Mark(copy_text(label.as_str())));
            },
            Action::Comment { comment } => {
                push_step(&mut steps, Step::Caption(copy_text(comment.as_str())));
            },
            Action::InlineComment { text, show } => {
                if let Some(e) = push_typing(
                    &mut steps,
                    text.as_str(),
                    self.typing_delay,
                    self.pre_nl_delay,
                    self.post_nl_delay,
                ) {
                    return Err(e);
                }
                push_step(&mut steps, Step::SudoCheck { wait: false });
                push_pausing(&mut steps, *show);
                let mut keys: Vec<KeyPress> = Vec::new();
                keys.push(
                    KeyPress { ctrl: true, alt: false, shift: false, base: KeyBase::Char('U') },
                );
                proof {
                    assert(keys@ =~= seq![wipe()]);
                }
                push_pressing(&mut steps, &keys, self.key_delay);
                push_pausing(&mut steps, *show);
            },
            Action::Key { keys } => {
                push_pressing(&mut steps, keys, self.key_delay);
            },
            Action::Wait { nanos } => {
                push_pausing(&mut steps, *nanos);
            },
            Action::Expect { text, timeout } => {
                push_step(
                    &mut steps,
                    Step::Expect { needle: copy_text(text.as_str()), timeout: *timeout },
                );
                push_step(&mut steps, Step::NoLine);
            },
            Action::End => {},
        }
        proof {
            let want = action_steps(self@, action@)->Ok_0;
            assert(step_views(steps@) =~= want);
        }
        Ok(steps)
    }

    /// How many actions of this script are performed: all up to the first end.
    pub fn performed_actions(&self) -> (r: usize)
        ensures
            r == performed(self@.actions),
            r <= self.actions@.len(),
    {
        let ghost all = self@.actions;
        let mut i: usize = 0;
        proof {
            assert(all.skip(0) =~= all);
        }
        while i < self.actions.len()
            invariant
                i <= self.actions@.len(),
                all == self@.actions,
                performed(all) == i + performed(all.skip(i as int)),
            decreases self.actions@.len() - i,
        {
            proof {
                assert(all.skip(i as int)[0] == self.actions@[i as int]@);
                assert(all.skip(i as int).skip(1) =~= all.skip(i + 1));
            }
            if matches!(self.actions[i], Action::End) {
                return i + 1;
            }
            i += 1;
        }
        i
    }

    /// The steps before the first action.
    pub fn opening(&self) -> (r: Vec<Step>)
        ensures
            step_views(r@) == opening_steps(self@),
    {
        let mut steps: Vec<Step> = Vec::new();
        push_step(&mut steps, Step::Pause(self.start_delay));
        push_step(&mut steps, Step::Capture);
        proof {
            assert(step_views(steps@) =~= opening_steps(self@));
        }
        steps
    }

    /// The steps behind the last action that is performed.
    pub fn closing(&self) -> (r: Vec<Step>)
        ensures
            step_views(r@) == closing_steps(self@),
    {
        let mut ended = false;
        let mut i: usize = 0;
        while i < self.actions.len()
            invariant
                i <= self.actions@.len(),
                ended == exists|k: int|
                    0 <= k < i && #[trigger] self@.actions[k] == ActionView::End,
            decreases self.actions@.len() - i,
        {
            proof {
                assert(self@.actions[i as int] == self.actions@[i as int]@);
            }
            if matches!(self.actions[i], Action::End) {
                ended = true;
            }
            i += 1;
        }
        let mut steps: Vec<Step> = Vec::new();
        if ended {
            push_step(&mut steps, Step::Close { keep: false });
        } else {
            push_step(&mut steps, Step::Pause(self.end_delay));
            push_step(&mut steps, Step::Capture);
            push_step(&mut steps, Step::Close { keep: true });
        }
        proof {
            assert(step_views(steps@) =~= closing_steps(self@));
        }
        steps
    }
}

/// A quotient rounded to a whole number, halves away from zero.
pub open spec fn rounded_ratio(n: int, d: int) -> int {
    if n >= 0 {
        (2 * n + d) / (2 * d)
    } else {
        -((2 * -n + d) / (2 * d))
    }
}

/// A number of nanoseconds, or the nearest one that a time can have.
pub open spec fn clamped(n: int) -> i64 {
    if n > i64::MAX {
        i64::MAX
    } else if n < -i64::MAX {
        -i64::MAX as i64
    } else {
        n as i64
    }
}

/// When a marker is put: now, less four fifths of the pause behind the line before it, rounded to
/// a millisecond.
pub open spec fn mark_time(elapsed: u64, newline_delay: i64) -> i64 {
    clamped(rounded_ratio(5 * elapsed - 4 * newline_delay, 5_000_000) * 1_000_000)
}

/// Computes when a marker is put.
pub fn marker_time(elapsed: u64, newline_delay: i64) -> (r: i64)
    ensures
        r == mark_time(elapsed, newline_delay),
{
    let n: i128 = 5 * elapsed as i128 - 4 * newline_delay as i128;
    let ms: i128 = if n >= 0 {
        (2 * n + 5_000_000) / 10_000_000
    } else {
        -((2 * -n + 5_000_000) / 10_000_000)
    };
    let time: i128 = ms * 1_000_000;
    if time > 0x7fff_ffff_ffff_ffff {
        0x7fff_ffff_ffff_ffff
    } else if time < -0x7fff_ffff_ffff_ffff {
        -0x7fff_ffff_ffff_ffff
    } else {
        time as i64
    }
}

/// What to do about a password prompt.
#[derive(Debug, Clone, Copy, PartialEq, Eq, Structural)]
pub enum SudoMove {
    /// Nothing.
    Skip,
    /// Wait for the prompt.
    Await,
    /// Type the password.
    Type,
}

/// Whether the output asks for a password.
pub open spec fn asks(chunks: Seq<ChunkView>, prompts: Seq<Seq<char>>) -> bool {
    chunks.len() > 0 && any_occurs(lower(text_of(all_bytes(chunks))), all_lower(prompts))
}

/// What to do about a password prompt, given the output so far. The password is typed once.
pub open spec fn sudo_move(
    prompts: Option<Seq<Seq<char>>>,
    typed: bool,
    captured: Seq<ChunkView>,
    wait: bool,
) -> SudoMove {
    match prompts {
        None => SudoMove::Skip,
        Some(list) => {
            if typed {
                SudoMove::Skip
            } else if asks(captured, list) {
                SudoMove::Type
            } else if wait {
                SudoMove::Await
            } else {
                SudoMove::Skip
            }
        },
    }
}

/// A password is asked for, and there is none.
#[derive(Debug, Clone, Copy, PartialEq, Eq, Structural)]
pub struct NoPassword;

/// Why a take gives no recording.
#[derive(Debug, PartialEq)]
pub enum TakeError {
    /// Its markers and comments are not in order.
    Merge(CastError),
    /// A filter cannot be applied.
    Filter(FilterError),
}

/// What is kept while a script is performed.
pub struct Take {
    newline_delay: i64,
    sudo_typed: bool,
    captured: Vec<OutputChunk>,
    inserted: Vec<Event>,
}

/// What a take has kept, as mathematics.
#[verifier::ext_equal]
pub struct TakeView {
    /// The pause behind the line that was typed last, if it was a line.
    pub newline_delay: i64,
    /// Whether the password has been typed.
    pub sudo_typed: bool,
    /// The output.
    pub captured: Seq<ChunkView>,
    /// Markers and comments.
    pub inserted: Seq<EventView>,
}

/// The filters of a script, with the caption filter among them if comments are to be shown.
pub open spec fn effective(s: ScriptView) -> Seq<FilterView> {
    if s.with_comments && !s.filters.contains(FilterView::Comment) {
        s.filters.push(FilterView::Comment)
    } else {
        s.filters
    }
}

/// Why a take gives no recording, as mathematics.
pub enum TakeFault {
    Unsorted,
    Filter(Seq<char>, Seq<char>),
}

/// The events of the recording that a take gives: its output with the markers and comments put
/// in, filtered. Comments that are left go, unless they are to be shown.
pub open spec fn take_events(t: TakeView, s: ScriptView, h: HeaderView, start: u64) -> Result<
    Seq<EventView>,
    TakeFault,
> {
    let output = output_events(start, t.captured);
    if !in_order(t.inserted) {
        Err(TakeFault::Unsorted)
    } else {
        match all_applied(effective(s), h, merged(output, t.inserted)) {
            Err((regex, reason)) => Err(TakeFault::Filter(regex, reason)),
            Ok(events) => if s.with_comments {
                Ok(events)
            } else {
                Ok(without_comments(events))
            },
        }
    }
}

impl Script {
    /// The filters that are applied to a take of this script.
    pub fn effective_filters(&self) -> (r: Vec<Filter>)
        ensures
            filter_views(r@) == effective(self@),
    {
        let ghost all = filter_views(self.filters@);
        let mut out: Vec<Filter> = Vec::new();
        let mut found = false;
        let mut i: usize = 0;
        proof {
            assert(filter_views(out@) =~= all.take(0));
        }
        while i < self.filters.len()
            invariant
                i <= self.filters@.len(),
                all == filter_views(self.filters@),
                filter_views(out@) == all.take(i as int),
                found == exists|k: int| 0 <= k < i && #[trigger] all[k] == FilterView::Comment,
            decreases self.filters@.len() - i,
        {
            let ghost before = filter_views(out@);
            proof {
                assert(all[i as int] == self.filters@[i as int]@);
                assert(all.take(i + 1) =~= all.take(i as int).push(all[i as int]));
            }
            if matches!(self.filters[i], Filter::Comment) {
                found = true;
            }
            out.push(self.filters[i].clone());
            proof {
                assert(filter_views(out@) =~= before.push(all[i as int]));
            }
            i += 1;
        }
        proof {
            assert(all.take(i as int) =~= all);
        }
        if self.with_comments && !found {
            let ghost before = filter_views(out@);
            out.push(Filter::Comment);
            proof {
                assert(filter_views(out@) =~= before.push(FilterView::Comment));
            }
        }
        out
    }
}

impl Take {
    /// What the take has kept.
    pub closed spec fn kept(self) -> TakeView {
        TakeView {
            newline_delay: self.newline_delay,
            sudo_typed: self.sudo_typed,
            captured: chunk_views(self.captured@),
            inserted: event_views(self.inserted@),
        }
    }

    /// A take of which nothing has been performed.
    pub fn new() -> (r: Take)
        ensures
            r.kept() == (TakeView {
                newline_delay: 0,
                sudo_typed: false,
                captured: Seq::empty(),
                inserted: Seq::empty(),
            }),
    {
        let r = Take {
            newline_delay: 0,
            sudo_typed: false,
            captured: Vec::new(),
            inserted: Vec::new(),
        };
        proof {
            assert(chunk_views(r.captured@) =~= Seq::<ChunkView>::empty());
            assert(event_views(r.inserted@) =~= Seq::<EventView>::empty());
        }
        r
    }

    /// Keeps output.
    pub fn capture(&mut self, chunks: Vec<OutputChunk>)
        ensures
            final(self).kept() == (TakeView {
                captured: old(self).kept().captured + chunk_views(chunks@),
                ..old(self).kept()
            }),
    {
        let mut more = chunks;
        let ghost all = more@;
        self.captured.append(&mut more);
        proof {
            assert(chunk_views(self.captured@) =~= chunk_views(old(self).captured@) + chunk_views(
                all,
            ));
        }
    }

    /// Remembers the pause behind a line.
    pub fn settle(&mut self, delay: i64)
        ensures
            final(self).kept() == (TakeView { newline_delay: delay, ..old(self).kept() }),
    {
        self.newline_delay = delay;
    }

    /// Forgets the pause behind a line.
    pub fn no_line(&mut self)
        ensures
            final(self).kept() == (TakeView { newline_delay: 0, ..old(self).kept() }),
    {
        self.newline_delay = 0;
    }

    /// Puts a marker in.
    pub fn mark(&mut self, elapsed: u64, label: String)
        ensures
            final(self).kept() == (TakeView {
                inserted: old(self).kept().inserted.push(
                    EventView::Marker {
                        time: mark_time(elapsed, old(self).kept().newline_delay),
                        label: label@,
                    },
                ),
                ..old(self).kept()
            }),
    {
        let time = marker_time(elapsed, self.newline_delay);
        self.inserted.push(Event::Marker { time, label });
        proof {
            assert(event_views(self.inserted@) =~= event_views(old(self).inserted@).push(
                EventView::Marker { time, label: label@ },
            ));
        }
    }

    /// Puts a comment in.
    pub fn caption(&mut self, elapsed: u64, top: bool, comment: String)
        ensures
            final(self).kept() == (TakeView {
                inserted: old(self).kept().inserted.push(
                    EventView::Comment {
                        time: mark_time(elapsed, old(self).kept().newline_delay),
                        top,
                        comment: comment@,
                    },
                ),
                ..old(self).kept()
            }),
    {
        let time = marker_time(elapsed, self.newline_delay);
        self.inserted.push(Event::Comment { time, top, comment });
        proof {
            assert(event_views(self.inserted@) =~= event_views(old(self).inserted@).push(
                EventView::Comment { time, top, comment: comment@ },
            ));
        }
    }

    /// Decides what to do about a password prompt, given the output so far.
    pub fn sudo_check(&self, script: &Script, wait: bool) -> (r: SudoMove)
        ensures
            r == sudo_move(
                script@.sudo,
                self.kept().sudo_typed,
                self.kept().captured,
                wait,
            ),
    {
        match &script.sudo {
            None => SudoMove::Skip,
            Some(config) => {
                if self.sudo_typed {
                    SudoMove::Skip
                } else if chunks_contain_any(&self.captured, &config.prompts) {
                    SudoMove::Type
                } else if wait {
                    SudoMove::Await
                } else {
                    SudoMove::Skip
                }
            },
        }
    }

    /// Keeps the output that came while a prompt was waited for, and says whether it holds the
    /// prompt. Without the prompt, nothing is typed.
    pub fn sudo_waited(&mut self, script: &Script, waited: Vec<OutputChunk>) -> (r: SudoMove)
        ensures
            final(self).kept() == (TakeView {
                captured: old(self).kept().captured + chunk_views(waited@),
                ..old(self).kept()
            }),
            r == (match script@.sudo {
                Some(list) => if asks(chunk_views(waited@), list) {
                    SudoMove::Type
                } else {
                    SudoMove::Skip
                },
                None => SudoMove::Skip,
            }),
    {
        let asked = match &script.sudo {
            Some(config) => chunks_contain_any(&waited, &config.prompts),
            None => false,
        };
        self.capture(waited);
        if asked {
            SudoMove::Type
        } else {
            SudoMove::Skip
        }
    }

    /// The steps that type the password, which is then not typed again. There must be one.
    pub fn type_password(&mut self, script: &Script, password: Option<&str>) -> (r: Result<
        Vec<Step>,
        NoPassword,
    >)
        ensures
            match r {
                Ok(steps) => {
                    &&& password matches Some(p) && p@.len() > 0
                    &&& step_views(steps@) == password_steps(password->0@, script@.typing_delay)
                    &&& final(self).kept() == (TakeView { sudo_typed: true, ..old(self).kept() })
                },
                Err(_) => {
                    &&& password matches Some(p) ==> p@.len() == 0
                    &&& final(self).kept() == old(self).kept()
                },
            },
    {
        let text = match password {
            Some(p) => p,
            None => {
                return Err(NoPassword);
            },
        };
        let chars = chars_of(text);
        if chars.len() == 0 {
            return Err(NoPassword);
        }
        let delay = script.typing_delay;
        let ghost bytes = char_list(chars@);
        let mut steps: Vec<Step> = Vec::new();
        let mut i: usize = 0;
        proof {
            assert(bytes.take(0) =~= Seq::<Seq<u8>>::empty());
            assert(step_views(steps@) =~= send_all(bytes.take(0), delay));
        }
        while i < chars.len()
            invariant
                i <= chars@.len(),
                bytes == char_list(chars@),
                step_views(steps@) == send_all(bytes.take(i as int), delay),
            decreases chars@.len() - i,
        {
            let one = [chars[i]];
            proof {
                assert(one@ =~= seq![chars@[i as int]]);
                assert(bytes.take(i + 1).drop_last() =~= bytes.take(i as int));
                assert(bytes.take(i + 1).last() == encode_utf8(one@));
            }
            push_send(&mut steps, utf8_bytes(one.as_slice()), delay);
            i += 1;
        }
        let mut enter: Vec<u8> = Vec::new();
        enter.push(0x0d);
        proof {
            assert(enter@ =~= seq![0x0du8]);
            assert(bytes.take(i as int) =~= bytes);
        }
        push_step(&mut steps, Step::Write(enter));
        push_step(&mut steps, Step::Capture);
        proof {
            assert(step_views(steps@) =~= password_steps(text@, delay));
        }
        self.sudo_typed = true;
        Ok(steps)
    }

    /// The recording that the take gives. Its output is timed from `start` on.
    pub fn finish(self, script: &Script, header: Header, start: u64) -> (r: Result<
        AsciiCast,
        TakeError,
    >)
        ensures
            match r {
                Ok(cast) => cast@.header == header@ && take_events(
                    self.kept(),
                    script@,
                    header@,
                    start,
                ) == Ok::<Seq<EventView>, TakeFault>(cast@.events),
                Err(TakeError::Merge(e)) => e == CastError::Unsorted && take_events(
                    self.kept(),
                    script@,
                    header@,
                    start,
                ) == Err::<Seq<EventView>, TakeFault>(TakeFault::Unsorted),
                Err(TakeError::Filter(e)) => take_events(self.kept(), script@, header@, start)
                    == Err::<Seq<EventView>, TakeFault>(TakeFault::Filter(e.regex@, e.reason@)),
            },
    {
        let output = chunks_to_events(start, &self.captured);
        let cast = AsciiCast::new(header, output);
        let cast = match cast.insert_events(self.inserted) {
            Ok(cast) => cast,
            Err(e) => {
                return Err(TakeError::Merge(e));
            },
        };
        let filters = script.effective_filters();
        let cast = match cast.filter_events(filters.as_slice()) {
            Ok(cast) => cast,
            Err(e) => {
                return Err(TakeError::Filter(e));
            },
        };
        if script.with_comments {
            Ok(cast)
        } else {
            let events = strip_comments(&cast.events);
            Ok(AsciiCast::new(cast.header, events))
        }
    }
}

proof fn lemma_sent_concat(a: Seq<StepView>, b: Seq<StepView>)
    ensures
        sent(a + b) == sent(a) + sent(b),
    decreases b.len(),
{
    if b.len() == 0 {
        assert(a + b =~= a);
        assert(sent(a) + sent(b) =~= sent(a));
    } else {
        lemma_sent_concat(a, b.drop_last());
        assert((a + b).drop_last() =~= a + b.drop_last());
        assert((a + b).last() == b.last());
        if let StepView::Write(bytes) = b.last() {
            assert(sent(a) + sent(b.drop_last()) + bytes =~= sent(a) + (sent(b.drop_last())
                + bytes));
        }
    }
}

proof fn lemma_sent_nothing(steps: Seq<StepView>)
    requires
        forall|i: int| 0 <= i < steps.len() ==> !(#[trigger] steps[i] is Write),
    ensures
        sent(steps) == Seq::<u8>::empty(),
    decreases steps.len(),
{
    if steps.len() > 0 {
        let front = steps.drop_last();
        assert forall|i: int| 0 <= i < front.len() implies !(#[trigger] front[i] is Write) by {
            assert(front[i] == steps[i]);
        }
        assert(!(steps[steps.len() - 1] is Write));
        lemma_sent_nothing(front);
    }
}

proof fn lemma_send(bytes: Seq<u8>, delay: (i64, i64))
    ensures
        sent(send(bytes, delay)) == bytes,
{
    let steps = send(bytes, delay);
    let a = steps.drop_last();
    let b = a.drop_last();
    assert(steps.last() == StepView::Capture);
    assert(a.last() == StepView::Pause(delay));
    assert(b.last() == StepView::Write(bytes));
    assert(b.drop_last() =~= Seq::<StepView>::empty());
    assert(sent(b.drop_last()) =~= Seq::<u8>::empty());
    assert(sent(b) =~= bytes);
    assert(sent(a) == sent(b));
    assert(sent(steps) == sent(a));
}

/// What sending a list of byte strings sends.
proof fn lemma_send_all(list: Seq<Seq<u8>>, delay: (i64, i64))
    ensures
        sent(send_all(list, delay)) == joined_bytes(list),
    decreases list.len(),
{
    if list.len() > 0 {
        lemma_send_all(list.drop_last(), delay);
        lemma_send(list.last(), delay);
        lemma_sent_concat(send_all(list.drop_last(), delay), send(list.last(), delay));
    }
}

proof fn lemma_joined_front(first: Seq<u8>, rest: Seq<Seq<u8>>)
    ensures
        joined_bytes(seq![first] + rest) == first + joined_bytes(rest),
    decreases rest.len(),
{
    let all = seq![first] + rest;
    if rest.len() == 0 {
        assert(all.drop_last() =~= Seq::<Seq<u8>>::empty());
        assert(joined_bytes(all.drop_last()) =~= Seq::<u8>::empty());
        assert(joined_bytes(all) =~= first + joined_bytes(rest));
    } else {
        lemma_joined_front(first, rest.drop_last());
        assert(all.drop_last() =~= seq![first] + rest.drop_last());
        assert(joined_bytes(all) =~= first + joined_bytes(rest));
    }
}

proof fn lemma_joined_units(list: Seq<Seq<char>>)
    ensures
        joined_bytes(unit_list(list)) == all_unit_bytes(list),
    decreases list.len(),
{
    if list.len() > 0 {
        lemma_joined_units(list.skip(1));
        let bytes = unit_list(list);
        assert(bytes =~= seq![decoded(list[0])->Ok_0] + unit_list(list.skip(1)));
        lemma_joined_front(decoded(list[0])->Ok_0, unit_list(list.skip(1)));
    }
}

proof fn lemma_joined_chars(text: Seq<char>)
    ensures
        joined_bytes(char_list(text)) == encode_utf8(text),
    decreases text.len(),
{
    if text.len() > 0 {
        let rest = text.drop_first();
        lemma_joined_chars(rest);
        let one = seq![text[0]];
        assert(char_list(text) =~= seq![encode_utf8(one)] + char_list(rest));
        lemma_joined_front(encode_utf8(one), char_list(rest));
        assert(one.drop_first() =~= Seq::<char>::empty());
        assert(encode_utf8(one) =~= vstd::utf8::encode_scalar(text[0] as u32)) by {
            reveal_with_fuel(encode_utf8, 2);
        }
    }
}

/// Typing sends just the bytes that a text stands for. No newline is added.
pub proof fn law_typing_sends_the_text(
    text: Seq<char>,
    delay: (i64, i64),
    pre: (i64, i64),
    post: (i64, i64),
)
    ensures
        match typing(text, delay, pre, post) {
            Ok(steps) => decoded(text) == Ok::<Seq<u8>, EscapeError>(sent(steps)),
            Err(e) => decoded(text) == Err::<Seq<u8>, EscapeError>(e),
        },
{
    if let Ok(steps) = typing(text, delay, pre, post) {
        let list = unit_list(units(text));
        let tail = seq![StepView::Pause(pre), StepView::Settle(post), StepView::Capture];
        law_units_make_the_text(text);
        lemma_send_all(list, delay);
        lemma_joined_units(units(text));
        lemma_sent_nothing(tail);
        lemma_sent_concat(send_all(list, delay), tail);
        assert(sent(steps) =~= all_unit_bytes(units(text)));
    }
}

/// Pressing keys sends the bytes of each, in order.
pub proof fn law_pressing_sends_the_keys(keys: Seq<KeyPress>, delay: (i64, i64))
    ensures
        sent(pressing(keys, delay)) == joined_bytes(key_list(keys)),
{
    let tail = seq![StepView::NoLine, StepView::SudoCheck { wait: true }];
    lemma_send_all(key_list(keys), delay);
    lemma_sent_nothing(tail);
    lemma_sent_concat(send_all(key_list(keys), delay), tail);
    assert(sent(pressing(keys, delay)) =~= joined_bytes(key_list(keys)));
}

/// A password is sent as it is, with one carriage return behind it.
pub proof fn law_password_is_sent(password: Seq<char>, delay: (i64, i64))
    ensures
        sent(password_steps(password, delay)) == encode_utf8(password) + seq![0x0du8],
{
    let enter = StepView::Write(seq![0x0du8]);
    let tail = seq![enter, StepView::Capture];
    lemma_send_all(char_list(password), delay);
    lemma_joined_chars(password);
    assert(tail.drop_last() =~= seq![enter]);
    assert(tail.drop_last().drop_last() =~= Seq::<StepView>::empty());
    assert(tail.drop_last().last() == enter);
    assert(sent(tail.drop_last().drop_last()) =~= Seq::<u8>::empty());
    assert(sent(tail.drop_last()) =~= seq![0x0du8]);
    assert(sent(tail) =~= seq![0x0du8]);
    lemma_sent_concat(send_all(char_list(password), delay), tail);
}

/// An inline comment sends its text and wipes the line; it submits nothing of its own.
pub proof fn law_inline_comment_is_wiped(s: ScriptView, text: Seq<char>, show: i64)
    ensures
        match action_steps(s, ActionView::InlineComment { text, show }) {
            Ok(steps) => decoded(text) matches Ok(bytes) && sent(steps) == bytes + seq![0x15u8],
            Err(e) => decoded(text) == Err::<Seq<u8>, EscapeError>(e),
        },
{
    let typed = typing(text, s.typing_delay, s.pre_nl_delay, s.post_nl_delay);
    law_typing_sends_the_text(text, s.typing_delay, s.pre_nl_delay, s.post_nl_delay);
    if let Ok(steps) = typed {
        let check = StepView::SudoCheck { wait: false };
        let a = steps.push(check);
        assert(a.drop_last() =~= steps);
        let keys = seq![wipe()];
        law_pressing_sends_the_keys(keys, s.key_delay);
        lemma_sent_nothing(pausing(show));
        lemma_sent_concat(a, pausing(show));
        lemma_sent_concat(a + pausing(show), pressing(keys, s.key_delay));
        lemma_sent_concat(a + pausing(show) + pressing(keys, s.key_delay), pausing(show));
        let list = key_list(keys);
        assert(list.drop_last() =~= Seq::<Seq<u8>>::empty());
        assert(joined_bytes(list.drop_last()) =~= Seq::<u8>::empty());
        assert(wipe().bytes_view() =~= seq![0x15u8]);
        assert(joined_bytes(list) =~= seq![0x15u8]);
        let all = a + pausing(show) + pressing(keys, s.key_delay) + pausing(show);
        assert(sent(all) =~= decoded(text)->Ok_0 + seq![0x15u8]);
    }
}

/// The actions performed end with the first end; nothing behind it is performed.
pub proof fn law_nothing_behind_the_end(actions: Seq<ActionView>)
    ensures
        0 <= performed(actions) <= actions.len(),
        forall|i: int|
            0 <= i < performed(actions) - 1 ==> #[trigger] actions[i] != ActionView::End,
        has_end(actions) ==> performed(actions) > 0 && actions[performed(actions) - 1]
            == ActionView::End,
        !has_end(actions) ==> performed(actions) == actions.len(),
    decreases actions.len(),
{
    if actions.len() > 0 && actions[0] != ActionView::End {
        let rest = actions.skip(1);
        law_nothing_behind_the_end(rest);
        let n = performed(actions);
        assert forall|i: int| 0 <= i < n - 1 implies #[trigger] actions[i] != ActionView::End by {
            if i > 0 {
                assert(actions[i] == rest[i - 1]);
            }
        }
        if has_end(actions) {
            let i = choose|i: int| 0 <= i < actions.len() && actions[i] == ActionView::End;
            assert(rest[i - 1] == ActionView::End);
            assert(has_end(rest));
            assert(actions[n - 1] == rest[n - 2]);
        } else {
            assert forall|i: int| 0 <= i < rest.len() implies #[trigger] rest[i]
                != ActionView::End by {
                assert(rest[i] == actions[i + 1]);
            }
        }
    } else if actions.len() > 0 {
        assert(has_end(actions));
    }
}

/// Once the password has been typed, no prompt makes it be typed again.
pub proof fn law_password_is_typed_once(t: TakeView, s: ScriptView, wait: bool)
    requires
        t.sudo_typed,
    ensures
        sudo_move(s.sudo, t.sudo_typed, t.captured, wait) == SudoMove::Skip,
{
}

/// A take gives a recording without comments.
pub proof fn law_take_leaves_no_comments(t: TakeView, s: ScriptView, h: HeaderView, start: u64)
    ensures
        take_events(t, s, h, start) matches Ok(events) ==> !has_comment(events),
{
    let all = merged(output_events(start, t.captured), t.inserted);
    if let Ok(events) = all_applied(effective(s), h, all) {
        if s.with_comments {
            if !s.filters.contains(FilterView::Comment) {
                assert(effective(s)[s.filters.len() as int] == FilterView::Comment);
            }
            assert(effective(s).contains(FilterView::Comment));
            law_caption_filter_leaves_no_comments(effective(s), h, all);
        } else {
            law_stripping_leaves_no_comments(events);
        }
    }
}

/// A take whose output came in order gives a recording in order.
pub proof fn law_take_stays_in_order(t: TakeView, s: ScriptView, h: HeaderView, start: u64)
    requires
        forall|i: int, j: int|
            0 <= i <= j < t.captured.len() ==> (#[trigger] t.captured[i]).instant <= (
            #[trigger] t.captured[j]).instant,
    ensures
        take_events(t, s, h, start) matches Ok(events) ==> in_order(events),
{
    let output = output_events(start, t.captured);
    if in_order(t.inserted) {
        law_output_stays_in_order(start, t.captured);
        law_merge_stays_in_order(output, t.inserted);
        let all = merged(output, t.inserted);
        law_filters_stay_in_order(effective(s), h, all);
        if let Ok(events) = all_applied(effective(s), h, all) {
            law_stripping_stays_in_order(events);
        }
    }
}

/// The recording of a take can be saved and read back.
pub proof fn law_take_can_be_saved(
    t: TakeView,
    s: ScriptView,
    cols: u16,
    rows: u16,
    timestamp: Option<i64>,
    shell: Option<Seq<char>>,
    term: Seq<char>,
    start: u64,
)
    ensures
        ({
            let header = recorded_header(cols, rows, timestamp, shell, term);
            take_events(t, s, header, start) matches Ok(events) ==> savable(
                (CastView { header, events }),
            )
        }),
{
    let header = recorded_header(cols, rows, timestamp, shell, term);
    law_take_leaves_no_comments(t, s, header, start);
    reveal_strlit("SHELL");
    reveal_strlit("TERM");
    assert("SHELL"@[0] == 'S' && "TERM"@[0] == 'T');
    assert(ascending(recorded_env(shell, term)));
}

/// The filters that are applied begin with all the filters of the script, in their order. What
/// follows them is nothing, or one caption filter: that just where comments are to be shown and the
/// script lists no caption filter itself.
pub proof fn law_script_filters_come_first(s: ScriptView)
    ensures
        effective(s).len() >= s.filters.len(),
        forall|i: int|
            0 <= i < s.filters.len() ==> #[trigger] effective(s)[i] == s.filters[i],
        ({
            let listed = exists|i: int|
                0 <= i < s.filters.len() && #[trigger] s.filters[i] == FilterView::Comment;
            if s.with_comments && !listed {
                effective(s).len() == s.filters.len() + 1 && effective(s)[s.filters.len() as int]
                    == FilterView::Comment
            } else {
                effective(s).len() == s.filters.len()
            }
        }),
{
    if s.filters.contains(FilterView::Comment) {
        let i = choose|i: int|
            0 <= i < s.filters.len() && #[trigger] s.filters[i] == FilterView::Comment;
        assert(s.filters[i] == FilterView::Comment);
    }
}

/// The recording of a take is what every filter of the script makes, one after the other, of the
/// output with the markers and comments put in. Comments that are left are then drawn where they
/// are to be shown and stripped where they are not.
pub proof fn law_take_applies_every_filter(
    t: TakeView,
    s: ScriptView,
    h: HeaderView,
    start: u64,
)
    requires
        in_order(t.inserted),
    ensures
        match all_applied(s.filters, h, merged(output_events(start, t.captured), t.inserted)) {
            Err((regex, reason)) => take_events(t, s, h, start) == Err::<
                Seq<EventView>,
                TakeFault,
            >(TakeFault::Filter(regex, reason)),
            Ok(list) => {
                &&& take_events(t, s, h, start) is Ok
                &&& !s.with_comments ==> take_events(t, s, h, start) == Ok::<
                    Seq<EventView>,
                    TakeFault,
                >(without_comments(list))
                &&& s.with_comments && s.filters.contains(FilterView::Comment) ==> take_events(
                    t,
                    s,
                    h,
                    start,
                ) == Ok::<Seq<EventView>, TakeFault>(list)
                &&& s.with_comments && !s.filters.contains(FilterView::Comment) ==> {
                    &&& applied(FilterView::Comment, h, list) is Ok
                    &&& take_events(t, s, h, start) == Ok::<Seq<EventView>, TakeFault>(
                        applied(FilterView::Comment, h, list)->Ok_0,
                    )
                }
            },
        },
{
    let all = merged(output_events(start, t.captured), t.inserted);
    law_script_filters_come_first(s);
    if s.with_comments && !s.filters.contains(FilterView::Comment) {
        assert(effective(s) =~= s.filters + seq![FilterView::Comment]);
        law_filters_follow_one_another(
            s.filters,
            FilterView::Comment,
            seq![FilterView::Comment],
            h,
            all,
        );
        match all_applied(s.filters, h, all) {
            Err(e) => {},
            Ok(list) => {
                law_filters_follow_one_another(
                    s.filters,
                    FilterView::Comment,
                    seq![FilterView::Comment],
                    h,
                    list,
                );
            },
        }
    } else {
        assert(effective(s) =~= s.filters);
    }
}

/// Markers and comments that are not in the order of their times give no recording; nothing but
/// that and the filters can be wrong.
pub proof fn law_take_needs_order(t: TakeView, s: ScriptView, h: HeaderView, start: u64)
    ensures
        take_events(t, s, h, start) == Err::<Seq<EventView>, TakeFault>(TakeFault::Unsorted) <==> (
        exists|i: int, j: int|
            0 <= i < j < t.inserted.len() && (#[trigger] t.inserted[i]).time() > (
            #[trigger] t.inserted[j]).time()),
{
    if in_order(t.inserted) {
    } else {
        let (i, j) = choose|i: int, j: int|
            0 <= i <= j < t.inserted.len() && !((#[trigger] t.inserted[i]).time() <= (
            #[trigger] t.inserted[j]).time());
        assert(i < j);
        assert(t.inserted[i].time() > t.inserted[j].time());
    }
}

proof fn lemma_send_all_at(list: Seq<Seq<u8>>, delay: (i64, i64), i: int)
    ensures
        send_all(list, delay).len() == 3 * list.len(),
        0 <= i < list.len() ==> {
            &&& send_all(list, delay)[3 * i] == StepView::Write(list[i])
            &&& send_all(list, delay)[3 * i + 1] == StepView::Pause(delay)
            &&& send_all(list, delay)[3 * i + 2] == StepView::Capture
        },
    decreases list.len(),
{
    if list.len() > 0 {
        let front = list.drop_last();
        lemma_send_all_at(front, delay, i);
        let a = send_all(front, delay);
        let b = send(list.last(), delay);
        assert(send_all(list, delay) == a + b);
        if 0 <= i < front.len() {
            assert(front[i] == list[i]);
        }
    }
}

/// Text is typed unit by unit: the bytes of each, then a typing pause, then what came is captured.
/// The last unit is followed by the pause before a line, the pause behind it, which is remembered,
/// and another capture.
pub proof fn law_typing_goes_unit_by_unit(
    text: Seq<char>,
    delay: (i64, i64),
    pre: (i64, i64),
    post: (i64, i64),
    i: int,
)
    ensures
        typing(text, delay, pre, post) matches Ok(steps) ==> {
            let n = units(text).len() as int;
            &&& steps.len() == 3 * n + 3
            &&& 0 <= i < n ==> {
                &&& decoded(units(text)[i]) is Ok
                &&& steps[3 * i] == StepView::Write(decoded(units(text)[i])->Ok_0)
                &&& steps[3 * i + 1] == StepView::Pause(delay)
                &&& steps[3 * i + 2] == StepView::Capture
            }
            &&& steps[3 * n] == StepView::Pause(pre)
            &&& steps[3 * n + 1] == StepView::Settle(post)
            &&& steps[3 * n + 2] == StepView::Capture
        },
{
    lemma_send_all_at(unit_list(units(text)), delay, i);
    law_units_make_the_text(text);
}

/// A text is typed with the delays of the script, an input with its own delays round the line.
/// Behind either, a password prompt is looked for but not waited for. A text with an error in its
/// escapes is not typed at all.
pub proof fn law_lines_are_typed_with_their_delays(
    s: ScriptView,
    text: Seq<char>,
    pre_nl_delay: i64,
    post_nl_delay: i64,
)
    ensures
        match decoded(text) {
            Err(e) => {
                &&& action_steps(s, ActionView::Text(text)) == Err::<Seq<StepView>, EscapeError>(e)
                &&& action_steps(s, ActionView::Input { text, pre_nl_delay, post_nl_delay })
                    == Err::<Seq<StepView>, EscapeError>(e)
            },
            Ok(_) => {
                &&& typing(text, s.typing_delay, s.pre_nl_delay, s.post_nl_delay) matches Ok(typed)
                    && action_steps(s, ActionView::Text(text)) == Ok::<
                    Seq<StepView>,
                    EscapeError,
                >(typed + seq![StepView::SudoCheck { wait: false }])
                &&& typing(
                    text,
                    s.typing_delay,
                    (pre_nl_delay, pre_nl_delay),
                    (post_nl_delay, post_nl_delay),
                ) matches Ok(typed) && action_steps(
                    s,
                    ActionView::Input { text, pre_nl_delay, post_nl_delay },
                ) == Ok::<Seq<StepView>, EscapeError>(
                    typed + seq![StepView::SudoCheck { wait: false }],
                )
            },
        },
{
    if decoded(text) is Ok {
        let a = typing(text, s.typing_delay, s.pre_nl_delay, s.post_nl_delay)->Ok_0;
        assert(a + seq![StepView::SudoCheck { wait: false }] =~= a.push(
            StepView::SudoCheck { wait: false },
        ));
        let b = typing(
            text,
            s.typing_delay,
            (pre_nl_delay, pre_nl_delay),
            (post_nl_delay, post_nl_delay),
        )->Ok_0;
        assert(b + seq![StepView::SudoCheck { wait: false }] =~= b.push(
            StepView::SudoCheck { wait: false },
        ));
    }
}

/// Keys are pressed one by one: the bytes of each, then the key delay of the script, then what
/// came is captured. That is no line, and a password prompt is waited for behind it.
pub proof fn law_keys_are_pressed_one_by_one(s: ScriptView, keys: Seq<KeyPress>, i: int)
    ensures
        action_steps(s, ActionView::Key { keys }) matches Ok(steps) && {
            let n = keys.len() as int;
            &&& steps.len() == 3 * n + 2
            &&& 0 <= i < n ==> {
                &&& steps[3 * i] == StepView::Write(keys[i].bytes_view())
                &&& steps[3 * i + 1] == StepView::Pause(s.key_delay)
                &&& steps[3 * i + 2] == StepView::Capture
            }
            &&& steps[3 * n] == StepView::NoLine
            &&& steps[3 * n + 1] == (StepView::SudoCheck { wait: true })
        },
{
    lemma_send_all_at(key_list(keys), s.key_delay, i);
}

/// The password is typed character by character, with a typing pause and a capture behind each,
/// then one carriage return, and what came is captured.
pub proof fn law_password_goes_char_by_char(password: Seq<char>, delay: (i64, i64), i: int)
    ensures
        ({
            let steps = password_steps(password, delay);
            let n = password.len() as int;
            &&& steps.len() == 3 * n + 2
            &&& 0 <= i < n ==> {
                &&& steps[3 * i] == StepView::Write(encode_utf8(seq![password[i]]))
                &&& steps[3 * i + 1] == StepView::Pause(delay)
                &&& steps[3 * i + 2] == StepView::Capture
            }
            &&& steps[3 * n] == StepView::Write(seq![0x0du8])
            &&& steps[3 * n + 1] == StepView::Capture
        }),
{
    lemma_send_all_at(char_list(password), delay, i);
}

/// The other actions: a wait pauses for just its time, captures and is no line; an expectation
/// waits for its text for just its time and is no line; a marker and a comment are put in with
/// their text and send nothing; an end does nothing.
pub proof fn law_other_actions(
    s: ScriptView,
    nanos: i64,
    text: Seq<char>,
)
    ensures
        action_steps(s, ActionView::Wait { nanos }) == Ok::<Seq<StepView>, EscapeError>(
            seq![StepView::Pause((nanos, nanos)), StepView::Capture, StepView::NoLine],
        ),
        action_steps(s, ActionView::Expect { text, timeout: nanos }) == Ok::<
            Seq<StepView>,
            EscapeError,
        >(seq![StepView::Expect { needle: text, timeout: nanos }, StepView::NoLine]),
        action_steps(s, ActionView::Marker { label: text }) == Ok::<Seq<StepView>, EscapeError>(
            seq![StepView::Mark(text)],
        ),
        action_steps(s, ActionView::Comment { comment: text }) == Ok::<
            Seq<StepView>,
            EscapeError,
        >(seq![StepView::Caption(text)]),
        action_steps(s, ActionView::End) == Ok::<Seq<StepView>, EscapeError>(Seq::empty()),
{
}

/// An inline comment is typed as a text is, shown for its time, wiped with Ctrl-U, and followed by
/// a pause of the same time.
pub proof fn law_inline_comment_is_shown(s: ScriptView, text: Seq<char>, show: i64)
    ensures
        match action_steps(s, ActionView::Text(text)) {
            Err(e) => action_steps(s, ActionView::InlineComment { text, show }) == Err::<
                Seq<StepView>,
                EscapeError,
            >(e),
            Ok(typed) => action_steps(s, ActionView::InlineComment { text, show }) == Ok::<
                Seq<StepView>,
                EscapeError,
            >(
                typed + seq![
                    StepView::Pause((show, show)),
                    StepView::Capture,
                    StepView::NoLine,
                    StepView::Write(seq![0x15u8]),
                    StepView::Pause(s.key_delay),
                    StepView::Capture,
                    StepView::NoLine,
                    StepView::SudoCheck { wait: true },
                    StepView::Pause((show, show)),
                    StepView::Capture,
                    StepView::NoLine,
                ],
            ),
        },
{
    if decoded(text) is Ok {
        let typed = action_steps(s, ActionView::Text(text))->Ok_0;
        let press = pressing(seq![wipe()], s.key_delay);
        lemma_wiping(s.key_delay, show);
        assert(typed + pausing(show) + press + pausing(show) =~= typed + (pausing(show) + press
            + pausing(show)));
    }
}

/// The steps that show what was typed and wipe it.
proof fn lemma_wiping(delay: (i64, i64), show: i64)
    ensures
        pausing(show) + pressing(seq![wipe()], delay) + pausing(show) == seq![
            StepView::Pause((show, show)),
            StepView::Capture,
            StepView::NoLine,
            StepView::Write(seq![0x15u8]),
            StepView::Pause(delay),
            StepView::Capture,
            StepView::NoLine,
            StepView::SudoCheck { wait: true },
            StepView::Pause((show, show)),
            StepView::Capture,
            StepView::NoLine,
        ],
{
    let keys = key_list(seq![wipe()]);
    lemma_send_all_at(keys, delay, 0);
    let typed = send_all(keys, delay);
    assert(wipe().bytes_view() =~= seq![0x15u8]);
    assert(keys[0] == seq![0x15u8]);
    assert(typed.len() == 3);
    assert(typed[0] == StepView::Write(keys[0]));
    assert(typed[1] == StepView::Pause(delay));
    assert(typed[2] == StepView::Capture);
    let press = pressing(seq![wipe()], delay);
    assert(press.len() == 5);
    assert(press[0] == StepView::Write(seq![0x15u8]));
    assert(press[1] == StepView::Pause(delay));
    assert(press[2] == StepView::Capture);
    assert(press[3] == StepView::NoLine);
    assert(press[4] == (StepView::SudoCheck { wait: true }));
    let pause = pausing(show);
    assert(pause.len() == 3);
    let all = pause + press + pause;
    assert(all.len() == 11);
    assert(all[0] == pause[0] && all[1] == pause[1] && all[2] == pause[2]);
    assert(all[3] == press[0] && all[4] == press[1] && all[5] == press[2]);
    assert(all[6] == press[3] && all[7] == press[4]);
    assert(all[8] == pause[0] && all[9] == pause[1] && all[10] == pause[2]);
}

/// A recording begins with the start delay. It ends with the end delay, what comes until then is
/// kept, unless an end is among the actions: then it ends at once.
pub proof fn law_opening_and_closing(s: ScriptView)
    ensures
        opening_steps(s) == seq![StepView::Pause(s.start_delay), StepView::Capture],
        (exists|i: int| 0 <= i < s.actions.len() && #[trigger] s.actions[i] == ActionView::End)
            ==> closing_steps(s) == seq![StepView::Close { keep: false }],
        (forall|i: int| 0 <= i < s.actions.len() ==> #[trigger] s.actions[i] != ActionView::End)
            ==> closing_steps(s) == seq![
            StepView::Pause(s.end_delay),
            StepView::Capture,
            StepView::Close { keep: true },
        ],
{
    if has_end(s.actions) {
        let i = choose|i: int|
            0 <= i < s.actions.len() && #[trigger] s.actions[i] == ActionView::End;
        assert(s.actions[i] == ActionView::End);
    }
}

/// All actions are performed where none is an end; else all up to the first end, and it.
pub proof fn law_performed_up_to_the_end(before: Seq<ActionView>, after: Seq<ActionView>)
    requires
        forall|i: int| 0 <= i < before.len() ==> #[trigger] before[i] != ActionView::End,
    ensures
        performed(before) == before.len(),
        performed(before + seq![ActionView::End] + after) == before.len() + 1,
{
    law_nothing_behind_the_end(before);
    let all = before + seq![ActionView::End] + after;
    law_nothing_behind_the_end(all);
    assert(all[before.len() as int] == ActionView::End);
    assert(has_end(all));
    let n = performed(all);
    if n - 1 < before.len() {
        assert(all[n - 1] == before[n - 1]);
    }
    if has_end(before) {
        let i = choose|i: int| 0 <= i < before.len() && #[trigger] before[i] == ActionView::End;
        assert(before[i] != ActionView::End);
    }
}

/// A quotient is rounded to the whole number next to it.
proof fn lemma_rounded_ratio(n: int)
    ensures
        -2_500_000 <= 5_000_000 * rounded_ratio(n, 5_000_000) - n <= 2_500_000,
        n >= 0 ==> 5_000_000 * rounded_ratio(n, 5_000_000) - n > -2_500_000,
        n < 0 ==> 5_000_000 * rounded_ratio(n, 5_000_000) - n < 2_500_000,
        n >= 0 ==> rounded_ratio(n, 5_000_000) >= 0,
        n < 0 ==> rounded_ratio(n, 5_000_000) <= 0,
{
    let d: int = 5_000_000;
    if n >= 0 {
        let q = (2 * n + 5_000_000) / 10_000_000;
        assert(2 * d == 10_000_000);
        assert(rounded_ratio(n, d) == q);
    } else {
        let q = (2 * -n + 5_000_000) / 10_000_000;
        assert(2 * d == 10_000_000);
        assert(rounded_ratio(n, d) == -q);
    }
}

/// A marker is put at a whole millisecond, the one next to the moment that lies four fifths of the
/// remembered pause before now.
pub proof fn law_marker_stands_in_the_pause(elapsed: u64, newline_delay: i64)
    requires
        -46_116_860_184_270_000_000 <= 5 * elapsed - 4 * newline_delay
            <= 46_116_860_184_270_000_000,
    ensures
        mark_time(elapsed, newline_delay) % 1_000_000 == 0,
        -2_500_000 <= 5 * mark_time(elapsed, newline_delay) - (5 * elapsed - 4 * newline_delay)
            <= 2_500_000,
{
    let n: int = 5 * elapsed - 4 * newline_delay;
    let q: int = rounded_ratio(n, 5_000_000);
    lemma_rounded_ratio(n);
    assert(mark_time(elapsed, newline_delay) == q * 1_000_000);
}

/// A later moment never gives an earlier marker, nor does a shorter pause.
pub proof fn law_markers_keep_their_order(a: u64, b: u64, long: i64, short: i64)
    requires
        a <= b,
        short <= long,
    ensures
        mark_time(a, long) <= mark_time(b, short),
{
    let n: int = 5 * a - 4 * long;
    let m: int = 5 * b - 4 * short;
    lemma_rounded_ratio(n);
    lemma_rounded_ratio(m);
}

/// Whatever prompt of the list stands in the output, in whatever letter case and at whatever place,
/// the password is typed, unless it has been; and it is typed for nothing else. Where no prompt has
/// come, it is waited for just if it is to be.
pub proof fn law_every_prompt_is_answered(
    prompts: Seq<Seq<char>>,
    captured: Seq<ChunkView>,
    typed: bool,
    wait: bool,
    i: int,
    at: int,
)
    requires
        captured.len() > 0,
        0 <= i < prompts.len(),
        0 <= at,
        at + prompts[i].len() <= text_of(all_bytes(captured)).len(),
        forall|j: int|
            0 <= j < prompts[i].len() ==> lower_char(text_of(all_bytes(captured))[at + j])
                == lower_char(#[trigger] prompts[i][j]),
    ensures
        asks(captured, prompts),
        sudo_move(Some(prompts), typed, captured, wait) == (if typed {
            SudoMove::Skip
        } else {
            SudoMove::Type
        }),
{
    law_each_needle_counts(text_of(all_bytes(captured)), prompts, i, at);
}

/// The password is typed only for a prompt of the list that stands in the output, up to letter
/// case, and only where it has not been typed. Without prompts nothing is done, and what has not
/// come is waited for just if it is to be.
pub proof fn law_only_a_prompt_is_answered(
    prompts: Option<Seq<Seq<char>>>,
    captured: Seq<ChunkView>,
    typed: bool,
    wait: bool,
) -> (r: (int, int))
    ensures
        prompts is None || typed ==> sudo_move(prompts, typed, captured, wait) == SudoMove::Skip,
        sudo_move(prompts, typed, captured, wait) == SudoMove::Type ==> {
            let text = text_of(all_bytes(captured));
            &&& prompts is Some
            &&& captured.len() > 0
            &&& 0 <= r.0 < prompts->0.len()
            &&& 0 <= r.1
            &&& r.1 + prompts->0[r.0].len() <= text.len()
            &&& forall|j: int|
                0 <= j < prompts->0[r.0].len() ==> lower_char(text[r.1 + j]) == lower_char(
                    #[trigger] prompts->0[r.0][j],
                )
        },
        prompts is Some && !typed && sudo_move(prompts, typed, captured, wait) != SudoMove::Type
            ==> sudo_move(prompts, typed, captured, wait) == (if wait {
            SudoMove::Await
        } else {
            SudoMove::Skip
        }),
{
    if sudo_move(prompts, typed, captured, wait) == SudoMove::Type {
        law_a_match_is_a_needle(text_of(all_bytes(captured)), prompts->0)
    } else {
        (0, 0)
    }
}

/// The default prompts are answered each by itself: output that holds `assword` asks for a
/// password, in any letter case, and so does output that holds `[sudo]`.
pub proof fn law_default_prompts_are_answered(
    captured: Seq<ChunkView>,
    before: Seq<char>,
    prompt: Seq<char>,
    after: Seq<char>,
    wait: bool,
)
    requires
        captured.len() > 0,
        text_of(all_bytes(captured)) == before + prompt + after,
        lower(prompt) == "assword"@ || lower(prompt) == "[sudo]"@,
    ensures
        sudo_move(Some(default_prompts()), false, captured, wait) == SudoMove::Type,
{
    let list = default_prompts();
    reveal_strlit("assword");
    reveal_strlit("[sudo]");
    assert(list[0] == "assword"@ && list[1] == "[sudo]"@ && list.len() == 2);
    let i: int = if lower(prompt) == "assword"@ {
        0
    } else {
        1
    };
    assert(lower("assword"@) =~= "assword"@);
    assert(lower("[sudo]"@) =~= "[sudo]"@);
    assert(lower(list[i]) == list[i]);
    assert(lower(prompt) == list[i]);
    assert(lower(prompt).len() == prompt.len());
    let text = text_of(all_bytes(captured));
    let n = before.len() as int;
    assert forall|j: int| 0 <= j < list[i].len() implies lower_char(text[n + j]) == lower_char(
        #[trigger] list[i][j],
    ) by {
        assert(text[n + j] == prompt[j]);
        assert(lower(prompt)[j] == lower_char(prompt[j]));
        assert(lower(list[i])[j] == lower_char(list[i][j]));
    }
    law_every_prompt_is_answered(list, captured, false, wait, i, n);
}

} // verus!
