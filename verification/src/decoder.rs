//! Turning recorded keystrokes into actions.
//!
//! Bytes arrive in reads, each with the instant of its arrival in nanoseconds. Characters gather
//! into text, byte sequences of keys become key presses, and long gaps become waits. A sequence
//! that a read cuts short is kept until it can be told.

use crate::actions::{action_views, writable, Action, ActionView};
use crate::keys::{
    law_press_bytes_read_back, lemma_recordable_bytes, plain_press, press_sending, KeyBase,
    KeyName, KeyPress,
};
use crate::pty::text_of;
use crate::text::{append_chars, chars_of, string_of};
use crate::utf8::{cut_short, first_char, lemma_char_bytes, lossy_text, FirstChar};
use crate::yaml::plain_action;
use vstd::prelude::*;
use vstd::utf8::{
    decode_first_scalar, decode_utf8_first_scalar, encode_scalar, encode_utf8, pop_first_scalar,
    take_first_scalar, valid_first_scalar, valid_utf8,
};

verus! {

/// Collects keystrokes as actions.
pub struct Decoder {
    wait_threshold_ms: u64,
    wait_round_ms: u64,
    pending: Vec<u8>,
    text: Vec<char>,
    last_input: Option<u64>,
    pending_wait: Option<i64>,
    actions: Vec<Action>,
}

/// What has been collected.
#[verifier::ext_equal]
pub struct Collected {
    /// Bytes that are not told yet.
    pub pending: Seq<u8>,
    /// Characters of the text that is being typed.
    pub text: Seq<char>,
    /// A wait that comes before the next action.
    pub owed: Option<i64>,
    /// Finished actions.
    pub actions: Seq<ActionView>,
}

/// The number of nanoseconds in a millisecond.
pub const MILLI: u64 = 1_000_000;

/// The multiple of `step` next to `n`, halves up.
pub open spec fn nearest(n: int, step: int) -> int {
    (2 * n + step) / (2 * step) * step
}

/// A number of nanoseconds, or the largest one that a time can have.
pub open spec fn capped(n: int) -> i64 {
    if n > i64::MAX {
        i64::MAX
    } else {
        n as i64
    }
}

/// A gap as a wait: rounded to the given number of milliseconds, or to one millisecond.
pub open spec fn rounded_gap(gap: u64, round_ms: u64) -> i64 {
    let step: int = if round_ms == 0 {
        MILLI as int
    } else {
        round_ms * MILLI
    };
    capped(nearest(gap as int, step))
}

impl Collected {
    /// With the owed wait written down, unless it is zero.
    pub open spec fn wait_flushed(self) -> Collected {
        match self.owed {
            Some(nanos) => Collected {
                owed: None,
                actions: if nanos > 0 {
                    self.actions.push(ActionView::Wait { nanos })
                } else {
                    self.actions
                },
                ..self
            },
            None => self,
        }
    }

    /// With the text written down, if there is any.
    pub open spec fn text_flushed(self) -> Collected {
        if self.text.len() == 0 {
            self
        } else {
            let w = self.wait_flushed();
            Collected {
                text: Seq::empty(),
                actions: w.actions.push(ActionView::Text(self.text)),
                ..w
            }
        }
    }

    /// With one more key press, in one action with the presses before it.
    pub open spec fn pressed(self, key: KeyPress) -> Collected {
        let w = self.text_flushed().wait_flushed();
        let n = w.actions.len() as int;
        if n > 0 && w.actions[n - 1] is Key {
            Collected {
                actions: w.actions.drop_last().push(
                    ActionView::Key { keys: w.actions[n - 1]->keys.push(key) },
                ),
                ..w
            }
        } else {
            Collected { actions: w.actions.push(ActionView::Key { keys: seq![key] }), ..w }
        }
    }

    /// With one more character of text.
    pub open spec fn typed(self, c: char) -> Collected {
        Collected { text: self.text.push(c), ..self }
    }

    /// With a gap noted: it comes behind what has been typed.
    pub open spec fn gap_noted(self, wait: i64) -> Collected {
        let t = self.text_flushed();
        Collected {
            owed: Some(
                match t.owed {
                    Some(more) => capped(more + wait),
                    None => wait,
                },
            ),
            ..t
        }
    }

    /// Without the first `n` bytes that are not told.
    pub open spec fn dropped(self, n: int) -> Collected {
        Collected { pending: self.pending.skip(n), ..self }
    }
}

/// Whether more bytes could make `seq` the sequence of a key.
pub open spec fn could_grow(seq: Seq<u8>) -> bool {
    exists|p: KeyPress| #[trigger] grows_into(seq, p)
}

/// Whether `seq` is the beginning of the sequence of `p`, but not all of it.
pub open spec fn grows_into(seq: Seq<u8>, p: KeyPress) -> bool {
    p.recordable() && p.bytes_view().len() > seq.len() && p.bytes_view().take(seq.len() as int)
        == seq
}

/// The longest beginning of at most `n` bytes that is the sequence of a key.
pub open spec fn longest_key(seq: Seq<u8>, n: int) -> int
    decreases n,
{
    if n <= 0 {
        0
    } else if press_sending(seq.take(n)) is Some {
        n
    } else {
        longest_key(seq, n - 1)
    }
}

/// The longest sequence of a key.
pub const MAX_KEY_LEN: usize = 6;

/// The smaller of two numbers.
pub open spec fn smaller(a: int, b: int) -> int {
    if a <= b {
        a
    } else {
        b
    }
}

/// What becomes of collected bytes that begin with ESC: nothing as long as they could grow into a
/// longer key, else the longest key that they begin with.
pub open spec fn escape_step(s: Collected) -> Option<Collected> {
    if could_grow(s.pending) {
        None
    } else {
        let n = longest_key(s.pending, smaller(MAX_KEY_LEN as int, s.pending.len() as int));
        Some(s.pressed(press_sending(s.pending.take(n))->0).dropped(n))
    }
}

/// What becomes of collected bytes that begin with another byte: a key of one byte is pressed, a
/// line feed is Enter, any other control byte goes; a character is typed once it is complete, and
/// a byte that begins none goes.
pub open spec fn plain_step(s: Collected) -> Option<Collected> {
    let first = s.pending[0];
    match press_sending(seq![first]) {
        Some(key) => Some(s.pressed(key).dropped(1)),
        None => {
            if first == 0x0a {
                Some(s.pressed(plain_press(KeyName::Enter)).dropped(1))
            } else if first < 0x20 || first == 0x7f {
                Some(s.dropped(1))
            } else if valid_first_scalar(s.pending) {
                Some(
                    (Collected {
                        pending: pop_first_scalar(s.pending),
                        ..s.typed(decode_first_scalar(s.pending) as char)
                    }),
                )
            } else if cut_short(s.pending) {
                None
            } else {
                Some(s.dropped(1))
            }
        },
    }
}

/// What becomes of the collected bytes in one step; nothing if more are needed.
pub open spec fn next_step(s: Collected) -> Option<Collected> {
    if s.pending.len() == 0 {
        None
    } else if s.pending[0] == 0x1b {
        escape_step(s)
    } else {
        plain_step(s)
    }
}

/// What becomes of the collected bytes as far as they can be told.
pub open spec fn settled(s: Collected) -> Collected
    decreases s.pending.len(),
{
    match next_step(s) {
        None => s,
        Some(t) => if t.pending.len() < s.pending.len() {
            settled(t)
        } else {
            t
        },
    }
}

/// One more byte.
pub open spec fn fed(s: Collected, b: u8) -> Collected {
    settled(Collected { pending: s.pending.push(b), ..s })
}

/// More bytes, one after the other.
pub open spec fn fed_all(s: Collected, bytes: Seq<u8>) -> Collected
    decreases bytes.len(),
{
    if bytes.len() == 0 {
        s
    } else {
        fed(fed_all(s, bytes.drop_last()), bytes.last())
    }
}

/// The actions at the end, given the text that the bytes left over are decoded as: that text
/// stands as it is behind what was typed.
pub open spec fn finished(s: Collected, leftover: Seq<char>) -> Seq<ActionView> {
    (Collected { text: s.text + leftover, ..s }).text_flushed().actions
}

impl Decoder {
    /// What has been collected.
    pub closed spec fn collected(self) -> Collected {
        Collected {
            pending: self.pending@,
            text: self.text@,
            owed: self.pending_wait,
            actions: action_views(self.actions@),
        }
    }

    /// When the last read arrived.
    pub closed spec fn last(self) -> Option<u64> {
        self.last_input
    }

    /// The gap from which on a wait is recorded, in milliseconds.
    pub closed spec fn threshold_ms(self) -> u64 {
        self.wait_threshold_ms
    }

    /// What waits are rounded to, in milliseconds; zero for no rounding.
    pub closed spec fn round_ms(self) -> u64 {
        self.wait_round_ms
    }

    /// A decoder that has collected nothing.
    pub fn new(wait_threshold_ms: u64, wait_round_ms: u64) -> (r: Decoder)
        ensures
            r.threshold_ms() == wait_threshold_ms,
            r.round_ms() == wait_round_ms,
            r.last() is None,
            r.collected() == (Collected {
                pending: Seq::empty(),
                text: Seq::empty(),
                owed: None,
                actions: Seq::empty(),
            }),
    {
        let r = Decoder {
            wait_threshold_ms,
            wait_round_ms,
            pending: Vec::new(),
            text: Vec::new(),
            last_input: None,
            pending_wait: None,
            actions: Vec::new(),
        };
        proof {
            assert(action_views(r.actions@) =~= Seq::<ActionView>::empty());
        }
        r
    }

    /// Everything but what has been collected.
    closed spec fn same_settings(self, other: Decoder) -> bool {
        &&& self.wait_threshold_ms == other.wait_threshold_ms
        &&& self.wait_round_ms == other.wait_round_ms
        &&& self.last_input == other.last_input
    }

    /// Writes the owed wait down.
    fn flush_wait(&mut self)
        ensures
            final(self).collected() == old(self).collected().wait_flushed(),
            final(self).same_settings(*old(self)),
    {
        if let Some(nanos) = self.pending_wait {
            self.pending_wait = None;
            if nanos > 0 {
                self.actions.push(Action::Wait { nanos });
                proof {
                    assert(action_views(self.actions@) =~= action_views(old(self).actions@).push(
                        ActionView::Wait { nanos },
                    ));
                }
            }
        }
    }

    /// Writes the text down.
    fn flush_text(&mut self)
        ensures
            final(self).collected() == old(self).collected().text_flushed(),
            final(self).same_settings(*old(self)),
    {
        if self.text.len() > 0 {
            self.flush_wait();
            let ghost before = self.collected();
            let text = string_of(self.text.as_slice());
            self.text = Vec::new();
            let ghost acts = self.actions@;
            self.actions.push(Action::Text(text));
            proof {
                assert(action_views(self.actions@) =~= action_views(acts).push(
                    ActionView::Text(text@),
                ));
                assert(self.text@ =~= Seq::<char>::empty());
            }
        }
    }

    /// Presses a key.
    fn push_key(&mut self, key: KeyPress)
        ensures
            final(self).collected() == old(self).collected().pressed(key),
            final(self).same_settings(*old(self)),
    {
        self.flush_text();
        self.flush_wait();
        let ghost w = self.collected();
        let ghost acts = self.actions@;
        match self.actions.pop() {
            Some(Action::Key { keys }) => {
                let mut keys = keys;
                proof {
                    assert(acts.last()@ == (ActionView::Key { keys: keys@ }));
                    assert(w.actions[w.actions.len() - 1] == acts.last()@);
                }
                keys.push(key);
                let ghost front = self.actions@;
                self.actions.push(Action::Key { keys });
                proof {
                    assert(action_views(front) =~= w.actions.drop_last());
                    assert(action_views(self.actions@) =~= action_views(front).push(
                        ActionView::Key { keys: keys@ },
                    ));
                }
            },
            Some(other) => {
                let ghost front = self.actions@;
                proof {
                    assert(w.actions[w.actions.len() - 1] == acts.last()@);
                }
                self.actions.push(other);
                proof {
                    assert(self.actions@ =~= acts);
                }
                self.push_new_key(key);
            },
            None => {
                proof {
                    assert(self.actions@ =~= acts);
                }
                self.push_new_key(key);
            },
        }
    }

    /// Adds an action of one key press.
    fn push_new_key(&mut self, key: KeyPress)
        ensures
            final(self).collected() == (Collected {
                actions: old(self).collected().actions.push(ActionView::Key { keys: seq![key] }),
                ..old(self).collected()
            }),
            final(self).same_settings(*old(self)),
    {
        let mut keys: Vec<KeyPress> = Vec::new();
        keys.push(key);
        proof {
            assert(keys@ =~= seq![key]);
        }
        self.actions.push(Action::Key { keys });
        proof {
            assert(action_views(self.actions@) =~= action_views(old(self).actions@).push(
                ActionView::Key { keys: seq![key] },
            ));
        }
    }

    /// Forgets the first `n` bytes that are not told.
    fn drop_pending(&mut self, n: usize)
        requires
            n <= old(self).collected().pending.len(),
        ensures
            final(self).collected() == old(self).collected().dropped(n as int),
            final(self).same_settings(*old(self)),
    {
        let rest = vstd::slice::slice_to_vec(
            vstd::slice::slice_subrange(self.pending.as_slice(), n, self.pending.len()),
        );
        proof {
            assert(rest@ =~= self.pending@.skip(n as int));
        }
        self.pending = rest;
    }
}

/// The modifiers that a digit of a key sequence stands for, with a key.
spec fn coded_press(key: KeyName, digit: u8) -> KeyPress {
    KeyPress {
        ctrl: digit >= 0x35,
        alt: digit == 0x33 || digit == 0x34 || digit == 0x37 || digit == 0x38,
        shift: digit == 0x32 || digit == 0x34 || digit == 0x36 || digit == 0x38,
        base: KeyBase::Named(key),
    }
}

/// A key whose modified sequence has that first parameter.
spec fn coded_key(lead: u8) -> KeyName {
    if lead == 0x31 {
        KeyName::Up
    } else if lead == 0x33 {
        KeyName::Delete
    } else if lead == 0x35 {
        KeyName::PageUp
    } else {
        KeyName::PageDown
    }
}

/// The shape of the sequences that begin a key.
spec fn begins_key(s: Seq<u8>) -> bool {
    &&& s.len() > 1 ==> s[1] == 0x5b || (s[1] == 0x4f && s.len() == 2)
    &&& s.len() > 2 ==> s[2] == 0x31 || s[2] == 0x33 || s[2] == 0x35 || s[2] == 0x36
    &&& s.len() > 3 ==> s[3] == 0x3b
    &&& s.len() > 4 ==> 0x32 <= s[4] <= 0x38
    &&& s.len() <= 5
}

proof fn lemma_could_grow(s: Seq<u8>)
    requires
        s.len() > 0,
        s[0] == 0x1b,
    ensures
        could_grow(s) == begins_key(s),
{
    if begins_key(s) {
        let p = if s.len() == 1 {
            plain_press(KeyName::Up)
        } else if s.len() == 2 {
            if s[1] == 0x4f {
                plain_press(KeyName::Up)
            } else {
                plain_press(KeyName::Home)
            }
        } else if s.len() < 5 {
            coded_press(coded_key(s[2]), 0x35)
        } else {
            coded_press(coded_key(s[2]), s[4])
        };
        lemma_recordable_bytes(p);
        assert(p.bytes_view().take(s.len() as int) =~= s);
        assert(grows_into(s, p));
    } else {
        assert forall|p: KeyPress| !#[trigger] grows_into(s, p) by {
            if grows_into(s, p) {
                lemma_recordable_bytes(p);
                let b = p.bytes_view();
                assert forall|i: int| 0 <= i < s.len() implies s[i] == b[i] by {
                    assert(b.take(s.len() as int)[i] == b[i]);
                }
            }
        }
    }
}

/// Whether more bytes could make `seq` the sequence of a key.
fn may_grow(seq: &[u8]) -> (r: bool)
    requires
        seq@.len() > 0,
        seq@[0] == 0x1b,
    ensures
        r == could_grow(seq@),
{
    proof {
        lemma_could_grow(seq@);
    }
    let n: usize = seq.len();
    if n > 5 {
        return false;
    }
    if n > 1 && !(seq[1] == 0x5b || (seq[1] == 0x4f && n == 2)) {
        return false;
    }
    if n > 2 && !(seq[2] == 0x31 || seq[2] == 0x33 || seq[2] == 0x35 || seq[2] == 0x36) {
        return false;
    }
    if n > 3 && seq[3] != 0x3b {
        return false;
    }
    if n > 4 && !(0x32 <= seq[4] && seq[4] <= 0x38) {
        return false;
    }
    true
}

proof fn lemma_longest_key(seq: Seq<u8>, n: int)
    requires
        seq.len() > 0,
        seq[0] == 0x1b,
        1 <= n <= seq.len(),
    ensures
        1 <= longest_key(seq, n) <= n,
        press_sending(seq.take(longest_key(seq, n))) is Some,
    decreases n,
{
    if n == 1 {
        let esc = plain_press(KeyName::Esc);
        assert(seq.take(1) =~= esc.bytes_view());
        law_press_bytes_read_back(esc);
    } else if press_sending(seq.take(n)) is None {
        lemma_longest_key(seq, n - 1);
    }
}

proof fn lemma_step_shrinks(s: Collected)
    ensures
        next_step(s) matches Some(t) ==> t.pending.len() < s.pending.len(),
{
    if s.pending.len() > 0 && s.pending[0] == 0x1b {
        lemma_longest_key(
            s.pending,
            smaller(MAX_KEY_LEN as int, s.pending.len() as int),
        );
    }
}

impl Decoder {
    /// Tells a sequence that begins with ESC, unless more bytes are needed.
    fn try_resolve_escape(&mut self) -> (r: bool)
        requires
            old(self).collected().pending.len() > 0,
            old(self).collected().pending[0] == 0x1b,
        ensures
            final(self).same_settings(*old(self)),
            match escape_step(old(self).collected()) {
                Some(t) => r && final(self).collected() == t,
                None => !r && final(self).collected() == old(self).collected(),
            },
    {
        if may_grow(self.pending.as_slice()) {
            return false;
        }
        let ghost seq = self.pending@;
        let limit: usize = if self.pending.len() < MAX_KEY_LEN {
            self.pending.len()
        } else {
            MAX_KEY_LEN
        };
        proof {
            lemma_longest_key(seq, limit as int);
        }
        let mut n: usize = limit;
        while n > 0
            invariant
                n <= limit <= self.pending@.len(),
                seq == self.pending@,
                *self == *old(self),
                limit == smaller(MAX_KEY_LEN as int, seq.len() as int),
                longest_key(seq, limit as int) == longest_key(seq, n as int),
                1 <= longest_key(seq, limit as int),
                !could_grow(seq),
                seq == old(self).collected().pending,
            decreases n,
        {
            let front = vstd::slice::slice_subrange(self.pending.as_slice(), 0, n);
            proof {
                assert(front@ =~= seq.take(n as int));
            }
            if let Some(key) = KeyPress::from_bytes(front) {
                self.push_key(key);
                self.drop_pending(n);
                return true;
            }
            n -= 1;
        }
        false
    }

    /// Tells a sequence that does not begin with ESC, unless more bytes are needed.
    fn try_resolve_simple(&mut self) -> (r: bool)
        requires
            old(self).collected().pending.len() > 0,
        ensures
            final(self).same_settings(*old(self)),
            match plain_step(old(self).collected()) {
                Some(t) => r && final(self).collected() == t,
                None => !r && final(self).collected() == old(self).collected(),
            },
    {
        let first = self.pending[0];
        let one = [first];
        proof {
            assert(one@ =~= seq![first]);
        }
        if let Some(key) = KeyPress::from_bytes(one.as_slice()) {
            self.push_key(key);
            self.drop_pending(1);
            return true;
        }
        if first == 0x0a {
            self.push_key(KeyPress::from(KeyName::Enter));
            self.drop_pending(1);
            return true;
        }
        if first < 0x20 || first == 0x7f {
            self.drop_pending(1);
            return true;
        }
        match first_char(self.pending.as_slice()) {
            FirstChar::Char(c, n) => {
                proof {
                    assert(self.pending@.skip(n as int) =~= pop_first_scalar(self.pending@));
                }
                self.text.push(c);
                self.drop_pending(n);
                true
            },
            FirstChar::Cut => false,
            FirstChar::Bad => {
                self.drop_pending(1);
                true
            },
        }
    }

    /// Tells the collected bytes as far as possible.
    fn try_resolve(&mut self)
        ensures
            final(self).collected() == settled(old(self).collected()),
            final(self).same_settings(*old(self)),
    {
        while self.pending.len() > 0
            invariant
                settled(self.collected()) == settled(old(self).collected()),
                self.same_settings(*old(self)),
            decreases self.pending@.len(),
        {
            let ghost before = self.collected();
            proof {
                lemma_step_shrinks(before);
            }
            let told = if self.pending[0] == 0x1b {
                self.try_resolve_escape()
            } else {
                self.try_resolve_simple()
            };
            if !told {
                return;
            }
        }
    }

    /// Takes in a read that arrived at `instant`. A gap since the read before that reaches the
    /// threshold becomes a wait before the next action.
    pub fn feed(&mut self, bytes: &[u8], instant: u64)
        ensures
            final(self).last() == Some(instant),
            final(self).threshold_ms() == old(self).threshold_ms(),
            final(self).round_ms() == old(self).round_ms(),
            final(self).collected() == fed_all(
                after_gap(
                    old(self).collected(),
                    old(self).last(),
                    instant,
                    old(self).threshold_ms(),
                    old(self).round_ms(),
                ),
                bytes@,
            ),
    {
        if let Some(before) = self.last_input {
            let gap: u64 = if instant >= before {
                instant - before
            } else {
                0
            };
            if gap as u128 >= self.wait_threshold_ms as u128 * MILLI as u128 {
                self.note_gap(gap);
            }
        }
        self.last_input = Some(instant);
        let ghost start = self.collected();
        let ghost this = *self;
        let mut i: usize = 0;
        proof {
            assert(bytes@.take(0) =~= Seq::<u8>::empty());
        }
        while i < bytes.len()
            invariant
                i <= bytes@.len(),
                self.collected() == fed_all(start, bytes@.take(i as int)),
                self.same_settings(this),
            decreases bytes@.len() - i,
        {
            let ghost so_far = self.collected();
            let b = bytes[i];
            self.pending.push(b);
            proof {
                assert(self.collected() =~= Collected {
                    pending: so_far.pending.push(b),
                    ..so_far
                });
                assert(bytes@.take(i + 1).drop_last() =~= bytes@.take(i as int));
            }
            self.try_resolve();
            i += 1;
        }
        proof {
            assert(bytes@.take(i as int) =~= bytes@);
        }
    }

    /// Notes a gap.
    fn note_gap(&mut self, gap: u64)
        ensures
            final(self).collected() == old(self).collected().gap_noted(
                rounded_gap(gap, old(self).round_ms()),
            ),
            final(self).same_settings(*old(self)),
    {
        self.flush_text();
        let wait = round_wait(gap, self.wait_round_ms);
        let total: i64 = match self.pending_wait {
            Some(more) => {
                let sum: i128 = more as i128 + wait as i128;
                if sum > 0x7fff_ffff_ffff_ffff {
                    0x7fff_ffff_ffff_ffff
                } else {
                    sum as i64
                }
            },
            None => wait,
        };
        self.pending_wait = Some(total);
    }

    /// Ends the recording, given the text that the bytes left over are decoded as.
    pub fn finish_with(self, leftover: &str) -> (r: Vec<Action>)
        ensures
            action_views(r@) == finished(self.collected(), leftover@),
    {
        let mut this = self;
        let chars = chars_of(leftover);
        append_chars(&mut this.text, chars.as_slice());
        proof {
            assert(this.collected() =~= Collected {
                text: self.text@ + leftover@,
                ..self.collected()
            });
        }
        this.flush_text();
        this.actions
    }

    /// Ends the recording. Bytes that were not told become text, so that nothing goes.
    pub fn finish(self) -> (r: Vec<Action>)
        ensures
            action_views(r@) == finished(self.collected(), text_of(self.collected().pending)),
    {
        let leftover = lossy_text(self.pending.as_slice());
        self.finish_with(leftover.as_str())
    }
}

/// What has been collected when a read arrives at `instant`, with the gap before it noted.
pub open spec fn after_gap(
    s: Collected,
    last: Option<u64>,
    instant: u64,
    threshold_ms: u64,
    round_ms: u64,
) -> Collected {
    match last {
        Some(before) => {
            let gap: int = if instant >= before {
                instant - before
            } else {
                0
            };
            if gap >= threshold_ms * MILLI {
                s.gap_noted(rounded_gap(gap as u64, round_ms))
            } else {
                s
            }
        },
        None => s,
    }
}

/// Rounds a gap.
fn round_wait(gap: u64, round_ms: u64) -> (r: i64)
    ensures
        r == rounded_gap(gap, round_ms),
{
    let step: u128 = if round_ms == 0 {
        MILLI as u128
    } else {
        round_ms as u128 * MILLI as u128
    };
    let count: u128 = (2 * gap as u128 + step) / (2 * step);
    proof {
        let g = gap as int;
        let t = step as int;
        assert(count * t <= g + t) by (nonlinear_arith)
            requires
                count == (2 * g + t) / (2 * t),
                t > 0,
                g >= 0,
        ;
    }
    let wait: u128 = count * step;
    if wait > 0x7fff_ffff_ffff_ffff {
        0x7fff_ffff_ffff_ffff
    } else {
        wait as i64
    }
}

/// How keystrokes are cut into reads does not matter.
pub proof fn law_reads_can_be_cut(s: Collected, a: Seq<u8>, b: Seq<u8>)
    ensures
        fed_all(s, a + b) == fed_all(fed_all(s, a), b),
    decreases b.len(),
{
    if b.len() == 0 {
        assert(a + b =~= a);
    } else {
        law_reads_can_be_cut(s, a, b.drop_last());
        assert((a + b).drop_last() =~= a + b.drop_last());
        assert((a + b).last() == b.last());
    }
}

/// Bytes that cannot be told before the last of them wait until then.
proof fn lemma_waits(s: Collected, bytes: Seq<u8>, n: int)
    requires
        s.pending.len() == 0,
        0 <= n <= bytes.len(),
        forall|i: int|
            0 < i <= n ==> next_step(
                (Collected { pending: #[trigger] bytes.take(i), ..s }),
            ) is None,
    ensures
        fed_all(s, bytes.take(n)) == (Collected { pending: bytes.take(n), ..s }),
    decreases n,
{
    if n > 0 {
        lemma_waits(s, bytes, n - 1);
        let front = bytes.take(n);
        assert(front.drop_last() =~= bytes.take(n - 1));
        assert(bytes.take(n - 1).push(front.last()) =~= front);
        assert(next_step((Collected { pending: bytes.take(n), ..s })) is None);
    } else {
        assert(bytes.take(0) =~= s.pending);
    }
}

/// Where all but the last byte have waited, the last one settles them.
proof fn lemma_last_byte(s: Collected, bytes: Seq<u8>, full: Collected, after: Collected)
    requires
        bytes.len() > 0,
        fed_all(s, bytes.drop_last()) == (Collected { pending: bytes.drop_last(), ..s }),
        full == (Collected { pending: bytes, ..s }),
        next_step(full) == Some(after),
        next_step(after) is None,
        after.pending.len() < bytes.len(),
    ensures
        fed_all(s, bytes) == after,
{
    let x = fed_all(s, bytes.drop_last());
    assert(bytes.drop_last().push(bytes.last()) =~= bytes);
    assert(Collected { pending: x.pending.push(bytes.last()), ..x } =~= full);
    assert(settled(after) == after);
    assert(settled(full) == settled(after));
}

/// The bytes of a press that can be told are recorded as that press. The Esc key alone is left
/// out: more could follow its byte.
pub proof fn law_key_is_recorded(s: Collected, p: KeyPress)
    requires
        s.pending.len() == 0,
        p.recordable(),
        p != plain_press(KeyName::Esc),
    ensures
        fed_all(s, p.bytes_view()) == s.pressed(p),
{
    let b = p.bytes_view();
    let n = b.len() as int;
    lemma_recordable_bytes(p);
    law_press_bytes_read_back(p);
    assert(n >= 1);
    assert forall|i: int| 0 < i <= n - 1 implies next_step(
        (Collected { pending: #[trigger] b.take(i), ..s }),
    ) is None by {
        assert(b.take(i)[0] == 0x1b);
        assert(b.take(i).len() == i);
        assert(grows_into(b.take(i), p));
    }
    lemma_waits(s, b, n - 1);
    assert(b.drop_last() =~= b.take(n - 1));
    assert(b.take(n - 1).push(b.last()) =~= b);
    let full = Collected { pending: b, ..s };
    let after = s.pressed(p);
    assert(full.pressed(p) == (Collected { pending: b, ..after }));
    assert(b.skip(n) =~= s.pending);
    assert(full.pressed(p).dropped(n) =~= after);
    assert(next_step(after) is None);
    if n == 1 {
        assert(b =~= seq![b[0]]);
        assert(next_step(full) == Some(after));
    } else {
        lemma_could_grow(b);
        assert(b.take(n) =~= b);
        assert(longest_key(b, n) == n);
        assert(next_step(full) == Some(after));
    }
    lemma_last_byte(s, b, full, after);
}

/// Only control bytes, the space and the delete byte are keys of one byte.
proof fn lemma_single_byte_keys(b: u8)
    requires
        b > 0x20,
        b != 0x7f,
    ensures
        press_sending(seq![b]) is None,
{
    assert forall|p: KeyPress| p.recordable() implies #[trigger] p.bytes_view() != seq![b] by {
        lemma_recordable_bytes(p);
        if p.bytes_view() == seq![b] {
            assert(p.bytes_view()[0] == b);
            assert(p.bytes_view().len() == 1);
        }
    }
}

/// One character that is not a key is recorded as text.
proof fn lemma_char_is_recorded(s: Collected, c: char)
    requires
        s.pending.len() == 0,
        c > ' ',
        c != '\u{7f}',
    ensures
        fed_all(s, encode_scalar(c as u32)) == s.typed(c),
{
    let e = encode_scalar(c as u32);
    let n = e.len() as int;
    lemma_char_bytes(c);
    lemma_single_byte_keys(e[0]);
    assert forall|i: int| 0 < i <= n - 1 implies next_step(
        (Collected { pending: #[trigger] e.take(i), ..s }),
    ) is None by {
        assert(e.take(i)[0] == e[0]);
        assert(!valid_first_scalar(e.take(i)) && cut_short(e.take(i)));
    }
    lemma_waits(s, e, n - 1);
    assert(e.drop_last() =~= e.take(n - 1));
    assert(e.take(n - 1).push(e.last()) =~= e);
    let full = Collected { pending: e, ..s };
    let after = s.typed(c);
    assert(pop_first_scalar(e) =~= s.pending);
    assert(next_step(full) == Some(after));
    assert(next_step(after) is None);
    lemma_last_byte(s, e, full, after);
}

/// Text without spaces and control characters is recorded as it is.
pub proof fn law_text_is_recorded(s: Collected, text: Seq<char>)
    requires
        s.pending.len() == 0,
        forall|i: int| 0 <= i < text.len() ==> #[trigger] text[i] > ' ' && text[i] != '\u{7f}',
    ensures
        fed_all(s, encode_utf8(text)) == (Collected { text: s.text + text, ..s }),
    decreases text.len(),
{
    if text.len() == 0 {
        assert(s.text + text =~= s.text);
    } else {
        let c = text[0];
        let rest = text.drop_first();
        assert forall|i: int| 0 <= i < rest.len() implies #[trigger] rest[i] > ' ' && rest[i]
            != '\u{7f}' by {
            assert(rest[i] == text[i + 1]);
        }
        lemma_char_is_recorded(s, c);
        law_text_is_recorded(s.typed(c), rest);
        law_reads_can_be_cut(s, encode_scalar(c as u32), encode_utf8(rest));
        assert(s.text.push(c) + rest =~= s.text + text);
    }
}

/// The bytes that presses send, one after the other.
pub open spec fn bytes_of_keys(keys: Seq<KeyPress>) -> Seq<u8>
    decreases keys.len(),
{
    if keys.len() == 0 {
        Seq::empty()
    } else {
        bytes_of_keys(keys.drop_last()) + keys.last().bytes_view()
    }
}

impl Collected {
    /// With more key presses, one after the other.
    pub open spec fn all_pressed(self, keys: Seq<KeyPress>) -> Collected
        decreases keys.len(),
    {
        if keys.len() == 0 {
            self
        } else {
            self.all_pressed(keys.drop_last()).pressed(keys.last())
        }
    }
}

/// An ESC that waits is the Esc key once another key follows.
proof fn lemma_esc_is_told(s: Collected, p: KeyPress)
    requires
        s.pending.len() == 0,
        p.recordable(),
    ensures
        fed_all((Collected { pending: seq![0x1bu8], ..s }), p.bytes_view()) == fed_all(
            s.pressed(plain_press(KeyName::Esc)),
            p.bytes_view(),
        ),
{
    let esc = plain_press(KeyName::Esc);
    let x = Collected { pending: seq![0x1bu8], ..s };
    let y = s.pressed(esc);
    let b = p.bytes_view();
    lemma_recordable_bytes(p);
    let first = b[0];
    let two = seq![0x1bu8, first];
    let full = Collected { pending: x.pending.push(first), ..x };
    assert(full.pending =~= two);
    lemma_could_grow(two);
    assert(!could_grow(two));
    assert(esc.bytes_view() =~= seq![0x1bu8]);
    law_press_bytes_read_back(esc);
    assert forall|q: KeyPress| q.recordable() implies #[trigger] q.bytes_view() != two by {
        lemma_recordable_bytes(q);
        if q.bytes_view() == two {
            assert(q.bytes_view().len() == 2);
        }
    }
    assert(two.take(2) =~= two);
    assert(two.take(1) =~= seq![0x1bu8]);
    assert(longest_key(two, 1) == 1);
    assert(longest_key(two, 2) == 1);
    let after = Collected { pending: y.pending.push(first), ..y };
    assert(full.pressed(esc).dropped(1) =~= after);
    assert(next_step(full) == Some(after));
    assert(fed(x, first) == fed(y, first));
    let head = seq![first];
    let rest = b.skip(1);
    assert(head + rest =~= b);
    law_reads_can_be_cut(x, head, rest);
    law_reads_can_be_cut(y, head, rest);
    assert(head.drop_last() =~= Seq::<u8>::empty());
    assert(fed_all(x, head.drop_last()) == x);
    assert(fed_all(y, head.drop_last()) == y);
    assert(fed_all(x, head) == fed(x, first));
    assert(fed_all(y, head) == fed(y, first));
}

/// Presses in a row are recorded as those presses; an Esc at the end waits.
proof fn lemma_keys_are_recorded(s: Collected, keys: Seq<KeyPress>)
    requires
        s.pending.len() == 0,
        forall|i: int| 0 <= i < keys.len() ==> (#[trigger] keys[i]).recordable(),
    ensures
        s.all_pressed(keys).pending.len() == 0,
        fed_all(s, bytes_of_keys(keys)) == (if keys.len() > 0 && keys.last() == plain_press(
            KeyName::Esc,
        ) {
            Collected { pending: seq![0x1bu8], ..s.all_pressed(keys.drop_last()) }
        } else {
            s.all_pressed(keys)
        }),
    decreases keys.len(),
{
    let esc = plain_press(KeyName::Esc);
    if keys.len() > 0 {
        let front = keys.drop_last();
        let p = keys.last();
        assert forall|i: int| 0 <= i < front.len() implies (#[trigger] front[i]).recordable() by {
            assert(front[i] == keys[i]);
        }
        assert(p.recordable());
        lemma_keys_are_recorded(s, front);
        law_reads_can_be_cut(s, bytes_of_keys(front), p.bytes_view());
        let y = s.all_pressed(front);
        if front.len() > 0 && front.last() == esc {
            lemma_esc_is_told(s.all_pressed(front.drop_last()), p);
        }
        assert(fed_all(s, bytes_of_keys(keys)) == fed_all(y, p.bytes_view()));
        if p == esc {
            let b = p.bytes_view();
            assert(b =~= seq![0x1bu8]);
            assert(b.drop_last() =~= Seq::<u8>::empty());
            assert(fed_all(y, b.drop_last()) == y);
            assert(y.pending.push(0x1bu8) =~= b);
            lemma_could_grow(b);
            assert(next_step((Collected { pending: b, ..y })) is None);
        } else {
            law_key_is_recorded(y, p);
        }
    }
}

/// Presses that can be told are recorded as those presses, Esc among them, as long as it is not
/// the last one: behind that more could follow.
pub proof fn law_keys_are_recorded(s: Collected, keys: Seq<KeyPress>)
    requires
        s.pending.len() == 0,
        forall|i: int| 0 <= i < keys.len() ==> (#[trigger] keys[i]).recordable(),
        keys.len() > 0 ==> keys.last() != plain_press(KeyName::Esc),
    ensures
        fed_all(s, bytes_of_keys(keys)) == s.all_pressed(keys),
{
    lemma_keys_are_recorded(s, keys);
}

/// Whether a time is one that waits are recorded with: whole milliseconds, or the largest time
/// there is.
pub open spec fn told_time(nanos: i64) -> bool {
    nanos >= 0 && (nanos % 1_000_000 == 0 || nanos == i64::MAX)
}

/// Whether an action is one that is recorded: a text that is not empty, key presses that have
/// names, at least one of them, or a wait of some length.
pub open spec fn recorded(a: ActionView) -> bool {
    match a {
        ActionView::Text(text) => text.len() > 0,
        ActionView::Key { .. } => writable(a),
        ActionView::Wait { nanos } => nanos > 0 && told_time(nanos),
        _ => false,
    }
}

/// Whether actions have the shape of a recording: each is one that is recorded, presses that
/// follow one another are in one action, and every wait stands before a text or a press.
pub open spec fn well_shaped(actions: Seq<ActionView>) -> bool {
    &&& forall|i: int| 0 <= i < actions.len() ==> recorded(#[trigger] actions[i])
    &&& forall|i: int, j: int|
        0 <= i && j == i + 1 && j < actions.len() ==> !((#[trigger] actions[i]) is Key && (
        #[trigger] actions[j]) is Key) && !(actions[i] is Wait && actions[j] is Wait)
    &&& actions.len() > 0 ==> !(actions.last() is Wait)
}

/// Whether a text holds only what is typed as text: no spaces, which are key presses, and none of
/// the ASCII control characters.
pub open spec fn typed_text(text: Seq<char>) -> bool {
    forall|i: int| 0 <= i < text.len() ==> #[trigger] text[i] > ' ' && text[i] != '\u{7f}'
}

/// Whether every text among actions holds only what is typed as text.
pub open spec fn all_typed(actions: Seq<ActionView>) -> bool {
    forall|i: int|
        0 <= i < actions.len() ==> ((#[trigger] actions[i]) matches ActionView::Text(text)
            ==> typed_text(text))
}

impl Collected {
    /// Whether all that has been collected is what a recording collects.
    pub open spec fn sound(self) -> bool {
        &&& self.owed matches Some(nanos) ==> told_time(nanos)
        &&& typed_text(self.text)
        &&& well_shaped(self.actions)
        &&& all_typed(self.actions)
    }
}

/// A wait and an action behind it do not change the shape of a recording.
proof fn lemma_add_shaped(actions: Seq<ActionView>, wait: Option<i64>, a: ActionView)
    requires
        well_shaped(actions),
        wait matches Some(nanos) ==> told_time(nanos),
        recorded(a),
        !(a is Wait),
        a is Key ==> (wait matches Some(nanos) && nanos > 0) || actions.len() == 0
            || !(actions.last() is Key),
    ensures
        ({
            let w = match wait {
                Some(nanos) => if nanos > 0 {
                    actions.push(ActionView::Wait { nanos })
                } else {
                    actions
                },
                None => actions,
            };
            well_shaped(w.push(a))
        }),
{
    let w = match wait {
        Some(nanos) => if nanos > 0 {
            actions.push(ActionView::Wait { nanos })
        } else {
            actions
        },
        None => actions,
    };
    let all = w.push(a);
    let n = actions.len() as int;
    assert forall|i: int, j: int| 0 <= i && j == i + 1 && j < all.len() implies !((
    #[trigger] all[i]) is Key && (#[trigger] all[j]) is Key) && !(all[i] is Wait && all[j] is Wait)
        by {
        if j < n {
            assert(all[i] == actions[i] && all[j] == actions[j]);
        } else if j == n && n > 0 {
            assert(all[i] == actions.last());
        }
    }
}

proof fn lemma_text_flushed_sound(s: Collected)
    requires
        s.sound(),
    ensures
        s.text_flushed().sound(),
        s.text_flushed().text.len() == 0,
{
    if s.text.len() > 0 {
        lemma_add_shaped(s.actions, s.owed, ActionView::Text(s.text));
    }
}

proof fn lemma_pressed_sound(s: Collected, key: KeyPress)
    requires
        s.sound(),
        key.wf(),
    ensures
        s.pressed(key).sound(),
{
    lemma_text_flushed_sound(s);
    let t = s.text_flushed();
    let w = t.wait_flushed();
    let n = w.actions.len() as int;
    let p = s.pressed(key);
    if n > 0 && w.actions[n - 1] is Key {
        assert(w.actions == t.actions);
        let keys = w.actions[n - 1]->keys;
        assert(recorded(w.actions[n - 1]));
        assert(recorded(p.actions[n - 1]));
        assert forall|i: int| 0 <= i < n - 1 implies #[trigger] p.actions[i] == w.actions[i] by {}
    } else {
        lemma_add_shaped(t.actions, t.owed, ActionView::Key { keys: seq![key] });
    }
}

/// A character that is typed is no space and no ASCII control character.
proof fn lemma_typed_char(pending: Seq<u8>)
    requires
        valid_first_scalar(pending),
        press_sending(seq![pending[0]]) is None,
        pending[0] >= 0x20,
        pending[0] != 0x7f,
    ensures
        decode_first_scalar(pending) as char > ' ',
        decode_first_scalar(pending) as char != '\u{7f}',
{
    let space = plain_press(KeyName::Space);
    assert(space.bytes_view() =~= seq![0x20u8]);
    law_press_bytes_read_back(space);
    let front = take_first_scalar(pending);
    let c = decode_first_scalar(pending) as char;
    assert(front[0] == pending[0]);
    assert(valid_first_scalar(front) && decode_first_scalar(front) == decode_first_scalar(pending));
    assert(pop_first_scalar(front) =~= Seq::<u8>::empty());
    assert(valid_utf8(front)) by {
        reveal_with_fuel(valid_utf8, 2);
    }
    decode_utf8_first_scalar(front);
    assert(take_first_scalar(front) =~= front);
    lemma_char_bytes(c);
}

proof fn lemma_step_sound(s: Collected)
    requires
        s.sound(),
        s.pending.len() > 0,
    ensures
        next_step(s) matches Some(t) ==> t.sound(),
{
    if s.pending[0] == 0x1b {
        if !could_grow(s.pending) {
            let most = smaller(MAX_KEY_LEN as int, s.pending.len() as int);
            lemma_longest_key(s.pending, most);
            let n = longest_key(s.pending, most);
            lemma_pressed_sound(s, press_sending(s.pending.take(n))->0);
        }
    } else {
        if let Some(key) = press_sending(seq![s.pending[0]]) {
            lemma_pressed_sound(s, key);
        } else if valid_first_scalar(s.pending) && s.pending[0] >= 0x20 && s.pending[0] != 0x7f {
            lemma_typed_char(s.pending);
        }
        lemma_pressed_sound(s, plain_press(KeyName::Enter));
    }
}

proof fn lemma_settled_sound(s: Collected)
    requires
        s.sound(),
    ensures
        settled(s).sound(),
    decreases s.pending.len(),
{
    if let Some(t) = next_step(s) {
        lemma_step_sound(s);
        if t.pending.len() < s.pending.len() {
            lemma_settled_sound(t);
        }
    }
}

/// A recorded action can be written. Unless it is a wait of the largest time there is, it is a
/// plain one, and so read back from its YAML document.
pub proof fn law_recorded_action_can_be_written(a: ActionView)
    requires
        recorded(a),
    ensures
        writable(a),
        a != (ActionView::Wait { nanos: i64::MAX }) ==> plain_action(a),
{
    if let ActionView::Wait { nanos } = a {
        assert(nanos % 1_000_000 == 0 ==> nanos % 10_000 == 0);
    }
}

/// Whatever is typed, and whenever, the recording keeps its shape: texts, key presses that have
/// names and waits, none of them empty, no two actions with presses next to one another, and every
/// wait before a text or a press. A text holds only what is typed as text, but for what is left
/// over at the end.
pub proof fn law_recording_stays_sound(
    s: Collected,
    last: Option<u64>,
    instant: u64,
    threshold_ms: u64,
    round_ms: u64,
    bytes: Seq<u8>,
    leftover: Seq<char>,
)
    requires
        s.sound(),
    ensures
        after_gap(s, last, instant, threshold_ms, round_ms).sound(),
        fed_all(s, bytes).sound(),
        well_shaped(finished(s, leftover)),
        typed_text(leftover) ==> all_typed(finished(s, leftover)),
        s.text.len() + leftover.len() > 0 ==> finished(s, leftover).last() == ActionView::Text(
            s.text + leftover,
        ) && all_typed(finished(s, leftover).drop_last()),
    decreases bytes.len(),
{
    lemma_text_flushed_sound(s);
    let text = s.text + leftover;
    if text.len() > 0 {
        lemma_add_shaped(s.actions, s.owed, ActionView::Text(text));
        assert(finished(s, leftover).drop_last() =~= s.wait_flushed().actions);
    }
    if let Some(before) = last {
        let gap: int = if instant >= before {
            instant - before
        } else {
            0
        };
        lemma_rounded_gap(gap as u64, round_ms);
    }
    if bytes.len() > 0 {
        let front = bytes.drop_last();
        law_recording_stays_sound(s, last, instant, threshold_ms, round_ms, front, leftover);
        let x = fed_all(s, front);
        lemma_settled_sound(Collected { pending: x.pending.push(bytes.last()), ..x });
    }
}

/// A gap is rounded to a time that waits are recorded with.
proof fn lemma_rounded_gap(gap: u64, round_ms: u64)
    ensures
        told_time(rounded_gap(gap, round_ms)),
{
    let g = gap as int;
    let step: int = if round_ms == 0 {
        MILLI as int
    } else {
        round_ms * MILLI
    };
    let count = (2 * g + step) / (2 * step);
    let ms: int = if round_ms == 0 {
        1
    } else {
        round_ms as int
    };
    assert(count >= 0) by (nonlinear_arith)
        requires
            g >= 0,
            step > 0,
            count == (2 * g + step) / (2 * step),
    ;
    let n = nearest(g, step);
    assert(n >= 0 && n % 1_000_000 == 0) by (nonlinear_arith)
        requires
            count >= 0,
            ms >= 0,
            n == count * step,
            step == ms * 1_000_000,
    {
        assert(n == (count * ms) * 1_000_000);
        assert(count * ms >= 0);
    }
}

} // verus!
