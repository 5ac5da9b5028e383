//! What a recording of keystrokes keeps: every press, all text and the time between them.

use crate::actions::ActionView;
use crate::decoder::{
    after_gap, bytes_of_keys, could_grow, fed, fed_all, finished, grows_into,
    law_keys_are_recorded, law_reads_can_be_cut, law_text_is_recorded, longest_key, nearest,
    next_step, rounded_gap, settled, Collected,
};
use crate::keys::{
    law_press_bytes_read_back, lemma_recordable_bytes, plain_press, press_sending, KeyBase,
    KeyName, KeyPress,
};
use crate::utf8::{begins_char, cut_short, lemma_char_bytes};
use vstd::prelude::*;
use vstd::utf8::{
    decode_first_scalar, encode_scalar, encode_utf8, pop_first_scalar, valid_first_scalar,
};

verus! {

/// The presses of all key actions, one after the other.
pub open spec fn presses_in(actions: Seq<ActionView>) -> Seq<KeyPress>
    decreases actions.len(),
{
    if actions.len() == 0 {
        Seq::empty()
    } else {
        match actions.last() {
            ActionView::Key { keys } => presses_in(actions.drop_last()) + keys,
            _ => presses_in(actions.drop_last()),
        }
    }
}

/// The characters of all texts, one after the other.
pub open spec fn text_in(actions: Seq<ActionView>) -> Seq<char>
    decreases actions.len(),
{
    if actions.len() == 0 {
        Seq::empty()
    } else {
        match actions.last() {
            ActionView::Text(text) => text_in(actions.drop_last()) + text,
            _ => text_in(actions.drop_last()),
        }
    }
}

/// The time of all waits together.
pub open spec fn waited_in(actions: Seq<ActionView>) -> int
    decreases actions.len(),
{
    if actions.len() == 0 {
        0
    } else {
        match actions.last() {
            ActionView::Wait { nanos } => waited_in(actions.drop_last()) + nanos,
            _ => waited_in(actions.drop_last()),
        }
    }
}

/// What one more action adds.
proof fn lemma_one_more(actions: Seq<ActionView>, a: ActionView)
    ensures
        presses_in(actions.push(a)) == presses_in(actions) + (match a {
            ActionView::Key { keys } => keys,
            _ => Seq::empty(),
        }),
        text_in(actions.push(a)) == text_in(actions) + (match a {
            ActionView::Text(text) => text,
            _ => Seq::empty(),
        }),
        waited_in(actions.push(a)) == waited_in(actions) + (match a {
            ActionView::Wait { nanos } => nanos as int,
            _ => 0,
        }),
{
    assert(actions.push(a).drop_last() =~= actions);
    assert(presses_in(actions) + Seq::<KeyPress>::empty() =~= presses_in(actions));
    assert(text_in(actions) + Seq::<char>::empty() =~= text_in(actions));
}

proof fn lemma_wait_flushed_keeps(s: Collected)
    requires
        s.owed matches Some(nanos) ==> nanos >= 0,
    ensures
        presses_in(s.wait_flushed().actions) == presses_in(s.actions),
        text_in(s.wait_flushed().actions) == text_in(s.actions),
        s.wait_flushed().text == s.text,
        s.wait_flushed().owed is None,
        waited_in(s.wait_flushed().actions) == waited_in(s.actions) + (match s.owed {
            Some(nanos) => nanos as int,
            None => 0,
        }),
{
    if s.owed is Some {
        lemma_one_more(s.actions, ActionView::Wait { nanos: s.owed->0 });
        assert(presses_in(s.actions) + Seq::<KeyPress>::empty() =~= presses_in(s.actions));
        assert(text_in(s.actions) + Seq::<char>::empty() =~= text_in(s.actions));
    }
}

proof fn lemma_text_flushed_keeps(s: Collected)
    requires
        s.owed matches Some(nanos) ==> nanos >= 0,
    ensures
        presses_in(s.text_flushed().actions) == presses_in(s.actions),
        text_in(s.text_flushed().actions) == text_in(s.actions) + s.text,
        s.text_flushed().text.len() == 0,
        s.text_flushed().owed is None || s.text_flushed().owed == s.owed,
        waited_in(s.text_flushed().actions) + (match s.text_flushed().owed {
            Some(nanos) => nanos as int,
            None => 0,
        }) == waited_in(s.actions) + (match s.owed {
            Some(nanos) => nanos as int,
            None => 0,
        }),
{
    lemma_wait_flushed_keeps(s);
    if s.text.len() > 0 {
        let w = s.wait_flushed();
        lemma_one_more(w.actions, ActionView::Text(s.text));
        assert(presses_in(w.actions) + Seq::<KeyPress>::empty() =~= presses_in(w.actions));
    } else {
        assert(text_in(s.actions) + s.text =~= text_in(s.actions));
    }
}

/// No press is lost, and nothing else changes with one: after a press, the presses recorded are
/// those from before with that one at the end, the text is what it was, and so is the time of all
/// waits with the one that is owed.
pub proof fn law_no_press_is_lost(s: Collected, key: KeyPress)
    requires
        s.owed matches Some(nanos) ==> nanos >= 0,
    ensures
        presses_in(s.pressed(key).actions) == presses_in(s.actions).push(key),
        text_in(s.pressed(key).actions) + s.pressed(key).text == text_in(s.actions) + s.text,
        s.pressed(key).owed is None,
        waited_in(s.pressed(key).actions) == waited_in(s.actions) + (match s.owed {
            Some(nanos) => nanos as int,
            None => 0,
        }),
        s.pressed(key).pending == s.pending,
{
    let t = s.text_flushed();
    lemma_text_flushed_keeps(s);
    lemma_wait_flushed_keeps(t);
    let w = t.wait_flushed();
    let n = w.actions.len() as int;
    let before = presses_in(s.actions);
    assert(presses_in(w.actions) == before);
    if n > 0 && w.actions[n - 1] is Key {
        let front = w.actions.drop_last();
        let keys = w.actions[n - 1]->keys;
        assert(front.push(w.actions[n - 1]) =~= w.actions);
        lemma_one_more(front, w.actions[n - 1]);
        lemma_one_more(front, ActionView::Key { keys: keys.push(key) });
        assert(presses_in(front) + keys.push(key) =~= before.push(key));
    } else {
        lemma_one_more(w.actions, ActionView::Key { keys: seq![key] });
        assert(before + seq![key] =~= before.push(key));
    }
    let p = s.pressed(key);
    assert(text_in(p.actions) == text_in(w.actions));
    assert(text_in(p.actions) + p.text =~= text_in(s.actions) + s.text);
}

/// A press comes behind all that was typed: it is the last press of the last action, and what was
/// being typed stands in a text before that.
pub proof fn law_press_comes_last(s: Collected, key: KeyPress)
    ensures
        s.pressed(key).text.len() == 0,
        s.pressed(key).actions.len() > 0,
        s.pressed(key).actions.last() matches ActionView::Key { keys } && keys.len() > 0
            && keys.last() == key,
        s.text.len() > 0 ==> s.pressed(key).actions.last() == (ActionView::Key { keys: seq![key] })
            && s.pressed(key).actions.drop_last().last() == ActionView::Text(s.text),
{
    let w = s.text_flushed().wait_flushed();
    if s.text.len() > 0 {
        assert(w.actions.last() == ActionView::Text(s.text));
        assert(w.actions.push(ActionView::Key { keys: seq![key] }).drop_last() =~= w.actions);
    }
}

/// Presses from a decoder that has collected nothing make one action, with just those presses,
/// whatever repeats among them.
proof fn lemma_presses_make_one_action(s: Collected, keys: Seq<KeyPress>)
    requires
        s.text.len() == 0,
        s.owed is None,
        s.actions.len() == 0,
        keys.len() > 0,
    ensures
        s.all_pressed(keys) == (Collected {
            actions: seq![ActionView::Key { keys }],
            ..s
        }),
    decreases keys.len(),
{
    let front = keys.drop_last();
    if front.len() == 0 {
        assert(s.all_pressed(front) == s);
        assert(keys =~= seq![keys.last()]);
        assert(s.actions.push(ActionView::Key { keys: seq![keys.last()] }) =~= seq![
            ActionView::Key { keys },
        ]);
    } else {
        lemma_presses_make_one_action(s, front);
        let t = s.all_pressed(front);
        assert(t.actions.drop_last() =~= Seq::<ActionView>::empty());
        assert(front.push(keys.last()) =~= keys);
        assert(t.actions.drop_last().push(ActionView::Key { keys: front.push(keys.last()) })
            =~= seq![ActionView::Key { keys }]);
    }
}

proof fn lemma_bytes_flatten(keys: Seq<KeyPress>)
    ensures
        bytes_of_keys(keys) == keys.map_values(|k: KeyPress| k.bytes_view()).flatten(),
    decreases keys.len(),
{
    let list = keys.map_values(|k: KeyPress| k.bytes_view());
    if keys.len() > 0 {
        let front = keys.drop_last();
        let some = front.map_values(|k: KeyPress| k.bytes_view());
        lemma_bytes_flatten(front);
        some.lemma_flatten_push(keys.last().bytes_view());
        assert(some.push(keys.last().bytes_view()) =~= list);
    } else {
        assert(list.flatten() =~= Seq::<u8>::empty());
    }
}

/// Presses that can be told from their bytes, typed in a row into a decoder that has collected
/// nothing, are recorded as one action with just those presses, whatever repeats among them. The
/// last is not Esc: behind its byte more could follow.
pub proof fn law_presses_in_a_row_are_one_action(keys: Seq<KeyPress>)
    requires
        keys.len() > 0,
        forall|i: int| 0 <= i < keys.len() ==> (#[trigger] keys[i]).recordable(),
        keys.last() != (KeyPress {
            ctrl: false,
            alt: false,
            shift: false,
            base: KeyBase::Named(KeyName::Esc),
        }),
    ensures
        ({
            let nothing = Collected {
                pending: Seq::empty(),
                text: Seq::empty(),
                owed: None,
                actions: Seq::empty(),
            };
            let bytes = keys.map_values(|k: KeyPress| k.bytes_view()).flatten();
            &&& fed_all(nothing, bytes) == (Collected {
                actions: seq![ActionView::Key { keys }],
                ..nothing
            })
            &&& finished(fed_all(nothing, bytes), Seq::empty()) == seq![ActionView::Key { keys }]
        }),
{
    let nothing = Collected {
        pending: Seq::empty(),
        text: Seq::empty(),
        owed: None,
        actions: Seq::empty(),
    };
    law_keys_are_recorded(nothing, keys);
    lemma_presses_make_one_action(nothing, keys);
    lemma_bytes_flatten(keys);
    let all = fed_all(nothing, bytes_of_keys(keys));
    assert(all.text + Seq::<char>::empty() =~= all.text);
}

/// The end of a recording loses nothing: every press stays, and the texts are all that was typed
/// with what was left over behind it. Nothing is added where nothing is left.
pub proof fn law_ending_loses_nothing(s: Collected, leftover: Seq<char>)
    requires
        s.owed matches Some(nanos) ==> nanos >= 0,
    ensures
        presses_in(finished(s, leftover)) == presses_in(s.actions),
        text_in(finished(s, leftover)) == text_in(s.actions) + s.text + leftover,
        s.text.len() + leftover.len() == 0 ==> finished(s, leftover) == s.actions,
{
    let t = Collected { text: s.text + leftover, ..s };
    lemma_text_flushed_keeps(t);
    assert(text_in(s.actions) + (s.text + leftover) =~= text_in(s.actions) + s.text + leftover);
}

/// A gap is rounded to the nearest step, halves up. The step is given in milliseconds; where it is
/// zero, it is one.
pub proof fn law_gap_is_rounded(gap: u64, round_ms: u64)
    ensures
        ({
            let step: int = if round_ms == 0 {
                1_000_000
            } else {
                round_ms * 1_000_000
            };
            let r = rounded_gap(gap, round_ms) as int;
            r < i64::MAX ==> r % step == 0 && 2 * gap - step < 2 * r <= 2 * gap + step
        }),
        2 * gap + round_ms * 1_000_000 + 1_000_000 < i64::MAX ==> rounded_gap(gap, round_ms)
            < i64::MAX,
{
    let step: int = if round_ms == 0 {
        1_000_000
    } else {
        round_ms * 1_000_000
    };
    assert(step > 0);
    let n: int = 2 * gap + step;
    let q: int = n / (2 * step);
    assert(n - 2 * step < (2 * step) * q <= n) by (nonlinear_arith)
        requires
            step > 0,
            q == n / (2 * step),
    ;
    assert((2 * step) * q == 2 * (q * step)) by (nonlinear_arith);
    assert((q * step) % step == 0) by {
        vstd::arithmetic::div_mod::lemma_mod_multiples_basic(q, step);
    }
    assert(nearest(gap as int, step) == q * step);
}

/// A gap that reaches the threshold, which is given in milliseconds, is noted as a wait behind all
/// that was typed before it and before what is typed after it. What was typed does not change.
pub proof fn law_gap_becomes_a_wait(
    s: Collected,
    before: u64,
    instant: u64,
    threshold_ms: u64,
    round_ms: u64,
    key: KeyPress,
)
    requires
        s.owed is None,
        before <= instant,
    ensures
        ({
            let t = after_gap(s, Some(before), instant, threshold_ms, round_ms);
            let wait = rounded_gap((instant - before) as u64, round_ms);
            let typed = if s.text.len() > 0 {
                s.actions.push(ActionView::Text(s.text))
            } else {
                s.actions
            };
            &&& instant - before < threshold_ms * 1_000_000 ==> t == s
            &&& instant - before >= threshold_ms * 1_000_000 ==> {
                &&& t.actions == typed
                &&& t.text.len() == 0
                &&& t.pending == s.pending
                &&& t.owed == Some(wait)
                &&& wait > 0 ==> t.pressed(key).actions == typed + seq![
                    ActionView::Wait { nanos: wait },
                    ActionView::Key { keys: seq![key] },
                ]
                &&& forall|text: Seq<char>| #[trigger]
                    text.len() > 0 && wait > 0 ==> finished(t, text) == typed + seq![
                        ActionView::Wait { nanos: wait },
                        ActionView::Text(text),
                    ]
            }
        }),
{
    let t = after_gap(s, Some(before), instant, threshold_ms, round_ms);
    let wait = rounded_gap((instant - before) as u64, round_ms);
    let typed = if s.text.len() > 0 {
        s.actions.push(ActionView::Text(s.text))
    } else {
        s.actions
    };
    if instant - before >= threshold_ms * 1_000_000 {
        assert(t.actions == typed);
        assert(t.owed == Some(wait));
        if wait > 0 {
            let w = t.text_flushed().wait_flushed();
            assert(w.actions == typed.push(ActionView::Wait { nanos: wait }));
            assert(t.pressed(key).actions =~= typed + seq![
                ActionView::Wait { nanos: wait },
                ActionView::Key { keys: seq![key] },
            ]);
            assert forall|text: Seq<char>| #[trigger] text.len() > 0 implies finished(t, text)
                == typed + seq![ActionView::Wait { nanos: wait }, ActionView::Text(text)] by {
                assert(t.text + text =~= text);
                assert(finished(t, text) =~= typed + seq![
                    ActionView::Wait { nanos: wait },
                    ActionView::Text(text),
                ]);
            }
        }
    }
}

/// Gaps with nothing typed between them add up, the first read comes without a gap, and so does one
/// that is not later than the read before.
pub proof fn law_gaps_add_up(
    s: Collected,
    owed: i64,
    before: u64,
    instant: u64,
    threshold_ms: u64,
    round_ms: u64,
)
    requires
        s.owed == Some(owed),
        s.text.len() == 0,
    ensures
        after_gap(s, None, instant, threshold_ms, round_ms) == s,
        instant <= before && threshold_ms > 0 ==> after_gap(
            s,
            Some(before),
            instant,
            threshold_ms,
            round_ms,
        ) == s,
        instant - before >= threshold_ms * 1_000_000 && owed + rounded_gap(
            (instant - before) as u64,
            round_ms,
        ) <= i64::MAX ==> after_gap(s, Some(before), instant, threshold_ms, round_ms) == (
        Collected {
            owed: Some((owed + rounded_gap((instant - before) as u64, round_ms)) as i64),
            ..s
        }),
{
}

/// A line feed is Enter. Other control bytes that no key sends are passed over.
pub proof fn law_control_bytes(s: Collected, b: u8)
    requires
        s.pending.len() == 0,
        b < 0x20 || b == 0x7f,
        b != 0x1b,
        forall|p: KeyPress| p.recordable() ==> #[trigger] p.bytes_view() != seq![b],
    ensures
        fed_all(s, seq![b]) == (if b == 0x0a {
            s.pressed(
                KeyPress {
                    ctrl: false,
                    alt: false,
                    shift: false,
                    base: KeyBase::Named(KeyName::Enter),
                },
            )
        } else {
            s
        }),
{
    let full = Collected { pending: seq![b], ..s };
    assert(s.pending.push(b) =~= seq![b]);
    let after = if b == 0x0a {
        s.pressed(plain_press(KeyName::Enter))
    } else {
        s
    };
    assert(full.pressed(plain_press(KeyName::Enter)).dropped(1) =~= s.pressed(
        plain_press(KeyName::Enter),
    ));
    assert(full.dropped(1) =~= s);
    assert(seq![b].drop_last() =~= Seq::<u8>::empty());
    assert(fed_all(s, seq![b].drop_last()) == s);
    assert(next_step(full) == Some(after));
    assert(next_step(after) is None);
    assert(settled(full) == after) by {
        reveal_with_fuel(settled, 2);
    }
}

/// An escape byte is the Esc key once text follows it that no key sequence goes on with.
pub proof fn law_escape_before_text_is_a_key(s: Collected, text: Seq<char>)
    requires
        s.pending.len() == 0,
        text.len() > 0,
        text[0] != '[',
        text[0] != 'O',
        forall|i: int| 0 <= i < text.len() ==> #[trigger] text[i] > ' ' && text[i] != '\u{7f}',
    ensures
        fed_all(s, seq![0x1bu8] + encode_utf8(text)) == (Collected {
            text,
            ..s.pressed(
                KeyPress {
                    ctrl: false,
                    alt: false,
                    shift: false,
                    base: KeyBase::Named(KeyName::Esc),
                },
            )
        }),
{
    let esc = plain_press(KeyName::Esc);
    let bytes = encode_utf8(text);
    let x = Collected { pending: seq![0x1bu8], ..s };
    let y = s.pressed(esc);
    lemma_char_bytes(text[0]);
    let e = encode_scalar(text[0] as u32);
    let first = e[0];
    assert(bytes =~= e + encode_utf8(text.drop_first()));
    assert(bytes[0] == first);
    lemma_escape_waits(s);
    lemma_escape_is_told(s, first);
    let head = seq![first];
    let rest = bytes.skip(1);
    assert(head + rest =~= bytes);
    law_reads_can_be_cut(s, seq![0x1bu8], bytes);
    law_reads_can_be_cut(x, head, rest);
    law_reads_can_be_cut(y, head, rest);
    assert(y.pending.len() == 0);
    law_text_is_recorded(y, text);
    assert(y.text + text =~= text);
}

/// An escape byte alone waits for more.
proof fn lemma_escape_waits(s: Collected)
    requires
        s.pending.len() == 0,
    ensures
        fed_all(s, seq![0x1bu8]) == (Collected { pending: seq![0x1bu8], ..s }),
{
    let one = seq![0x1bu8];
    let x = Collected { pending: one, ..s };
    assert(one.drop_last() =~= Seq::<u8>::empty());
    assert(fed_all(s, one.drop_last()) == s);
    assert(s.pending.push(0x1bu8) =~= one);
    let up = plain_press(KeyName::Up);
    assert(up.bytes_view().take(1) =~= one);
    assert(grows_into(one, up));
    assert(could_grow(one));
    assert(next_step(x) is None);
}

/// An escape byte with another behind it that goes on with no key sequence.
proof fn lemma_escape_is_told(s: Collected, first: u8)
    requires
        s.pending.len() == 0,
        first != 0x5b,
        first != 0x4f,
    ensures
        fed_all((Collected { pending: seq![0x1bu8], ..s }), seq![first]) == fed_all(
            s.pressed(plain_press(KeyName::Esc)),
            seq![first],
        ),
{
    let esc = plain_press(KeyName::Esc);
    let x = Collected { pending: seq![0x1bu8], ..s };
    let y = s.pressed(esc);
    let two = seq![0x1bu8, first];
    let full = Collected { pending: x.pending.push(first), ..x };
    assert(full.pending =~= two);
    assert(esc.bytes_view() =~= seq![0x1bu8]);
    law_press_bytes_read_back(esc);
    assert forall|q: KeyPress| q.recordable() implies #[trigger] q.bytes_view() != two by {
        lemma_recordable_bytes(q);
        if q.bytes_view() == two {
            assert(q.bytes_view().len() == 2);
        }
    }
    assert(!could_grow(two)) by {
        if could_grow(two) {
            let p = choose|p: KeyPress| #[trigger] grows_into(two, p);
            lemma_recordable_bytes(p);
            assert(p.bytes_view().take(2)[1] == first);
            assert(p.bytes_view()[1] == first);
        }
    }
    assert(two.take(2) =~= two);
    assert(two.take(1) =~= seq![0x1bu8]);
    assert(longest_key(two, 1) == 1);
    assert(longest_key(two, 2) == 1);
    let after = Collected { pending: y.pending.push(first), ..y };
    assert(full.pressed(esc).dropped(1) =~= after);
    assert(next_step(full) == Some(after));
    assert(fed(x, first) == fed(y, first));
    let head = seq![first];
    assert(head.drop_last() =~= Seq::<u8>::empty());
    assert(fed_all(x, head.drop_last()) == x);
    assert(fed_all(y, head.drop_last()) == y);
}

/// A press joins the presses right before it in one action; behind anything else it begins an
/// action of its own. The actions before that stay as they are.
pub proof fn law_press_joins_the_presses_before(s: Collected, key: KeyPress)
    requires
        s.text.len() == 0,
        s.owed is None || s.owed == Some(0i64),
    ensures
        s.actions.len() > 0 && s.actions.last() is Key ==> s.pressed(key).actions
            == s.actions.drop_last() + seq![
            ActionView::Key { keys: s.actions.last()->keys.push(key) },
        ],
        s.actions.len() == 0 || !(s.actions.last() is Key) ==> s.pressed(key).actions == s.actions
            + seq![ActionView::Key { keys: seq![key] }],
{
    let w = s.text_flushed().wait_flushed();
    assert(w.actions == s.actions);
    if s.actions.len() > 0 && s.actions.last() is Key {
        assert(s.pressed(key).actions =~= s.actions.drop_last() + seq![
            ActionView::Key { keys: s.actions.last()->keys.push(key) },
        ]);
    } else {
        assert(s.pressed(key).actions =~= s.actions + seq![ActionView::Key { keys: seq![key] }]);
    }
}

/// A byte that begins no character is passed over.
pub proof fn law_stray_bytes_are_passed_over(s: Collected, b: u8)
    requires
        s.pending.len() == 0,
        0x80 <= b <= 0xbf || 0xf8 <= b,
    ensures
        fed_all(s, seq![b]) == s,
{
    let one = seq![b];
    let full = Collected { pending: one, ..s };
    assert(s.pending.push(b) =~= one);
    assert forall|p: KeyPress| p.recordable() implies #[trigger] p.bytes_view() != one by {
        lemma_recordable_bytes(p);
        if p.bytes_view() == one {
            assert(p.bytes_view()[0] == b);
            assert(p.bytes_view().len() == 1);
        }
    }
    assert(press_sending(one) is None);
    assert(!valid_first_scalar(one));
    assert(!cut_short(one)) by {
        if cut_short(one) {
            let c = choose|c: char| begins_char(one, c);
            lemma_char_bytes(c);
            let e = encode_scalar(c as u32);
            assert(e.take(1)[0] == b);
            assert(e[0] == b);
        }
    }
    assert(full.dropped(1) =~= s);
    assert(next_step(full) == Some(s));
    assert(next_step(s) is None);
    assert(settled(full) == s) by {
        reveal_with_fuel(settled, 2);
    }
    assert(one.drop_last() =~= Seq::<u8>::empty());
    assert(fed_all(s, one.drop_last()) == s);
}

/// A sequence that begins as a key does but turns out to be none is the Esc key and text: nothing
/// of it goes.
pub proof fn law_unknown_sequences_are_kept(s: Collected, first: char, second: char)
    requires
        s.pending.len() == 0,
        first == '[' || first == 'O',
        ' ' < second < '\u{7f}',
        first == '[' ==> second != 'H' && second != 'F' && second != 'Z' && second != '1' && second
            != '3' && second != '5' && second != '6',
        first == 'O' ==> second != 'A' && second != 'B' && second != 'C' && second != 'D',
    ensures
        fed_all(s, seq![0x1bu8, first as u8, second as u8]) == (Collected {
            text: seq![first, second],
            ..s.pressed(
                KeyPress {
                    ctrl: false,
                    alt: false,
                    shift: false,
                    base: KeyBase::Named(KeyName::Esc),
                },
            )
        }),
{
    let esc = plain_press(KeyName::Esc);
    let a = first as u8;
    let b = second as u8;
    let y = s.pressed(esc);
    let x1 = Collected { pending: seq![0x1bu8], ..s };
    let x2 = Collected { pending: seq![0x1bu8, a], ..s };
    let three = seq![0x1bu8, a, b];
    lemma_escape_waits(s);
    // The second byte waits as well.
    let grown = if first == '[' {
        plain_press(KeyName::Home)
    } else {
        plain_press(KeyName::Up)
    };
    assert(grown.bytes_view().take(2) =~= seq![0x1bu8, a]);
    assert(grows_into(seq![0x1bu8, a], grown));
    assert(could_grow(seq![0x1bu8, a]));
    assert(x1.pending.push(a) =~= seq![0x1bu8, a]);
    assert(next_step(x2) is None);
    assert(fed(x1, a) == x2);
    // The third one tells that it is no key.
    let full = Collected { pending: three, ..s };
    assert(x2.pending.push(b) =~= three);
    lemma_no_such_key(first, second);
    assert(esc.bytes_view() =~= seq![0x1bu8]);
    law_press_bytes_read_back(esc);
    assert(three.take(3) =~= three);
    assert(three.take(2) =~= seq![0x1bu8, a]);
    assert(three.take(1) =~= seq![0x1bu8]);
    assert(longest_key(three, 1) == 1);
    assert(longest_key(three, 2) == 1);
    assert(longest_key(three, 3) == 1);
    let mid = Collected { pending: seq![a, b], ..y };
    assert(three.skip(1) =~= seq![a, b]);
    assert(full.pressed(esc).dropped(1) =~= mid);
    assert(next_step(full) == Some(mid));
    assert(settled(full) == settled(mid));
    // What is left is text.
    lemma_two_letters(y, first, second);
    assert(three.drop_last() =~= seq![0x1bu8, a]);
    assert(seq![0x1bu8, a].drop_last() =~= seq![0x1bu8]);
    assert(fed_all(s, seq![0x1bu8, a]) == x2);
    assert(fed_all(s, three) == fed(x2, b));
    assert(y.text + seq![first, second] =~= seq![first, second]);
}

/// No key sends those bytes, or begins with all three of them.
proof fn lemma_no_such_key(first: char, second: char)
    requires
        first == '[' || first == 'O',
        ' ' < second < '\u{7f}',
        first == '[' ==> second != 'H' && second != 'F' && second != 'Z' && second != '1' && second
            != '3' && second != '5' && second != '6',
        first == 'O' ==> second != 'A' && second != 'B' && second != 'C' && second != 'D',
    ensures
        !could_grow(seq![0x1bu8, first as u8, second as u8]),
        press_sending(seq![0x1bu8, first as u8, second as u8]) is None,
        press_sending(seq![0x1bu8, first as u8]) is None,
{
    let a = first as u8;
    let b = second as u8;
    let two = seq![0x1bu8, a];
    let three = seq![0x1bu8, a, b];
    assert forall|q: KeyPress| q.recordable() implies #[trigger] q.bytes_view() != two by {
        lemma_recordable_bytes(q);
        if q.bytes_view() == two {
            assert(q.bytes_view().len() == 2);
        }
    }
    assert forall|q: KeyPress| q.recordable() implies #[trigger] q.bytes_view() != three by {
        lemma_recordable_bytes(q);
        if q.bytes_view() == three {
            assert(q.bytes_view().len() == 3);
            assert(q.bytes_view()[1] == a && q.bytes_view()[2] == b);
        }
    }
    if could_grow(three) {
        let p = choose|p: KeyPress| #[trigger] grows_into(three, p);
        lemma_recordable_bytes(p);
        assert(p.bytes_view().take(3)[1] == a && p.bytes_view().take(3)[2] == b);
        assert(p.bytes_view()[1] == a && p.bytes_view()[2] == b);
    }
}

/// Two ASCII characters that wait together are typed one after the other.
proof fn lemma_two_letters(y: Collected, first: char, second: char)
    requires
        y.pending.len() == 0,
        y.text.len() == 0,
        ' ' < first < '\u{7f}',
        ' ' < second < '\u{7f}',
    ensures
        settled((Collected { pending: seq![first as u8, second as u8], ..y })) == (Collected {
            text: y.text + seq![first, second],
            ..y
        }),
{
    let a = first as u8;
    let b = second as u8;
    let mid = Collected { pending: seq![a, b], ..y };
    let last = Collected { pending: seq![b], ..y.typed(first) };
    let done = y.typed(first).typed(second);
    lemma_ascii_step(seq![a, b], first);
    lemma_ascii_step(seq![b], second);
    assert(seq![a, b].skip(1) =~= seq![b]);
    assert(seq![b].skip(1) =~= y.pending);
    assert(next_step(mid) == Some(last));
    assert(next_step(last) == Some(done));
    assert(next_step(done) is None);
    assert(settled(done) == done);
    assert(settled(last) == done);
    assert(settled(mid) == done);
    assert(y.text.push(first).push(second) =~= y.text + seq![first, second]);
}

/// A printable ASCII character at the front of what waits.
proof fn lemma_ascii_step(bytes: Seq<u8>, c: char)
    requires
        bytes.len() > 0,
        ' ' < c < '\u{7f}',
        bytes[0] == c as u8,
    ensures
        press_sending(seq![bytes[0]]) is None,
        valid_first_scalar(bytes),
        decode_first_scalar(bytes) as char == c,
        pop_first_scalar(bytes) == bytes.skip(1),
{
    let b = bytes[0];
    assert forall|p: KeyPress| p.recordable() implies #[trigger] p.bytes_view() != seq![b] by {
        lemma_recordable_bytes(p);
        if p.bytes_view() == seq![b] {
            assert(p.bytes_view()[0] == b);
            assert(p.bytes_view().len() == 1);
        }
    }
    assert(b & 0x7f == b) by (bit_vector)
        requires
            b < 0x80,
    ;
    assert(pop_first_scalar(bytes) =~= bytes.skip(1));
}

} // verus!
