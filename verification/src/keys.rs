//! Named keys, and what each of them sends.

use crate::text::{
    append_bytes, append_chars, char_run_at, chars_of, is_space, is_space_char, lower, lower_char,
    lower_chars, occurs_at, same_bytes, spells, string_of, utf8_bytes,
};
use vstd::prelude::*;
use vstd::utf8::encode_utf8;

verus! {

/// A keyboard key with a name and a fixed byte sequence.
#[derive(Debug, Clone, Copy, PartialEq, Eq, Structural)]
pub enum KeyName {
    Up,
    Down,
    Left,
    Right,
    Enter,
    Esc,
    Tab,
    Backspace,
    Delete,
    Home,
    End,
    PageUp,
    PageDown,
    Space,
}

/// The key that a name in lower case stands for; some keys have a second or third name.
pub open spec fn key_named(name: Seq<char>) -> Option<KeyName> {
    if name == "up"@ {
        Some(KeyName::Up)
    } else if name == "down"@ {
        Some(KeyName::Down)
    } else if name == "left"@ {
        Some(KeyName::Left)
    } else if name == "right"@ {
        Some(KeyName::Right)
    } else if name == "enter"@ || name == "return"@ || name == "cr"@ {
        Some(KeyName::Enter)
    } else if name == "esc"@ || name == "escape"@ {
        Some(KeyName::Esc)
    } else if name == "tab"@ {
        Some(KeyName::Tab)
    } else if name == "backspace"@ || name == "bs"@ {
        Some(KeyName::Backspace)
    } else if name == "delete"@ || name == "del"@ {
        Some(KeyName::Delete)
    } else if name == "home"@ {
        Some(KeyName::Home)
    } else if name == "end"@ {
        Some(KeyName::End)
    } else if name == "pageup"@ || name == "pgup"@ {
        Some(KeyName::PageUp)
    } else if name == "pagedown"@ || name == "pgdn"@ || name == "pgdown"@ {
        Some(KeyName::PageDown)
    } else if name == "space"@ {
        Some(KeyName::Space)
    } else {
        None
    }
}

impl KeyName {
    /// The name a key is shown and written under.
    pub open spec fn label_view(self) -> Seq<char> {
        match self {
            KeyName::Up => "Up"@,
            KeyName::Down => "Down"@,
            KeyName::Left => "Left"@,
            KeyName::Right => "Right"@,
            KeyName::Enter => "Enter"@,
            KeyName::Esc => "Esc"@,
            KeyName::Tab => "Tab"@,
            KeyName::Backspace => "Backspace"@,
            KeyName::Delete => "Delete"@,
            KeyName::Home => "Home"@,
            KeyName::End => "End"@,
            KeyName::PageUp => "PageUp"@,
            KeyName::PageDown => "PageDown"@,
            KeyName::Space => "Space"@,
        }
    }

    /// The bytes a key sends. The arrows use `ESC O` and a letter.
    pub open spec fn bytes_view(self) -> Seq<u8> {
        match self {
            KeyName::Up => seq![0x1b, 0x4f, 0x41],
            KeyName::Down => seq![0x1b, 0x4f, 0x42],
            KeyName::Right => seq![0x1b, 0x4f, 0x43],
            KeyName::Left => seq![0x1b, 0x4f, 0x44],
            KeyName::Enter => seq![0x0d],
            KeyName::Esc => seq![0x1b],
            KeyName::Tab => seq![0x09],
            KeyName::Backspace => seq![0x7f],
            KeyName::Delete => seq![0x1b, 0x5b, 0x33, 0x7e],
            KeyName::Home => seq![0x1b, 0x5b, 0x48],
            KeyName::End => seq![0x1b, 0x5b, 0x46],
            KeyName::PageUp => seq![0x1b, 0x5b, 0x35, 0x7e],
            KeyName::PageDown => seq![0x1b, 0x5b, 0x36, 0x7e],
            KeyName::Space => seq![0x20],
        }
    }

    /// Every named key, in the order of declaration.
    pub const ALL: [KeyName; 14] = [
        KeyName::Up,
        KeyName::Down,
        KeyName::Left,
        KeyName::Right,
        KeyName::Enter,
        KeyName::Esc,
        KeyName::Tab,
        KeyName::Backspace,
        KeyName::Delete,
        KeyName::Home,
        KeyName::End,
        KeyName::PageUp,
        KeyName::PageDown,
        KeyName::Space,
    ];

    /// The key of that name, in any mixture of upper and lower case.
    pub fn parse(name: &str) -> (r: Option<KeyName>)
        ensures
            r == key_named(lower(name@)),
    {
        let chars = chars_of(name);
        let low = lower_chars(chars.as_slice());
        let n = low.as_slice();
        if spells(n, "up") {
            Some(KeyName::Up)
        } else if spells(n, "down") {
            Some(KeyName::Down)
        } else if spells(n, "left") {
            Some(KeyName::Left)
        } else if spells(n, "right") {
            Some(KeyName::Right)
        } else if spells(n, "enter") || spells(n, "return") || spells(n, "cr") {
            Some(KeyName::Enter)
        } else if spells(n, "esc") || spells(n, "escape") {
            Some(KeyName::Esc)
        } else if spells(n, "tab") {
            Some(KeyName::Tab)
        } else if spells(n, "backspace") || spells(n, "bs") {
            Some(KeyName::Backspace)
        } else if spells(n, "delete") || spells(n, "del") {
            Some(KeyName::Delete)
        } else if spells(n, "home") {
            Some(KeyName::Home)
        } else if spells(n, "end") {
            Some(KeyName::End)
        } else if spells(n, "pageup") || spells(n, "pgup") {
            Some(KeyName::PageUp)
        } else if spells(n, "pagedown") || spells(n, "pgdn") || spells(n, "pgdown") {
            Some(KeyName::PageDown)
        } else if spells(n, "space") {
            Some(KeyName::Space)
        } else {
            None
        }
    }

    /// The name this key is shown and written under.
    pub fn label(self) -> (r: &'static str)
        ensures
            r@ == self.label_view(),
    {
        match self {
            KeyName::Up => "Up",
            KeyName::Down => "Down",
            KeyName::Left => "Left",
            KeyName::Right => "Right",
            KeyName::Enter => "Enter",
            KeyName::Esc => "Esc",
            KeyName::Tab => "Tab",
            KeyName::Backspace => "Backspace",
            KeyName::Delete => "Delete",
            KeyName::Home => "Home",
            KeyName::End => "End",
            KeyName::PageUp => "PageUp",
            KeyName::PageDown => "PageDown",
            KeyName::Space => "Space",
        }
    }

    /// The bytes sent to the program for this key.
    pub fn bytes(self) -> (r: &'static [u8])
        ensures
            r@ == self.bytes_view(),
    {
        match self {
            KeyName::Up => &[0x1b, 0x4f, 0x41],
            KeyName::Down => &[0x1b, 0x4f, 0x42],
            KeyName::Right => &[0x1b, 0x4f, 0x43],
            KeyName::Left => &[0x1b, 0x4f, 0x44],
            KeyName::Enter => &[0x0d],
            KeyName::Esc => &[0x1b],
            KeyName::Tab => &[0x09],
            KeyName::Backspace => &[0x7f],
            KeyName::Delete => &[0x1b, 0x5b, 0x33, 0x7e],
            KeyName::Home => &[0x1b, 0x5b, 0x48],
            KeyName::End => &[0x1b, 0x5b, 0x46],
            KeyName::PageUp => &[0x1b, 0x5b, 0x35, 0x7e],
            KeyName::PageDown => &[0x1b, 0x5b, 0x36, 0x7e],
            KeyName::Space => &[0x20],
        }
    }

    /// Where a key stands in the list of all keys.
    spec fn position(self) -> int {
        match self {
            KeyName::Up => 0,
            KeyName::Down => 1,
            KeyName::Left => 2,
            KeyName::Right => 3,
            KeyName::Enter => 4,
            KeyName::Esc => 5,
            KeyName::Tab => 6,
            KeyName::Backspace => 7,
            KeyName::Delete => 8,
            KeyName::Home => 9,
            KeyName::End => 10,
            KeyName::PageUp => 11,
            KeyName::PageDown => 12,
            KeyName::Space => 13,
        }
    }

    /// The key that sends exactly `seq`, if any. `ESC` alone is the Esc key, though most other
    /// sequences begin with it.
    pub fn from_bytes(seq: &[u8]) -> (r: Option<KeyName>)
        ensures
            r == key_sending(seq@),
    {
        let all = KeyName::ALL;
        let mut i: usize = 0;
        while i < 14
            invariant
                i <= 14,
                all == KeyName::ALL,
                forall|k: KeyName| k.position() < i ==> #[trigger] k.bytes_view() != seq@,
            decreases 14 - i,
        {
            let key = all[i];
            proof {
                assert(forall|k: KeyName| #[trigger] k.position() == i ==> k == key);
            }
            if same_bytes(key.bytes(), seq) {
                proof {
                    let found = choose|k: KeyName| #[trigger] k.bytes_view() == seq@;
                    lemma_bytes_distinct(key, found);
                }
                return Some(key);
            }
            i += 1;
        }
        proof {
            assert forall|k: KeyName| #[trigger] k.bytes_view() != seq@ by {
                assert(k.position() < 14);
            }
        }
        None
    }
}

/// The key that sends `seq`. No two keys send the same bytes, so there is at most one.
pub open spec fn key_sending(seq: Seq<u8>) -> Option<KeyName> {
    if exists|k: KeyName| #[trigger] k.bytes_view() == seq {
        Some(choose|k: KeyName| #[trigger] k.bytes_view() == seq)
    } else {
        None
    }
}

proof fn lemma_bytes_distinct(a: KeyName, b: KeyName)
    requires
        a.bytes_view() == b.bytes_view(),
    ensures
        a == b,
{
    let x = a.bytes_view();
    let y = b.bytes_view();
    assert(x.len() == y.len());
    assert(x.len() > 1 ==> x[1] == y[1]);
    assert(x.len() > 2 ==> x[2] == y[2]);
    assert(x[0] == y[0]);
}

/// The bytes of a key lead back to that key.
pub proof fn law_key_bytes_read_back(key: KeyName)
    ensures
        key_sending(key.bytes_view()) == Some(key),
{
    let found = choose|k: KeyName| #[trigger] k.bytes_view() == key.bytes_view();
    lemma_bytes_distinct(found, key);
}

/// What a key press is a press of.
#[derive(Debug, Clone, Copy, PartialEq, Eq, Structural)]
pub enum KeyBase {
    Named(KeyName),
    Char(char),
}

/// One key press, with the modifiers held during it.
#[derive(Debug, Clone, Copy, PartialEq, Eq, Structural)]
pub struct KeyPress {
    pub ctrl: bool,
    pub alt: bool,
    pub shift: bool,
    pub base: KeyBase,
}

/// A modifier key.
#[derive(Debug, Clone, Copy, PartialEq, Eq, Structural)]
pub enum Modifier {
    Ctrl,
    Alt,
    Shift,
}

/// A control character: code points up to U+001F and from U+007F to U+009F.
pub open spec fn is_control(c: char) -> bool {
    c <= '\u{1f}' || ('\u{7f}' <= c && c <= '\u{9f}')
}

/// A character that a key can be named by.
pub open spec fn is_printable(c: char) -> bool {
    !is_control(c) && !is_space(c)
}

/// Whether `c` is an ASCII letter.
pub open spec fn is_letter(c: char) -> bool {
    ('a' <= c && c <= 'z') || ('A' <= c && c <= 'Z')
}

/// The upper-case form of an ASCII letter; any other character is its own upper-case form.
pub open spec fn upper_char(c: char) -> char {
    if 'a' <= c && c <= 'z' {
        (c as u32 - 32) as char
    } else {
        c
    }
}

/// Whether `name` begins with `prefix` in some letter case and goes on after it.
pub open spec fn leads(name: Seq<char>, prefix: Seq<char>) -> bool {
    name.len() > prefix.len() && occurs_at(lower(name), prefix, 0)
}

/// The modifier that `name` begins with, and the length of its prefix with the hyphen.
pub open spec fn leading_modifier(name: Seq<char>) -> Option<(Modifier, int)> {
    if leads(name, "ctrl-"@) {
        Some((Modifier::Ctrl, 5))
    } else if leads(name, "control-"@) {
        Some((Modifier::Ctrl, 8))
    } else if leads(name, "alt-"@) {
        Some((Modifier::Alt, 4))
    } else if leads(name, "meta-"@) {
        Some((Modifier::Alt, 5))
    } else if leads(name, "option-"@) {
        Some((Modifier::Alt, 7))
    } else if leads(name, "shift-"@) {
        Some((Modifier::Shift, 6))
    } else {
        None
    }
}

/// The press of `name`, which holds no modifier prefix, while the given modifiers are held.
/// A single character counts only with a modifier; a letter with Ctrl has no case.
pub open spec fn base_press(name: Seq<char>, ctrl: bool, alt: bool, shift: bool) -> Option<
    KeyPress,
> {
    match key_named(lower(name)) {
        Some(key) => Some(KeyPress { ctrl, alt, shift, base: KeyBase::Named(key) }),
        None => {
            if name.len() == 1 && is_printable(name[0]) && (ctrl || alt || shift) {
                let c = if ctrl {
                    upper_char(name[0])
                } else {
                    name[0]
                };
                Some(KeyPress { ctrl, alt, shift, base: KeyBase::Char(c) })
            } else {
                None
            }
        },
    }
}

/// A modifier prefix is not empty and leaves something of the name.
pub proof fn lemma_leading_modifier(name: Seq<char>)
    ensures
        leading_modifier(name) matches Some((m, n)) ==> 0 < n < name.len(),
{
    reveal_strlit("ctrl-");
    reveal_strlit("control-");
    reveal_strlit("alt-");
    reveal_strlit("meta-");
    reveal_strlit("option-");
    reveal_strlit("shift-");
}

/// The press that `name` stands for: any number of modifiers in any order, then a key.
pub open spec fn press_named(name: Seq<char>, ctrl: bool, alt: bool, shift: bool) -> Option<
    KeyPress,
>
    decreases name.len(),
{
    proof {
        lemma_leading_modifier(name);
    }
    match leading_modifier(name) {
        Some((Modifier::Ctrl, n)) => press_named(name.skip(n), true, alt, shift),
        Some((Modifier::Alt, n)) => press_named(name.skip(n), ctrl, true, shift),
        Some((Modifier::Shift, n)) => press_named(name.skip(n), ctrl, alt, true),
        None => base_press(name, ctrl, alt, shift),
    }
}

/// How a cursor or navigation key is encoded with modifiers: the first parameter and the final
/// byte.
pub open spec fn nav_code(key: KeyName) -> Option<(u8, u8)> {
    match key {
        KeyName::Up => Some((0x31, 0x41)),
        KeyName::Down => Some((0x31, 0x42)),
        KeyName::Right => Some((0x31, 0x43)),
        KeyName::Left => Some((0x31, 0x44)),
        KeyName::Home => Some((0x31, 0x48)),
        KeyName::End => Some((0x31, 0x46)),
        KeyName::Delete => Some((0x33, 0x7e)),
        KeyName::PageUp => Some((0x35, 0x7e)),
        KeyName::PageDown => Some((0x36, 0x7e)),
        _ => None,
    }
}

impl KeyPress {
    /// Whether any modifier is held.
    pub open spec fn modified(self) -> bool {
        self.ctrl || self.alt || self.shift
    }

    /// A press that a name can stand for: a bare character needs a modifier, and a letter with
    /// Ctrl is in upper case.
    pub open spec fn wf(self) -> bool {
        match self.base {
            KeyBase::Named(_) => true,
            KeyBase::Char(c) => self.modified() && is_printable(c) && (self.ctrl ==> upper_char(c)
                == c),
        }
    }

    /// The modifiers as a number: 1, plus 1 for Shift, 2 for Alt and 4 for Ctrl.
    pub open spec fn modifier_code(self) -> int {
        1 + (if self.shift {
            1int
        } else {
            0
        }) + (if self.alt {
            2int
        } else {
            0
        }) + (if self.ctrl {
            4int
        } else {
            0
        })
    }

    /// The prefix that Alt adds: `ESC`.
    pub open spec fn alt_prefix(self) -> Seq<u8> {
        if self.alt {
            seq![0x1b]
        } else {
            Seq::empty()
        }
    }

    /// The bytes a press sends.
    pub open spec fn bytes_view(self) -> Seq<u8> {
        match self.base {
            KeyBase::Named(key) => {
                if !self.modified() {
                    key.bytes_view()
                } else if nav_code(key) is Some {
                    let code = nav_code(key)->0;
                    seq![0x1b, 0x5b, code.0, 0x3b, (0x30 + self.modifier_code()) as u8, code.1]
                } else if key == KeyName::Tab && self.shift {
                    self.alt_prefix() + seq![0x1b, 0x5b, 0x5a]
                } else if key == KeyName::Space && self.ctrl {
                    self.alt_prefix() + seq![0x00]
                } else {
                    self.alt_prefix() + key.bytes_view()
                }
            },
            KeyBase::Char(c) => {
                if self.ctrl && is_letter(c) {
                    self.alt_prefix() + seq![(upper_char(c) as u32 - 0x40) as u8]
                } else if self.shift {
                    self.alt_prefix() + encode_utf8(seq![upper_char(c)])
                } else {
                    self.alt_prefix() + encode_utf8(seq![c])
                }
            },
        }
    }

    /// The name of the key pressed, without modifiers.
    pub open spec fn base_label(self) -> Seq<char> {
        match self.base {
            KeyBase::Named(key) => key.label_view(),
            KeyBase::Char(c) => seq![c],
        }
    }

    /// The name a press is shown and written under: Ctrl, Alt, Shift, then the key.
    pub open spec fn label_view(self) -> Seq<char> {
        let shifted = if self.shift {
            "Shift-"@ + self.base_label()
        } else {
            self.base_label()
        };
        let altered = if self.alt {
            "Alt-"@ + shifted
        } else {
            shifted
        };
        if self.ctrl {
            "Ctrl-"@ + altered
        } else {
            altered
        }
    }

    /// A press that can be told from its bytes when they are recorded: an unmodified key, a
    /// cursor or navigation key with modifiers, Shift-Tab, and Ctrl with a letter, except for the
    /// letters whose control byte is Tab, a line feed or a carriage return.
    pub open spec fn recordable(self) -> bool {
        match self.base {
            KeyBase::Named(key) => {
                ||| !self.modified()
                ||| nav_code(key) is Some
                ||| key == KeyName::Tab && self.shift && !self.alt && !self.ctrl
            },
            KeyBase::Char(c) => {
                &&& self.ctrl
                &&& !self.alt
                &&& !self.shift
                &&& 'A' <= c
                &&& c <= 'Z'
                &&& c != 'I'
                &&& c != 'J'
                &&& c != 'M'
            },
        }
    }
}

/// The press that is recorded for `seq`: the one recordable press that sends it.
pub open spec fn press_sending(seq: Seq<u8>) -> Option<KeyPress> {
    if exists|p: KeyPress| p.recordable() && #[trigger] p.bytes_view() == seq {
        Some(choose|p: KeyPress| p.recordable() && #[trigger] p.bytes_view() == seq)
    } else {
        None
    }
}

/// The bytes of a recordable press, one by one.
pub proof fn lemma_recordable_bytes(p: KeyPress)
    requires
        p.recordable(),
    ensures
        ({
            let b = p.bytes_view();
            match p.base {
                KeyBase::Named(key) => {
                    if !p.modified() {
                        b == key.bytes_view() && key_sending(b) == Some(key)
                    } else if nav_code(key) is Some {
                        &&& b.len() == 6
                        &&& b[0] == 0x1b
                        &&& b[1] == 0x5b
                        &&& b[2] == (nav_code(key)->0).0
                        &&& b[3] == 0x3b
                        &&& b[4] == 0x30 + p.modifier_code()
                        &&& b[5] == (nav_code(key)->0).1
                    } else {
                        b == seq![0x1bu8, 0x5b, 0x5a]
                    }
                },
                KeyBase::Char(c) => {
                    &&& b.len() == 1
                    &&& b[0] == c as u32 - 0x40
                },
            }
        }),
{
    match p.base {
        KeyBase::Named(key) => {
            law_key_bytes_read_back(key);
            if key == KeyName::Tab && p.modified() {
                assert(p.bytes_view() =~= seq![0x1bu8, 0x5b, 0x5a]);
            }
        },
        KeyBase::Char(c) => {
            assert(p.bytes_view() =~= seq![(c as u32 - 0x40) as u8]);
        },
    }
}

proof fn lemma_presses_distinct(p: KeyPress, q: KeyPress)
    requires
        p.recordable(),
        q.recordable(),
        p.bytes_view() == q.bytes_view(),
    ensures
        p == q,
{
    lemma_recordable_bytes(p);
    lemma_recordable_bytes(q);
    let x = p.bytes_view();
    let y = q.bytes_view();
    assert(x.len() == y.len());
    assert(x[0] == y[0]);
    if x.len() == 3 {
        assert(x[1] == y[1] && x[2] == y[2]);
    }
    if x.len() == 6 {
        assert(x[2] == y[2] && x[4] == y[4] && x[5] == y[5]);
    }
}

/// What is recorded for the bytes of a recordable press is that press.
pub proof fn law_press_bytes_read_back(p: KeyPress)
    requires
        p.recordable(),
    ensures
        press_sending(p.bytes_view()) == Some(p),
{
    let found = choose|q: KeyPress| q.recordable() && #[trigger] q.bytes_view() == p.bytes_view();
    lemma_presses_distinct(found, p);
}

/// A single character is not the name of a key.
proof fn lemma_names_are_words(name: Seq<char>)
    requires
        name.len() == 1,
    ensures
        key_named(name) is None,
{
    reveal_strlit("up");
    reveal_strlit("down");
    reveal_strlit("left");
    reveal_strlit("right");
    reveal_strlit("enter");
    reveal_strlit("return");
    reveal_strlit("cr");
    reveal_strlit("esc");
    reveal_strlit("escape");
    reveal_strlit("tab");
    reveal_strlit("backspace");
    reveal_strlit("bs");
    reveal_strlit("delete");
    reveal_strlit("del");
    reveal_strlit("home");
    reveal_strlit("end");
    reveal_strlit("pageup");
    reveal_strlit("pgup");
    reveal_strlit("pagedown");
    reveal_strlit("pgdn");
    reveal_strlit("pgdown");
    reveal_strlit("space");
}

/// The label of a key is one of its names.
proof fn lemma_label_names_key(key: KeyName)
    ensures
        key_named(lower(key.label_view())) == Some(key),
        forall|i: int| 0 <= i < key.label_view().len() ==> key.label_view()[i] != '-',
{
    reveal_strlit("up");
    reveal_strlit("down");
    reveal_strlit("left");
    reveal_strlit("right");
    reveal_strlit("enter");
    reveal_strlit("return");
    reveal_strlit("cr");
    reveal_strlit("esc");
    reveal_strlit("escape");
    reveal_strlit("tab");
    reveal_strlit("backspace");
    reveal_strlit("bs");
    reveal_strlit("delete");
    reveal_strlit("del");
    reveal_strlit("home");
    reveal_strlit("end");
    reveal_strlit("pageup");
    reveal_strlit("pgup");
    reveal_strlit("pagedown");
    reveal_strlit("pgdn");
    reveal_strlit("pgdown");
    reveal_strlit("space");
    reveal_strlit("Up");
    reveal_strlit("Down");
    reveal_strlit("Left");
    reveal_strlit("Right");
    reveal_strlit("Enter");
    reveal_strlit("Esc");
    reveal_strlit("Tab");
    reveal_strlit("Backspace");
    reveal_strlit("Delete");
    reveal_strlit("Home");
    reveal_strlit("End");
    reveal_strlit("PageUp");
    reveal_strlit("PageDown");
    reveal_strlit("Space");
    let low = lower(key.label_view());
    match key {
        KeyName::Up => {
            assert(low =~= "up"@);
        },
        KeyName::Down => {
            assert(low =~= "down"@);
        },
        KeyName::Left => {
            assert(low =~= "left"@);
            assert("left"@[0] != "down"@[0]);
        },
        KeyName::Right => {
            assert(low =~= "right"@);
        },
        KeyName::Enter => {
            assert(low =~= "enter"@);
            assert("enter"@[0] != "right"@[0]);
        },
        KeyName::Esc => {
            assert(low =~= "esc"@);
        },
        KeyName::Tab => {
            assert(low =~= "tab"@);
            assert("tab"@[0] != "esc"@[0]);
        },
        KeyName::Backspace => {
            assert(low =~= "backspace"@);
        },
        KeyName::Delete => {
            assert(low =~= "delete"@);
            assert("delete"@[0] != "return"@[0] && "delete"@[0] != "escape"@[0]);
        },
        KeyName::Home => {
            assert(low =~= "home"@);
            assert("home"@[0] != "down"@[0] && "home"@[0] != "left"@[0]);
        },
        KeyName::End => {
            assert(low =~= "end"@);
            assert("end"@[1] != "esc"@[1] && "end"@[0] != "tab"@[0] && "end"@[0] != "del"@[0]);
        },
        KeyName::PageUp => {
            assert(low =~= "pageup"@);
            assert("pageup"@[0] != "return"@[0] && "pageup"@[0] != "escape"@[0] && "pageup"@[0]
                != "delete"@[0]);
        },
        KeyName::PageDown => {
            assert(low =~= "pagedown"@);
        },
        KeyName::Space => {
            assert(low =~= "space"@);
            assert("space"@[0] != "right"@[0] && "space"@[0] != "enter"@[0]);
        },
    }
}

proof fn lemma_no_leading_modifier(name: Seq<char>)
    requires
        name.len() == 1 || forall|i: int| 0 <= i < name.len() ==> name[i] != '-',
    ensures
        leading_modifier(name) is None,
{
    reveal_strlit("ctrl-");
    reveal_strlit("control-");
    reveal_strlit("alt-");
    reveal_strlit("meta-");
    reveal_strlit("option-");
    reveal_strlit("shift-");
    if leading_modifier(name) is Some {
        let prefix = if leads(name, "ctrl-"@) {
            "ctrl-"@
        } else if leads(name, "control-"@) {
            "control-"@
        } else if leads(name, "alt-"@) {
            "alt-"@
        } else if leads(name, "meta-"@) {
            "meta-"@
        } else if leads(name, "option-"@) {
            "option-"@
        } else {
            "shift-"@
        };
        let n = prefix.len() as int;
        assert(lower(name).subrange(0, n)[n - 1] == prefix[n - 1]);
        assert(lower(name)[n - 1] == lower_char(name[n - 1]));
    }
}

proof fn lemma_label_prefixes(rest: Seq<char>)
    requires
        rest.len() > 0,
    ensures
        leading_modifier("Ctrl-"@ + rest) == Some((Modifier::Ctrl, 5int)),
        leading_modifier("Alt-"@ + rest) == Some((Modifier::Alt, 4int)),
        leading_modifier("Shift-"@ + rest) == Some((Modifier::Shift, 6int)),
        ("Ctrl-"@ + rest).skip(5) == rest,
        ("Alt-"@ + rest).skip(4) == rest,
        ("Shift-"@ + rest).skip(6) == rest,
{
    reveal_strlit("ctrl-");
    reveal_strlit("control-");
    reveal_strlit("alt-");
    reveal_strlit("meta-");
    reveal_strlit("option-");
    reveal_strlit("shift-");
    reveal_strlit("Ctrl-");
    reveal_strlit("Alt-");
    reveal_strlit("Shift-");
    let c = "Ctrl-"@ + rest;
    let a = "Alt-"@ + rest;
    let s = "Shift-"@ + rest;
    assert(lower(c).subrange(0, 5) =~= "ctrl-"@);
    assert(lower(a).subrange(0, 4) =~= "alt-"@);
    assert(lower(s).subrange(0, 6) =~= "shift-"@);
    assert(lower(a)[0] == 'a');
    assert(lower(s)[0] == 's');
    assert forall|name: Seq<char>, prefix: Seq<char>|
        prefix.len() > 0 && #[trigger] leads(name, prefix) implies lower(name)[0] == prefix[0] by {
        assert(lower(name).subrange(0, prefix.len() as int)[0] == prefix[0]);
    }
    assert(c.skip(5) =~= rest);
    assert(a.skip(4) =~= rest);
    assert(s.skip(6) =~= rest);
}

/// The label of a press that a name can stand for names that press.
pub proof fn law_press_label_read_back(p: KeyPress)
    requires
        p.wf(),
    ensures
        press_named(p.label_view(), false, false, false) == Some(p),
{
    let base = p.base_label();
    match p.base {
        KeyBase::Named(key) => {
            lemma_label_names_key(key);
        },
        KeyBase::Char(c) => {
            lemma_names_are_words(lower(base));
        },
    }
    lemma_no_leading_modifier(base);
    assert(base.len() > 0) by {
        reveal_strlit("Up");
        reveal_strlit("Down");
        reveal_strlit("Left");
        reveal_strlit("Right");
        reveal_strlit("Enter");
        reveal_strlit("Esc");
        reveal_strlit("Tab");
        reveal_strlit("Backspace");
        reveal_strlit("Delete");
        reveal_strlit("Home");
        reveal_strlit("End");
        reveal_strlit("PageUp");
        reveal_strlit("PageDown");
        reveal_strlit("Space");
    }
    assert(press_named(base, p.ctrl, p.alt, p.shift) == Some(p));
    let shifted = if p.shift {
        "Shift-"@ + base
    } else {
        base
    };
    lemma_label_prefixes(base);
    assert(press_named(shifted, p.ctrl, p.alt, false) == Some(p));
    let altered = if p.alt {
        "Alt-"@ + shifted
    } else {
        shifted
    };
    lemma_label_prefixes(shifted);
    assert(press_named(altered, p.ctrl, false, false) == Some(p));
    lemma_label_prefixes(altered);
}

/// A name stands for well-formed presses only.
pub proof fn lemma_named_presses_wf(name: Seq<char>, ctrl: bool, alt: bool, shift: bool)
    ensures
        press_named(name, ctrl, alt, shift) matches Some(p) ==> p.wf(),
    decreases name.len(),
{
    lemma_leading_modifier(name);
    match leading_modifier(name) {
        Some((Modifier::Ctrl, n)) => lemma_named_presses_wf(name.skip(n), true, alt, shift),
        Some((Modifier::Alt, n)) => lemma_named_presses_wf(name.skip(n), ctrl, true, shift),
        Some((Modifier::Shift, n)) => lemma_named_presses_wf(name.skip(n), ctrl, alt, true),
        None => {},
    }
}

/// The press of a key without modifiers.
pub open spec fn plain_press(key: KeyName) -> KeyPress {
    KeyPress { ctrl: false, alt: false, shift: false, base: KeyBase::Named(key) }
}

impl From<KeyName> for KeyPress {
    fn from(key: KeyName) -> (r: KeyPress) {
        KeyPress { ctrl: false, alt: false, shift: false, base: KeyBase::Named(key) }
    }
}

impl vstd::std_specs::convert::FromSpecImpl<KeyName> for KeyPress {
    open spec fn obeys_from_spec() -> bool {
        true
    }

    open spec fn from_spec(key: KeyName) -> KeyPress {
        plain_press(key)
    }
}

/// Whether `c` is a control character.
pub fn is_control_char(c: char) -> (r: bool)
    ensures
        r == is_control(c),
{
    c <= '\u{1f}' || ('\u{7f}' <= c && c <= '\u{9f}')
}

/// The upper-case form of an ASCII letter, and any other character as it is.
fn upper_char_exec(c: char) -> (r: char)
    ensures
        r == upper_char(c),
{
    if 'a' <= c && c <= 'z' {
        ((c as u8) - 32) as char
    } else {
        c
    }
}

/// Whether the lower-cased name begins with `prefix` and goes on after it.
fn leads_exec(low: &[char], prefix: &str) -> (r: bool)
    ensures
        r == (low@.len() > prefix@.len() && occurs_at(low@, prefix@, 0)),
{
    let p = chars_of(prefix);
    low.len() > p.len() && char_run_at(low, p.as_slice(), 0)
}

/// Finds the modifier that a name begins with.
fn leading_modifier_exec(name: &[char]) -> (r: Option<(Modifier, usize)>)
    ensures
        match r {
            Some((m, n)) => leading_modifier(name@) == Some((m, n as int)) && 0 < n < name@.len(),
            None => leading_modifier(name@) is None,
        },
{
    proof {
        lemma_leading_modifier(name@);
    }
    let low = lower_chars(name);
    let l = low.as_slice();
    if leads_exec(l, "ctrl-") {
        Some((Modifier::Ctrl, 5))
    } else if leads_exec(l, "control-") {
        Some((Modifier::Ctrl, 8))
    } else if leads_exec(l, "alt-") {
        Some((Modifier::Alt, 4))
    } else if leads_exec(l, "meta-") {
        Some((Modifier::Alt, 5))
    } else if leads_exec(l, "option-") {
        Some((Modifier::Alt, 7))
    } else if leads_exec(l, "shift-") {
        Some((Modifier::Shift, 6))
    } else {
        None
    }
}

impl KeyPress {
    /// The press of that name: modifiers joined to the key with hyphens, in any order and any
    /// letter case. A character alone is not a key.
    pub fn parse(name: &str) -> (r: Option<KeyPress>)
        ensures
            r == press_named(name@, false, false, false),
            r matches Some(p) ==> p.wf(),
    {
        proof {
            lemma_named_presses_wf(name@, false, false, false);
        }
        let mut rest = chars_of(name);
        let mut ctrl = false;
        let mut alt = false;
        let mut shift = false;
        loop
            invariant
                press_named(name@, false, false, false) matches Some(p) ==> p.wf(),
                press_named(rest@, ctrl, alt, shift) == press_named(name@, false, false, false),
            decreases rest@.len(),
        {
            match leading_modifier_exec(rest.as_slice()) {
                Some((m, n)) => {
                    let tail = vstd::slice::slice_to_vec(
                        vstd::slice::slice_subrange(rest.as_slice(), n, rest.len()),
                    );
                    proof {
                        assert(tail@ =~= rest@.skip(n as int));
                    }
                    match m {
                        Modifier::Ctrl => {
                            ctrl = true;
                        },
                        Modifier::Alt => {
                            alt = true;
                        },
                        Modifier::Shift => {
                            shift = true;
                        },
                    }
                    rest = tail;
                },
                None => {
                    let s = string_of(rest.as_slice());
                    match KeyName::parse(s.as_str()) {
                        Some(key) => {
                            return Some(
                                KeyPress { ctrl, alt, shift, base: KeyBase::Named(key) },
                            );
                        },
                        None => {},
                    }
                    if rest.len() == 1 && !is_control_char(rest[0]) && !is_space_char(rest[0]) && (
                    ctrl || alt || shift) {
                        let c = if ctrl {
                            upper_char_exec(rest[0])
                        } else {
                            rest[0]
                        };
                        return Some(KeyPress { ctrl, alt, shift, base: KeyBase::Char(c) });
                    }
                    return None;
                },
            }
        }
    }

    /// The name this press is shown and written under.
    pub fn label(&self) -> (r: String)
        ensures
            r@ == self.label_view(),
    {
        let mut out: Vec<char> = Vec::new();
        if self.ctrl {
            let p = chars_of("Ctrl-");
            append_chars(&mut out, p.as_slice());
        }
        if self.alt {
            let p = chars_of("Alt-");
            append_chars(&mut out, p.as_slice());
        }
        if self.shift {
            let p = chars_of("Shift-");
            append_chars(&mut out, p.as_slice());
        }
        match self.base {
            KeyBase::Named(key) => {
                let p = chars_of(key.label());
                append_chars(&mut out, p.as_slice());
            },
            KeyBase::Char(c) => {
                out.push(c);
            },
        }
        proof {
            assert(out@ =~= self.label_view());
        }
        string_of(out.as_slice())
    }
}

impl KeyPress {
    /// Whether any modifier is held.
    fn has_modifier(&self) -> (r: bool)
        ensures
            r == self.modified(),
    {
        self.ctrl || self.alt || self.shift
    }

    /// The bytes sent to the program for this press.
    pub fn bytes(&self) -> (r: Vec<u8>)
        ensures
            r@ == self.bytes_view(),
    {
        let mut out: Vec<u8> = Vec::new();
        match self.base {
            KeyBase::Named(key) => {
                if !self.has_modifier() {
                    append_bytes(&mut out, key.bytes());
                } else if let Some((lead, last)) = nav_code_exec(key) {
                    let mut digit: u8 = 0x31;
                    if self.shift {
                        digit += 1;
                    }
                    if self.alt {
                        digit += 2;
                    }
                    if self.ctrl {
                        digit += 4;
                    }
                    append_bytes(&mut out, &[0x1b, 0x5b, lead, 0x3b, digit, last]);
                } else {
                    if self.alt {
                        out.push(0x1b);
                    }
                    if key == KeyName::Tab && self.shift {
                        append_bytes(&mut out, &[0x1b, 0x5b, 0x5a]);
                    } else if key == KeyName::Space && self.ctrl {
                        out.push(0x00);
                    } else {
                        append_bytes(&mut out, key.bytes());
                    }
                }
            },
            KeyBase::Char(c) => {
                if self.alt {
                    out.push(0x1b);
                }
                let up = upper_char_exec(c);
                if self.ctrl && 'A' <= up && up <= 'Z' {
                    out.push((up as u8) - 0x40);
                } else {
                    let sent = if self.shift {
                        up
                    } else {
                        c
                    };
                    let one = [sent];
                    proof {
                        assert(one@ =~= seq![sent]);
                    }
                    let more = utf8_bytes(one.as_slice());
                    append_bytes(&mut out, more.as_slice());
                }
            },
        }
        proof {
            assert(out@ =~= self.bytes_view());
        }
        out
    }

    /// The press that is recorded for `seq`, if it is one.
    pub fn from_bytes(seq: &[u8]) -> (r: Option<KeyPress>)
        ensures
            r == press_sending(seq@),
    {
        let found = match KeyName::from_bytes(seq) {
            Some(key) => Some(KeyPress::from(key)),
            None => {
                if seq.len() == 1 && 1 <= seq[0] && seq[0] <= 26 && seq[0] != 9 && seq[0] != 10
                    && seq[0] != 13 {
                    Some(
                        KeyPress {
                            ctrl: true,
                            alt: false,
                            shift: false,
                            base: KeyBase::Char((seq[0] + 0x40) as char),
                        },
                    )
                } else if same_bytes(seq, &[0x1b, 0x5b, 0x5a]) {
                    Some(
                        KeyPress {
                            ctrl: false,
                            alt: false,
                            shift: true,
                            base: KeyBase::Named(KeyName::Tab),
                        },
                    )
                } else if seq.len() == 6 && seq[0] == 0x1b && seq[1] == 0x5b && seq[3] == 0x3b {
                    match nav_key(seq[2], seq[5]) {
                        Some(key) => {
                            let m = seq[4];
                            if 0x32 <= m && m <= 0x38 {
                                Some(
                                    KeyPress {
                                        ctrl: m >= 0x35,
                                        alt: m == 0x33 || m == 0x34 || m == 0x37 || m == 0x38,
                                        shift: m == 0x32 || m == 0x34 || m == 0x36 || m == 0x38,
                                        base: KeyBase::Named(key),
                                    },
                                )
                            } else {
                                None
                            }
                        },
                        None => None,
                    }
                } else {
                    None
                }
            },
        };
        proof {
            match found {
                Some(p) => {
                    assert(p.bytes_view() =~= seq@);
                    let other = choose|q: KeyPress| q.recordable() && #[trigger] q.bytes_view()
                        == seq@;
                    lemma_presses_distinct(p, other);
                },
                None => {
                    assert forall|q: KeyPress| q.recordable() implies #[trigger] q.bytes_view()
                        != seq@ by {
                        lemma_recordable_bytes(q);
                    }
                },
            }
        }
        found
    }
}

/// How a cursor or navigation key is encoded with modifiers.
fn nav_code_exec(key: KeyName) -> (r: Option<(u8, u8)>)
    ensures
        r == nav_code(key),
{
    match key {
        KeyName::Up => Some((0x31, 0x41)),
        KeyName::Down => Some((0x31, 0x42)),
        KeyName::Right => Some((0x31, 0x43)),
        KeyName::Left => Some((0x31, 0x44)),
        KeyName::Home => Some((0x31, 0x48)),
        KeyName::End => Some((0x31, 0x46)),
        KeyName::Delete => Some((0x33, 0x7e)),
        KeyName::PageUp => Some((0x35, 0x7e)),
        KeyName::PageDown => Some((0x36, 0x7e)),
        _ => None,
    }
}

/// The cursor or navigation key with that code.
fn nav_key(lead: u8, last: u8) -> (r: Option<KeyName>)
    ensures
        match r {
            Some(key) => nav_code(key) == Some((lead, last)),
            None => forall|key: KeyName| #[trigger] nav_code(key) != Some((lead, last)),
        },
{
    if lead == 0x31 && last == 0x41 {
        Some(KeyName::Up)
    } else if lead == 0x31 && last == 0x42 {
        Some(KeyName::Down)
    } else if lead == 0x31 && last == 0x43 {
        Some(KeyName::Right)
    } else if lead == 0x31 && last == 0x44 {
        Some(KeyName::Left)
    } else if lead == 0x31 && last == 0x48 {
        Some(KeyName::Home)
    } else if lead == 0x31 && last == 0x46 {
        Some(KeyName::End)
    } else if lead == 0x33 && last == 0x7e {
        Some(KeyName::Delete)
    } else if lead == 0x35 && last == 0x7e {
        Some(KeyName::PageUp)
    } else if lead == 0x36 && last == 0x7e {
        Some(KeyName::PageDown)
    } else {
        None
    }
}

/// What each key sends on its own.
pub proof fn law_each_key_sends_its_bytes(key: KeyName)
    ensures
        key == KeyName::Enter ==> key.bytes_view() == seq![0x0du8],
        key == KeyName::Esc ==> key.bytes_view() == seq![0x1bu8],
        key == KeyName::Tab ==> key.bytes_view() == seq![0x09u8],
        key == KeyName::Backspace ==> key.bytes_view() == seq![0x7fu8],
        key == KeyName::Space ==> key.bytes_view() == seq![0x20u8],
        key == KeyName::Up ==> key.bytes_view() == seq![0x1bu8, 0x4f, 0x41],
        key == KeyName::Down ==> key.bytes_view() == seq![0x1bu8, 0x4f, 0x42],
        key == KeyName::Right ==> key.bytes_view() == seq![0x1bu8, 0x4f, 0x43],
        key == KeyName::Left ==> key.bytes_view() == seq![0x1bu8, 0x4f, 0x44],
        key == KeyName::Home ==> key.bytes_view() == seq![0x1bu8, 0x5b, 0x48],
        key == KeyName::End ==> key.bytes_view() == seq![0x1bu8, 0x5b, 0x46],
        key == KeyName::Delete ==> key.bytes_view() == seq![0x1bu8, 0x5b, 0x33, 0x7e],
        key == KeyName::PageUp ==> key.bytes_view() == seq![0x1bu8, 0x5b, 0x35, 0x7e],
        key == KeyName::PageDown ==> key.bytes_view() == seq![0x1bu8, 0x5b, 0x36, 0x7e],
        plain_press(key).bytes_view() == key.bytes_view(),
{
}

/// Whether a key is a cursor or navigation key.
pub open spec fn navigates(key: KeyName) -> bool {
    match key {
        KeyName::Up | KeyName::Down | KeyName::Left | KeyName::Right => true,
        KeyName::Home | KeyName::End | KeyName::PageUp | KeyName::PageDown => true,
        KeyName::Delete => true,
        _ => false,
    }
}

/// Alt puts an escape byte in front of what is sent without it, but for the cursor and navigation
/// keys, which tell of it in their sequence.
pub proof fn law_alt_sends_escape_first(p: KeyPress)
    requires
        p.alt,
        p.base matches KeyBase::Named(key) ==> !navigates(key),
    ensures
        p.bytes_view() == seq![0x1bu8] + (KeyPress { alt: false, ..p }).bytes_view(),
{
    let q = KeyPress { alt: false, ..p };
    match p.base {
        KeyBase::Named(key) => {
            assert(nav_code(key) is None);
            if !q.modified() {
                assert(p.bytes_view() =~= seq![0x1bu8] + q.bytes_view());
            } else {
                assert(p.bytes_view() =~= seq![0x1bu8] + q.bytes_view());
            }
        },
        KeyBase::Char(c) => {
            assert(p.bytes_view() =~= seq![0x1bu8] + q.bytes_view());
        },
    }
}

/// With modifiers, a cursor or navigation key sends the long form of its sequence, in which a digit
/// tells of them: one, and one more for Shift, two for Alt, four for Ctrl.
pub proof fn law_modifiers_are_told_in_a_digit(p: KeyPress, key: KeyName)
    requires
        p.base == KeyBase::Named(key),
        navigates(key),
        p.ctrl || p.alt || p.shift,
    ensures
        ({
            let b = p.bytes_view();
            let digit: int = 0x31 + (if p.shift {
                1int
            } else {
                0
            }) + (if p.alt {
                2int
            } else {
                0
            }) + (if p.ctrl {
                4int
            } else {
                0
            });
            &&& b.len() == 6
            &&& b[0] == 0x1b && b[1] == 0x5b && b[3] == 0x3b && b[4] == digit
            &&& key == KeyName::Up ==> b[2] == 0x31 && b[5] == 0x41
            &&& key == KeyName::Down ==> b[2] == 0x31 && b[5] == 0x42
            &&& key == KeyName::Right ==> b[2] == 0x31 && b[5] == 0x43
            &&& key == KeyName::Left ==> b[2] == 0x31 && b[5] == 0x44
            &&& key == KeyName::Home ==> b[2] == 0x31 && b[5] == 0x48
            &&& key == KeyName::End ==> b[2] == 0x31 && b[5] == 0x46
            &&& key == KeyName::Delete ==> b[2] == 0x33 && b[5] == 0x7e
            &&& key == KeyName::PageUp ==> b[2] == 0x35 && b[5] == 0x7e
            &&& key == KeyName::PageDown ==> b[2] == 0x36 && b[5] == 0x7e
        }),
{
}

/// What the other presses send: Ctrl with a letter, of either case, the number of the letter in the
/// alphabet; Shift with a letter its upper case; any other character its encoding. Shift with Tab
/// has a sequence of its own, Ctrl with Space sends a zero, and the modifiers change nothing about
/// the other keys.
pub proof fn law_modified_presses(shift: bool, ctrl: bool, c: char, key: KeyName)
    requires
        !navigates(key),
    ensures
        ({
            let typed = KeyPress { ctrl, alt: false, shift, base: KeyBase::Char(c) };
            &&& ctrl && 'A' <= c <= 'Z' ==> typed.bytes_view() == seq![(c as u32 - 64) as u8]
            &&& ctrl && 'a' <= c <= 'z' ==> typed.bytes_view() == seq![(c as u32 - 96) as u8]
            &&& !ctrl && shift && 'a' <= c <= 'z' ==> typed.bytes_view() == encode_utf8(
                seq![(c as u32 - 32) as char],
            )
            &&& !('a' <= c <= 'z') && !(ctrl && 'A' <= c <= 'Z') ==> typed.bytes_view()
                == encode_utf8(seq![c])
            &&& !ctrl && !shift ==> typed.bytes_view() == encode_utf8(seq![c])
        }),
        ({
            let b = (KeyPress { ctrl, alt: false, shift, base: KeyBase::Named(key) }).bytes_view();
            &&& key == KeyName::Tab && shift ==> b == seq![0x1bu8, 0x5b, 0x5a]
            &&& key == KeyName::Space && ctrl ==> b == seq![0x00u8]
            &&& !(key == KeyName::Tab && shift) && !(key == KeyName::Space && ctrl) ==> b
                == key.bytes_view()
        }),
{
    let none = Seq::<u8>::empty();
    assert(none + key.bytes_view() =~= key.bytes_view());
    assert(none + seq![0x00u8] =~= seq![0x00u8]);
    assert(none + seq![0x1bu8, 0x5b, 0x5a] =~= seq![0x1bu8, 0x5b, 0x5a]);
    assert(none + encode_utf8(seq![c]) =~= encode_utf8(seq![c]));
    assert(none + encode_utf8(seq![upper_char(c)]) =~= encode_utf8(seq![upper_char(c)]));
    let letter = (upper_char(c) as u32 - 0x40) as u8;
    assert(none + seq![letter] =~= seq![letter]);
}

/// Which presses are recorded as presses: every key on its own, the cursor and navigation keys with
/// whatever modifiers, Shift-Tab, and Ctrl with a letter whose control byte no key of its own
/// sends.
pub proof fn law_what_can_be_recorded(p: KeyPress, key: KeyName, c: char)
    ensures
        plain_press(key).recordable(),
        p.base == KeyBase::Named(key) && navigates(key) ==> p.recordable(),
        (KeyPress {
            ctrl: false,
            alt: false,
            shift: true,
            base: KeyBase::Named(KeyName::Tab),
        }).recordable(),
        'A' <= c <= 'Z' && c != 'I' && c != 'J' && c != 'M' ==> (KeyPress {
            ctrl: true,
            alt: false,
            shift: false,
            base: KeyBase::Char(c),
        }).recordable(),
        p.recordable() ==> match p.base {
            KeyBase::Named(k) => navigates(k) || (!p.ctrl && !p.alt && (!p.shift || k
                == KeyName::Tab)),
            KeyBase::Char(d) => p.ctrl && !p.alt && !p.shift && 'A' <= d <= 'Z' && d != 'I' && d
                != 'J' && d != 'M',
        },
{
}

proof fn lemma_prefix_leads(head: Seq<char>, rest: Seq<char>, prefix: Seq<char>)
    requires
        lower(head) == prefix,
        rest.len() > 0,
    ensures
        leads(head + rest, prefix),
        (head + rest).skip(head.len() as int) == rest,
        forall|i: int| 0 <= i < prefix.len() ==> lower(head + rest)[i] == #[trigger] prefix[i],
        head.len() == prefix.len(),
{
    let all = head + rest;
    assert(lower(head).len() == head.len());
    assert forall|i: int| 0 <= i < prefix.len() implies lower(all)[i] == #[trigger] prefix[i] by {
        assert(lower(head)[i] == lower_char(head[i]));
    }
    assert(lower(all).subrange(0, prefix.len() as int) =~= prefix);
    assert(all.skip(head.len() as int) =~= rest);
}

proof fn lemma_no_lead(name: Seq<char>, prefix: Seq<char>, i: int)
    requires
        0 <= i < prefix.len(),
        i < name.len() ==> lower(name)[i] != prefix[i],
    ensures
        !leads(name, prefix),
{
    if leads(name, prefix) {
        assert(lower(name).subrange(0, prefix.len() as int)[i] == prefix[i]);
    }
}

/// A modifier in front of a name, in any letter case and under any of its names, holds that
/// modifier down for the rest of the name, whatever else is held.
pub proof fn law_modifiers_stand_in_front(
    head: Seq<char>,
    rest: Seq<char>,
    ctrl: bool,
    alt: bool,
    shift: bool,
)
    requires
        rest.len() > 0,
    ensures
        lower(head) == "ctrl-"@ || lower(head) == "control-"@ ==> press_named(
            head + rest,
            ctrl,
            alt,
            shift,
        ) == press_named(rest, true, alt, shift),
        lower(head) == "alt-"@ || lower(head) == "meta-"@ || lower(head) == "option-"@
            ==> press_named(head + rest, ctrl, alt, shift) == press_named(rest, ctrl, true, shift),
        lower(head) == "shift-"@ ==> press_named(head + rest, ctrl, alt, shift) == press_named(
            rest,
            ctrl,
            alt,
            true,
        ),
{
    reveal_strlit("ctrl-");
    reveal_strlit("control-");
    reveal_strlit("alt-");
    reveal_strlit("meta-");
    reveal_strlit("option-");
    reveal_strlit("shift-");
    assert("ctrl-"@[0] == 'c' && "control-"@[0] == 'c' && "alt-"@[0] == 'a' && "meta-"@[0] == 'm'
        && "option-"@[0] == 'o' && "shift-"@[0] == 's');
    let name = head + rest;
    let low = lower(head);
    if low == "ctrl-"@ {
        lemma_prefix_leads(head, rest, "ctrl-"@);
    } else if low == "control-"@ {
        lemma_prefix_leads(head, rest, "control-"@);
        assert(lower(name)[1] == "control-"@[1]);
        lemma_no_lead(name, "ctrl-"@, 1);
    } else if low == "alt-"@ {
        lemma_prefix_leads(head, rest, "alt-"@);
        assert(lower(name)[0] == "alt-"@[0]);
        lemma_no_lead(name, "ctrl-"@, 0);
        lemma_no_lead(name, "control-"@, 0);
    } else if low == "meta-"@ {
        lemma_prefix_leads(head, rest, "meta-"@);
        assert(lower(name)[0] == "meta-"@[0]);
        lemma_no_lead(name, "ctrl-"@, 0);
        lemma_no_lead(name, "control-"@, 0);
        lemma_no_lead(name, "alt-"@, 0);
    } else if low == "option-"@ {
        lemma_prefix_leads(head, rest, "option-"@);
        assert(lower(name)[0] == "option-"@[0]);
        lemma_no_lead(name, "ctrl-"@, 0);
        lemma_no_lead(name, "control-"@, 0);
        lemma_no_lead(name, "alt-"@, 0);
        lemma_no_lead(name, "meta-"@, 0);
    } else if low == "shift-"@ {
        lemma_prefix_leads(head, rest, "shift-"@);
        assert(lower(name)[0] == "shift-"@[0]);
        lemma_no_lead(name, "ctrl-"@, 0);
        lemma_no_lead(name, "control-"@, 0);
        lemma_no_lead(name, "alt-"@, 0);
        lemma_no_lead(name, "meta-"@, 0);
        lemma_no_lead(name, "option-"@, 0);
    }
}

/// Without a modifier in front, a name is that of a key, or one printable character while some
/// modifier is held; a letter with Ctrl has no case. Nothing else is a press.
pub proof fn law_names_without_modifier(
    name: Seq<char>,
    ctrl: bool,
    alt: bool,
    shift: bool,
)
    requires
        name.len() == 1 || forall|i: int| 0 <= i < name.len() ==> name[i] != '-',
    ensures
        match key_named(lower(name)) {
            Some(key) => press_named(name, ctrl, alt, shift) == Some(
                (KeyPress { ctrl, alt, shift, base: KeyBase::Named(key) }),
            ),
            None => {
                &&& name.len() != 1 ==> press_named(name, ctrl, alt, shift) is None
                &&& !ctrl && !alt && !shift ==> press_named(name, ctrl, alt, shift) is None
                &&& name.len() == 1 && is_printable(name[0]) && !ctrl && (alt || shift)
                    ==> press_named(name, ctrl, alt, shift) == Some(
                    (KeyPress { ctrl, alt, shift, base: KeyBase::Char(name[0]) }),
                )
                &&& name.len() == 1 && is_printable(name[0]) && ctrl && !('a' <= name[0] <= 'z')
                    ==> press_named(name, ctrl, alt, shift) == Some(
                    (KeyPress { ctrl, alt, shift, base: KeyBase::Char(name[0]) }),
                )
                &&& name.len() == 1 && ctrl && 'a' <= name[0] <= 'z' ==> press_named(
                    name,
                    ctrl,
                    alt,
                    shift,
                ) == Some(
                    (KeyPress {
                        ctrl,
                        alt,
                        shift,
                        base: KeyBase::Char((name[0] as u32 - 32) as char),
                    }),
                )
            },
        },
{
    lemma_no_leading_modifier(name);
}

/// A name that begins with no modifier, in any letter case, is that of a key or one character:
/// what stands before any other hyphen in it changes nothing.
pub proof fn law_only_modifiers_stand_in_front(
    name: Seq<char>,
    ctrl: bool,
    alt: bool,
    shift: bool,
)
    requires
        name.len() > 1,
        name.len() > 5 ==> lower(name).take(5) != "ctrl-"@ && lower(name).take(5) != "meta-"@,
        name.len() > 8 ==> lower(name).take(8) != "control-"@,
        name.len() > 4 ==> lower(name).take(4) != "alt-"@,
        name.len() > 7 ==> lower(name).take(7) != "option-"@,
        name.len() > 6 ==> lower(name).take(6) != "shift-"@,
    ensures
        press_named(name, ctrl, alt, shift) == (match key_named(lower(name)) {
            Some(key) => Some((KeyPress { ctrl, alt, shift, base: KeyBase::Named(key) })),
            None => None,
        }),
{
    reveal_strlit("ctrl-");
    reveal_strlit("control-");
    reveal_strlit("alt-");
    reveal_strlit("meta-");
    reveal_strlit("option-");
    reveal_strlit("shift-");
    let low = lower(name);
    assert(low.subrange(0, 5) == low.take(5));
    assert(low.subrange(0, 8) == low.take(8));
    assert(low.subrange(0, 4) == low.take(4));
    assert(low.subrange(0, 7) == low.take(7));
    assert(low.subrange(0, 6) == low.take(6));
    assert(leading_modifier(name) is None);
}

/// The names of the keys, each with its other names.
pub proof fn law_keys_have_their_names()
    ensures
        key_named("up"@) == Some(KeyName::Up),
        key_named("down"@) == Some(KeyName::Down),
        key_named("left"@) == Some(KeyName::Left),
        key_named("right"@) == Some(KeyName::Right),
        key_named("enter"@) == Some(KeyName::Enter),
        key_named("return"@) == Some(KeyName::Enter),
        key_named("cr"@) == Some(KeyName::Enter),
        key_named("esc"@) == Some(KeyName::Esc),
        key_named("escape"@) == Some(KeyName::Esc),
        key_named("tab"@) == Some(KeyName::Tab),
        key_named("backspace"@) == Some(KeyName::Backspace),
        key_named("bs"@) == Some(KeyName::Backspace),
{
    lemma_name_heads();
}

/// The names of the other keys.
pub proof fn law_other_keys_have_their_names()
    ensures
        key_named("delete"@) == Some(KeyName::Delete),
        key_named("del"@) == Some(KeyName::Delete),
        key_named("home"@) == Some(KeyName::Home),
        key_named("end"@) == Some(KeyName::End),
        key_named("pageup"@) == Some(KeyName::PageUp),
        key_named("pgup"@) == Some(KeyName::PageUp),
        key_named("pagedown"@) == Some(KeyName::PageDown),
        key_named("pgdn"@) == Some(KeyName::PageDown),
        key_named("pgdown"@) == Some(KeyName::PageDown),
        key_named("space"@) == Some(KeyName::Space),
{
    lemma_name_heads();
}

/// By what the names of keys are told apart.
proof fn lemma_name_heads()
    ensures
        "up"@.len() == 2 && "up"@[0] == 'u',
        "down"@.len() == 4 && "down"@[0] == 'd',
        "left"@.len() == 4 && "left"@[0] == 'l',
        "right"@.len() == 5 && "right"@[0] == 'r',
        "enter"@.len() == 5 && "enter"@[0] == 'e',
        "return"@.len() == 6 && "return"@[0] == 'r',
        "cr"@.len() == 2 && "cr"@[0] == 'c',
        "esc"@.len() == 3 && "esc"@[0] == 'e' && "esc"@[1] == 's',
        "escape"@.len() == 6 && "escape"@[0] == 'e',
        "tab"@.len() == 3 && "tab"@[0] == 't',
        "backspace"@.len() == 9,
        "bs"@.len() == 2 && "bs"@[0] == 'b',
        "delete"@.len() == 6 && "delete"@[0] == 'd',
        "del"@.len() == 3 && "del"@[0] == 'd',
        "home"@.len() == 4 && "home"@[0] == 'h',
        "end"@.len() == 3 && "end"@[0] == 'e' && "end"@[1] == 'n',
        "pageup"@.len() == 6 && "pageup"@[0] == 'p' && "pageup"@[1] == 'a',
        "pgup"@.len() == 4 && "pgup"@[0] == 'p' && "pgup"@[2] == 'u',
        "pagedown"@.len() == 8,
        "pgdn"@.len() == 4 && "pgdn"@[0] == 'p' && "pgdn"@[2] == 'd',
        "pgdown"@.len() == 6 && "pgdown"@[0] == 'p' && "pgdown"@[1] == 'g',
        "space"@.len() == 5 && "space"@[0] == 's',
{
    reveal_strlit("up");
    reveal_strlit("down");
    reveal_strlit("left");
    reveal_strlit("right");
    reveal_strlit("enter");
    reveal_strlit("return");
    reveal_strlit("cr");
    reveal_strlit("esc");
    reveal_strlit("escape");
    reveal_strlit("tab");
    reveal_strlit("backspace");
    reveal_strlit("bs");
    reveal_strlit("delete");
    reveal_strlit("del");
    reveal_strlit("home");
    reveal_strlit("end");
    reveal_strlit("pageup");
    reveal_strlit("pgup");
    reveal_strlit("pagedown");
    reveal_strlit("pgdn");
    reveal_strlit("pgdown");
    reveal_strlit("space");
}

/// The names that keys are shown and written under.
pub proof fn law_labels_of_keys(key: KeyName)
    ensures
        key == KeyName::Up ==> key.label_view() == "Up"@,
        key == KeyName::Down ==> key.label_view() == "Down"@,
        key == KeyName::Left ==> key.label_view() == "Left"@,
        key == KeyName::Right ==> key.label_view() == "Right"@,
        key == KeyName::Enter ==> key.label_view() == "Enter"@,
        key == KeyName::Esc ==> key.label_view() == "Esc"@,
        key == KeyName::Tab ==> key.label_view() == "Tab"@,
        key == KeyName::Backspace ==> key.label_view() == "Backspace"@,
        key == KeyName::Delete ==> key.label_view() == "Delete"@,
        key == KeyName::Home ==> key.label_view() == "Home"@,
        key == KeyName::End ==> key.label_view() == "End"@,
        key == KeyName::PageUp ==> key.label_view() == "PageUp"@,
        key == KeyName::PageDown ==> key.label_view() == "PageDown"@,
        key == KeyName::Space ==> key.label_view() == "Space"@,
        plain_press(key).label_view() == key.label_view(),
{
}

/// A modifier is shown in front of what is pressed with it, Ctrl before Alt before Shift.
pub proof fn law_labels_show_modifiers(p: KeyPress)
    ensures
        p.ctrl ==> p.label_view() == "Ctrl-"@ + (KeyPress { ctrl: false, ..p }).label_view(),
        !p.ctrl && p.alt ==> p.label_view() == "Alt-"@ + (KeyPress {
            alt: false,
            ..p
        }).label_view(),
        !p.ctrl && !p.alt && p.shift ==> p.label_view() == "Shift-"@ + (KeyPress {
            shift: false,
            ..p
        }).label_view(),
        !p.ctrl && !p.alt && !p.shift ==> match p.base {
            KeyBase::Named(key) => p.label_view() == key.label_view(),
            KeyBase::Char(c) => p.label_view() == seq![c],
        },
{
}

/// What is told from bytes sends those bytes, and where nothing is told, nothing that can be
/// recorded sends them.
pub proof fn law_told_presses_send_their_bytes(seq: Seq<u8>)
    ensures
        press_sending(seq) matches Some(p) ==> p.recordable() && p.bytes_view() == seq,
        press_sending(seq) is None ==> forall|p: KeyPress|
            p.recordable() ==> #[trigger] p.bytes_view() != seq,
        key_sending(seq) matches Some(key) ==> key.bytes_view() == seq,
        key_sending(seq) is None ==> forall|key: KeyName| #[trigger] key.bytes_view() != seq,
{
}

/// Printable characters are those that are neither white space nor control characters; all of
/// visible ASCII is among them.
pub proof fn law_what_is_printable(c: char)
    ensures
        '!' <= c <= '~' ==> is_printable(c),
        c <= ' ' || '\u{7f}' <= c <= '\u{a0}' ==> !is_printable(c),
        '\u{a1}' <= c <= '\u{167f}' ==> is_printable(c),
        is_space(c) ==> !is_printable(c),
{
}

} // verus!
