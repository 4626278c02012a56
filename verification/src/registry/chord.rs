//! Key chords: one key press, or a latch key and the key after it.
use crate::text::{
    chars_of, has_prefix, same_str, starts_with, string_between, to_ascii_lowercase, trim, trimmed,
    trimmed_end, trimmed_start, whitespace, ascii_lowered,
};
use vstd::prelude::*;

verus! {

/// A key without its modifiers.
#[derive(Debug, Clone, Copy, PartialEq, Eq, Hash, Structural)]
pub enum ChordCode {
    Char(char),
    Enter,
    Tab,
    BackTab,
    Esc,
    Up,
    Down,
    Left,
    Right,
    Backspace,
}

/// A key a terminal reports: one that a chord can hold, or any other.
#[derive(Debug, Clone, Copy, PartialEq, Eq, Hash, Structural)]
pub enum Key {
    Code(ChordCode),
    Other,
}

/// A key press, with a latch key before it where it has a prefix.
#[derive(Debug, Clone, Copy, PartialEq, Eq, Hash)]
pub struct Chord {
    pub prefix: Option<char>,
    pub ctrl: bool,
    pub code: ChordCode,
}

/// A key alone.
pub open spec fn plain_chord(code: ChordCode) -> Chord {
    Chord { prefix: None, ctrl: false, code }
}

/// A key with Control held.
pub open spec fn ctrl_chord(code: ChordCode) -> Chord {
    Chord { prefix: None, ctrl: true, code }
}

/// A character after a latch key.
pub open spec fn latched_chord(prefix: char, c: char) -> Chord {
    Chord { prefix: Some(prefix), ctrl: false, code: ChordCode::Char(c) }
}

/// How a key is written.
pub open spec fn code_label(code: ChordCode) -> Seq<char> {
    match code {
        ChordCode::Char(c) => if c == ' ' {
            "Space"@
        } else {
            seq![c]
        },
        ChordCode::Enter => "Enter"@,
        ChordCode::Tab => "Tab"@,
        ChordCode::BackTab => "Shift-Tab"@,
        ChordCode::Esc => "Esc"@,
        ChordCode::Up => "\u{2191}"@,
        ChordCode::Down => "\u{2193}"@,
        ChordCode::Left => "\u{2190}"@,
        ChordCode::Right => "\u{2192}"@,
        ChordCode::Backspace => "Backspace"@,
    }
}

/// How a chord is written: the latch key, `Ctrl-`, the key.
pub open spec fn chord_label(c: Chord) -> Seq<char> {
    let base = if c.ctrl {
        "Ctrl-"@ + code_label(c.code)
    } else {
        code_label(c.code)
    };
    match c.prefix {
        Some(p) => seq![p] + base,
        None => base,
    }
}

/// The characters that a two-key chord starts with.
pub open spec fn latch(c: char) -> bool {
    c == 'g' || c == 'b' || c == 'r' || c == 'z'
}

/// The key that a name or a single character stands for.
pub open spec fn code_named(s: Seq<char>) -> Option<ChordCode> {
    if s == "Space"@ || s == "space"@ {
        Some(ChordCode::Char(' '))
    } else if s == "Enter"@ || s == "Return"@ || s == "CR"@ {
        Some(ChordCode::Enter)
    } else if s == "Tab"@ {
        Some(ChordCode::Tab)
    } else if s == "BackTab"@ || s == "Shift-Tab"@ || s == "S-Tab"@ {
        Some(ChordCode::BackTab)
    } else if s == "Esc"@ || s == "Escape"@ {
        Some(ChordCode::Esc)
    } else if s == "Up"@ {
        Some(ChordCode::Up)
    } else if s == "Down"@ {
        Some(ChordCode::Down)
    } else if s == "Left"@ {
        Some(ChordCode::Left)
    } else if s == "Right"@ {
        Some(ChordCode::Right)
    } else if s == "Backspace"@ || s == "BS"@ {
        Some(ChordCode::Backspace)
    } else if s.len() == 1 {
        Some(ChordCode::Char(s[0]))
    } else {
        None
    }
}

/// What follows a written Control modifier.
pub open spec fn after_ctrl(s: Seq<char>) -> Option<Seq<char>> {
    if has_prefix(s, "Ctrl-"@) {
        Some(s.skip("Ctrl-"@.len() as int))
    } else if has_prefix(s, "ctrl-"@) {
        Some(s.skip("ctrl-"@.len() as int))
    } else if has_prefix(s, "C-"@) {
        Some(s.skip("C-"@.len() as int))
    } else {
        None
    }
}

/// The chord that a trimmed, written form stands for.
pub open spec fn chord_written(s: Seq<char>) -> Option<Chord> {
    match after_ctrl(s) {
        Some(rest) => match code_named(rest) {
            Some(code) => Some(ctrl_chord(code)),
            None => None,
        },
        None => if s.len() == 2 && latch(s[0]) {
            Some(latched_chord(s[0], s[1]))
        } else {
            match code_named(s) {
                Some(code) => Some(plain_chord(code)),
                None => None,
            }
        },
    }
}

/// The chord that a written form stands for.
pub open spec fn parsed_chord(s: Seq<char>) -> Option<Chord> {
    chord_written(trimmed(s))
}

fn code_from(s: &str) -> (r: Option<ChordCode>)
    ensures
        r == code_named(s@),
{
    if same_str(s, "Space") || same_str(s, "space") {
        Some(ChordCode::Char(' '))
    } else if same_str(s, "Enter") || same_str(s, "Return") || same_str(s, "CR") {
        Some(ChordCode::Enter)
    } else if same_str(s, "Tab") {
        Some(ChordCode::Tab)
    } else if same_str(s, "BackTab") || same_str(s, "Shift-Tab") || same_str(s, "S-Tab") {
        Some(ChordCode::BackTab)
    } else if same_str(s, "Esc") || same_str(s, "Escape") {
        Some(ChordCode::Esc)
    } else if same_str(s, "Up") {
        Some(ChordCode::Up)
    } else if same_str(s, "Down") {
        Some(ChordCode::Down)
    } else if same_str(s, "Left") {
        Some(ChordCode::Left)
    } else if same_str(s, "Right") {
        Some(ChordCode::Right)
    } else if same_str(s, "Backspace") || same_str(s, "BS") {
        Some(ChordCode::Backspace)
    } else {
        let cs = chars_of(s);
        if cs.len() == 1 {
            Some(ChordCode::Char(cs[0]))
        } else {
            None
        }
    }
}

/// What follows `p` where `s` starts with it.
fn after(s: &str, p: &str) -> (r: Option<String>)
    ensures
        match r {
            Some(t) => has_prefix(s@, p@) && t@ == s@.skip(p@.len() as int),
            None => !has_prefix(s@, p@),
        },
{
    if starts_with(s, p) {
        let cs = chars_of(s);
        let from: usize = chars_of(p).len();
        proof {
            assert(s@.skip(p@.len() as int) =~= s@.subrange(p@.len() as int, s@.len() as int));
        }
        Some(string_between(&cs, from, cs.len()))
    } else {
        None
    }
}

impl Chord {
    /// A key alone.
    pub fn key(code: ChordCode) -> (r: Chord)
        ensures
            r == plain_chord(code),
    {
        Chord { prefix: None, ctrl: false, code }
    }

    /// A character alone.
    pub fn ch(c: char) -> (r: Chord)
        ensures
            r == plain_chord(ChordCode::Char(c)),
    {
        Chord::key(ChordCode::Char(c))
    }

    /// A character with Control held.
    pub fn ctrl_ch(c: char) -> (r: Chord)
        ensures
            r == ctrl_chord(ChordCode::Char(c)),
    {
        Chord { prefix: None, ctrl: true, code: ChordCode::Char(c) }
    }

    /// A key with Control held.
    pub fn ctrl_code(code: ChordCode) -> (r: Chord)
        ensures
            r == ctrl_chord(code),
    {
        Chord { prefix: None, ctrl: true, code }
    }

    /// A character after a latch key.
    pub fn prefixed(prefix: char, c: char) -> (r: Chord)
        ensures
            r == latched_chord(prefix, c),
    {
        Chord { prefix: Some(prefix), ctrl: false, code: ChordCode::Char(c) }
    }

    /// The chord of one key press; a key that no chord can hold has none.
    pub fn from_key(key: Key, ctrl: bool) -> (r: Option<Chord>)
        ensures
            match key {
                Key::Code(code) => r == Some(
                    (if ctrl {
                        ctrl_chord(code)
                    } else {
                        plain_chord(code)
                    }),
                ),
                Key::Other => r is None,
            },
    {
        match key {
            Key::Code(code) => Some(Chord { prefix: None, ctrl, code }),
            Key::Other => None,
        }
    }

    /// Whether two chords are the same.
    pub fn same(&self, other: &Chord) -> (r: bool)
        ensures
            r == (*self == *other),
    {
        let prefixes = match (self.prefix, other.prefix) {
            (Some(a), Some(b)) => a == b,
            (None, None) => true,
            _ => false,
        };
        prefixes && self.ctrl == other.ctrl && self.code == other.code
    }

    /// How the chord is written.
    pub fn label(&self) -> (r: String)
        ensures
            r@ == chord_label(*self),
    {
        let mut out = String::new();
        if let Some(p) = self.prefix {
            out.push(p);
        }
        if self.ctrl {
            out.push_str("Ctrl-");
        }
        match self.code {
            ChordCode::Char(c) => {
                if c == ' ' {
                    out.push_str("Space");
                } else {
                    out.push(c);
                }
            },
            ChordCode::Enter => out.push_str("Enter"),
            ChordCode::Tab => out.push_str("Tab"),
            ChordCode::BackTab => out.push_str("Shift-Tab"),
            ChordCode::Esc => out.push_str("Esc"),
            ChordCode::Up => out.push_str("\u{2191}"),
            ChordCode::Down => out.push_str("\u{2193}"),
            ChordCode::Left => out.push_str("\u{2190}"),
            ChordCode::Right => out.push_str("\u{2192}"),
            ChordCode::Backspace => out.push_str("Backspace"),
        }
        proof { assert(out@ =~= chord_label(*self)); }
        out
    }

    /// The chord that a written form stands for: a latch character and one
    /// more, or a key by its name or its character, after `Ctrl-`, `ctrl-` or
    /// `C-` where Control is held.
    pub fn parse(s: &str) -> (r: Option<Chord>)
        ensures
            r == parsed_chord(s@),
    {
        let s = trim(s);
        let rest = match after(s.as_str(), "Ctrl-") {
            Some(t) => Some(t),
            None => match after(s.as_str(), "ctrl-") {
                Some(t) => Some(t),
                None => after(s.as_str(), "C-"),
            },
        };
        match rest {
            Some(rest) => match code_from(rest.as_str()) {
                Some(code) => Some(Chord::ctrl_code(code)),
                None => None,
            },
            None => {
                let cs = chars_of(s.as_str());
                if cs.len() == 2 && (cs[0] == 'g' || cs[0] == 'b' || cs[0] == 'r' || cs[0] == 'z') {
                    return Some(Chord::prefixed(cs[0], cs[1]));
                }
                match code_from(s.as_str()) {
                    Some(code) => Some(Chord::key(code)),
                    None => None,
                }
            },
        }
    }
}

/// Text that no whitespace starts or ends is its own trimmed form.
proof fn lemma_trimmed_tight(s: Seq<char>)
    requires
        s.len() > 0,
        !whitespace(s[0]),
        !whitespace(s.last()),
    ensures
        trimmed(s) == s,
{
    assert(trimmed_start(s) == s);
    assert(trimmed_end(s) == s);
}

/// A chord whose label is also a written form of it: no arrow key, no
/// whitespace but the space, and a latch key only before one such character
/// without Control.
pub open spec fn writable(c: Chord) -> bool {
    &&& c.code != ChordCode::Up && c.code != ChordCode::Down && c.code != ChordCode::Left && c.code
        != ChordCode::Right
    &&& match c.code {
        ChordCode::Char(x) => x == ' ' || !whitespace(x),
        _ => true,
    }
    &&& match c.prefix {
        Some(p) => latch(p) && !c.ctrl && c.code is Char && c.code != ChordCode::Char(' '),
        None => true,
    }
}

proof fn lemma_code_label_reads_back(code: ChordCode)
    requires
        writable(plain_chord(code)),
    ensures
        code_named(code_label(code)) == Some(code),
        code_label(code).len() > 0,
        !whitespace(code_label(code)[0]),
        !whitespace(code_label(code).last()),
        code_label(code).len() != 2,
        after_ctrl(code_label(code)) is None,
{
    reveal_strlit("Space");
    reveal_strlit("space");
    reveal_strlit("Enter");
    reveal_strlit("Return");
    reveal_strlit("CR");
    reveal_strlit("Tab");
    reveal_strlit("BackTab");
    reveal_strlit("Shift-Tab");
    reveal_strlit("S-Tab");
    reveal_strlit("Esc");
    reveal_strlit("Escape");
    reveal_strlit("Up");
    reveal_strlit("Down");
    reveal_strlit("Left");
    reveal_strlit("Right");
    reveal_strlit("Backspace");
    reveal_strlit("BS");
    reveal_strlit("Ctrl-");
    reveal_strlit("ctrl-");
    reveal_strlit("C-");
    let s = code_label(code);
    assert("Space"@[0] == 'S' && "space"@[0] == 's' && "Enter"@[0] == 'E' && "Shift-Tab"@[0] == 'S'
        && "Right"@[0] == 'R' && "Backspace"@[0] == 'B' && "BackTab"@[0] == 'B' && "S-Tab"@[0] == 'S'
        && "Tab"@[0] == 'T' && "Esc"@[0] == 'E' && "Return"@[0] == 'R' && "Escape"@[0] == 'E');
    assert("Space"@[1] == 'p' && "S-Tab"@[1] == '-');
    assert("Space"@.len() == 5 && "space"@.len() == 5 && "Enter"@.len() == 5 && "Return"@.len() == 6
        && "CR"@.len() == 2 && "Tab"@.len() == 3 && "BackTab"@.len() == 7 && "Shift-Tab"@.len() == 9
        && "S-Tab"@.len() == 5 && "Esc"@.len() == 3 && "Escape"@.len() == 6 && "Up"@.len() == 2
        && "Down"@.len() == 4 && "Left"@.len() == 4 && "Right"@.len() == 5 && "Backspace"@.len() == 9
        && "BS"@.len() == 2);
    if has_prefix(s, "Ctrl-"@) {
        assert(s.take(5)[0] == 'C');
        assert(s[0] == 'C');
    }
    if has_prefix(s, "ctrl-"@) {
        assert(s.take(5)[0] == 'c');
        assert(s[0] == 'c');
    }
    if has_prefix(s, "C-"@) {
        assert(s.take(2)[0] == 'C');
        assert(s[0] == 'C');
    }
}

/// A chord is read back from its label.
pub proof fn label_reads_back(c: Chord)
    requires
        writable(c),
    ensures
        parsed_chord(chord_label(c)) == Some(c),
{
    let code = c.code;
    lemma_code_label_reads_back(code);
    let base = code_label(code);
    let s = chord_label(c);
    reveal_strlit("Ctrl-");
    reveal_strlit("ctrl-");
    reveal_strlit("C-");
    match c.prefix {
        Some(p) => {
            assert(base.len() == 1);
            assert(s.len() == 2 && s[0] == p && s[1] == base[0]);
            lemma_trimmed_tight(s);
            if has_prefix(s, "C-"@) {
                assert(s.take(2)[0] == 'C');
            }
        },
        None => {
            if c.ctrl {
                assert(s =~= "Ctrl-"@ + base);
                assert(s[0] == 'C');
                assert(s.last() == base.last());
                lemma_trimmed_tight(s);
                assert(s.take(5) =~= "Ctrl-"@);
                assert(s.skip(5) =~= base);
            } else {
                lemma_trimmed_tight(s);
            }
        },
    }
}

/// The one character that a leader key is written as; `space`, in any case,
/// stands for the space.
pub open spec fn leader_char(s: Seq<char>) -> Option<char> {
    let t = trimmed(s);
    if ascii_lowered(t) == "space"@ {
        Some(' ')
    } else if t.len() == 1 {
        Some(t[0])
    } else {
        None
    }
}

/// The one character that a leader key is written as.
pub fn single_leader_char(s: &str) -> (r: Option<char>)
    ensures
        r == leader_char(s@),
{
    let t = trim(s);
    if same_str(to_ascii_lowercase(t.as_str()).as_str(), "space") {
        return Some(' ');
    }
    let cs = chars_of(t.as_str());
    if cs.len() == 1 {
        Some(cs[0])
    } else {
        None
    }
}

} // verus!
