//! Theme colours and the slots they go into.
use crate::text::chars_of;
use vstd::prelude::*;

verus! {

/// A colour by its red, green and blue parts.
#[derive(Debug, Clone, Copy, PartialEq, Eq, Structural)]
pub enum Color {
    Rgb(u8, u8, u8),
}

/// The value of a hexadecimal digit, in either case.
pub open spec fn hex_value(c: char) -> Option<u8> {
    if '0' <= c && c <= '9' {
        Some((c as int - 48) as u8)
    } else if 'a' <= c && c <= 'f' {
        Some((c as int - 87) as u8)
    } else if 'A' <= c && c <= 'F' {
        Some((c as int - 55) as u8)
    } else {
        None
    }
}

/// Two hexadecimal digits as a byte.
pub open spec fn hex_byte(hi: char, lo: char) -> Option<u8> {
    match (hex_value(hi), hex_value(lo)) {
        (Some(h), Some(l)) => Some((h * 16 + l) as u8),
        _ => None,
    }
}

/// A `#rrggbb` text as a colour.
pub open spec fn parsed_color(s: Seq<char>) -> Option<Color> {
    if s.len() == 7 && s[0] == '#' {
        match (hex_byte(s[1], s[2]), hex_byte(s[3], s[4]), hex_byte(s[5], s[6])) {
            (Some(r), Some(g), Some(b)) => Some(Color::Rgb(r, g, b)),
            _ => None,
        }
    } else {
        None
    }
}

fn hex_digit(c: char) -> (r: Option<u8>)
    ensures
        r == hex_value(c),
        match r {
            Some(v) => v < 16,
            None => true,
        },
{
    if '0' <= c && c <= '9' {
        Some((c as u8) - 48)
    } else if 'a' <= c && c <= 'f' {
        Some((c as u8) - 87)
    } else if 'A' <= c && c <= 'F' {
        Some((c as u8) - 55)
    } else {
        None
    }
}

fn byte_of(hi: char, lo: char) -> (r: Option<u8>)
    ensures
        r == hex_byte(hi, lo),
{
    match hex_digit(hi) {
        None => None,
        Some(h) => match hex_digit(lo) {
            None => None,
            Some(l) => Some(h * 16 + l),
        },
    }
}

/// A `#rrggbb` text as a colour.
pub fn parse_hex_color(s: &str) -> (r: Option<Color>)
    ensures
        r == parsed_color(s@),
{
    let cs = chars_of(s);
    if cs.len() != 7 || cs[0] != '#' {
        return None;
    }
    match byte_of(cs[1], cs[2]) {
        None => None,
        Some(r) => match byte_of(cs[3], cs[4]) {
            None => None,
            Some(g) => match byte_of(cs[5], cs[6]) {
                None => None,
                Some(b) => Some(Color::Rgb(r, g, b)),
            },
        },
    }
}

/// An uppercase hexadecimal digit.
pub open spec fn hex_char(v: int) -> char {
    if v < 10 {
        (48 + v) as char
    } else {
        (55 + v) as char
    }
}

/// A colour as `#RRGGBB`.
pub open spec fn color_text(c: Color) -> Seq<char> {
    match c {
        Color::Rgb(r, g, b) => seq![
            '#',
            hex_char(r as int / 16),
            hex_char(r as int % 16),
            hex_char(g as int / 16),
            hex_char(g as int % 16),
            hex_char(b as int / 16),
            hex_char(b as int % 16),
        ],
    }
}

/// Calls `Display` of `ratatui::style::Color` on an `Rgb` colour, which writes
/// a hash sign and each part as two uppercase hexadecimal digits.
#[verifier::external_body]
pub(crate) fn display_color(c: Color) -> (r: String)
    ensures
        r@ == color_text(c),
{
    match c {
        Color::Rgb(r, g, b) => ratatui::style::Color::Rgb(r, g, b).to_string(),
    }
}

/// A colour is read back from its text.
pub proof fn color_text_reads_back(c: Color)
    ensures
        parsed_color(color_text(c)) == Some(c),
{
    match c {
        Color::Rgb(r, g, b) => {
            lemma_byte_reads_back(r);
            lemma_byte_reads_back(g);
            lemma_byte_reads_back(b);
        },
    }
}

proof fn lemma_byte_reads_back(v: u8)
    ensures
        hex_byte(hex_char(v as int / 16), hex_char(v as int % 16)) == Some(v),
{
    let h = v as int / 16;
    let l = v as int % 16;
    assert(0 <= h < 16 && 0 <= l < 16 && h * 16 + l == v);
    assert(hex_value(hex_char(h)) == Some(h as u8));
    assert(hex_value(hex_char(l)) == Some(l as u8));
}

/// A slot that an imported theme can fill.
#[derive(Debug, Clone, Copy, PartialEq, Eq, Structural)]
pub enum ThemeSlot {
    Bg,
    Fg,
    Accent,
    LinkVisited,
    Match,
    Dim,
}

/// What a slot is called.
pub open spec fn slot_name(slot: ThemeSlot) -> Seq<char> {
    match slot {
        ThemeSlot::Bg => "bg"@,
        ThemeSlot::Fg => "fg"@,
        ThemeSlot::Accent => "accent"@,
        ThemeSlot::LinkVisited => "link_visited"@,
        ThemeSlot::Match => "match"@,
        ThemeSlot::Dim => "dim"@,
    }
}

/// The colours of a theme by their meaning; what is not set is derived when
/// the theme is loaded.
#[derive(Debug, Clone, Copy, PartialEq, Eq)]
pub struct SemanticSlots {
    pub bg: Option<Color>,
    pub fg: Option<Color>,
    pub accent: Option<Color>,
    pub link: Option<Color>,
    pub link_visited: Option<Color>,
    pub heading: Option<Color>,
    pub quote: Option<Color>,
    pub code: Option<Color>,
    pub match_fg: Option<Color>,
    pub warning: Option<Color>,
    pub error: Option<Color>,
    pub dim: Option<Color>,
}

/// A theme without colours.
pub open spec fn no_colors() -> SemanticSlots {
    SemanticSlots {
        bg: None,
        fg: None,
        accent: None,
        link: None,
        link_visited: None,
        heading: None,
        quote: None,
        code: None,
        match_fg: None,
        warning: None,
        error: None,
        dim: None,
    }
}

impl Default for SemanticSlots {
    fn default() -> (r: SemanticSlots)
        ensures
            r == no_colors(),
    {
        SemanticSlots {
            bg: None,
            fg: None,
            accent: None,
            link: None,
            link_visited: None,
            heading: None,
            quote: None,
            code: None,
            match_fg: None,
            warning: None,
            error: None,
            dim: None,
        }
    }
}

/// The colour that is there, else another.
pub open spec fn or_color(there: Option<Color>, c: Color) -> Option<Color> {
    match there {
        Some(d) => Some(d),
        None => Some(c),
    }
}

/// The slots with one filled. The accent also fills the link and the heading
/// where they are empty.
pub open spec fn with_slot(slots: SemanticSlots, slot: ThemeSlot, c: Color) -> SemanticSlots {
    match slot {
        ThemeSlot::Bg => SemanticSlots { bg: Some(c), ..slots },
        ThemeSlot::Fg => SemanticSlots { fg: Some(c), ..slots },
        ThemeSlot::Accent => SemanticSlots {
            accent: Some(c),
            link: or_color(slots.link, c),
            heading: or_color(slots.heading, c),
            ..slots
        },
        ThemeSlot::LinkVisited => SemanticSlots { link_visited: Some(c), ..slots },
        ThemeSlot::Match => SemanticSlots { match_fg: Some(c), ..slots },
        ThemeSlot::Dim => SemanticSlots { dim: Some(c), ..slots },
    }
}

impl ThemeSlot {
    /// What the slot is called.
    pub fn name(self) -> (r: &'static str)
        ensures
            r@ == slot_name(self),
    {
        match self {
            ThemeSlot::Bg => "bg",
            ThemeSlot::Fg => "fg",
            ThemeSlot::Accent => "accent",
            ThemeSlot::LinkVisited => "link_visited",
            ThemeSlot::Match => "match",
            ThemeSlot::Dim => "dim",
        }
    }
}

impl SemanticSlots {
    /// Fills a slot.
    pub fn set_slot(&mut self, slot: ThemeSlot, c: Color)
        ensures
            *final(self) == with_slot(*old(self), slot, c),
    {
        match slot {
            ThemeSlot::Bg => self.bg = Some(c),
            ThemeSlot::Fg => self.fg = Some(c),
            ThemeSlot::Accent => {
                self.accent = Some(c);
                if self.link.is_none() {
                    self.link = Some(c);
                }
                if self.heading.is_none() {
                    self.heading = Some(c);
                }
            },
            ThemeSlot::LinkVisited => self.link_visited = Some(c),
            ThemeSlot::Match => self.match_fg = Some(c),
            ThemeSlot::Dim => self.dim = Some(c),
        }
    }
}

} // verus!
