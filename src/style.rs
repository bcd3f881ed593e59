use vstd::prelude::*;

verus! {

/// A terminal color.
#[derive(Clone, Copy, Debug, PartialEq, Eq, Structural)]
pub enum Color {
    Reset,
    Black,
    Red,
    Green,
    Yellow,
    Blue,
    Magenta,
    Cyan,
    Gray,
    DarkGray,
    LightRed,
    LightGreen,
    LightYellow,
    LightBlue,
    LightMagenta,
    LightCyan,
    White,
    Rgb(u8, u8, u8),
    Indexed(u8),
}

/// Text modifiers, one bit each.
pub const BOLD: u16 = 1;

pub const DIM: u16 = 2;

pub const ITALIC: u16 = 4;

pub const UNDERLINED: u16 = 8;

pub const SLOW_BLINK: u16 = 16;

pub const RAPID_BLINK: u16 = 32;

pub const REVERSED: u16 = 64;

pub const HIDDEN: u16 = 128;

pub const CROSSED_OUT: u16 = 256;

/// A text style. Unset colors and modifiers leave whatever lies beneath unchanged;
/// `add_modifier` turns modifiers on, `sub_modifier` turns them off.
#[derive(Clone, Copy, Debug, PartialEq, Eq, Structural)]
pub struct Style {
    pub fg: Option<Color>,
    pub bg: Option<Color>,
    pub underline_color: Option<Color>,
    pub add_modifier: u16,
    pub sub_modifier: u16,
}

pub open spec fn or_else(a: Option<Color>, b: Option<Color>) -> Option<Color> {
    if a is Some {
        a
    } else {
        b
    }
}

/// The style that changes nothing.
pub open spec fn plain_style() -> Style {
    Style { fg: None, bg: None, underline_color: None, add_modifier: 0, sub_modifier: 0 }
}

/// Bold yellow, the style of search matches.
pub open spec fn spec_highlight() -> Style {
    Style { fg: Some(Color::Yellow), bg: None, underline_color: None, add_modifier: BOLD, sub_modifier: 0 }
}

impl Style {
    /// `self` with `other` laid on top: the colors `other` sets win, and the
    /// modifiers `other` adds or removes override those of `self`.
    pub open spec fn spec_patch(self, other: Style) -> Style {
        Style {
            fg: or_else(other.fg, self.fg),
            bg: or_else(other.bg, self.bg),
            underline_color: or_else(other.underline_color, self.underline_color),
            add_modifier: (self.add_modifier & !other.sub_modifier) | other.add_modifier,
            sub_modifier: (self.sub_modifier & !other.add_modifier) | other.sub_modifier,
        }
    }

    /// The style that changes nothing.
    pub fn new() -> (r: Style)
        ensures
            r == plain_style(),
    {
        Style { fg: None, bg: None, underline_color: None, add_modifier: 0, sub_modifier: 0 }
    }

    /// The style with the given modifier bits added.
    pub fn add(self, modifier: u16) -> (r: Style)
        ensures
            r == (Style { add_modifier: self.add_modifier | modifier, ..self }),
    {
        Style { add_modifier: self.add_modifier | modifier, ..self }
    }

    /// The style with the given foreground color.
    pub fn fg(self, color: Color) -> (r: Style)
        ensures
            r == (Style { fg: Some(color), ..self }),
    {
        Style { fg: Some(color), ..self }
    }

    pub fn patch(self, other: Style) -> (r: Style)
        ensures
            r == self.spec_patch(other),
    {
        Style {
            fg: if other.fg.is_some() {
                other.fg
            } else {
                self.fg
            },
            bg: if other.bg.is_some() {
                other.bg
            } else {
                self.bg
            },
            underline_color: if other.underline_color.is_some() {
                other.underline_color
            } else {
                self.underline_color
            },
            add_modifier: (self.add_modifier & !other.sub_modifier) | other.add_modifier,
            sub_modifier: (self.sub_modifier & !other.add_modifier) | other.sub_modifier,
        }
    }
}

/// The style that marks search matches.
pub fn highlight_style() -> (r: Style)
    ensures
        r == spec_highlight(),
{
    Style { fg: Some(Color::Yellow), bg: None, underline_color: None, add_modifier: BOLD, sub_modifier: 0 }
}

} // verus!
