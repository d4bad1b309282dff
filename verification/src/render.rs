//! Terminal colours and cell attributes, and how they are named and drawn.

use vstd::prelude::*;

use crate::text::{chars_of, decimal, push_decimal, string_of};

verus! {

/// A colour as the terminal emulator records it: the default colour, an
/// index into the 256-colour palette, or an RGB triple.
#[derive(Clone, Copy, Debug, PartialEq, Eq, Structural)]
pub enum TermColor {
    Default,
    Idx(u8),
    Rgb(u8, u8, u8),
}

/// A colour as the user interface draws it: the reset colour, the sixteen
/// named palette colours, any other palette index, or an RGB triple.
#[derive(Clone, Copy, Debug, PartialEq, Eq, Structural)]
pub enum UiColor {
    Reset,
    Black,
    Red,
    Green,
    Yellow,
    Blue,
    Magenta,
    Cyan,
    Gray,
    DarkGray,
    LightRed,
    LightGreen,
    LightYellow,
    LightBlue,
    LightMagenta,
    LightCyan,
    White,
    Indexed(u8),
    Rgb(u8, u8, u8),
}

/// The named colour for palette entries 0 to 15, in palette order
/// (entry 7 is gray and entry 15 white).
pub open spec fn named_color(i: u8) -> UiColor {
    if i == 0 {
        UiColor::Black
    } else if i == 1 {
        UiColor::Red
    } else if i == 2 {
        UiColor::Green
    } else if i == 3 {
        UiColor::Yellow
    } else if i == 4 {
        UiColor::Blue
    } else if i == 5 {
        UiColor::Magenta
    } else if i == 6 {
        UiColor::Cyan
    } else if i == 7 {
        UiColor::Gray
    } else if i == 8 {
        UiColor::DarkGray
    } else if i == 9 {
        UiColor::LightRed
    } else if i == 10 {
        UiColor::LightGreen
    } else if i == 11 {
        UiColor::LightYellow
    } else if i == 12 {
        UiColor::LightBlue
    } else if i == 13 {
        UiColor::LightMagenta
    } else if i == 14 {
        UiColor::LightCyan
    } else if i == 15 {
        UiColor::White
    } else {
        UiColor::Indexed(i)
    }
}

/// How a terminal colour is drawn: the default as reset, the first sixteen
/// palette entries by name, other entries by index, RGB unchanged.
pub open spec fn ui_color(c: TermColor) -> UiColor {
    match c {
        TermColor::Default => UiColor::Reset,
        TermColor::Idx(i) => named_color(i),
        TermColor::Rgb(r, g, b) => UiColor::Rgb(r, g, b),
    }
}

/// Maps a terminal colour to the colour the interface draws (see `ui_color`).
pub fn vt_to_color(c: TermColor) -> (r: UiColor)
    ensures
        r == ui_color(c),
{
    match c {
        TermColor::Default => UiColor::Reset,
        TermColor::Idx(i) => {
            if i == 0 {
                UiColor::Black
            } else if i == 1 {
                UiColor::Red
            } else if i == 2 {
                UiColor::Green
            } else if i == 3 {
                UiColor::Yellow
            } else if i == 4 {
                UiColor::Blue
            } else if i == 5 {
                UiColor::Magenta
            } else if i == 6 {
                UiColor::Cyan
            } else if i == 7 {
                UiColor::Gray
            } else if i == 8 {
                UiColor::DarkGray
            } else if i == 9 {
                UiColor::LightRed
            } else if i == 10 {
                UiColor::LightGreen
            } else if i == 11 {
                UiColor::LightYellow
            } else if i == 12 {
                UiColor::LightBlue
            } else if i == 13 {
                UiColor::LightMagenta
            } else if i == 14 {
                UiColor::LightCyan
            } else if i == 15 {
                UiColor::White
            } else {
                UiColor::Indexed(i)
            }
        },
        TermColor::Rgb(r, g, b) => UiColor::Rgb(r, g, b),
    }
}

/// The name of a colour: `default`, `idx:<i>` or `rgb:<r>,<g>,<b>`.
pub open spec fn color_name(c: TermColor) -> Seq<char> {
    match c {
        TermColor::Default => seq!['d', 'e', 'f', 'a', 'u', 'l', 't'],
        TermColor::Idx(i) => seq!['i', 'd', 'x', ':'] + decimal(i as nat),
        TermColor::Rgb(r, g, b) => seq!['r', 'g', 'b', ':'] + decimal(r as nat) + seq![','] + decimal(
            g as nat,
        ) + seq![','] + decimal(b as nat),
    }
}

/// Names a colour (see `color_name`).
pub fn color_to_name(c: TermColor) -> (name: String)
    ensures
        name@ == color_name(c),
{
    let mut out: Vec<char> = Vec::new();
    match c {
        TermColor::Default => {
            out.push('d');
            out.push('e');
            out.push('f');
            out.push('a');
            out.push('u');
            out.push('l');
            out.push('t');
        },
        TermColor::Idx(i) => {
            out.push('i');
            out.push('d');
            out.push('x');
            out.push(':');
            push_decimal(&mut out, i as u64);
        },
        TermColor::Rgb(r, g, b) => {
            out.push('r');
            out.push('g');
            out.push('b');
            out.push(':');
            push_decimal(&mut out, r as u64);
            out.push(',');
            push_decimal(&mut out, g as u64);
            out.push(',');
            push_decimal(&mut out, b as u64);
        },
    }
    assert(out@ =~= color_name(c));
    string_of(out.as_slice())
}

/// The contents and drawing attributes of one terminal cell.
pub struct CellAttrs {
    pub contents: String,
    pub fgcolor: TermColor,
    pub bgcolor: TermColor,
    pub dim: bool,
    pub bold: bool,
    pub italic: bool,
    pub underline: bool,
    pub inverse: bool,
    pub blink: bool,
    pub strikethrough: bool,
    pub hidden: bool,
}

/// The style a cell is drawn with: colours and text modifiers.
#[derive(Clone, Copy, Debug, PartialEq, Eq, Structural)]
pub struct CellStyle {
    pub fg: UiColor,
    pub bg: UiColor,
    pub dim: bool,
    pub bold: bool,
    pub italic: bool,
    pub underlined: bool,
    pub reversed: bool,
    pub slow_blink: bool,
    pub crossed_out: bool,
}

/// The style of a cell: its colours as drawn, and one modifier for each
/// attribute it has.
pub open spec fn cell_style(cell: CellAttrs) -> CellStyle {
    CellStyle {
        fg: ui_color(cell.fgcolor),
        bg: ui_color(cell.bgcolor),
        dim: cell.dim,
        bold: cell.bold,
        italic: cell.italic,
        underlined: cell.underline,
        reversed: cell.inverse,
        slow_blink: cell.blink,
        crossed_out: cell.strikethrough,
    }
}

/// The text drawn for a cell: a single space for a hidden cell, its
/// contents otherwise.
pub open spec fn cell_text(cell: CellAttrs) -> Seq<char> {
    if cell.hidden {
        seq![' ']
    } else {
        cell.contents@
    }
}

/// The text and style a cell is drawn with.
pub fn cell_to_text_and_style(cell: &CellAttrs) -> (r: (String, CellStyle))
    ensures
        r.0@ == cell_text(*cell),
        r.1 == cell_style(*cell),
{
    let style = CellStyle {
        fg: vt_to_color(cell.fgcolor),
        bg: vt_to_color(cell.bgcolor),
        dim: cell.dim,
        bold: cell.bold,
        italic: cell.italic,
        underlined: cell.underline,
        reversed: cell.inverse,
        slow_blink: cell.blink,
        crossed_out: cell.strikethrough,
    };
    let text = if cell.hidden {
        let mut v: Vec<char> = Vec::new();
        v.push(' ');
        string_of(v.as_slice())
    } else {
        let v = chars_of(cell.contents.as_str());
        string_of(v.as_slice())
    };
    (text, style)
}


/// Each attribute of a cell turns into its own modifier and nothing else:
/// dim into dim, bold into bold, italic into italic, underline into
/// underlined, inverse into reversed, blink into slow blink and
/// strike-through into crossed out; the foreground colour comes from the
/// cell's foreground alone and the background from its background alone.
/// A hidden cell's text is a single space; any other cell's is its
/// contents.
pub proof fn style_follows_each_attribute(a: CellAttrs, b: CellAttrs)
    ensures
        cell_style(a).dim == a.dim,
        cell_style(a).bold == a.bold,
        cell_style(a).italic == a.italic,
        cell_style(a).underlined == a.underline,
        cell_style(a).reversed == a.inverse,
        cell_style(a).slow_blink == a.blink,
        cell_style(a).crossed_out == a.strikethrough,
        a.fgcolor == b.fgcolor ==> cell_style(a).fg == cell_style(b).fg,
        a.bgcolor == b.bgcolor ==> cell_style(a).bg == cell_style(b).bg,
        a.fgcolor == b.bgcolor ==> cell_style(a).fg == cell_style(b).bg,
        a.hidden ==> cell_text(a) == seq![' '],
        !a.hidden ==> cell_text(a) == a.contents@,
{
}

} // verus!
