//! Reading the screen of the `vt100` terminal emulator into the library's
//! own types.

use vstd::prelude::*;

use crate::render::{CellAttrs, TermColor, color_name, color_to_name};
use crate::title::ScreenText;

verus! {

#[verifier::external_type_specification]
#[verifier::external_body]
pub struct ExVtScreen(vt100::Screen);

#[verifier::external_type_specification]
#[verifier::external_body]
pub struct ExVtCell(vt100::Cell);

#[verifier::external_type_specification]
#[verifier::external_body]
pub struct ExVtColor(vt100::Color);

/// The row of the cursor of a screen (`vt100::Screen::cursor_position`).
pub uninterp spec fn vt_cursor_row(screen: vt100::Screen) -> u16;

/// The cell of a screen at a row and a column, if the screen has one there
/// (`vt100::Screen::cell`).
pub uninterp spec fn vt_cell(screen: vt100::Screen, row: u16, col: u16) -> Option<vt100::Cell>;

/// The text held by a cell (`vt100::Cell::contents`).
pub uninterp spec fn vt_cell_contents(cell: vt100::Cell) -> Seq<char>;

/// The foreground colour of a cell (`vt100::Cell::fgcolor`).
pub uninterp spec fn vt_cell_fgcolor(cell: vt100::Cell) -> vt100::Color;

/// The background colour of a cell (`vt100::Cell::bgcolor`).
pub uninterp spec fn vt_cell_bgcolor(cell: vt100::Cell) -> vt100::Color;

/// Whether a cell is dim (`vt100::Cell::dim`).
pub uninterp spec fn vt_cell_dim(cell: vt100::Cell) -> bool;

/// Whether a cell is bold (`vt100::Cell::bold`).
pub uninterp spec fn vt_cell_bold(cell: vt100::Cell) -> bool;

/// Whether a cell is italic (`vt100::Cell::italic`).
pub uninterp spec fn vt_cell_italic(cell: vt100::Cell) -> bool;

/// Whether a cell is underlined (`vt100::Cell::underline`).
pub uninterp spec fn vt_cell_underline(cell: vt100::Cell) -> bool;

/// Whether a cell is drawn inverse (`vt100::Cell::inverse`).
pub uninterp spec fn vt_cell_inverse(cell: vt100::Cell) -> bool;

/// The library's colour for a `vt100::Color`: the variant of the same name
/// with the same fields.
pub uninterp spec fn vt_term_color(c: vt100::Color) -> TermColor;

/// `vt100::Screen::cursor_position`, row part: the name `vt_cursor_row`
/// applied to the screen.
#[verifier::external_body]
fn cursor_row(screen: &vt100::Screen) -> (r: u16)
    ensures
        r == vt_cursor_row(*screen),
{
    screen.cursor_position().0
}

/// `vt100::Screen::cell`: the cell that the name `vt_cell` gives for the
/// screen and position, or none where it gives none.
#[verifier::external_body]
fn screen_cell<'a>(screen: &'a vt100::Screen, row: u16, col: u16) -> (r: Option<&'a vt100::Cell>)
    ensures
        match r {
            Some(cell) => vt_cell(*screen, row, col) == Some(*cell),
            None => vt_cell(*screen, row, col) is None,
        },
{
    screen.cell(row, col)
}

/// `vt100::Cell::contents`, copied into a `String`: the name
/// `vt_cell_contents` applied to the cell.
#[verifier::external_body]
fn cell_contents(cell: &vt100::Cell) -> (s: String)
    ensures
        s@ == vt_cell_contents(*cell),
{
    cell.contents().to_string()
}

/// `vt100::Cell::fgcolor`: the name `vt_cell_fgcolor` applied to the cell.
#[verifier::external_body]
fn cell_fgcolor(cell: &vt100::Cell) -> (c: vt100::Color)
    ensures
        c == vt_cell_fgcolor(*cell),
{
    cell.fgcolor()
}

/// `vt100::Cell::bgcolor`: the name `vt_cell_bgcolor` applied to the cell.
#[verifier::external_body]
fn cell_bgcolor(cell: &vt100::Cell) -> (c: vt100::Color)
    ensures
        c == vt_cell_bgcolor(*cell),
{
    cell.bgcolor()
}

/// `vt100::Cell::dim`: the name `vt_cell_dim` applied to the cell.
#[verifier::external_body]
fn cell_dim(cell: &vt100::Cell) -> (b: bool)
    ensures
        b == vt_cell_dim(*cell),
{
    cell.dim()
}

/// `vt100::Cell::bold`: the name `vt_cell_bold` applied to the cell.
#[verifier::external_body]
fn cell_bold(cell: &vt100::Cell) -> (b: bool)
    ensures
        b == vt_cell_bold(*cell),
{
    cell.bold()
}

/// `vt100::Cell::italic`: the name `vt_cell_italic` applied to the cell.
#[verifier::external_body]
fn cell_italic(cell: &vt100::Cell) -> (b: bool)
    ensures
        b == vt_cell_italic(*cell),
{
    cell.italic()
}

/// `vt100::Cell::underline`: the name `vt_cell_underline` applied to the cell.
#[verifier::external_body]
fn cell_underline(cell: &vt100::Cell) -> (b: bool)
    ensures
        b == vt_cell_underline(*cell),
{
    cell.underline()
}

/// `vt100::Cell::inverse`: the name `vt_cell_inverse` applied to the cell.
#[verifier::external_body]
fn cell_inverse(cell: &vt100::Cell) -> (b: bool)
    ensures
        b == vt_cell_inverse(*cell),
{
    cell.inverse()
}

/// The variants of `vt100::Color` moved into `TermColor`, one for one: the
/// name `vt_term_color` applied to the colour.
#[verifier::external_body]
fn term_color_of(c: vt100::Color) -> (t: TermColor)
    ensures
        t == vt_term_color(c),
{
    match c {
        vt100::Color::Default => TermColor::Default,
        vt100::Color::Idx(i) => TermColor::Idx(i),
        vt100::Color::Rgb(r, g, b) => TermColor::Rgb(r, g, b),
    }
}

/// The text of the screen's cell at (`r`, `c`), or none where the screen
/// has no cell there.
pub open spec fn screen_cell_text(screen: vt100::Screen, r: int, c: int) -> Option<Seq<char>> {
    match vt_cell(screen, r as u16, c as u16) {
        Some(cell) => Some(vt_cell_contents(cell)),
        None => None,
    }
}

/// `row`, read as row `r` of a screen's text, holds at column `c` the text
/// of the screen's cell there.
pub open spec fn row_holds_cell(row: Seq<Option<String>>, screen: vt100::Screen, r: int, c: int) -> bool {
    match row[c] {
        Some(t) => screen_cell_text(screen, r, c) == Some(t@),
        None => screen_cell_text(screen, r, c) is None,
    }
}

/// `text` holds, at row `r` and column `c`, the text of the screen's cell
/// there.
pub open spec fn holds_screen_cell(text: ScreenText, screen: vt100::Screen, r: int, c: int) -> bool {
    row_holds_cell(text.cells@[r]@, screen, r, c)
}

/// The text of a screen, cell by cell, over its first `cols` columns and
/// its first `rows` rows, or more rows where the cursor lies below them;
/// and the row of its cursor.
pub fn screen_text(screen: &vt100::Screen, rows: u16, cols: u16) -> (text: ScreenText)
    ensures
        text.cursor_row == vt_cursor_row(*screen),
        text.cells@.len() == if rows > text.cursor_row { rows as int } else { text.cursor_row + 1 },
        forall|r: int| 0 <= r < text.cells@.len() ==> (#[trigger] text.cells@[r])@.len() == cols,
        forall|r: int, c: int|
            0 <= r < text.cells@.len() && 0 <= c < cols ==> #[trigger] holds_screen_cell(text, *screen, r, c),
{
    let cursor = cursor_row(screen);
    let n: u32 = if rows > cursor { rows as u32 } else { cursor as u32 + 1 };
    let mut cells: Vec<Vec<Option<String>>> = Vec::new();
    for r in 0..n
        invariant
            n <= 65536,
            cells@.len() == r,
            forall|k: int| 0 <= k < r ==> (#[trigger] cells@[k])@.len() == cols,
            forall|k: int, c: int|
                0 <= k < r && 0 <= c < cols ==> #[trigger] row_holds_cell(cells@[k]@, *screen, k, c),
    {
        let mut row: Vec<Option<String>> = Vec::new();
        for c in 0..cols
            invariant
                r < 65536,
                row@.len() == c,
                forall|j: int| 0 <= j < c ==> #[trigger] row_holds_cell(row@, *screen, r as int, j),
        {
            let ghost before = row@;
            assert(((r as u16) as int) as u16 == r as u16);
            assert(((c as int) as u16) == c);
            match screen_cell(screen, r as u16, c) {
                Some(cell) => row.push(Some(cell_contents(cell))),
                None => row.push(None),
            }
            assert forall|j: int| 0 <= j < c + 1 implies #[trigger] row_holds_cell(row@, *screen, r as int, j) by {
                if j < c {
                    assert(row@[j] == before[j]);
                    assert(row_holds_cell(before, *screen, r as int, j));
                }
            }
        }
        cells.push(row);
    }
    let text = ScreenText { cursor_row: cursor, cells };
    assert forall|r: int, c: int|
        0 <= r < text.cells@.len() && 0 <= c < cols implies #[trigger] holds_screen_cell(text, *screen, r, c) by {
        assert(text.cells@[r] == cells@[r]);
    }
    text
}

/// The contents and attributes of a `vt100` cell, read through its getters.
/// This emulator has no blink, strike-through or hidden attribute: those
/// read as unset.
pub fn cell_attrs(cell: &vt100::Cell) -> (attrs: CellAttrs)
    ensures
        attrs.contents@ == vt_cell_contents(*cell),
        attrs.fgcolor == vt_term_color(vt_cell_fgcolor(*cell)),
        attrs.bgcolor == vt_term_color(vt_cell_bgcolor(*cell)),
        attrs.dim == vt_cell_dim(*cell),
        attrs.bold == vt_cell_bold(*cell),
        attrs.italic == vt_cell_italic(*cell),
        attrs.underline == vt_cell_underline(*cell),
        attrs.inverse == vt_cell_inverse(*cell),
        !attrs.blink && !attrs.strikethrough && !attrs.hidden,
{
    CellAttrs {
        contents: cell_contents(cell),
        fgcolor: term_color_of(cell_fgcolor(cell)),
        bgcolor: term_color_of(cell_bgcolor(cell)),
        dim: cell_dim(cell),
        bold: cell_bold(cell),
        italic: cell_italic(cell),
        underline: cell_underline(cell),
        inverse: cell_inverse(cell),
        blink: false,
        strikethrough: false,
        hidden: false,
    }
}

/// The name of a `vt100` colour (see `color_name`).
pub fn vt_color_name(c: vt100::Color) -> (name: String)
    ensures
        name@ == color_name(vt_term_color(c)),
{
    color_to_name(term_color_of(c))
}

} // verus!
