use std::num::NonZeroU16;

use psmux::render::{
    cell_to_text_and_style, color_to_name, vt_to_color, CellAttrs, TermColor, UiColor,
};
use psmux::vt::{cell_attrs, vt_color_name};

fn parser(bytes: &[u8]) -> vt100::Parser {
    let mut p = vt100::Parser::new(NonZeroU16::new(24).unwrap(), NonZeroU16::new(80).unwrap(), 0);
    p.process(bytes);
    p
}

fn plain_cell(contents: &str) -> CellAttrs {
    CellAttrs {
        contents: contents.to_string(),
        fgcolor: TermColor::Default,
        bgcolor: TermColor::Default,
        dim: false,
        bold: false,
        italic: false,
        underline: false,
        inverse: false,
        blink: false,
        strikethrough: false,
        hidden: false,
    }
}

#[test]
fn color_idx7_maps_to_gray_not_white() {
    let result = vt_to_color(TermColor::Idx(7));
    assert_eq!(result, UiColor::Gray,
        "Idx(7) must map to Color::Gray (palette 7), not Color::White (palette 15)");
}

#[test]
fn color_idx15_maps_to_white_not_gray() {
    let result = vt_to_color(TermColor::Idx(15));
    assert_eq!(result, UiColor::White,
        "Idx(15) must map to Color::White (palette 15), not Color::Gray (palette 7)");
}

#[test]
fn color_idx7_and_idx15_are_not_swapped() {
    let idx7 = vt_to_color(TermColor::Idx(7));
    let idx15 = vt_to_color(TermColor::Idx(15));
    assert_ne!(idx7, idx15, "Idx(7) and Idx(15) must map to different Color variants");
    assert_eq!(idx7, UiColor::Gray);
    assert_eq!(idx15, UiColor::White);
}

#[test]
fn color_all_16_standard_indices_mapped() {
    let expected = [
        (0, UiColor::Black),      (1, UiColor::Red),
        (2, UiColor::Green),      (3, UiColor::Yellow),
        (4, UiColor::Blue),       (5, UiColor::Magenta),
        (6, UiColor::Cyan),       (7, UiColor::Gray),
        (8, UiColor::DarkGray),   (9, UiColor::LightRed),
        (10, UiColor::LightGreen), (11, UiColor::LightYellow),
        (12, UiColor::LightBlue), (13, UiColor::LightMagenta),
        (14, UiColor::LightCyan), (15, UiColor::White),
    ];
    for (idx, expected_color) in expected {
        let actual = vt_to_color(TermColor::Idx(idx));
        assert_eq!(actual, expected_color,
            "Idx({idx}) should map to {expected_color:?}, got {actual:?}");
    }
}

#[test]
fn color_idx_above_15_stays_indexed() {
    assert_eq!(vt_to_color(TermColor::Idx(16)), UiColor::Indexed(16));
    assert_eq!(vt_to_color(TermColor::Idx(128)), UiColor::Indexed(128));
    assert_eq!(vt_to_color(TermColor::Idx(255)), UiColor::Indexed(255));
}

#[test]
fn color_rgb_passthrough() {
    assert_eq!(vt_to_color(TermColor::Rgb(255, 128, 0)), UiColor::Rgb(255, 128, 0));
}

#[test]
fn default_color_maps_to_reset() {
    assert_eq!(vt_to_color(TermColor::Default), UiColor::Reset);
}

#[test]
fn non_hidden_cell_renders_actual_content() {
    let p = parser(b"visible");
    let cell = cell_attrs(p.screen().cell(0, 0).unwrap());
    assert!(!cell.hidden);
    let (text, _) = cell_to_text_and_style(&cell);
    assert_eq!(text, "v");
}

#[test]
fn non_strikethrough_cell_lacks_crossed_out_modifier() {
    let p = parser(b"normal");
    let cell = cell_attrs(p.screen().cell(0, 0).unwrap());
    let (_text, style) = cell_to_text_and_style(&cell);
    assert!(!style.crossed_out,
        "Non-strikethrough cell should not have CROSSED_OUT modifier");
}

#[test]
fn bold_red_text_has_correct_color_and_modifier() {
    let p = parser(b"\x1b[1;31mR");
    let cell = cell_attrs(p.screen().cell(0, 0).unwrap());
    let (text, style) = cell_to_text_and_style(&cell);
    assert_eq!(text, "R");
    assert!(style.bold);
    assert_eq!(style.fg, UiColor::Red,
        "SGR 31 (red) should map to Color::Red");
}

fn text_cells(text: &str, hidden: bool, strikethrough: bool) -> Vec<CellAttrs> {
    text.chars()
        .map(|c| {
            let mut cell = plain_cell(&c.to_string());
            cell.hidden = hidden;
            cell.strikethrough = strikethrough;
            cell
        })
        .collect()
}

#[test]
fn hidden_cell_renders_as_space() {
    // "\x1b[8msecret": six hidden cells.
    let cells = text_cells("secret", true, false);
    for col in 0..6 {
        let cell = &cells[col];
        assert!(cell.hidden, "cell at col {col} should be hidden");
        let (text, _style) = cell_to_text_and_style(cell);
        assert_eq!(text, " ",
            "Hidden cell at col {col} must render as space, got {:?}", text);
    }
}

#[test]
fn hidden_cell_original_content_is_preserved_in_parser() {
    // The parser still stores the real content; only the renderer replaces it
    let p = parser(b"\x1b[8mABC");
    let screen = p.screen();
    assert_eq!(screen.cell(0, 0).unwrap().contents(), "A");
    assert_eq!(screen.cell(0, 1).unwrap().contents(), "B");
    assert_eq!(screen.cell(0, 2).unwrap().contents(), "C");
    // But rendering produces spaces (this emulator keeps no hidden flag, so
    // the flag is set on the cell's attributes here)
    let mut cell = cell_attrs(screen.cell(0, 0).unwrap());
    assert_eq!(cell.contents, "A");
    cell.hidden = true;
    let (text, _) = cell_to_text_and_style(&cell);
    assert_eq!(text, " ");
}

#[test]
fn hidden_then_visible_renders_correctly() {
    // "AB" hidden, then "CD" visible
    let mut cells = text_cells("AB", true, false);
    cells.extend(text_cells("CD", false, false));

    // Hidden cells render as spaces
    let (t0, _) = cell_to_text_and_style(&cells[0]);
    let (t1, _) = cell_to_text_and_style(&cells[1]);
    assert_eq!(t0, " ", "Hidden 'A' should render as space");
    assert_eq!(t1, " ", "Hidden 'B' should render as space");

    // Visible cells render normally
    let (t2, _) = cell_to_text_and_style(&cells[2]);
    let (t3, _) = cell_to_text_and_style(&cells[3]);
    assert_eq!(t2, "C");
    assert_eq!(t3, "D");
}

#[test]
fn strikethrough_cell_has_crossed_out_modifier() {
    let cells = text_cells("strike", false, true);
    let (_text, style) = cell_to_text_and_style(&cells[0]);
    assert!(style.crossed_out,
        "Strikethrough cell style must contain CROSSED_OUT modifier, got: {:?}", style);
}

#[test]
fn strikethrough_cell_still_renders_text() {
    // Unlike hidden, strikethrough should show the actual content
    let cells = text_cells("X", false, true);
    let (text, _) = cell_to_text_and_style(&cells[0]);
    assert_eq!(text, "X", "Strikethrough cell should render actual content, not space");
}

#[test]
fn hidden_with_bold_still_renders_as_space() {
    // Bold + hidden
    let mut cell = plain_cell("X");
    cell.bold = true;
    cell.hidden = true;
    let (text, style) = cell_to_text_and_style(&cell);
    assert_eq!(text, " ", "Hidden overrides content regardless of other modifiers");
    assert!(style.bold,
        "Bold modifier should still be set on hidden cells");
}

#[test]
fn strikethrough_hidden_cell_renders_as_space_with_crossed_out() {
    // Both strikethrough and hidden
    let cells = text_cells("X", true, true);
    let (text, style) = cell_to_text_and_style(&cells[0]);
    assert_eq!(text, " ", "Hidden cell renders as space even with strikethrough");
    assert!(style.crossed_out,
        "CROSSED_OUT should still be in the style for hidden+strikethrough cells");
}

#[test]
fn vt100_cell_attributes_are_read() {
    let p = parser(b"\x1b[2;3;4;7;33;44mQ");
    let cell = cell_attrs(p.screen().cell(0, 0).unwrap());
    assert_eq!(cell.contents, "Q");
    assert!(cell.dim && cell.italic && cell.underline && cell.inverse && !cell.bold);
    assert_eq!(cell.fgcolor, TermColor::Idx(3));
    assert_eq!(cell.bgcolor, TermColor::Idx(4));
}

#[test]
fn every_attribute_becomes_its_modifier() {
    let mut cell = plain_cell("é");
    cell.dim = true;
    cell.italic = true;
    cell.underline = true;
    cell.inverse = true;
    cell.blink = true;
    cell.fgcolor = TermColor::Idx(200);
    cell.bgcolor = TermColor::Rgb(1, 2, 3);
    let (text, style) = cell_to_text_and_style(&cell);
    assert_eq!(text, "é");
    assert!(style.dim && style.italic && style.underlined && style.reversed && style.slow_blink);
    assert!(!style.bold && !style.crossed_out);
    assert_eq!(style.fg, UiColor::Indexed(200));
    assert_eq!(style.bg, UiColor::Rgb(1, 2, 3));
}

#[test]
fn color_names() {
    assert_eq!(color_to_name(TermColor::Default), "default");
    assert_eq!(color_to_name(TermColor::Idx(0)), "idx:0");
    assert_eq!(color_to_name(TermColor::Idx(255)), "idx:255");
    assert_eq!(color_to_name(TermColor::Rgb(255, 128, 0)), "rgb:255,128,0");
    assert_eq!(color_to_name(TermColor::Rgb(0, 10, 9)), "rgb:0,10,9");
}

#[test]
fn vt100_cell_colours_are_named() {
    let p = parser(b"\x1b[38;5;42;48;2;1;2;3mZ");
    let cell = p.screen().cell(0, 0).unwrap();
    assert_eq!(vt_color_name(cell.fgcolor()), "idx:42");
    assert_eq!(vt_color_name(cell.bgcolor()), "rgb:1,2,3");
    let plain = parser(b"Z");
    assert_eq!(vt_color_name(plain.screen().cell(0, 0).unwrap().fgcolor()), "default");
}
