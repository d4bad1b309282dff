use std::num::NonZeroU16;

use psmux::title::{infer_title_from_prompt, ScreenText};
use psmux::vt::screen_text;

fn screen_of(lines: &[&str], cursor_row: u16, cols: usize) -> ScreenText {
    let cells = lines
        .iter()
        .map(|l| {
            let mut row: Vec<Option<String>> = l.chars().map(|c| Some(c.to_string())).collect();
            while row.len() < cols {
                row.push(Some(" ".to_string()));
            }
            row
        })
        .collect();
    ScreenText { cursor_row, cells }
}

fn vt_screen(bytes: &[u8], rows: u16, cols: u16) -> vt100::Parser {
    let mut parser = vt100::Parser::new(NonZeroU16::new(rows).unwrap(), NonZeroU16::new(cols).unwrap(), 0);
    parser.process(bytes);
    parser
}

#[test]
fn powershell_prompt_gives_last_directory() {
    let s = screen_of(&["PS C:\\Users\\me> "], 0, 20);
    assert_eq!(infer_title_from_prompt(&s, 1, 20), Some("me".to_string()));
}

#[test]
fn quoted_path_prompt_gives_last_directory() {
    let s = screen_of(&["\"C:\\Program Files\\App\"> "], 0, 30);
    assert_eq!(infer_title_from_prompt(&s, 1, 30), Some("App".to_string()));
}

#[test]
fn plain_prompt_before_angle_bracket() {
    let s = screen_of(&["  node> "], 0, 10);
    assert_eq!(infer_title_from_prompt(&s, 1, 10), Some("node".to_string()));
}

#[test]
fn unix_prompts_end_in_dollar_or_hash() {
    let s = screen_of(&["user@host:~$ "], 0, 16);
    assert_eq!(infer_title_from_prompt(&s, 1, 16), Some("user@host:~".to_string()));
    let s = screen_of(&["root@box:/# "], 0, 16);
    assert_eq!(infer_title_from_prompt(&s, 1, 16), Some("root@box:/".to_string()));
}

#[test]
fn output_without_prompt_marker_gives_no_title() {
    let s = screen_of(&["hello world"], 0, 12);
    assert_eq!(infer_title_from_prompt(&s, 1, 12), None);
    let s = screen_of(&["key: value"], 0, 12);
    assert_eq!(infer_title_from_prompt(&s, 1, 12), None);
    let s = screen_of(&["cost $5 now"], 0, 12);
    assert_eq!(infer_title_from_prompt(&s, 1, 12), None);
}

#[test]
fn blank_screen_gives_no_title() {
    let s = screen_of(&["", "", ""], 1, 8);
    assert_eq!(infer_title_from_prompt(&s, 3, 8), None);
}

#[test]
fn rows_below_the_cursor_are_searched_before_rows_above() {
    let s = screen_of(&["above$", "", "below>"], 1, 8);
    assert_eq!(infer_title_from_prompt(&s, 3, 8), Some("below".to_string()));
    let s = screen_of(&["above$", "", "nothing"], 1, 8);
    assert_eq!(infer_title_from_prompt(&s, 3, 8), Some("above".to_string()));
}

#[test]
fn cursor_row_comes_first() {
    let s = screen_of(&["first>", "second>"], 1, 8);
    assert_eq!(infer_title_from_prompt(&s, 2, 8), Some("second".to_string()));
}

#[test]
fn title_from_vt100_screen() {
    let parser = vt_screen(b"some output\r\nPS C:\\work\\proj> ", 5, 40);
    let text = screen_text(parser.screen(), 5, 40);
    assert_eq!(text.cursor_row, 1);
    assert_eq!(text.cells.len(), 5);
    assert_eq!(infer_title_from_prompt(&text, 5, 40), Some("proj".to_string()));
}

#[test]
fn screen_text_reads_each_cell() {
    let parser = vt_screen(b"ab", 2, 3);
    let text = screen_text(parser.screen(), 2, 3);
    assert_eq!(text.cells.len(), 2);
    assert_eq!(text.cells[0], vec![Some("a".to_string()), Some("b".to_string()), Some(String::new())]);
    assert_eq!(text.cells[1].len(), 3);
}
