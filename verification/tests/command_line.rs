use psmux::quoting::{parse_command_line, quote_arg};

#[test]
fn splits_on_white_space() {
    assert_eq!(parse_command_line("  a  b\tc \n"), vec!["a", "b", "c"]);
    assert_eq!(parse_command_line(""), Vec::<String>::new());
    assert_eq!(parse_command_line("   "), Vec::<String>::new());
}

#[test]
fn quotes_join_into_one_argument() {
    assert_eq!(parse_command_line("a\"b c\"d"), vec!["ab cd"]);
    assert_eq!(parse_command_line("'x y' z"), vec!["x y", "z"]);
    assert_eq!(parse_command_line("\"\""), vec![""]);
}

#[test]
fn backslash_escapes_only_inside_double_quotes() {
    assert_eq!(parse_command_line("\"a\\\"b\""), vec!["a\"b"]);
    assert_eq!(parse_command_line("\"a\\\\b\""), vec!["a\\b"]);
    assert_eq!(parse_command_line("\"a\\nb\""), vec!["a\\nb"]);
    assert_eq!(parse_command_line("C:\\dir x"), vec!["C:\\dir", "x"]);
    assert_eq!(parse_command_line("'a\\'"), vec!["a\\"]);
}

#[test]
fn unclosed_quote_runs_to_the_end() {
    assert_eq!(parse_command_line("a \"b c"), vec!["a", "b c"]);
}

#[test]
fn quoted_arguments_read_back_exactly() {
    for arg in ["", " ", "\"", "\\", "\\\"", "a\\", "'", "x y z", "tab\there", "ÈªëÈ£é"] {
        assert_eq!(parse_command_line(&quote_arg(arg)), vec![arg]);
        let cmd = format!("cmd sub {} {}", quote_arg(arg), quote_arg("next"));
        assert_eq!(parse_command_line(&cmd), vec!["cmd", "sub", arg, "next"]);
    }
}
