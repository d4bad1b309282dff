use psmux::quoting::{parse_command_line, quote_arg};

#[test]
fn test_quote_arg_simple() {
    assert_eq!(quote_arg("hello"), "\"hello\"");
}

#[test]
fn test_quote_arg_with_spaces() {
    assert_eq!(quote_arg("cc 123"), "\"cc 123\"");
}

#[test]
fn test_quote_arg_with_embedded_quotes() {
    assert_eq!(quote_arg("say \"hi\""), "\"say \\\"hi\\\"\"");
}

#[test]
fn test_quote_arg_with_backslash() {
    assert_eq!(quote_arg("C:\\Users\\foo"), "\"C:\\\\Users\\\\foo\"");
}

#[test]
fn test_quote_arg_empty() {
    assert_eq!(quote_arg(""), "\"\"");
}

#[test]
fn test_rename_session_roundtrip_with_spaces() {
    let name = "cc 123";
    let cmd = format!("rename-session {}", quote_arg(name));
    let args = parse_command_line(&cmd);
    assert_eq!(args, vec!["rename-session", "cc 123"]);
}

#[test]
fn test_rename_window_roundtrip_with_spaces() {
    let name = "my window";
    let cmd = format!("rename-window {}", quote_arg(name));
    let args = parse_command_line(&cmd);
    assert_eq!(args, vec!["rename-window", "my window"]);
}

#[test]
fn test_set_pane_title_roundtrip_with_spaces() {
    let title = "pane title here";
    let cmd = format!("set-pane-title {}", quote_arg(title));
    let args = parse_command_line(&cmd);
    assert_eq!(args, vec!["set-pane-title", "pane title here"]);
}

#[test]
fn test_source_file_roundtrip_windows_path_with_spaces() {
    let path = "C:\\Program Files\\psmux\\config.conf";
    let cmd = format!("source-file {}", quote_arg(path));
    let args = parse_command_line(&cmd);
    assert_eq!(args, vec!["source-file", "C:\\Program Files\\psmux\\config.conf"]);
}

#[test]
fn test_claim_session_roundtrip_with_spaces() {
    let name = "my session";
    let cwd = "C:\\Users\\My Name\\Documents";
    let cmd = format!("claim-session {} {}", quote_arg(name), quote_arg(cwd));
    let args = parse_command_line(&cmd);
    assert_eq!(args, vec!["claim-session", "my session", "C:\\Users\\My Name\\Documents"]);
}

#[test]
fn test_roundtrip_name_with_embedded_quotes() {
    let name = "say \"hello\" world";
    let cmd = format!("rename-session {}", quote_arg(name));
    let args = parse_command_line(&cmd);
    assert_eq!(args, vec!["rename-session", "say \"hello\" world"]);
}

#[test]
fn test_roundtrip_no_spaces_still_works() {
    let name = "simple";
    let cmd = format!("rename-session {}", quote_arg(name));
    let args = parse_command_line(&cmd);
    assert_eq!(args, vec!["rename-session", "simple"]);
}

#[test]
fn test_claim_session_roundtrip_root_dir() {
    // Root paths like C:\ end in a backslash which must survive
    // the quote_arg -> parse_command_line roundtrip.
    let name = "mysession";
    let cwd = "C:\\";
    let cmd = format!("claim-session {} {}", quote_arg(name), quote_arg(cwd));
    let args = parse_command_line(&cmd);
    assert_eq!(args, vec!["claim-session", "mysession", "C:\\"]);
}

#[test]
fn test_claim_session_roundtrip_trailing_backslash_dir() {
    // Paths ending in backslash (e.g. D:\Projects\) must roundtrip.
    let cwd = "D:\\Projects\\";
    let cmd = format!("claim-session sess {}", quote_arg(cwd));
    let args = parse_command_line(&cmd);
    assert_eq!(args, vec!["claim-session", "sess", "D:\\Projects\\"]);
}

#[test]
fn test_claim_session_roundtrip_path_with_spaces() {
    let cwd = "C:\\Program Files\\My App\\Data";
    let cmd = format!("claim-session s1 {}", quote_arg(cwd));
    let args = parse_command_line(&cmd);
    assert_eq!(args, vec!["claim-session", "s1", "C:\\Program Files\\My App\\Data"]);
}

#[test]
fn test_claim_session_roundtrip_deep_nested_path() {
    let cwd = "C:\\Users\\test\\Documents\\workspace\\project\\src\\components";
    let cmd = format!("claim-session s1 {}", quote_arg(cwd));
    let args = parse_command_line(&cmd);
    assert_eq!(args, vec!["claim-session", "s1", cwd]);
}

#[test]
fn test_claim_session_roundtrip_unc_path() {
    let cwd = "\\\\server\\share\\folder";
    let cmd = format!("claim-session s1 {}", quote_arg(cwd));
    let args = parse_command_line(&cmd);
    assert_eq!(args, vec!["claim-session", "s1", "\\\\server\\share\\folder"]);
}

#[test]
fn test_claim_session_roundtrip_path_with_parens() {
    let cwd = "C:\\Program Files (x86)\\App";
    let cmd = format!("claim-session s1 {}", quote_arg(cwd));
    let args = parse_command_line(&cmd);
    assert_eq!(args, vec!["claim-session", "s1", "C:\\Program Files (x86)\\App"]);
}

#[test]
fn test_claim_session_roundtrip_path_with_ampersand() {
    let cwd = "C:\\R&D\\project";
    let cmd = format!("claim-session s1 {}", quote_arg(cwd));
    let args = parse_command_line(&cmd);
    assert_eq!(args, vec!["claim-session", "s1", "C:\\R&D\\project"]);
}
