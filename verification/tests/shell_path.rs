use psmux::shell_path::{expand_run_shell_path, xdg_config_base};

#[test]
fn tilde_expands_to_home() {
    assert_eq!(expand_run_shell_path("~/bin/run.sh ~\\x", "/home/u", "/cfg", true, false), "/home/u/bin/run.sh /home/u\\x");
}

#[test]
fn lone_tilde_is_kept() {
    assert_eq!(expand_run_shell_path("echo ~ done", "/home/u", "/cfg", false, true), "echo ~ done");
}

#[test]
fn plain_command_is_unchanged() {
    assert_eq!(expand_run_shell_path("tmux ls", "C:\\Users\\u", "C:\\Users\\u\\.config", false, true), "tmux ls");
}

#[test]
fn classic_plugin_path_moves_to_xdg_when_only_xdg_exists() {
    let out = expand_run_shell_path("~/.psmux/plugins/p/run.ps1", "C:\\Users\\u", "C:\\Users\\u\\.config", false, true);
    assert_eq!(out, "C:/Users/u/.config/psmux/plugins/p/run.ps1");
    let out = expand_run_shell_path("~\\.psmux\\plugins\\p\\run.ps1", "C:\\Users\\u", "C:\\Users\\u\\.config", false, true);
    assert_eq!(out, "C:\\Users\\u\\.config\\psmux\\plugins\\p\\run.ps1");
}

#[test]
fn classic_plugin_path_kept_when_it_exists() {
    let out = expand_run_shell_path("~/.psmux/plugins/p/run.ps1", "/home/u", "/home/u/.config", true, true);
    assert_eq!(out, "/home/u/.psmux/plugins/p/run.ps1");
    let out = expand_run_shell_path("~/.psmux/plugins/p/run.ps1", "/home/u", "/home/u/.config", false, false);
    assert_eq!(out, "/home/u/.psmux/plugins/p/run.ps1");
}

#[test]
fn config_base_prefers_the_environment() {
    assert_eq!(xdg_config_base("C:\\Users\\u", Some("D:\\cfg")), "D:\\cfg");
    assert_eq!(xdg_config_base("C:\\Users\\u", None), "C:\\Users\\u\\.config");
}
