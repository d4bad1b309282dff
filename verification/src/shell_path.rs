//! Expansion of `~` and of the plugin directory in `run-shell` commands.

use vstd::prelude::*;

use crate::text::{chars_of, contains_char, push_str, string_of};

verus! {

/// `s` with every occurrence of the non-empty `p` replaced by `r`, the
/// occurrences taken left to right without overlapping (as `str::replace`).
pub open spec fn replaced(s: Seq<char>, p: Seq<char>, r: Seq<char>) -> Seq<char>
    decreases s.len(),
{
    if s.len() == 0 {
        seq![]
    } else if 0 < p.len() <= s.len() && s.take(p.len() as int) == p {
        r + replaced(s.skip(p.len() as int), p, r)
    } else {
        seq![s[0]] + replaced(s.drop_first(), p, r)
    }
}

/// `s` holds `p` somewhere.
pub open spec fn contains_seq(s: Seq<char>, p: Seq<char>) -> bool {
    exists|i: int| 0 <= i && i + p.len() <= s.len() && #[trigger] s.subrange(i, i + p.len()) == p
}

fn matches_at(s: &Vec<char>, p: &Vec<char>, i: usize) -> (r: bool)
    requires
        i <= s@.len(),
    ensures
        r == (i + p@.len() <= s@.len() && s@.subrange(i as int, i + p@.len()) == p@),
{
    if p.len() > s.len() - i {
        return false;
    }
    let sl = s.len();
    let mut k: usize = 0;
    while k < p.len()
        invariant
            sl == s@.len(),
            i + p@.len() <= s@.len(),
            k <= p@.len(),
            forall|j: int| 0 <= j < k ==> s@[i + j] == p@[j],
        decreases p@.len() - k,
    {
        if s[i + k] != p[k] {
            assert(s@.subrange(i as int, i + p@.len())[k as int] != p@[k as int]);
            return false;
        }
        k = k + 1;
    }
    assert(s@.subrange(i as int, i + p@.len()) =~= p@);
    true
}

/// Whether `s` holds `p`.
fn contains_chars(s: &Vec<char>, p: &Vec<char>) -> (r: bool)
    ensures
        r == contains_seq(s@, p@),
{
    let n = s.len();
    let mut i: usize = 0;
    loop
        invariant
            i <= n,
            n == s@.len(),
            forall|j: int| 0 <= j < i && j + p@.len() <= n ==> #[trigger] s@.subrange(j, j + p@.len()) != p@,
        decreases n - i,
    {
        if matches_at(s, p, i) {
            return true;
        }
        if i == n {
            assert forall|j: int| 0 <= j && j + p@.len() <= s@.len() implies #[trigger] s@.subrange(
                j,
                j + p@.len(),
            ) != p@ by {
                if j == n {
                } else {
                }
            }
            return false;
        }
        i = i + 1;
    }
}

/// `s` with every occurrence of `p` replaced by `r` (see `replaced`).
fn replace_all(s: &Vec<char>, p: &Vec<char>, r: &Vec<char>) -> (out: Vec<char>)
    requires
        p@.len() > 0,
    ensures
        out@ == replaced(s@, p@, r@),
{
    let n = s.len();
    let mut out: Vec<char> = Vec::new();
    let mut i: usize = 0;
    assert(s@.skip(0) == s@);
    while i < n
        invariant
            n == s@.len(),
            i <= n,
            p@.len() > 0,
            replaced(s@, p@, r@) == out@ + replaced(s@.skip(i as int), p@, r@),
        decreases n - i,
    {
        let ghost rest = s@.skip(i as int);
        let m = matches_at(s, p, i);
        if m {
            assert(rest.take(p@.len() as int) == s@.subrange(i as int, i + p@.len()));
            assert(rest.skip(p@.len() as int) == s@.skip(i + p@.len()));
            let mut rr = r.clone();
            out.append(&mut rr);
            i = i + p.len();
        } else {
            proof {
                if p@.len() <= rest.len() {
                    assert(rest.take(p@.len() as int) == s@.subrange(i as int, i + p@.len()));
                }
            }
            assert(rest[0] == s@[i as int]);
            assert(rest.drop_first() == s@.skip(i + 1));
            out.push(s[i]);
            i = i + 1;
        }
    }
    assert(s@.skip(n as int) == Seq::<char>::empty());
    out
}

/// `cmd` with `~/` and `~\` turned into the home directory followed by the
/// same separator, when `cmd` holds a `~` at all.
pub open spec fn tilde_expanded(cmd: Seq<char>, home: Seq<char>) -> Seq<char> {
    if cmd.contains('~') {
        replaced(replaced(cmd, "~/"@, home + "/"@), "~\\"@, home + "\\"@)
    } else {
        cmd
    }
}

/// The classic plugin directory under `home`, with forward slashes.
pub open spec fn classic_plugins_fwd(home: Seq<char>) -> Seq<char> {
    home + "/.psmux/plugins/"@
}

/// The classic plugin directory under `home`, with backslashes.
pub open spec fn classic_plugins_win(home: Seq<char>) -> Seq<char> {
    home + "\\.psmux\\plugins\\"@
}

/// The XDG plugin directory under the configuration base, with forward slashes.
pub open spec fn xdg_plugins_fwd(base: Seq<char>) -> Seq<char> {
    replaced(base, "\\"@, "/"@) + "/psmux/plugins/"@
}

/// The XDG plugin directory under the configuration base, with backslashes.
pub open spec fn xdg_plugins_win(base: Seq<char>) -> Seq<char> {
    base + "\\psmux\\plugins\\"@
}

/// The command after expansion: `~` first; then, when the command names
/// the classic plugin directory, that directory does not exist and the XDG
/// one does, the classic directory is rewritten to the XDG one.
pub open spec fn expanded_command(
    cmd: Seq<char>,
    home: Seq<char>,
    xdg_base: Seq<char>,
    classic_is_dir: bool,
    xdg_is_dir: bool,
) -> Seq<char> {
    let c = tilde_expanded(cmd, home);
    if (contains_seq(c, classic_plugins_fwd(home)) || contains_seq(c, classic_plugins_win(home)))
        && !classic_is_dir && xdg_is_dir {
        replaced(
            replaced(c, classic_plugins_fwd(home), xdg_plugins_fwd(xdg_base)),
            classic_plugins_win(home),
            xdg_plugins_win(xdg_base),
        )
    } else {
        c
    }
}

/// The configuration base directory: `XDG_CONFIG_HOME` when it is set,
/// else `.config` under the home directory.
pub open spec fn config_base(home: Seq<char>, xdg_config_home: Option<Seq<char>>) -> Seq<char> {
    match xdg_config_home {
        Some(v) => v,
        None => home + "\\.config"@,
    }
}

fn chars_with(a: &str, b: &str) -> (out: Vec<char>)
    ensures
        out@ == a@ + b@,
{
    let mut v = chars_of(a);
    push_str(&mut v, b);
    v
}

/// The configuration base directory (see `config_base`).
pub fn xdg_config_base(home: &str, xdg_config_home: Option<&str>) -> (base: String)
    ensures
        base@ == config_base(home@, match xdg_config_home {
            Some(v) => Some(v@),
            None => None,
        }),
{
    match xdg_config_home {
        Some(v) => string_of(chars_of(v).as_slice()),
        None => string_of(chars_with(home, "\\.config").as_slice()),
    }
}

/// Expands `~` to the home directory in a shell command, then rewrites the
/// classic plugin directory `~/.psmux/plugins/` to the XDG one when the
/// classic directory does not exist but the XDG one does. The caller passes
/// the home directory, the configuration base directory and whether the
/// two plugin directories exist.
pub fn expand_run_shell_path(
    cmd: &str,
    home: &str,
    xdg_base: &str,
    classic_is_dir: bool,
    xdg_is_dir: bool,
) -> (out: String)
    ensures
        out@ == expanded_command(cmd@, home@, xdg_base@, classic_is_dir, xdg_is_dir),
{
    proof {
        reveal_strlit("~/");
        reveal_strlit("~\\");
        reveal_strlit("\\");
        reveal_strlit("/.psmux/plugins/");
        reveal_strlit("\\.psmux\\plugins\\");
    }
    let mut c = chars_of(cmd);
    if contains_char(&c, '~') {
        let t1 = replace_all(&c, &chars_of("~/"), &chars_with(home, "/"));
        c = replace_all(&t1, &chars_of("~\\"), &chars_with(home, "\\"));
    }
    let fwd = chars_with(home, "/.psmux/plugins/");
    let win = chars_with(home, "\\.psmux\\plugins\\");
    if (contains_chars(&c, &fwd) || contains_chars(&c, &win)) && !classic_is_dir && xdg_is_dir {
        let base = chars_of(xdg_base);
        let mut xfwd = replace_all(&base, &chars_of("\\"), &chars_of("/"));
        push_str(&mut xfwd, "/psmux/plugins/");
        let xwin = chars_with(xdg_base, "\\psmux\\plugins\\");
        let t = replace_all(&c, &fwd, &xfwd);
        c = replace_all(&t, &win, &xwin);
    }
    string_of(c.as_slice())
}

/// A command with no `~` that does not name the classic plugin directory
/// is left as it is.
pub proof fn plain_command_unchanged(
    cmd: Seq<char>,
    home: Seq<char>,
    xdg_base: Seq<char>,
    classic_is_dir: bool,
    xdg_is_dir: bool,
)
    requires
        !cmd.contains('~'),
        !contains_seq(cmd, classic_plugins_fwd(home)),
        !contains_seq(cmd, classic_plugins_win(home)),
    ensures
        expanded_command(cmd, home, xdg_base, classic_is_dir, xdg_is_dir) == cmd,
{
}

/// Where the classic plugin directory exists, or the XDG one does not, only
/// `~` is expanded.
pub proof fn plugin_path_kept_unless_only_xdg_exists(
    cmd: Seq<char>,
    home: Seq<char>,
    xdg_base: Seq<char>,
    classic_is_dir: bool,
    xdg_is_dir: bool,
)
    requires
        classic_is_dir || !xdg_is_dir,
    ensures
        expanded_command(cmd, home, xdg_base, classic_is_dir, xdg_is_dir) == tilde_expanded(cmd, home),
{
}


proof fn lemma_replaced_skips_prefix(a: Seq<char>, q: Seq<char>, p: Seq<char>, r: Seq<char>)
    requires
        p.len() > 0,
        !a.contains(p[0]),
    ensures
        replaced(a + q, p, r) == a + replaced(q, p, r),
    decreases a.len(),
{
    if a.len() == 0 {
        assert(a + q =~= q);
        assert(a + replaced(q, p, r) =~= replaced(q, p, r));
    } else {
        let s = a + q;
        assert(s[0] == a[0]);
        assert(a[0] != p[0]);
        if 0 < p.len() <= s.len() && s.take(p.len() as int) == p {
            assert(s.take(p.len() as int)[0] == s[0]);
        }
        let a1 = a.drop_first();
        assert(!a1.contains(p[0])) by {
            if a1.contains(p[0]) {
                let k = choose|k: int| 0 <= k < a1.len() && a1[k] == p[0];
                assert(a[k + 1] == p[0]);
            }
        }
        assert(s.drop_first() =~= a1 + q);
        lemma_replaced_skips_prefix(a1, q, p, r);
        assert(seq![a[0]] + (a1 + replaced(q, p, r)) =~= a + replaced(q, p, r));
    }
}

proof fn lemma_no_tilde_concat(a: Seq<char>, b: Seq<char>)
    requires
        !a.contains('~'),
        !b.contains('~'),
    ensures
        !(a + b).contains('~'),
{
    if (a + b).contains('~') {
        let k = choose|k: int| 0 <= k < (a + b).len() && (a + b)[k] == '~';
        if k < a.len() {
            assert(a[k] == '~');
        } else {
            assert(b[k - a.len()] == '~');
        }
    }
}

/// `~/` is expanded wherever it stands, not only at the start: when the
/// first `~` of a command begins a `~/`, the expanded command is what came
/// before it, then the home directory and `/` (for a home directory with
/// no `~` in it), and the same holds when the plugin directory is not
/// rewritten.
pub proof fn tilde_slash_expanded_anywhere(
    a: Seq<char>,
    b: Seq<char>,
    home: Seq<char>,
    xdg_base: Seq<char>,
    classic_is_dir: bool,
    xdg_is_dir: bool,
)
    requires
        !a.contains('~'),
        !home.contains('~'),
    ensures
        tilde_expanded(a + "~/"@ + b, home).take((a.len() + home.len() + 1) as int) == a + home + "/"@,
        classic_is_dir || !xdg_is_dir ==> expanded_command(
            a + "~/"@ + b,
            home,
            xdg_base,
            classic_is_dir,
            xdg_is_dir,
        ).take((a.len() + home.len() + 1) as int) == a + home + "/"@,
{
    reveal_strlit("~/");
    reveal_strlit("/");
    reveal_strlit("~\\");
    reveal_strlit("\\");
    let cmd = a + "~/"@ + b;
    assert(cmd[a.len() as int] == '~');
    assert(cmd.contains('~'));
    let p1 = "~/"@;
    let r1 = home + "/"@;
    assert(cmd =~= a + (p1 + b));
    lemma_replaced_skips_prefix(a, p1 + b, p1, r1);
    assert((p1 + b).take(2) =~= p1);
    assert((p1 + b).skip(2) =~= b);
    let rb = replaced(b, p1, r1);
    assert(replaced(p1 + b, p1, r1) == r1 + rb);
    let t1 = replaced(cmd, p1, r1);
    assert(t1 =~= (a + r1) + rb);
    let p2 = "~\\"@;
    let r2 = home + "\\"@;
    assert(!"/"@.contains('~')) by {
        if "/"@.contains('~') {
            assert("/"@[0] == '~');
        }
    }
    lemma_no_tilde_concat(home, "/"@);
    lemma_no_tilde_concat(a, r1);
    assert(p2[0] == '~');
    lemma_replaced_skips_prefix(a + r1, rb, p2, r2);
    let t2 = replaced(t1, p2, r2);
    assert(t2 == (a + r1) + replaced(rb, p2, r2));
    assert((a + r1).len() == a.len() + home.len() + 1);
    assert(t2.take((a.len() + home.len() + 1) as int) =~= a + r1);
    assert(a + r1 =~= a + home + "/"@);
}

} // verus!
