//! The windows of a session and their layout trees, and the listings made
//! from them.

use vstd::prelude::*;

use crate::text::{decimal, digit_char, push_decimal, push_str, string_of};

verus! {

/// A pane: its id, its title and its last known size.
pub struct Pane {
    pub id: usize,
    pub title: String,
    pub last_cols: u16,
    pub last_rows: u16,
}

/// A layout tree: a single pane, or a split of child layouts.
pub enum Node {
    Leaf(Pane),
    Split { children: Vec<Node> },
}

/// A window: its id and name, whether it has unseen activity, its layout,
/// and the path of child indices from the root to its active pane.
pub struct Window {
    pub id: usize,
    pub name: String,
    pub activity_flag: bool,
    pub root: Node,
    pub active_path: Vec<usize>,
}

/// The state of a session: its windows, the index of the active one, and
/// the number that the first window is shown with.
pub struct AppState {
    pub windows: Vec<Window>,
    pub active_idx: usize,
    pub window_base_index: usize,
}

/// The number of panes in a layout.
pub open spec fn pane_count(n: Node) -> nat
    decreases n,
{
    match n {
        Node::Leaf(_) => 1,
        Node::Split { children } => pane_count_all(children@),
    }
}

/// The number of panes in a list of layouts.
pub open spec fn pane_count_all(ns: Seq<Node>) -> nat
    decreases ns,
{
    if ns.len() == 0 {
        0
    } else {
        pane_count_all(ns.drop_last()) + pane_count(ns.last())
    }
}

/// The panes of a layout, left to right.
pub open spec fn panes_of(n: Node) -> Seq<Pane>
    decreases n,
{
    match n {
        Node::Leaf(p) => seq![p],
        Node::Split { children } => panes_of_all(children@),
    }
}

/// The panes of a list of layouts, left to right.
pub open spec fn panes_of_all(ns: Seq<Node>) -> Seq<Pane>
    decreases ns,
{
    if ns.len() == 0 {
        seq![]
    } else {
        panes_of_all(ns.drop_last()) + panes_of(ns.last())
    }
}

/// The pane that `path` leads to from `n`: a pane is reached as soon as the
/// walk meets one; at a split the next index chooses the child, and a
/// missing index or a child that does not exist gives no pane.
pub open spec fn active_pane_of(n: Node, path: Seq<usize>) -> Option<Pane>
    decreases path.len(),
{
    match n {
        Node::Leaf(p) => Some(p),
        Node::Split { children } => if path.len() == 0 {
            None
        } else if path[0] < children@.len() {
            active_pane_of(children@[path[0] as int], path.drop_first())
        } else {
            None
        },
    }
}

/// The pane count of a layout, shown in the text listing, is the number of
/// panes that the tree listing gives for it.
pub proof fn pane_count_is_number_of_panes(n: Node)
    ensures
        pane_count(n) == panes_of(n).len(),
    decreases n,
{
    match n {
        Node::Leaf(_) => {},
        Node::Split { children } => {
            pane_counts_are_numbers_of_panes(children@);
        },
    }
}

proof fn pane_counts_are_numbers_of_panes(ns: Seq<Node>)
    ensures
        pane_count_all(ns) == panes_of_all(ns).len(),
    decreases ns,
{
    if ns.len() > 0 {
        pane_counts_are_numbers_of_panes(ns.drop_last());
        pane_count_is_number_of_panes(ns.last());
    }
}

proof fn lemma_pane_count_prefix(ns: Seq<Node>, i: int)
    requires
        0 <= i <= ns.len(),
    ensures
        pane_count_all(ns.take(i)) <= pane_count_all(ns),
    decreases ns.len(),
{
    if i < ns.len() {
        assert(ns.drop_last().take(i) == ns.take(i));
        lemma_pane_count_prefix(ns.drop_last(), i);
    } else {
        assert(ns.take(i) == ns);
    }
}

/// Counts the panes in a layout.
#[verifier::loop_isolation(false)]
pub fn count_panes(node: &Node) -> (n: usize)
    requires
        pane_count(*node) <= usize::MAX,
    ensures
        n == pane_count(*node),
    decreases node,
{
    match node {
        Node::Leaf(_) => 1,
        Node::Split { children } => {
            let mut sum: usize = 0;
            for i in 0..children.len()
                invariant
                    pane_count_all(children@) <= usize::MAX,
                    sum == pane_count_all(children@.take(i as int)),
            {
                assert(children@.take(i + 1).drop_last() == children@.take(i as int));
                assert(children@.take(i + 1).last() == children@[i as int]);
                proof {
                    lemma_pane_count_prefix(children@, i + 1);
                }
                assert(decreases_to!(*node => children@[i as int]));
                let c = count_panes(&children[i]);
                sum = sum + c;
            }
            assert(children@.take(children@.len() as int) == children@);
            sum
        },
    }
}

/// The pane that `path` leads to from `node` (see `active_pane_of`).
pub fn active_pane<'a>(node: &'a Node, path: &Vec<usize>) -> (p: Option<&'a Pane>)
    ensures
        match p {
            Some(q) => active_pane_of(*node, path@) == Some(*q),
            None => active_pane_of(*node, path@) is None,
        },
{
    assert(path@.skip(0) == path@);
    active_pane_from(node, path, 0)
}

fn active_pane_from<'a>(node: &'a Node, path: &Vec<usize>, i: usize) -> (p: Option<&'a Pane>)
    requires
        i <= path@.len(),
    ensures
        match p {
            Some(q) => active_pane_of(*node, path@.skip(i as int)) == Some(*q),
            None => active_pane_of(*node, path@.skip(i as int)) is None,
        },
    decreases path@.len() - i,
{
    match node {
        Node::Leaf(p) => Some(p),
        Node::Split { children } => {
            if i >= path.len() {
                None
            } else if path[i] < children.len() {
                assert(path@.skip(i as int)[0] == path@[i as int]);
                assert(path@.skip(i as int).drop_first() == path@.skip(i + 1));
                active_pane_from(&children[path[i]], path, i + 1)
            } else {
                assert(path@.skip(i as int)[0] == path@[i as int]);
                None
            }
        },
    }
}

/// Lines joined by newlines.
pub open spec fn joined_lines(lines: Seq<Seq<char>>) -> Seq<char>
    decreases lines.len(),
{
    if lines.len() == 0 {
        seq![]
    } else if lines.len() == 1 {
        lines[0]
    } else {
        joined_lines(lines.drop_last()) + seq!['\n'] + lines.last()
    }
}

/// The flag shown after a window's name: `*` for the active window, `#` for
/// one with activity, `-` otherwise.
pub open spec fn window_flag(app: AppState, i: int) -> char {
    if i == app.active_idx {
        '*'
    } else if app.windows@[i].activity_flag {
        '#'
    } else {
        '-'
    }
}

/// The size shown for a window: that of its active pane, or 120x30 when the
/// active path leads to no pane.
pub open spec fn window_size(w: Window) -> (nat, nat) {
    match active_pane_of(w.root, w.active_path@) {
        Some(p) => (p.last_cols as nat, p.last_rows as nat),
        None => (120, 30),
    }
}

/// The line for window `i`: `<number>: <name><flag> (<panes> panes) [<width>x<height>]`.
pub open spec fn window_line(app: AppState, i: int) -> Seq<char> {
    let w = app.windows@[i];
    let (width, height) = window_size(w);
    decimal((i + app.window_base_index) as nat) + seq![':', ' '] + w.name@ + seq![window_flag(app, i)]
        + seq![' ', '('] + decimal(pane_count(w.root)) + seq![' ', 'p', 'a', 'n', 'e', 's', ')', ' ', '[']
        + decimal(width) + seq!['x'] + decimal(height) + seq![']']
}

/// The window listing: one line per window, in order.
pub open spec fn windows_listing(app: AppState) -> Seq<char> {
    joined_lines(Seq::new(app.windows@.len(), |i: int| window_line(app, i)))
}

/// What a listing needs to fit in `usize`: every window number and every
/// pane count.
pub open spec fn listing_fits(app: AppState) -> bool {
    &&& app.windows@.len() == 0 || app.windows@.len() - 1 + app.window_base_index <= usize::MAX
    &&& forall|i: int| 0 <= i < app.windows@.len() ==> pane_count(#[trigger] app.windows@[i].root) <= usize::MAX
}

fn window_line_of(app: &AppState, i: usize) -> (line: Vec<char>)
    requires
        i < app.windows@.len(),
        listing_fits(*app),
    ensures
        line@ == window_line(*app, i as int),
{
    let w = &app.windows[i];
    assert(pane_count(app.windows@[i as int].root) <= usize::MAX);
    let mut line: Vec<char> = Vec::new();
    push_decimal(&mut line, (i + app.window_base_index) as u64);
    line.push(':');
    line.push(' ');
    push_str(&mut line, w.name.as_str());
    let flag = if i == app.active_idx {
        '*'
    } else if w.activity_flag {
        '#'
    } else {
        '-'
    };
    line.push(flag);
    line.push(' ');
    line.push('(');
    let count = count_panes(&w.root);
    push_decimal(&mut line, count as u64);
    line.push(' ');
    line.push('p');
    line.push('a');
    line.push('n');
    line.push('e');
    line.push('s');
    line.push(')');
    line.push(' ');
    line.push('[');
    let (width, height): (u16, u16) = match active_pane(&w.root, &w.active_path) {
        Some(p) => (p.last_cols, p.last_rows),
        None => (120, 30),
    };
    push_decimal(&mut line, width as u64);
    line.push('x');
    push_decimal(&mut line, height as u64);
    line.push(']');
    assert(line@ =~= window_line(*app, i as int));
    line
}

/// The tmux-style window listing, one line per window:
/// `<index>: <name><flag> (<pane_count> panes) [<width>x<height>]`,
/// where the index counts from the session's base index.
pub fn list_windows_tmux(app: &AppState) -> (out: String)
    requires
        listing_fits(*app),
    ensures
        out@ == windows_listing(*app),
{
    let n = app.windows.len();
    let ghost lines = Seq::new(n as nat, |i: int| window_line(*app, i));
    let mut out: Vec<char> = Vec::new();
    for i in 0..n
        invariant
            n == app.windows@.len(),
            listing_fits(*app),
            lines == Seq::new(n as nat, |i: int| window_line(*app, i)),
            out@ == joined_lines(lines.take(i as int)),
    {
        let line = window_line_of(app, i);
        let ghost before = out@;
        if i > 0 {
            out.push('\n');
        }
        let mut l = line;
        out.append(&mut l);
        assert(lines.take(i + 1).drop_last() == lines.take(i as int));
        assert(lines.take(i + 1).last() == window_line(*app, i as int));
        if i == 0 {
            assert(lines.take(1) == seq![window_line(*app, 0)]);
        }
    }
    assert(lines.take(n as int) == lines);
    string_of(out.as_slice())
}


/// What the JSON window listing says of one window.
pub struct WinInfo {
    pub id: usize,
    pub name: String,
    pub active: bool,
    pub activity: bool,
    pub tab_text: String,
}

/// What the JSON tree listing says of one pane.
pub struct PaneInfo {
    pub id: usize,
    pub title: String,
}

/// What the JSON tree listing says of one window.
pub struct WinTree {
    pub id: usize,
    pub name: String,
    pub active: bool,
    pub panes: Vec<PaneInfo>,
}

/// `info` describes pane `p`.
pub open spec fn describes_pane(info: PaneInfo, p: Pane) -> bool {
    info.id == p.id && info.title@ == p.title@
}

/// `infos` describe the panes `ps`, one for one and in order.
pub open spec fn describes_panes(infos: Seq<PaneInfo>, ps: Seq<Pane>) -> bool {
    infos.len() == ps.len() && forall|j: int| 0 <= j < ps.len() ==> describes_pane(#[trigger] infos[j], ps[j])
}

/// `info` describes window `i` of `app`, with an empty tab text.
pub open spec fn describes_window(info: WinInfo, app: AppState, i: int) -> bool {
    let w = app.windows@[i];
    &&& info.id == w.id
    &&& info.name@ == w.name@
    &&& info.active == (i == app.active_idx)
    &&& info.activity == w.activity_flag
    &&& info.tab_text@ == Seq::<char>::empty()
}

/// `tree` describes window `i` of `app` and all its panes.
pub open spec fn describes_window_tree(tree: WinTree, app: AppState, i: int) -> bool {
    let w = app.windows@[i];
    &&& tree.id == w.id
    &&& tree.name@ == w.name@
    &&& tree.active == (i == app.active_idx)
    &&& describes_panes(tree.panes@, panes_of(w.root))
}

/// One entry per window, in order, as the JSON window listing gives them.
pub fn window_infos(app: &AppState) -> (v: Vec<WinInfo>)
    ensures
        v@.len() == app.windows@.len(),
        forall|i: int| 0 <= i < v@.len() ==> describes_window(#[trigger] v@[i], *app, i),
{
    let mut v: Vec<WinInfo> = Vec::new();
    for i in 0..app.windows.len()
        invariant
            v@.len() == i,
            forall|j: int| 0 <= j < i ==> describes_window(#[trigger] v@[j], *app, j),
    {
        let w = &app.windows[i];
        v.push(WinInfo {
            id: w.id,
            name: w.name.clone(),
            active: i == app.active_idx,
            activity: w.activity_flag,
            tab_text: String::new(),
        });
    }
    v
}

#[verifier::loop_isolation(false)]
fn collect_panes(node: &Node, out: &mut Vec<PaneInfo>)
    ensures
        final(out)@.len() == old(out)@.len() + panes_of(*node).len(),
        forall|j: int| 0 <= j < old(out)@.len() ==> #[trigger] final(out)@[j] == old(out)@[j],
        forall|j: int| 0 <= j < panes_of(*node).len() ==> describes_pane(
            #[trigger] final(out)@[old(out)@.len() + j],
            panes_of(*node)[j],
        ),
    decreases node,
{
    match node {
        Node::Leaf(p) => {
            out.push(PaneInfo { id: p.id, title: p.title.clone() });
        },
        Node::Split { children } => {
            let ghost start = out@;
            for i in 0..children.len()
                invariant
                    out@.len() == start.len() + panes_of_all(children@.take(i as int)).len(),
                    forall|j: int| 0 <= j < start.len() ==> #[trigger] out@[j] == start[j],
                    forall|j: int| 0 <= j < panes_of_all(children@.take(i as int)).len() ==> describes_pane(
                        #[trigger] out@[start.len() + j],
                        panes_of_all(children@.take(i as int))[j],
                    ),
            {
                assert(children@.take(i + 1).drop_last() == children@.take(i as int));
                assert(children@.take(i + 1).last() == children@[i as int]);
                assert(decreases_to!(*node => children@[i as int]));
                let ghost mid = out@;
                collect_panes(&children[i], out);
                let ghost prev = panes_of_all(children@.take(i as int));
                let ghost now = panes_of_all(children@.take(i + 1));
                assert(now == prev + panes_of(children@[i as int]));
                assert forall|j: int| 0 <= j < now.len() implies describes_pane(
                    #[trigger] out@[start.len() + j],
                    now[j],
                ) by {
                    if j < prev.len() {
                        assert(out@[start.len() + j] == mid[start.len() + j]);
                    } else {
                        assert(out@[mid.len() + (j - prev.len())] == out@[start.len() + j]);
                    }
                }
            }
            assert(children@.take(children@.len() as int) == children@);
        },
    }
}

/// One entry per window, in order, with the window's panes left to right,
/// as the JSON tree listing gives them.
pub fn window_trees(app: &AppState) -> (v: Vec<WinTree>)
    ensures
        v@.len() == app.windows@.len(),
        forall|i: int| 0 <= i < v@.len() ==> describes_window_tree(#[trigger] v@[i], *app, i),
{
    let mut v: Vec<WinTree> = Vec::new();
    for i in 0..app.windows.len()
        invariant
            v@.len() == i,
            forall|j: int| 0 <= j < i ==> describes_window_tree(#[trigger] v@[j], *app, j),
    {
        let w = &app.windows[i];
        let mut panes: Vec<PaneInfo> = Vec::new();
        collect_panes(&w.root, &mut panes);
        assert forall|j: int| 0 <= j < panes_of(w.root).len() implies describes_pane(
            #[trigger] panes@[j],
            panes_of(w.root)[j],
        ) by {
            assert(panes@[0 + j] == panes@[j]);
        }
        v.push(WinTree { id: w.id, name: w.name.clone(), active: i == app.active_idx, panes });
    }
    v
}


/// Both listings count the same panes: the tree listing's entry for a
/// window has as many panes as the pane count in that window's line of the
/// text listing (`window_line` shows `pane_count` of its layout).
pub proof fn listings_count_same_panes(app: AppState, tree: WinTree, i: int)
    requires
        0 <= i < app.windows@.len(),
        describes_window_tree(tree, app, i),
    ensures
        tree.panes@.len() == pane_count(app.windows@[i].root),
{
    pane_count_is_number_of_panes(app.windows@[i].root);
}


/// `s` split at each newline, as `str::split('\n')` splits it: a text
/// without newlines is one line, and the empty text is one empty line.
pub open spec fn split_lines(s: Seq<char>) -> Seq<Seq<char>>
    decreases s.len(),
{
    if s.len() == 0 {
        seq![seq![]]
    } else {
        let r = split_lines(s.drop_last());
        if s.last() == '\n' {
            r.push(seq![])
        } else {
            r.update(r.len() - 1, r.last().push(s.last()))
        }
    }
}

proof fn lemma_split_lines_nonempty(s: Seq<char>)
    ensures
        split_lines(s).len() >= 1,
    decreases s.len(),
{
    if s.len() > 0 {
        lemma_split_lines_nonempty(s.drop_last());
    }
}

proof fn lemma_split_lines_single(w: Seq<char>)
    requires
        !w.contains('\n'),
    ensures
        split_lines(w) == seq![w],
    decreases w.len(),
{
    if w.len() > 0 {
        let d = w.drop_last();
        assert(!d.contains('\n')) by {
            if d.contains('\n') {
                let k = choose|k: int| 0 <= k < d.len() && d[k] == '\n';
                assert(w[k] == '\n');
            }
        }
        lemma_split_lines_single(d);
        assert(w.last() != '\n') by {
            assert(w[w.len() - 1] == w.last());
        }
        assert(d.push(w.last()) =~= w);
        assert(seq![d].update(0, d.push(w.last())) =~= seq![w]);
    } else {
        assert(w =~= Seq::<char>::empty());
    }
}

proof fn lemma_split_lines_at_newline(a: Seq<char>, b: Seq<char>)
    ensures
        split_lines(a + seq!['\n'] + b) == split_lines(a) + split_lines(b),
    decreases b.len(),
{
    let an = a + seq!['\n'];
    assert(an.drop_last() =~= a);
    assert(an.last() == '\n');
    if b.len() == 0 {
        assert(an + b =~= an);
        assert(split_lines(a).push(seq![]) =~= split_lines(a) + seq![seq![]]);
    } else {
        let b0 = b.drop_last();
        let c = b.last();
        lemma_split_lines_at_newline(a, b0);
        lemma_split_lines_nonempty(a);
        lemma_split_lines_nonempty(b0);
        assert((an + b).drop_last() =~= an + b0);
        assert((an + b).last() == c);
        let ra = split_lines(a);
        let rb = split_lines(b0);
        if c == '\n' {
            assert((ra + rb).push(seq![]) =~= ra + rb.push(seq![]));
        } else {
            assert((ra + rb).update((ra + rb).len() - 1, (ra + rb).last().push(c)) =~= ra + rb.update(
                rb.len() - 1,
                rb.last().push(c),
            ));
        }
    }
}

proof fn lemma_split_joined_lines(ls: Seq<Seq<char>>)
    requires
        ls.len() >= 1,
        forall|i: int| 0 <= i < ls.len() ==> !(#[trigger] ls[i]).contains('\n'),
    ensures
        split_lines(joined_lines(ls)) == ls,
    decreases ls.len(),
{
    if ls.len() == 1 {
        lemma_split_lines_single(ls[0]);
        assert(seq![ls[0]] =~= ls);
    } else {
        let d = ls.drop_last();
        assert forall|i: int| 0 <= i < d.len() implies !(#[trigger] d[i]).contains('\n') by {
            assert(d[i] == ls[i]);
        }
        lemma_split_joined_lines(d);
        assert(!ls[ls.len() - 1].contains('\n'));
        lemma_split_lines_single(ls.last());
        lemma_split_lines_at_newline(joined_lines(d), ls.last());
        assert(d + seq![ls.last()] =~= ls);
    }
}

proof fn lemma_decimal_no_newline(n: nat)
    ensures
        !decimal(n).contains('\n'),
    decreases n,
{
    let d = (n % 10) as nat;
    assert(((48 + d) as u8) as char != '\n') by {
        assert(48 <= 48 + d <= 57);
        let b = (48 + d) as u8;
        assert(b as char as u32 == b as u32);
    }
    if n < 10 {
        assert(decimal(n) == seq![digit_char(n)]);
        assert(n % 10 == n);
        if decimal(n).contains('\n') {
            assert(decimal(n)[0] == '\n');
        }
    } else {
        lemma_decimal_no_newline(n / 10);
        let r = decimal(n / 10);
        if decimal(n).contains('\n') {
            let k = choose|k: int| 0 <= k < decimal(n).len() && decimal(n)[k] == '\n';
            if k < r.len() {
                assert(r[k] == '\n');
            }
        }
    }
}

proof fn lemma_no_newline_concat(a: Seq<char>, b: Seq<char>)
    requires
        !a.contains('\n'),
        !b.contains('\n'),
    ensures
        !(a + b).contains('\n'),
{
    if (a + b).contains('\n') {
        let k = choose|k: int| 0 <= k < (a + b).len() && (a + b)[k] == '\n';
        if k < a.len() {
            assert(a[k] == '\n');
        } else {
            assert(b[k - a.len()] == '\n');
        }
    }
}

proof fn lemma_window_line_no_newline(app: AppState, i: int)
    requires
        0 <= i < app.windows@.len(),
        !app.windows@[i].name@.contains('\n'),
    ensures
        !window_line(app, i).contains('\n'),
{
    let w = app.windows@[i];
    let (width, height) = window_size(w);
    let parts = seq![
        decimal((i + app.window_base_index) as nat),
        seq![':', ' '],
        w.name@,
        seq![window_flag(app, i)],
        seq![' ', '('],
        decimal(pane_count(w.root)),
        seq![' ', 'p', 'a', 'n', 'e', 's', ')', ' ', '['],
        decimal(width),
        seq!['x'],
        decimal(height),
        seq![']'],
    ];
    lemma_decimal_no_newline((i + app.window_base_index) as nat);
    lemma_decimal_no_newline(pane_count(w.root));
    lemma_decimal_no_newline(width);
    lemma_decimal_no_newline(height);
    let flag = seq![window_flag(app, i)];
    assert(!flag.contains('\n')) by {
        if flag.contains('\n') {
            assert(flag[0] == '\n');
        }
    }
    assert(!seq![':', ' '].contains('\n')) by {
        if seq![':', ' '].contains('\n') {
            let k = choose|k: int| 0 <= k < 2 && seq![':', ' '][k] == '\n';
        }
    }
    assert(!seq![' ', '('].contains('\n')) by {
        if seq![' ', '('].contains('\n') {
            let k = choose|k: int| 0 <= k < 2 && seq![' ', '('][k] == '\n';
        }
    }
    let mid = seq![' ', 'p', 'a', 'n', 'e', 's', ')', ' ', '['];
    assert(!mid.contains('\n')) by {
        if mid.contains('\n') {
            let k = choose|k: int| 0 <= k < 9 && mid[k] == '\n';
        }
    }
    assert(!seq!['x'].contains('\n')) by {
        if seq!['x'].contains('\n') {
            assert(seq!['x'][0] == '\n');
        }
    }
    assert(!seq![']'].contains('\n')) by {
        if seq![']'].contains('\n') {
            assert(seq![']'][0] == '\n');
        }
    }
    let s1 = decimal((i + app.window_base_index) as nat) + seq![':', ' '];
    lemma_no_newline_concat(decimal((i + app.window_base_index) as nat), seq![':', ' ']);
    let s2 = s1 + w.name@;
    lemma_no_newline_concat(s1, w.name@);
    let s3 = s2 + flag;
    lemma_no_newline_concat(s2, flag);
    let s4 = s3 + seq![' ', '('];
    lemma_no_newline_concat(s3, seq![' ', '(']);
    let s5 = s4 + decimal(pane_count(w.root));
    lemma_no_newline_concat(s4, decimal(pane_count(w.root)));
    let s6 = s5 + mid;
    lemma_no_newline_concat(s5, mid);
    let s7 = s6 + decimal(width);
    lemma_no_newline_concat(s6, decimal(width));
    let s8 = s7 + seq!['x'];
    lemma_no_newline_concat(s7, seq!['x']);
    let s9 = s8 + decimal(height);
    lemma_no_newline_concat(s8, decimal(height));
    lemma_no_newline_concat(s9, seq![']']);
    assert(s9 + seq![']'] == window_line(app, i));
}

/// Where no window name holds a newline, the text listing split at its
/// newlines gives each window's line, in order; line `i` shows the pane
/// count of window `i`, the number of panes the tree listing gives it.
pub proof fn listing_lines_are_window_lines(app: AppState, tree: WinTree, i: int)
    requires
        0 <= i < app.windows@.len(),
        forall|j: int| 0 <= j < app.windows@.len() ==> !(#[trigger] app.windows@[j]).name@.contains('\n'),
        describes_window_tree(tree, app, i),
    ensures
        split_lines(windows_listing(app)).len() == app.windows@.len(),
        split_lines(windows_listing(app))[i] == window_line(app, i),
        tree.panes@.len() == pane_count(app.windows@[i].root),
{
    let n = app.windows@.len();
    let ls = Seq::new(n, |j: int| window_line(app, j));
    assert forall|j: int| 0 <= j < ls.len() implies !(#[trigger] ls[j]).contains('\n') by {
        assert(!app.windows@[j].name@.contains('\n'));
        lemma_window_line_no_newline(app, j);
    }
    lemma_split_joined_lines(ls);
    listings_count_same_panes(app, tree, i);
}


/// Both JSON listings carry, for each window in order, that window's own
/// id and name (not its position), and mark exactly the entry at the
/// active index as active; the tree entry lists the window's panes with
/// their ids and titles, left to right.
pub proof fn json_listings_describe_windows(app: AppState, infos: Seq<WinInfo>, trees: Seq<WinTree>)
    requires
        infos.len() == app.windows@.len(),
        trees.len() == app.windows@.len(),
        forall|i: int| 0 <= i < infos.len() ==> describes_window(#[trigger] infos[i], app, i),
        forall|i: int| 0 <= i < trees.len() ==> describes_window_tree(#[trigger] trees[i], app, i),
    ensures
        forall|i: int| 0 <= i < app.windows@.len() ==> {
            &&& (#[trigger] infos[i]).id == app.windows@[i].id
            &&& trees[i].id == app.windows@[i].id
            &&& infos[i].name@ == app.windows@[i].name@
            &&& trees[i].name@ == app.windows@[i].name@
            &&& infos[i].activity == app.windows@[i].activity_flag
            &&& trees[i].panes@.len() == panes_of(app.windows@[i].root).len()
            &&& forall|j: int| 0 <= j < trees[i].panes@.len() ==> (#[trigger] trees[i].panes@[j]).id
                == panes_of(app.windows@[i].root)[j].id && trees[i].panes@[j].title@ == panes_of(
                app.windows@[i].root,
            )[j].title@
        },
        forall|i: int| 0 <= i < app.windows@.len() ==> ((#[trigger] infos[i]).active <==> i
            == app.active_idx) && (trees[i].active <==> i == app.active_idx),
{
    assert forall|i: int| 0 <= i < app.windows@.len() implies {
        &&& (#[trigger] infos[i]).id == app.windows@[i].id
        &&& trees[i].id == app.windows@[i].id
        &&& infos[i].name@ == app.windows@[i].name@
        &&& trees[i].name@ == app.windows@[i].name@
        &&& infos[i].activity == app.windows@[i].activity_flag
        &&& trees[i].panes@.len() == panes_of(app.windows@[i].root).len()
        &&& forall|j: int| 0 <= j < trees[i].panes@.len() ==> (#[trigger] trees[i].panes@[j]).id
            == panes_of(app.windows@[i].root)[j].id && trees[i].panes@[j].title@ == panes_of(
            app.windows@[i].root,
        )[j].title@
    } by {
        assert(describes_window(infos[i], app, i));
        assert(describes_window_tree(trees[i], app, i));
        assert forall|j: int| 0 <= j < trees[i].panes@.len() implies (#[trigger] trees[i].panes@[j]).id
            == panes_of(app.windows@[i].root)[j].id && trees[i].panes@[j].title@ == panes_of(
            app.windows@[i].root,
        )[j].title@ by {
            assert(describes_pane(trees[i].panes@[j], panes_of(app.windows@[i].root)[j]));
        }
    }
    assert forall|i: int| 0 <= i < app.windows@.len() implies ((#[trigger] infos[i]).active <==> i
        == app.active_idx) && (trees[i].active <==> i == app.active_idx) by {
        assert(describes_window(infos[i], app, i));
        assert(describes_window_tree(trees[i], app, i));
    }
}

} // verus!
