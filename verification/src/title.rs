//! Inferring a pane title from the shell prompt shown on its screen.

use vstd::prelude::*;

use crate::text::{
    chars_of, contains_char, last_index_of, lemma_last_index_of, rfind_char, slice_chars,
    string_of, trim, trim_chars, trim_end, trim_of,
};

verus! {

/// The text of a terminal screen, cell by cell: `cells[r][c]` holds the
/// contents of the cell at row `r` and column `c`, or `None` where the
/// screen has no such cell; `cursor_row` is the row of the cursor.
pub struct ScreenText {
    pub cursor_row: u16,
    pub cells: Vec<Vec<Option<String>>>,
}

impl ScreenText {
    /// The text of the cell at (`r`, `c`); a missing cell reads as one space.
    pub open spec fn cell_text(&self, r: int, c: int) -> Seq<char> {
        if 0 <= r < self.cells@.len() && 0 <= c < self.cells@[r]@.len() {
            match self.cells@[r]@[c] {
                Some(t) => t@,
                None => seq![' '],
            }
        } else {
            seq![' ']
        }
    }

    /// The text of the first `n` cells of row `r`, one after another.
    pub open spec fn row_text(&self, r: int, n: int) -> Seq<char>
        decreases n,
    {
        if n <= 0 {
            seq![]
        } else {
            self.row_text(r, n - 1) + self.cell_text(r, n - 1)
        }
    }
}

/// A row that looks like it may hold a prompt: its text is not blank and
/// holds one of `>`, `$`, `#` or `:`.
pub open spec fn prompt_like(row: Seq<char>) -> bool {
    let t = trim_end(row);
    t.len() > 0 && (t.contains('>') || t.contains('$') || t.contains('#') || t.contains(':'))
}

/// The order in which rows are searched for a prompt: the cursor row, the
/// rows below it (up to `rows`), then the rows above it, nearest first.
pub open spec fn search_order(cursor: int, rows: int) -> Seq<int> {
    let below = if cursor + 1 < rows { rows - cursor - 1 } else { 0 };
    seq![cursor] + Seq::new(below as nat, |k: int| cursor + 1 + k) + Seq::new(
        cursor as nat,
        |k: int| cursor - 1 - k,
    )
}

/// The first row of `order` whose first `cols` cells look like a prompt.
pub open spec fn first_prompt_row(screen: ScreenText, cols: int, order: Seq<int>) -> Option<int>
    decreases order.len(),
{
    if order.len() == 0 {
        None
    } else if prompt_like(screen.row_text(order[0], cols)) {
        Some(order[0])
    } else {
        first_prompt_row(screen, cols, order.drop_first())
    }
}

/// The last part of a path: what follows its last `\` or `/`.
pub open spec fn last_path_part(s: Seq<char>) -> Seq<char>
    decreases s.len(),
{
    if s.len() == 0 {
        s
    } else if s.last() == '\\' || s.last() == '/' {
        seq![]
    } else {
        last_path_part(s.drop_last()).push(s.last())
    }
}

/// The title that a trimmed prompt line gives. The line must hold `>` or
/// end in `$` or `#`. Before the last `>` stands a path (whose last part is
/// the title, quotes trimmed) or the title itself; otherwise the title is
/// what stands before the last `$`, or else before the last `#`.
pub open spec fn title_of_line(t: Seq<char>) -> Option<Seq<char>> {
    if t.len() == 0 {
        None
    } else if !(t.contains('>') || t.last() == '$' || t.last() == '#') {
        None
    } else {
        match last_index_of(t, '>') {
            Some(p) => {
                let before = trim(t.take(p));
                if before.contains('\\') || before.contains('/') {
                    Some(last_path_part(trim_of(before, true)))
                } else {
                    Some(before)
                }
            },
            None => match last_index_of(t, '$') {
                Some(p) => Some(trim(t.take(p))),
                None => match last_index_of(t, '#') {
                    Some(p) => Some(trim(t.take(p))),
                    None => Some(t),
                },
            },
        }
    }
}

/// The title inferred from the first `rows` rows and `cols` columns of a
/// screen: from the first prompt-like row in search order, or else from
/// the cursor row.
pub open spec fn inferred_title(screen: ScreenText, rows: int, cols: int) -> Option<Seq<char>> {
    let row = match first_prompt_row(screen, cols, search_order(screen.cursor_row as int, rows)) {
        Some(r) => r,
        None => screen.cursor_row as int,
    };
    title_of_line(trim(screen.row_text(row, cols)))
}

/// A title is inferred only from a line that holds a prompt marker: a `>`,
/// or a final `$` or `#`.
pub proof fn title_needs_prompt_marker(screen: ScreenText, rows: int, cols: int)
    ensures
        inferred_title(screen, rows, cols) is Some ==> {
            let row = match first_prompt_row(screen, cols, search_order(screen.cursor_row as int, rows)) {
                Some(r) => r,
                None => screen.cursor_row as int,
            };
            let t = trim(screen.row_text(row, cols));
            t.len() > 0 && (t.contains('>') || t.last() == '$' || t.last() == '#')
        },
{
}

proof fn lemma_first_prompt_row(screen: ScreenText, cols: int, order: Seq<int>)
    ensures
        first_prompt_row(screen, cols, order) matches Some(r) ==> exists|j: int|
            0 <= j < order.len() && order[j] == r && prompt_like(screen.row_text(r, cols))
                && forall|k: int| 0 <= k < j ==> !prompt_like(#[trigger] screen.row_text(order[k], cols)),
        first_prompt_row(screen, cols, order) is None ==> forall|k: int|
            0 <= k < order.len() ==> !prompt_like(#[trigger] screen.row_text(order[k], cols)),
    decreases order.len(),
{
    if order.len() > 0 {
        let rest = order.drop_first();
        lemma_first_prompt_row(screen, cols, rest);
        if !prompt_like(screen.row_text(order[0], cols)) {
            match first_prompt_row(screen, cols, rest) {
                Some(r) => {
                    let j = choose|j: int|
                        0 <= j < rest.len() && rest[j] == r && prompt_like(screen.row_text(r, cols))
                            && forall|k: int| 0 <= k < j ==> !prompt_like(#[trigger] screen.row_text(rest[k], cols));
                    assert(order[j + 1] == r);
                    assert forall|k: int| 0 <= k < j + 1 implies !prompt_like(#[trigger] screen.row_text(order[k], cols)) by {
                        if k > 0 {
                            assert(order[k] == rest[k - 1]);
                        }
                    }
                },
                None => {
                    assert forall|k: int| 0 <= k < order.len() implies !prompt_like(#[trigger] screen.row_text(order[k], cols)) by {
                        if k > 0 {
                            assert(order[k] == rest[k - 1]);
                        }
                    }
                },
            }
        } else {
            assert(order[0] == order[0]);
        }
    }
}

/// The row a title is taken from is the prompt-like row nearest the cursor
/// in the search: the cursor row itself if it looks like a prompt; else the
/// nearest such row below it; else the nearest such row above it (so the
/// latest prompt above the cursor wins over older ones). Every row searched
/// before the chosen one does not look like a prompt, and where no row is
/// chosen none of the rows searched looks like one.
pub proof fn prompt_row_is_nearest(screen: ScreenText, rows: int, cols: int)
    requires
        0 <= rows,
    ensures
        ({
            let c = screen.cursor_row as int;
            match first_prompt_row(screen, cols, search_order(c, rows)) {
                Some(r) => {
                    &&& prompt_like(screen.row_text(r, cols))
                    &&& (r == c || (c < r < rows && forall|k: int|
                        c <= k < r ==> !prompt_like(#[trigger] screen.row_text(k, cols)))
                        || (0 <= r < c && forall|k: int|
                        (r < k < rows || r < k <= c) ==> !prompt_like(#[trigger] screen.row_text(k, cols))))
                },
                None => forall|k: int|
                    (0 <= k < rows || k == c) ==> !prompt_like(#[trigger] screen.row_text(k, cols)),
            }
        }),
{
    let c = screen.cursor_row as int;
    let order = search_order(c, rows);
    let below = if c + 1 < rows { rows - c - 1 } else { 0 };
    lemma_first_prompt_row(screen, cols, order);
    assert(order.len() == 1 + below + c);
    assert forall|j: int| 0 <= j < order.len() implies #[trigger] order[j] == if j == 0 {
        c
    } else if j <= below {
        c + j
    } else {
        c - 1 - (j - below - 1)
    } by {}
    match first_prompt_row(screen, cols, order) {
        Some(r) => {
            let j = choose|j: int|
                0 <= j < order.len() && order[j] == r && prompt_like(screen.row_text(r, cols))
                    && forall|k: int| 0 <= k < j ==> !prompt_like(#[trigger] screen.row_text(order[k], cols));
            if j == 0 {
            } else if j <= below {
                assert forall|k: int| c <= k < r implies !prompt_like(#[trigger] screen.row_text(k, cols)) by {
                    assert(order[k - c] == k);
                }
            } else {
                assert forall|k: int| (r < k < rows || r < k <= c) implies !prompt_like(#[trigger] screen.row_text(k, cols)) by {
                    if k == c {
                        assert(order[0] == k);
                    } else if k > c {
                        assert(order[k - c] == k);
                    } else {
                        assert(order[below + c - k] == k);
                    }
                }
            }
        },
        None => {
            assert forall|k: int| (0 <= k < rows || k == c) implies !prompt_like(#[trigger] screen.row_text(k, cols)) by {
                if k == c {
                    assert(order[0] == k);
                } else if k > c {
                    assert(order[k - c] == k);
                } else {
                    assert(order[below + c - k] == k);
                }
            }
        },
    }
}

fn row_text(screen: &ScreenText, r: u16, cols: u16) -> (out: Vec<char>)
    ensures
        out@ == screen.row_text(r as int, cols as int),
{
    let mut out: Vec<char> = Vec::new();
    let ri = r as usize;
    for c in 0..cols
        invariant
            ri == r,
            out@ == screen.row_text(r as int, c as int),
    {
        let ci = c as usize;
        if ri < screen.cells.len() && ci < screen.cells[ri].len() {
            match &screen.cells[ri][ci] {
                Some(t) => {
                    let cs = chars_of(t.as_str());
                    out.append(&mut cs.clone());
                },
                None => {
                    out.push(' ');
                },
            }
        } else {
            out.push(' ');
        }
    }
    out
}

fn is_prompt_like(row: &Vec<char>) -> (r: bool)
    ensures
        r == prompt_like(row@),
{
    let t = trim_end_chars(row);
    t.len() > 0 && (contains_char(&t, '>') || contains_char(&t, '$') || contains_char(&t, '#')
        || contains_char(&t, ':'))
}

fn trim_end_chars(v: &Vec<char>) -> (out: Vec<char>)
    ensures
        out@ == trim_end(v@),
{
    let mut hi = v.len();
    assert(v@.take(hi as int) == v@);
    while hi > 0 && crate::text::is_whitespace_char(v[hi - 1])
        invariant
            hi <= v@.len(),
            trim_end(v@) == trim_end(v@.take(hi as int)),
        decreases hi,
    {
        assert(v@.take(hi as int).drop_last() == v@.take(hi - 1));
        hi = hi - 1;
    }
    assert(v@.subrange(0, hi as int) == v@.take(hi as int));
    slice_chars(v.as_slice(), 0, hi)
}

fn last_path_part_of(v: &Vec<char>) -> (out: Vec<char>)
    ensures
        out@ == last_path_part(v@),
{
    let n = v.len();
    let mut j = n;
    assert(v@.take(n as int) == v@);
    assert(v@ + v@.subrange(n as int, n as int) == v@);
    while j > 0 && v[j - 1] != '\\' && v[j - 1] != '/'
        invariant
            j <= n == v@.len(),
            last_path_part(v@) == last_path_part(v@.take(j as int)) + v@.subrange(j as int, n as int),
        decreases j,
    {
        let ghost t = v@.take(j as int);
        assert(t.drop_last() == v@.take(j - 1));
        assert(t.last() == v@[j - 1]);
        assert(v@.subrange(j - 1, n as int) == seq![v@[j - 1]] + v@.subrange(j as int, n as int));
        assert(last_path_part(t) == last_path_part(v@.take(j - 1)).push(v@[j - 1]));
        j = j - 1;
    }
    if j > 0 {
        assert(v@.take(j as int).last() == v@[j - 1]);
    }
    assert(last_path_part(v@.take(j as int)) == Seq::<char>::empty());
    assert(Seq::<char>::empty() + v@.subrange(j as int, n as int) == v@.subrange(j as int, n as int));
    slice_chars(v.as_slice(), j, n)
}

/// The title for a trimmed prompt line (see `title_of_line`).
fn title_from_line(t: &Vec<char>) -> (out: Option<Vec<char>>)
    ensures
        match out {
            Some(v) => title_of_line(t@) == Some(v@),
            None => title_of_line(t@) is None,
        },
{
    let n = t.len();
    if n == 0 {
        return None;
    }
    if !(contains_char(t, '>') || t[n - 1] == '$' || t[n - 1] == '#') {
        return None;
    }
    proof {
        lemma_last_index_of(t@, '>');
        lemma_last_index_of(t@, '$');
        lemma_last_index_of(t@, '#');
    }
    if let Some(p) = rfind_char(t, '>') {
        let head = slice_chars(t.as_slice(), 0, p);
        assert(head@ == t@.take(p as int));
        let before = trim_chars(head.as_slice(), false);
        if contains_char(&before, '\\') || contains_char(&before, '/') {
            let unquoted = trim_chars(before.as_slice(), true);
            return Some(last_path_part_of(&unquoted));
        }
        return Some(before);
    }
    if let Some(p) = rfind_char(t, '$') {
        let head = slice_chars(t.as_slice(), 0, p);
        assert(head@ == t@.take(p as int));
        return Some(trim_chars(head.as_slice(), false));
    }
    if let Some(p) = rfind_char(t, '#') {
        let head = slice_chars(t.as_slice(), 0, p);
        assert(head@ == t@.take(p as int));
        return Some(trim_chars(head.as_slice(), false));
    }
    Some(slice_chars(t.as_slice(), 0, n))
}

/// The first row, in search order, that looks like a prompt.
fn find_prompt_row(screen: &ScreenText, rows: u16, cols: u16) -> (found: Option<u16>)
    requires
        screen.cursor_row < u16::MAX,
    ensures
        match found {
            Some(r) => first_prompt_row(*screen, cols as int, search_order(screen.cursor_row as int, rows as int)) == Some(r as int),
            None => first_prompt_row(*screen, cols as int, search_order(screen.cursor_row as int, rows as int)) is None,
        },
{
    let cursor = screen.cursor_row;
    let ghost order = search_order(cursor as int, rows as int);
    let below: u16 = if cursor + 1 < rows { rows - cursor - 1 } else { 0 };
    let total: u32 = 1 + below as u32 + cursor as u32;
    assert(order.len() == total);
    let mut k: u32 = 0;
    assert(order.skip(0) == order);
    while k < total
        invariant
            cursor == screen.cursor_row,
            cursor < u16::MAX,
            order == search_order(cursor as int, rows as int),
            below == (if cursor + 1 < rows { rows - cursor - 1 } else { 0 }),
            total == order.len(),
            k <= total,
            first_prompt_row(*screen, cols as int, order) == first_prompt_row(*screen, cols as int, order.skip(k as int)),
        decreases total - k,
    {
        let r: u16 = if k == 0 {
            cursor
        } else if k <= below as u32 {
            cursor + k as u16
        } else {
            cursor - (k - below as u32) as u16
        };
        let ghost rest = order.skip(k as int);
        assert(rest[0] == order[k as int]);
        assert(order[k as int] == r as int);
        assert(rest.drop_first() == order.skip(k + 1));
        let line = row_text(screen, r, cols);
        if is_prompt_like(&line) {
            return Some(r);
        }
        k = k + 1;
    }
    assert(order.skip(total as int).len() == 0);
    None
}

/// Infers a pane title from the prompt on its screen. The rows are searched,
/// cursor row first, then the rows below it, then those above it, for one
/// that looks like a prompt; failing that the cursor row is used. A title is
/// given only when that row holds a prompt marker (`>`, or a final `$` or
/// `#`): for `PS C:\Users\me>` it is `me`, for `user@host:~$` it is
/// `user@host:~`.
pub fn infer_title_from_prompt(screen: &ScreenText, rows: u16, cols: u16) -> (title: Option<String>)
    requires
        screen.cursor_row < u16::MAX,
    ensures
        match title {
            Some(t) => inferred_title(*screen, rows as int, cols as int) == Some(t@),
            None => inferred_title(*screen, rows as int, cols as int) is None,
        },
{
    let found = find_prompt_row(screen, rows, cols);
    let row = match found {
        Some(r) => r,
        None => screen.cursor_row,
    };
    let line = row_text(screen, row, cols);
    let t = trim_chars(line.as_slice(), false);
    match title_from_line(&t) {
        Some(v) => Some(string_of(v.as_slice())),
        None => None,
    }
}

} // verus!
