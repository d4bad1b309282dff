//! Quoting of arguments for the control protocol, and the splitting of a
//! command line into its arguments.

use vstd::prelude::*;

use crate::text::{chars_of, is_whitespace, is_whitespace_char, string_of};

verus! {

/// One character of a quoted argument: `\` and `"` get a backslash before them.
pub open spec fn escape_char(c: char) -> Seq<char> {
    if c == '\\' || c == '"' {
        seq!['\\', c]
    } else {
        seq![c]
    }
}

/// `s` with every backslash and double quote escaped by a backslash.
pub open spec fn escaped(s: Seq<char>) -> Seq<char>
    decreases s.len(),
{
    if s.len() == 0 {
        seq![]
    } else {
        escape_char(s[0]) + escaped(s.drop_first())
    }
}

/// `s` in double quotes, with its backslashes and double quotes escaped.
pub open spec fn quoted(s: Seq<char>) -> Seq<char> {
    seq!['"'] + escaped(s) + seq!['"']
}

proof fn lemma_escaped_push(s: Seq<char>, c: char)
    ensures
        escaped(s.push(c)) == escaped(s) + escape_char(c),
    decreases s.len(),
{
    if s.len() == 0 {
        assert(s.push(c).drop_first() =~= Seq::<char>::empty());
        assert(s.push(c)[0] == c);
        assert(escaped(Seq::<char>::empty()) == Seq::<char>::empty());
        assert(escape_char(c) + Seq::<char>::empty() =~= escape_char(c));
        assert(escaped(s.push(c)) =~= escaped(s) + escape_char(c));
    } else {
        assert(s.push(c).drop_first() =~= s.drop_first().push(c));
        lemma_escaped_push(s.drop_first(), c);
        assert(escaped(s.push(c)) =~= escaped(s) + escape_char(c));
    }
}

/// Quotes an argument for transmission over the control protocol: the value
/// is wrapped in double quotes and its backslashes and double quotes are
/// escaped with a backslash.
pub fn quote_arg(s: &str) -> (out: String)
    ensures
        out@ == quoted(s@),
{
    let cs = chars_of(s);
    let mut out: Vec<char> = Vec::new();
    out.push('"');
    for i in 0..cs.len()
        invariant
            cs@ == s@,
            out@ == seq!['"'] + escaped(cs@.take(i as int)),
    {
        let c = cs[i];
        if c == '\\' || c == '"' {
            out.push('\\');
        }
        out.push(c);
        proof {
            assert(cs@.take(i + 1) == cs@.take(i as int).push(c));
            lemma_escaped_push(cs@.take(i as int), c);
        }
    }
    out.push('"');
    assert(cs@.take(cs@.len() as int) == cs@);
    string_of(out.as_slice())
}

/// Where the splitter of a command line stands: between arguments, inside
/// an unquoted stretch of an argument, inside double quotes, or inside
/// single quotes; the last three hold the argument read so far.
pub enum Split {
    Between,
    Bare(Seq<char>),
    Double(Seq<char>),
    Single(Seq<char>),
}

/// The arguments of the command line `s`, read from the state `st`.
///
/// White space separates arguments outside quotes. A double or single quote
/// opens a quoted stretch, which the same quote closes; quoted stretches and
/// unquoted text next to each other form one argument, and `""` alone is an
/// empty argument. Inside double quotes a backslash before `"` or `\` stands
/// for that character, and any other backslash is kept; elsewhere a
/// backslash is an ordinary character. An unclosed quote runs to the end.
pub open spec fn split_from(s: Seq<char>, st: Split) -> Seq<Seq<char>>
    decreases s.len(),
{
    if s.len() == 0 {
        match st {
            Split::Between => seq![],
            Split::Bare(w) => seq![w],
            Split::Double(w) => seq![w],
            Split::Single(w) => seq![w],
        }
    } else {
        let c = s[0];
        let rest = s.drop_first();
        match st {
            Split::Between => if is_whitespace(c) {
                split_from(rest, Split::Between)
            } else if c == '"' {
                split_from(rest, Split::Double(seq![]))
            } else if c == '\'' {
                split_from(rest, Split::Single(seq![]))
            } else {
                split_from(rest, Split::Bare(seq![c]))
            },
            Split::Bare(w) => if is_whitespace(c) {
                seq![w] + split_from(rest, Split::Between)
            } else if c == '"' {
                split_from(rest, Split::Double(w))
            } else if c == '\'' {
                split_from(rest, Split::Single(w))
            } else {
                split_from(rest, Split::Bare(w.push(c)))
            },
            Split::Double(w) => if c == '"' {
                split_from(rest, Split::Bare(w))
            } else if c == '\\' && rest.len() > 0 && (rest[0] == '"' || rest[0] == '\\') {
                split_from(rest.drop_first(), Split::Double(w.push(rest[0])))
            } else {
                split_from(rest, Split::Double(w.push(c)))
            },
            Split::Single(w) => if c == '\'' {
                split_from(rest, Split::Bare(w))
            } else {
                split_from(rest, Split::Single(w.push(c)))
            },
        }
    }
}

/// The arguments of a command line.
pub open spec fn command_words(s: Seq<char>) -> Seq<Seq<char>> {
    split_from(s, Split::Between)
}

/// The views of a list of strings.
pub open spec fn views(v: Seq<String>) -> Seq<Seq<char>> {
    v.map_values(|t: String| t@)
}

#[derive(PartialEq, Eq, Structural)]
enum Mode {
    Between,
    Bare,
    Double,
    Single,
}

spec fn state_of(mode: Mode, cur: Seq<char>) -> Split {
    match mode {
        Mode::Between => Split::Between,
        Mode::Bare => Split::Bare(cur),
        Mode::Double => Split::Double(cur),
        Mode::Single => Split::Single(cur),
    }
}

/// Splits a command line into its arguments (see `split_from`).
pub fn parse_command_line(line: &str) -> (args: Vec<String>)
    ensures
        views(args@) == command_words(line@),
{
    let cs = chars_of(line);
    let n = cs.len();
    let ghost s = cs@;
    let mut args: Vec<String> = Vec::new();
    let mut cur: Vec<char> = Vec::new();
    let mut mode = Mode::Between;
    let mut i: usize = 0;
    assert(s.skip(0) == s);
    while i < n
        invariant
            s == cs@,
            s == line@,
            n == s.len(),
            i <= n,
            mode == Mode::Between ==> cur@ == Seq::<char>::empty(),
            command_words(s) == views(args@) + split_from(s.skip(i as int), state_of(mode, cur@)),
        decreases n - i,
    {
        let c = cs[i];
        let ghost rest = s.skip(i as int);
        let ghost st = state_of(mode, cur@);
        assert(rest[0] == c);
        assert(rest.drop_first() == s.skip(i + 1));
        match mode {
            Mode::Between => {
                if is_whitespace_char(c) {
                } else if c == '"' {
                    mode = Mode::Double;
                } else if c == '\'' {
                    mode = Mode::Single;
                } else {
                    cur.push(c);
                    mode = Mode::Bare;
                }
                i = i + 1;
            },
            Mode::Bare => {
                if is_whitespace_char(c) {
                    let word = string_of(cur.as_slice());
                    let ghost before = args@;
                    args.push(word);
                    assert(views(args@) == views(before) + seq![cur@]);
                    cur = Vec::new();
                    mode = Mode::Between;
                } else if c == '"' {
                    mode = Mode::Double;
                } else if c == '\'' {
                    mode = Mode::Single;
                } else {
                    cur.push(c);
                }
                i = i + 1;
            },
            Mode::Double => {
                if c == '"' {
                    mode = Mode::Bare;
                    i = i + 1;
                } else if c == '\\' && i + 1 < n && (cs[i + 1] == '"' || cs[i + 1] == '\\') {
                    assert(rest.drop_first()[0] == cs@[i + 1]);
                    assert(rest.drop_first().drop_first() == s.skip(i + 2));
                    cur.push(cs[i + 1]);
                    i = i + 2;
                } else {
                    cur.push(c);
                    i = i + 1;
                }
            },
            Mode::Single => {
                if c == '\'' {
                    mode = Mode::Bare;
                } else {
                    cur.push(c);
                }
                i = i + 1;
            },
        }
    }
    assert(s.skip(n as int) == Seq::<char>::empty());
    if mode != Mode::Between {
        let word = string_of(cur.as_slice());
        let ghost before = args@;
        args.push(word);
        assert(views(args@) == views(before) + seq![cur@]);
    } else {
        assert(views(args@) + Seq::<Seq<char>>::empty() == views(args@));
    }
    args
}


/// A word that the splitter reads as it stands: not empty, and without
/// white space or quote characters.
pub open spec fn is_bare_word(w: Seq<char>) -> bool {
    &&& w.len() > 0
    &&& forall|i: int|
        0 <= i < w.len() ==> !is_whitespace(#[trigger] w[i]) && w[i] != '"' && w[i] != '\''
}

/// Words joined by single spaces.
pub open spec fn joined_words(ws: Seq<Seq<char>>) -> Seq<char>
    decreases ws.len(),
{
    if ws.len() == 0 {
        seq![]
    } else if ws.len() == 1 {
        ws[0]
    } else {
        ws[0] + seq![' '] + joined_words(ws.drop_first())
    }
}

/// Each argument quoted and preceded by a space.
pub open spec fn quoted_args(args: Seq<Seq<char>>) -> Seq<char>
    decreases args.len(),
{
    if args.len() == 0 {
        seq![]
    } else {
        seq![' '] + quoted(args[0]) + quoted_args(args.drop_first())
    }
}

proof fn lemma_split_bare_text(p: Seq<char>, t: Seq<char>, w: Seq<char>)
    requires
        forall|i: int|
            0 <= i < p.len() ==> !is_whitespace(#[trigger] p[i]) && p[i] != '"' && p[i] != '\'',
    ensures
        split_from(p + t, Split::Bare(w)) == split_from(t, Split::Bare(w + p)),
    decreases p.len(),
{
    if p.len() == 0 {
        assert(p + t =~= t);
        assert(w + p =~= w);
    } else {
        let q = p.drop_first();
        assert((p + t)[0] == p[0]);
        assert((p + t).drop_first() =~= q + t);
        assert forall|i: int| 0 <= i < q.len() implies !is_whitespace(#[trigger] q[i]) && q[i] != '"'
            && q[i] != '\'' by {
            assert(q[i] == p[i + 1]);
        }
        lemma_split_bare_text(q, t, w.push(p[0]));
        assert(w.push(p[0]) + q =~= w + p);
    }
}

proof fn lemma_split_quoted_body(a: Seq<char>, t: Seq<char>, w: Seq<char>)
    ensures
        split_from(escaped(a) + seq!['"'] + t, Split::Double(w)) == split_from(t, Split::Bare(w + a)),
    decreases a.len(),
{
    if a.len() == 0 {
        assert(escaped(a) + seq!['"'] + t =~= seq!['"'] + t);
        assert((seq!['"'] + t).drop_first() =~= t);
        assert(w + a =~= w);
    } else {
        let c = a[0];
        let b = a.drop_first();
        let u = escaped(b) + seq!['"'] + t;
        lemma_split_quoted_body(b, t, w.push(c));
        assert(w.push(c) + b =~= w + a);
        assert(escaped(a) == escape_char(c) + escaped(b));
        if c == '\\' || c == '"' {
            let s = seq!['\\', c] + u;
            assert(escaped(a) + seq!['"'] + t =~= s);
            assert(s[0] == '\\');
            assert(s.drop_first()[0] == c);
            assert(s.drop_first().drop_first() =~= u);
        } else {
            let s = seq![c] + u;
            assert(escaped(a) + seq!['"'] + t =~= s);
            assert(s[0] == c);
            assert(s.drop_first() =~= u);
        }
    }
}

proof fn lemma_split_quoted_args(args: Seq<Seq<char>>, w: Seq<char>)
    ensures
        split_from(quoted_args(args), Split::Bare(w)) == seq![w] + args,
    decreases args.len(),
{
    if args.len() == 0 {
        assert(seq![w] + args =~= seq![w]);
    } else {
        let a = args[0];
        let rest = quoted_args(args.drop_first());
        let s = quoted_args(args);
        assert(s =~= seq![' '] + (seq!['"'] + (escaped(a) + seq!['"'] + rest)));
        assert(s[0] == ' ');
        assert(s.drop_first() =~= seq!['"'] + (escaped(a) + seq!['"'] + rest));
        assert(s.drop_first()[0] == '"');
        assert(s.drop_first().drop_first() =~= escaped(a) + seq!['"'] + rest);
        lemma_split_quoted_body(a, rest, seq![]);
        assert(Seq::<char>::empty() + a =~= a);
        lemma_split_quoted_args(args.drop_first(), a);
        assert(is_whitespace(' '));
        assert(split_from(s, Split::Bare(w)) == seq![w] + split_from(s.drop_first(), Split::Between));
        assert(split_from(s.drop_first(), Split::Between) == split_from(
            s.drop_first().drop_first(),
            Split::Double(seq![]),
        ));
        assert(seq![w] + (seq![a] + args.drop_first()) =~= seq![w] + args);
    }
}

proof fn lemma_split_joined_words(ws: Seq<Seq<char>>, t: Seq<char>)
    requires
        ws.len() >= 1,
        forall|i: int| 0 <= i < ws.len() ==> is_bare_word(#[trigger] ws[i]),
    ensures
        split_from(joined_words(ws) + t, Split::Between) == ws.drop_last() + split_from(
            t,
            Split::Bare(ws.last()),
        ),
    decreases ws.len(),
{
    let w0 = ws[0];
    assert(is_bare_word(w0));
    let u = if ws.len() == 1 { t } else { seq![' '] + joined_words(ws.drop_first()) + t };
    assert(joined_words(ws) + t =~= w0 + u);
    let s = w0 + u;
    assert(s[0] == w0[0]);
    assert(s.drop_first() =~= w0.drop_first() + u);
    assert(!is_whitespace(w0[0]) && w0[0] != '"' && w0[0] != '\'');
    let q = w0.drop_first();
    assert forall|i: int| 0 <= i < q.len() implies !is_whitespace(#[trigger] q[i]) && q[i] != '"'
        && q[i] != '\'' by {
        assert(q[i] == w0[i + 1]);
    }
    lemma_split_bare_text(q, u, seq![w0[0]]);
    assert(seq![w0[0]] + q =~= w0);
    if ws.len() == 1 {
        assert(ws.drop_last() + split_from(t, Split::Bare(ws.last())) =~= split_from(
            t,
            Split::Bare(w0),
        ));
    } else {
        let rest = ws.drop_first();
        assert forall|i: int| 0 <= i < rest.len() implies is_bare_word(#[trigger] rest[i]) by {
            assert(rest[i] == ws[i + 1]);
        }
        assert(u[0] == ' ');
        assert(u.drop_first() =~= joined_words(rest) + t);
        lemma_split_joined_words(rest, t);
        assert(rest.last() == ws.last());
        assert(seq![w0] + (rest.drop_last() + split_from(t, Split::Bare(rest.last())))
            =~= ws.drop_last() + split_from(t, Split::Bare(ws.last())));
    }
}

/// A quoted argument reads back as exactly that argument.
pub proof fn quoted_arg_roundtrip(a: Seq<char>)
    ensures
        command_words(quoted(a)) == seq![a],
{
    let s = quoted(a);
    assert(s[0] == '"');
    assert(s.drop_first() =~= escaped(a) + seq!['"'] + Seq::<char>::empty());
    lemma_split_quoted_body(a, Seq::<char>::empty(), seq![]);
    assert(Seq::<char>::empty() + a =~= a);
}

/// A command line made of bare words followed by quoted arguments, each
/// after one space, splits into those words and then those arguments,
/// whatever the arguments hold.
pub proof fn quoted_command_roundtrip(words: Seq<Seq<char>>, args: Seq<Seq<char>>)
    requires
        words.len() >= 1,
        forall|i: int| 0 <= i < words.len() ==> is_bare_word(#[trigger] words[i]),
    ensures
        command_words(joined_words(words) + quoted_args(args)) == words + args,
{
    lemma_split_joined_words(words, quoted_args(args));
    lemma_split_quoted_args(args, words.last());
    assert(words.drop_last() + (seq![words.last()] + args) =~= words + args);
}

} // verus!
